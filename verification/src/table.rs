//! Association lists: sequences of key-value pairs with distinct keys, read as
//! maps.
use vstd::prelude::*;

verus! {

/// No key stands in two rows.
pub open spec fn distinct_keys<K, V>(rows: Seq<(K, V)>) -> bool {
    forall|i: int, j: int|
        0 <= i < j < rows.len() ==> (#[trigger] rows[i]).0 != (#[trigger] rows[j]).0
}

/// Some row has the key.
pub open spec fn has_key<K, V>(rows: Seq<(K, V)>, k: K) -> bool {
    exists|i: int| 0 <= i < rows.len() && (#[trigger] rows[i]).0 == k
}

/// The map that the rows are: each key to the value in its last row.
pub open spec fn table_map<K, V>(rows: Seq<(K, V)>) -> Map<K, V>
    decreases rows.len(),
{
    if rows.len() == 0 {
        Map::empty()
    } else {
        table_map(rows.drop_last()).insert(rows.last().0, rows.last().1)
    }
}

/// The map has exactly the keys of the rows, and is finite.
pub proof fn lemma_table_dom<K, V>(rows: Seq<(K, V)>)
    ensures
        forall|k: K| #[trigger] table_map(rows).contains_key(k) <==> has_key(rows, k),
        table_map(rows).dom().finite(),
    decreases rows.len(),
{
    if rows.len() > 0 {
        let init = rows.drop_last();
        lemma_table_dom(init);
        assert forall|k: K| #[trigger] table_map(rows).contains_key(k) <==> has_key(rows, k) by {
            if has_key(rows, k) && k != rows.last().0 {
                let i = choose|i: int| 0 <= i < rows.len() && (#[trigger] rows[i]).0 == k;
                assert(init[i].0 == k);
            }
            if has_key(init, k) {
                let i = choose|i: int| 0 <= i < init.len() && (#[trigger] init[i]).0 == k;
                assert(rows[i].0 == k);
            }
            assert(rows[rows.len() - 1].0 == rows.last().0);
        }
    }
}

/// With distinct keys, a row's key maps to that row's value.
pub proof fn lemma_table_row<K, V>(rows: Seq<(K, V)>, i: int)
    requires
        distinct_keys(rows),
        0 <= i < rows.len(),
    ensures
        table_map(rows).contains_key(rows[i].0),
        table_map(rows)[rows[i].0] == rows[i].1,
    decreases rows.len(),
{
    let init = rows.drop_last();
    if i < rows.len() - 1 {
        assert(init[i] == rows[i]);
        assert(distinct_keys(init)) by {
            assert forall|a: int, b: int| 0 <= a < b < init.len() implies (#[trigger] init[a]).0 != (
            #[trigger] init[b]).0 by {
                assert(rows[a].0 != rows[b].0);
            }
        }
        lemma_table_row(init, i);
        assert(rows[i].0 != rows[rows.len() - 1].0);
    }
}

/// With distinct keys, the map has as many keys as there are rows.
pub proof fn lemma_table_len<K, V>(rows: Seq<(K, V)>)
    requires
        distinct_keys(rows),
    ensures
        table_map(rows).dom().len() == rows.len(),
    decreases rows.len(),
{
    if rows.len() > 0 {
        let init = rows.drop_last();
        assert(distinct_keys(init)) by {
            assert forall|a: int, b: int| 0 <= a < b < init.len() implies (#[trigger] init[a]).0 != (
            #[trigger] init[b]).0 by {
                assert(rows[a].0 != rows[b].0);
            }
        }
        lemma_table_len(init);
        lemma_table_dom(init);
        if has_key(init, rows.last().0) {
            let i = choose|i: int| 0 <= i < init.len() && (#[trigger] init[i]).0 == rows.last().0;
            assert(rows[i].0 != rows[rows.len() - 1].0);
        }
        assert(table_map(rows).dom() =~= table_map(init).dom().insert(rows.last().0));
    }
}

/// A map that agrees with distinct rows, and has no other key, is their map.
pub proof fn lemma_table_unique<K, V>(rows: Seq<(K, V)>, m: Map<K, V>)
    requires
        distinct_keys(rows),
        forall|i: int|
            0 <= i < rows.len() ==> m.contains_key((#[trigger] rows[i]).0) && m[rows[i].0]
                == rows[i].1,
        forall|k: K| #[trigger] m.contains_key(k) ==> has_key(rows, k),
    ensures
        table_map(rows) == m,
{
    lemma_table_dom(rows);
    assert forall|k: K| #[trigger] m.contains_key(k) implies table_map(rows).contains_key(k)
        && table_map(rows)[k] == m[k] by {
        let i = choose|i: int| 0 <= i < rows.len() && (#[trigger] rows[i]).0 == k;
        lemma_table_row(rows, i);
    }
    assert forall|k: K| #[trigger] table_map(rows).contains_key(k) implies m.contains_key(k) by {
        let i = choose|i: int| 0 <= i < rows.len() && (#[trigger] rows[i]).0 == k;
    }
    assert(table_map(rows) =~= m);
}

} // verus!
