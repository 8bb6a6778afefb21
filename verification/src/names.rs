//! A map keyed by names, listed in the order of the names.
use crate::table::{distinct_keys, has_key, lemma_table_dom, lemma_table_len, lemma_table_row,
    lemma_table_unique, table_map};
use crate::text::{copy_text, is_before, lemma_text_asymmetric, lemma_text_irreflexive,
    lemma_text_total, lemma_text_transitive, same_text, text_before};
use vstd::prelude::*;

verus! {

/// The names of the rows are in strictly ascending order.
pub open spec fn ascending<V>(rows: Seq<(Seq<char>, V)>) -> bool {
    forall|i: int, j: int|
        0 <= i < j < rows.len() ==> text_before((#[trigger] rows[i]).0, (#[trigger] rows[j]).0)
}

/// The rows are the listing of the map: all its names in ascending order, each
/// with its value.
pub open spec fn lists<V>(rows: Seq<(Seq<char>, V)>, m: Map<Seq<char>, V>) -> bool {
    ascending(rows) && table_map(rows) == m
}

/// Ascending names are distinct.
pub proof fn lemma_ascending_distinct<V>(rows: Seq<(Seq<char>, V)>)
    requires
        ascending(rows),
    ensures
        distinct_keys(rows),
{
    assert forall|i: int, j: int| 0 <= i < j < rows.len() implies (#[trigger] rows[i]).0 != (
    #[trigger] rows[j]).0 by {
        lemma_text_irreflexive(rows[i].0);
    }
}

/// A map has one listing only.
pub proof fn lemma_listing_unique<V>(
    a: Seq<(Seq<char>, V)>,
    b: Seq<(Seq<char>, V)>,
    m: Map<Seq<char>, V>,
)
    requires
        lists(a, m),
        lists(b, m),
    ensures
        a == b,
    decreases a.len(),
{
    lemma_ascending_distinct(a);
    lemma_ascending_distinct(b);
    lemma_table_len(a);
    lemma_table_len(b);
    lemma_table_dom(a);
    lemma_table_dom(b);
    if a.len() > 0 {
        let x = a.last();
        let y = b.last();
        let n = a.len() - 1;
        assert(a[n] == x && b[n] == y);
        // The last names agree: each is the greatest of the same set.
        assert(x.0 == y.0) by {
            assert(m.contains_key(x.0)) by {
                assert(has_key(a, x.0));
            }
            assert(m.contains_key(y.0)) by {
                assert(has_key(b, y.0));
            }
            let i = choose|i: int| 0 <= i < b.len() && (#[trigger] b[i]).0 == x.0;
            let j = choose|j: int| 0 <= j < a.len() && (#[trigger] a[j]).0 == y.0;
            if i < n && j < n {
                assert(text_before(b[i].0, b[n].0));
                assert(text_before(a[j].0, a[n].0));
                lemma_text_asymmetric(x.0, y.0);
            }
        }
        lemma_table_row(a, n);
        lemma_table_row(b, n);
        assert(x == y);
        let a1 = a.drop_last();
        let b1 = b.drop_last();
        assert(ascending(a1)) by {
            assert forall|i: int, j: int| 0 <= i < j < a1.len() implies text_before(
                (#[trigger] a1[i]).0,
                (#[trigger] a1[j]).0,
            ) by {
                assert(text_before(a[i].0, a[j].0));
            }
        }
        assert(ascending(b1)) by {
            assert forall|i: int, j: int| 0 <= i < j < b1.len() implies text_before(
                (#[trigger] b1[i]).0,
                (#[trigger] b1[j]).0,
            ) by {
                assert(text_before(b[i].0, b[j].0));
            }
        }
        lemma_table_dom(a1);
        lemma_table_dom(b1);
        assert(!has_key(a1, x.0)) by {
            if has_key(a1, x.0) {
                let i = choose|i: int| 0 <= i < a1.len() && (#[trigger] a1[i]).0 == x.0;
                assert(a[i].0 != a[n].0);
            }
        }
        assert(!has_key(b1, x.0)) by {
            if has_key(b1, x.0) {
                let i = choose|i: int| 0 <= i < b1.len() && (#[trigger] b1[i]).0 == x.0;
                assert(b[i].0 != b[n].0);
            }
        }
        assert(table_map(a1) =~= m.remove(x.0));
        assert(table_map(b1) =~= m.remove(x.0));
        lemma_listing_unique(a1, b1, m.remove(x.0));
        assert(a =~= a1.push(x));
        assert(b =~= b1.push(y));
    } else {
        assert(a =~= b);
    }
}

/// The rows with the views of their names.
pub open spec fn row_views<V>(rows: Seq<(String, V)>) -> Seq<(Seq<char>, V)> {
    rows.map_values(|r: (String, V)| (r.0@, r.1))
}

/// The borrowed rows with the views of their names.
pub open spec fn ref_views<V>(rows: Seq<(&str, &V)>) -> Seq<(Seq<char>, V)> {
    rows.map_values(|r: (&str, &V)| (r.0@, *r.1))
}

/// A map from names to values of type `V`, listed in ascending order of names.
///
/// Its model is the map from the characters of a name to the value.
#[derive(Debug)]
pub struct NameMap<V> {
    rows: Vec<(String, V)>,
}

impl<V> View for NameMap<V> {
    type V = Map<Seq<char>, V>;

    closed spec fn view(&self) -> Map<Seq<char>, V> {
        table_map(row_views(self.rows@))
    }
}

/// The position of the first row whose name is not before `name`.
fn lower_bound<V>(rows: &Vec<(String, V)>, name: &str) -> (i: usize)
    requires
        ascending(row_views(rows@)),
    ensures
        i <= rows.len(),
        forall|j: int| 0 <= j < i ==> text_before((#[trigger] rows@[j]).0@, name@),
        forall|j: int| i <= j < rows.len() ==> !text_before((#[trigger] rows@[j]).0@, name@),
{
    let ghost v = row_views(rows@);
    let mut i: usize = 0;
    while i < rows.len()
        invariant
            i <= rows.len(),
            v == row_views(rows@),
            ascending(v),
            forall|j: int| 0 <= j < i ==> text_before((#[trigger] rows@[j]).0@, name@),
        decreases rows.len() - i,
    {
        if !is_before(rows[i].0.as_str(), name) {
            proof {
                assert forall|j: int| i <= j < rows.len() implies !text_before(
                    (#[trigger] rows@[j]).0@,
                    name@,
                ) by {
                    if i < j && text_before(rows@[j].0@, name@) {
                        assert(text_before(v[i as int].0, v[j].0));
                        lemma_text_transitive(rows@[i as int].0@, rows@[j].0@, name@);
                    }
                }
            }
            return i;
        }
        i = i + 1;
    }
    i
}

impl<V> NameMap<V> {
    #[verifier::type_invariant]
    spec fn inv(self) -> bool {
        ascending(row_views(self.rows@))
    }

    /// Creates an empty map.
    #[must_use]
    pub fn new() -> (m: Self)
        ensures
            m@ == Map::<Seq<char>, V>::empty(),
    {
        NameMap { rows: Vec::new() }
    }

    /// Maps `name` to `value`, returning the value that it had, if any.
    pub fn insert(&mut self, name: String, value: V) -> (old_value: Option<V>)
        ensures
            final(self)@ == old(self)@.insert(name@, value),
            match old_value {
                Some(v) => old(self)@.contains_key(name@) && v == old(self)@[name@],
                None => !old(self)@.contains_key(name@),
            },
    {
        proof {
            use_type_invariant(&*self);
        }
        let ghost before = row_views(self.rows@);
        let ghost key = name@;
        let mut rows: Vec<(String, V)> = Vec::new();
        core::mem::swap(&mut rows, &mut self.rows);
        let i = lower_bound(&rows, name.as_str());
        let mut old_value: Option<V> = None;
        proof {
            lemma_ascending_distinct(before);
            lemma_table_dom(before);
        }
        if i < rows.len() && same_text(rows[i].0.as_str(), name.as_str()) {
            proof {
                lemma_table_row(before, i as int);
            }
            let (_, v) = rows.remove(i);
            old_value = Some(v);
        } else {
            proof {
                if has_key(before, key) {
                    let j = choose|j: int| 0 <= j < before.len() && (#[trigger] before[j]).0 == key;
                    lemma_text_irreflexive(key);
                    assert(i <= j);
                    if i < j {
                        assert(text_before(before[i as int].0, before[j].0));
                        assert(!text_before(rows@[i as int].0@, name@));
                    }
                }
            }
        }
        let ghost removed = old_value is Some;
        let ghost middle = row_views(rows@);
        assert(middle == (if removed {
            before.remove(i as int)
        } else {
            before
        }));
        rows.insert(i, (name, value));
        proof {
            let after = row_views(rows@);
            assert(after =~= middle.insert(i as int, (key, value)));
            // Where each row of `after` but the new one stood.
            assert forall|j: int| 0 <= j < i implies after[j] == before[j] && text_before(
                (#[trigger] after[j]).0,
                key,
            ) by {}
            assert forall|j: int| i < j < after.len() implies text_before(
                key,
                (#[trigger] after[j]).0,
            ) && after[j] == before[if removed {
                j
            } else {
                j - 1
            }] by {
                let o = if removed {
                    j
                } else {
                    j - 1
                };
                assert(after[j] == before[o]);
                if removed {
                    assert(text_before(before[i as int].0, before[o].0));
                } else {
                    lemma_text_total(before[o].0, key);
                    assert(before[o].0 != key) by {
                        assert(!has_key(before, key));
                    }
                }
            }
            assert(ascending(after)) by {
                assert forall|a: int, b: int| 0 <= a < b < after.len() implies text_before(
                    (#[trigger] after[a]).0,
                    (#[trigger] after[b]).0,
                ) by {
                    if b < i {
                        assert(text_before(before[a].0, before[b].0));
                    } else if a > i {
                        let oa = if removed {
                            a
                        } else {
                            a - 1
                        };
                        let ob = if removed {
                            b
                        } else {
                            b - 1
                        };
                        assert(text_before(before[oa].0, before[ob].0));
                    } else if a < i && b > i {
                        lemma_text_transitive(after[a].0, key, after[b].0);
                    }
                }
            }
            lemma_ascending_distinct(after);
            let m = table_map(before).insert(key, value);
            assert forall|j: int| 0 <= j < after.len() implies m.contains_key(
                (#[trigger] after[j]).0,
            ) && m[after[j].0] == after[j].1 by {
                if j < i {
                    lemma_table_row(before, j);
                    lemma_text_irreflexive(key);
                } else if j > i {
                    let o = if removed {
                        j
                    } else {
                        j - 1
                    };
                    lemma_table_row(before, o);
                    lemma_text_irreflexive(key);
                }
            }
            assert forall|k: Seq<char>| #[trigger] m.contains_key(k) implies has_key(after, k) by {
                if k == key {
                    assert(after[i as int].0 == key);
                } else {
                    let j = choose|j: int| 0 <= j < before.len() && (#[trigger] before[j]).0 == k;
                    if j < i {
                        assert(after[j].0 == k);
                    } else if removed {
                        assert(after[j].0 == k);
                    } else {
                        assert(after[j + 1].0 == k);
                    }
                }
            }
            lemma_table_unique(after, m);
        }
        self.rows = rows;
        old_value
    }

    /// Removes `name`, returning the value that it had, if any.
    pub fn remove(&mut self, name: &str) -> (old_value: Option<V>)
        ensures
            final(self)@ == old(self)@.remove(name@),
            match old_value {
                Some(v) => old(self)@.contains_key(name@) && v == old(self)@[name@],
                None => !old(self)@.contains_key(name@),
            },
    {
        proof {
            use_type_invariant(&*self);
        }
        let ghost before = row_views(self.rows@);
        let ghost key = name@;
        let mut rows: Vec<(String, V)> = Vec::new();
        core::mem::swap(&mut rows, &mut self.rows);
        let i = lower_bound(&rows, name);
        let mut old_value: Option<V> = None;
        proof {
            lemma_ascending_distinct(before);
            lemma_table_dom(before);
        }
        if i < rows.len() && same_text(rows[i].0.as_str(), name) {
            proof {
                lemma_table_row(before, i as int);
            }
            let (_, v) = rows.remove(i);
            old_value = Some(v);
            proof {
                let after = row_views(rows@);
                assert(after =~= before.remove(i as int));
                assert(ascending(after)) by {
                    assert forall|a: int, b: int| 0 <= a < b < after.len() implies text_before(
                        (#[trigger] after[a]).0,
                        (#[trigger] after[b]).0,
                    ) by {
                        let oa = if a < i {
                            a
                        } else {
                            a + 1
                        };
                        let ob = if b < i {
                            b
                        } else {
                            b + 1
                        };
                        assert(text_before(before[oa].0, before[ob].0));
                    }
                }
                lemma_ascending_distinct(after);
                let m = table_map(before).remove(key);
                assert forall|j: int| 0 <= j < after.len() implies m.contains_key(
                    (#[trigger] after[j]).0,
                ) && m[after[j].0] == after[j].1 by {
                    let o = if j < i {
                        j
                    } else {
                        j + 1
                    };
                    lemma_table_row(before, o);
                    assert(before[o].0 != before[i as int].0);
                }
                assert forall|k: Seq<char>| #[trigger] m.contains_key(k) implies has_key(after, k) by {
                    let j = choose|j: int| 0 <= j < before.len() && (#[trigger] before[j]).0 == k;
                    if j < i {
                        assert(after[j].0 == k);
                    } else {
                        assert(after[j - 1].0 == k);
                    }
                }
                lemma_table_unique(after, m);
            }
        } else {
            proof {
                if has_key(before, key) {
                    let j = choose|j: int| 0 <= j < before.len() && (#[trigger] before[j]).0 == key;
                    lemma_text_irreflexive(key);
                    assert(i <= j);
                    if i < j {
                        assert(text_before(before[i as int].0, before[j].0));
                        assert(!text_before(rows@[i as int].0@, name@));
                    }
                }
                assert(table_map(before).remove(key) =~= table_map(before));
            }
        }
        self.rows = rows;
        old_value
    }

    /// The value of `name`, if it has one.
    #[must_use]
    pub fn get(&self, name: &str) -> (value: Option<&V>)
        ensures
            match value {
                Some(v) => self@.contains_key(name@) && *v == self@[name@],
                None => !self@.contains_key(name@),
            },
    {
        let ghost v = row_views(self.rows@);
        proof {
            use_type_invariant(self);
            lemma_ascending_distinct(v);
            lemma_table_dom(v);
        }
        let i = lower_bound(&self.rows, name);
        if i < self.rows.len() && same_text(self.rows[i].0.as_str(), name) {
            proof {
                lemma_table_row(v, i as int);
            }
            Some(&self.rows[i].1)
        } else {
            proof {
                if has_key(v, name@) {
                    let j = choose|j: int| 0 <= j < v.len() && (#[trigger] v[j]).0 == name@;
                    lemma_text_irreflexive(name@);
                    assert(i <= j) by {
                        if j < i {
                            assert(text_before(self.rows@[j].0@, name@));
                        }
                    }
                    if i < j {
                        assert(text_before(v[i as int].0, v[j].0));
                        assert(!text_before(self.rows@[i as int].0@, name@));
                    }
                }
            }
            None
        }
    }

    /// Whether `name` has a value.
    #[must_use]
    pub fn contains_key(&self, name: &str) -> (r: bool)
        ensures
            r == self@.contains_key(name@),
    {
        self.get(name).is_some()
    }

    /// The number of names.
    #[must_use]
    pub fn len(&self) -> (n: usize)
        ensures
            n == self@.len(),
            self@.dom().finite(),
    {
        proof {
            use_type_invariant(self);
            lemma_ascending_distinct(row_views(self.rows@));
            lemma_table_len(row_views(self.rows@));
            lemma_table_dom(row_views(self.rows@));
        }
        self.rows.len()
    }

    /// Whether there is no name.
    #[must_use]
    pub fn is_empty(&self) -> (r: bool)
        ensures
            r == (self@ == Map::<Seq<char>, V>::empty()),
    {
        proof {
            let v = row_views(self.rows@);
            lemma_table_dom(v);
            if v.len() > 0 {
                assert(has_key(v, v[0].0));
                assert(self@.contains_key(v[0].0));
            }
        }
        self.rows.len() == 0
    }

    /// The rows in ascending order of names.
    pub fn iter(&self) -> (rows: Vec<(&str, &V)>)
        ensures
            lists(ref_views(rows@), self@),
            rows.len() == self@.len(),
    {
        let ghost v = row_views(self.rows@);
        proof {
            use_type_invariant(self);
            lemma_ascending_distinct(v);
            lemma_table_len(v);
        }
        let mut rows: Vec<(&str, &V)> = Vec::new();
        let mut i: usize = 0;
        while i < self.rows.len()
            invariant
                i <= self.rows.len(),
                rows.len() == i,
                forall|j: int|
                    0 <= j < i ==> (#[trigger] rows@[j]).0@ == self.rows@[j].0@ && *rows@[j].1
                        == self.rows@[j].1,
            decreases self.rows.len() - i,
        {
            let row = &self.rows[i];
            rows.push((row.0.as_str(), &row.1));
            i = i + 1;
        }
        assert(ref_views(rows@) =~= v);
        rows
    }

    /// The rows in ascending order of names.
    pub fn into_rows(self) -> (rows: Vec<(String, V)>)
        ensures
            lists(row_views(rows@), self@),
            rows.len() == self@.len(),
    {
        proof {
            use_type_invariant(&self);
            lemma_ascending_distinct(row_views(self.rows@));
            lemma_table_len(row_views(self.rows@));
        }
        self.rows
    }
}

impl<V: Clone> Clone for NameMap<V> {
    fn clone(&self) -> (m: Self)
        ensures
            m@.dom() == self@.dom(),
            forall|n: Seq<char>| #[trigger] m@.contains_key(n) ==> cloned::<V>(self@[n], m@[n]),
    {
        let ghost v = row_views(self.rows@);
        proof {
            use_type_invariant(self);
            lemma_ascending_distinct(v);
            lemma_table_dom(v);
        }
        let mut rows: Vec<(String, V)> = Vec::new();
        let mut i: usize = 0;
        while i < self.rows.len()
            invariant
                i <= self.rows.len(),
                rows.len() == i,
                forall|j: int|
                    0 <= j < i ==> (#[trigger] rows@[j]).0@ == self.rows@[j].0@ && cloned::<V>(
                        self.rows@[j].1,
                        rows@[j].1,
                    ),
            decreases self.rows.len() - i,
        {
            let row = &self.rows[i];
            rows.push((copy_text(row.0.as_str()), row.1.clone()));
            i = i + 1;
        }
        proof {
            let w = row_views(rows@);
            assert forall|a: int, b: int| 0 <= a < b < w.len() implies text_before(
                (#[trigger] w[a]).0,
                (#[trigger] w[b]).0,
            ) by {
                assert(text_before(v[a].0, v[b].0));
            }
            lemma_ascending_distinct(w);
            lemma_table_dom(w);
            assert forall|n: Seq<char>| #[trigger] table_map(w).contains_key(n) implies self@.contains_key(
                n,
            ) && cloned::<V>(self@[n], table_map(w)[n]) by {
                let j = choose|j: int| 0 <= j < w.len() && (#[trigger] w[j]).0 == n;
                lemma_table_row(w, j);
                lemma_table_row(v, j);
                assert(cloned::<V>(self.rows@[j].1, rows@[j].1));
            }
            assert forall|n: Seq<char>| #[trigger] self@.contains_key(n) implies table_map(
                w,
            ).contains_key(n) by {
                let j = choose|j: int| 0 <= j < v.len() && (#[trigger] v[j]).0 == n;
                assert(w[j].0 == n);
            }
            assert(table_map(w).dom() =~= self@.dom());
        }
        NameMap { rows }
    }
}

impl<V> Default for NameMap<V> {
    fn default() -> (m: Self)
        ensures
            m@ == Map::<Seq<char>, V>::empty(),
    {
        NameMap::new()
    }
}

/// The rows of a listing are the map's: every name once, with its value, in ascending order.
pub proof fn law_listing_is_the_map<V>(rows: Seq<(Seq<char>, V)>, m: Map<Seq<char>, V>, name: Seq<char>)
    requires
        lists(rows, m),
    ensures
        m.contains_key(name) ==> rows.contains((name, m[name])),
        forall|i: int|
            0 <= i < rows.len() ==> m.contains_key((#[trigger] rows[i]).0) && rows[i].1
                == m[rows[i].0],
        forall|i: int, j: int|
            0 <= i < j < rows.len() ==> text_before(
                (#[trigger] rows[i]).0,
                (#[trigger] rows[j]).0,
            ),
{
    lemma_ascending_distinct(rows);
    lemma_table_dom(rows);
    if m.contains_key(name) {
        let i = choose|i: int| 0 <= i < rows.len() && (#[trigger] rows[i]).0 == name;
        lemma_table_row(rows, i);
        assert(rows[i] == (name, m[name]));
    }
    assert forall|i: int| 0 <= i < rows.len() implies m.contains_key((#[trigger] rows[i]).0)
        && rows[i].1 == m[rows[i].0] by {
        lemma_table_row(rows, i);
    }
}

/// The views of rows are theirs, one by one.
pub proof fn law_row_views_are_those_of_the_rows<V>(owned: Seq<(String, V)>, lent: Seq<(&str, &V)>)
    ensures
        row_views(owned).len() == owned.len(),
        forall|i: int|
            0 <= i < owned.len() ==> #[trigger] row_views(owned)[i] == (owned[i].0@, owned[i].1),
        ref_views(lent).len() == lent.len(),
        forall|i: int|
            0 <= i < lent.len() ==> #[trigger] ref_views(lent)[i] == (lent[i].0@, *lent[i].1),
{
}

} // verus!
