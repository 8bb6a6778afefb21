//! Command name → action index with front-prefix completion.
//!
//! [`CommandIndex`] is the discovery layer of a command palette: an exact lookup
//! and the enumeration of names that begin with what was typed. A name can be
//! both an exact command *and* the prefix of others, so [`CommandIndex::get`] and
//! [`CommandIndex::complete`] are two orthogonal functions. Normalisation and
//! dispatch are the caller's responsibility.
use crate::names::{ascending, lemma_ascending_distinct, lists, ref_views, NameMap};
use crate::table::{has_key, lemma_table_dom, lemma_table_row};
use crate::text::{chars_of, copy_text, is_before, is_scalar_value, string_of, text_before};
use vstd::prelude::*;

verus! {

/// A name-to-action index with front-prefix completion.
///
/// Names are stored as given; trim and case-fold before calling if uniformity is
/// desired. **Lexicographic order is a specification**: `complete` and `iter`
/// both return results in ascending order.
///
/// Its model is the map from names to actions.
#[derive(Debug)]
pub struct CommandIndex<A> {
    map: NameMap<A>,
}

impl<A> View for CommandIndex<A> {
    type V = Map<Seq<char>, A>;

    closed spec fn view(&self) -> Map<Seq<char>, A> {
        self.map@
    }
}

/// The text that is the upper bound of a completion: the prefix with its last
/// character replaced by the next one. There is none for the empty prefix, nor
/// where the last byte of the prefix in UTF-8 cannot be incremented in place.
pub open spec fn prefix_end(p: Seq<char>) -> Option<Seq<char>> {
    if p.len() == 0 {
        None
    } else {
        let c = p.last() as u32;
        if c == 0x7f || (c >= 0x80 && c % 64 == 63) {
            None
        } else {
            Some(p.drop_last().push((c + 1) as char))
        }
    }
}

/// The name is in the range of a completion: not before the prefix, and before
/// the upper bound where there is one.
pub open spec fn in_range(name: Seq<char>, prefix: Seq<char>) -> bool {
    &&& !text_before(name, prefix)
    &&& prefix_end(prefix) matches Some(end) ==> text_before(name, end)
}

/// The rows are the listing of those names of the map that are in the range of
/// the completion.
pub open spec fn completes<A>(
    rows: Seq<(Seq<char>, A)>,
    m: Map<Seq<char>, A>,
    prefix: Seq<char>,
) -> bool {
    lists(rows, m.restrict(Set::new(|n: Seq<char>| m.contains_key(n) && in_range(n, prefix))))
}

/// The row is one of the first `n`, and its name is in the range of the prefix.
spec fn comes_from<A>(
    rows: Seq<(Seq<char>, A)>,
    n: int,
    prefix: Seq<char>,
    row: (Seq<char>, A),
) -> bool {
    in_range(row.0, prefix) && exists|j: int| 0 <= j < n && #[trigger] rows[j] == row
}

/// A row among the first `n` is among one more.
proof fn lemma_comes_from_more<A>(
    rows: Seq<(Seq<char>, A)>,
    n: int,
    prefix: Seq<char>,
    row: (Seq<char>, A),
)
    requires
        comes_from(rows, n, prefix, row),
    ensures
        comes_from(rows, n + 1, prefix, row),
{
    let j = choose|j: int| 0 <= j < n && #[trigger] rows[j] == row;
    assert(rows[j] == row);
}

impl<A> CommandIndex<A> {
    /// Creates an empty index.
    #[must_use]
    pub fn new() -> (index: Self)
        ensures
            index@ == Map::<Seq<char>, A>::empty(),
    {
        CommandIndex { map: NameMap::new() }
    }

    /// Binds `name` to `action`, returning the action previously bound to that
    /// name, if any (last wins).
    pub fn bind(&mut self, name: &str, action: A) -> (old_action: Option<A>)
        ensures
            final(self)@ == old(self)@.insert(name@, action),
            match old_action {
                Some(a) => old(self)@.contains_key(name@) && a == old(self)@[name@],
                None => !old(self)@.contains_key(name@),
            },
    {
        self.map.insert(copy_text(name), action)
    }

    /// Returns the action bound to `name`, or [`None`] if no exact match exists.
    #[must_use]
    pub fn get(&self, name: &str) -> (action: Option<&A>)
        ensures
            match action {
                Some(a) => self@.contains_key(name@) && *a == self@[name@],
                None => !self@.contains_key(name@),
            },
    {
        self.map.get(name)
    }

    /// Enumerates every command whose name starts with `prefix`, in lexicographic
    /// order.
    ///
    /// An empty `prefix` yields every bound command. Where the prefix has no
    /// upper bound (see [`prefix_end`]) the names after it are all listed: a
    /// superset, from which none that starts with the prefix is missing.
    pub fn complete<'a>(&'a self, prefix: &str) -> (rows: Vec<(&'a str, &'a A)>)
        ensures
            completes(ref_views(rows@), self@, prefix@),
    {
        let all = self.map.iter();
        let ghost v = ref_views(all@);
        let end = next_prefix(prefix);
        let mut rows: Vec<(&'a str, &'a A)> = Vec::new();
        let mut i: usize = 0;
        let ghost want = self@.restrict(
            Set::new(|n: Seq<char>| self@.contains_key(n) && in_range(n, prefix@)),
        );
        proof {
            lemma_ascending_distinct(v);
            lemma_table_dom(v);
        }
        while i < all.len()
            invariant
                i <= all.len(),
                v == ref_views(all@),
                ascending(v),
                match end {
                    Some(e) => prefix_end(prefix@) == Some(e@),
                    None => prefix_end(prefix@) is None,
                },
                ascending(ref_views(rows@)),
                forall|n: int|
                    0 <= n < rows.len() ==> comes_from(
                        v,
                        i as int,
                        prefix@,
                        #[trigger] ref_views(rows@)[n],
                    ),
                forall|j: int|
                    0 <= j < i && in_range((#[trigger] v[j]).0, prefix@) ==> ref_views(
                        rows@,
                    ).contains(v[j]),
            decreases all.len() - i,
        {
            let ghost before = ref_views(rows@);
            let row = all[i];
            let keep = !is_before(row.0, prefix) && match &end {
                Some(e) => is_before(row.0, e.as_str()),
                None => true,
            };
            if keep {
                rows.push(row);
                proof {
                    let after = ref_views(rows@);
                    assert(after =~= before.push(v[i as int]));
                    assert(ascending(after)) by {
                        assert forall|a: int, b: int| 0 <= a < b < after.len() implies text_before(
                            (#[trigger] after[a]).0,
                            (#[trigger] after[b]).0,
                        ) by {
                            if b < before.len() {
                                assert(text_before(before[a].0, before[b].0));
                            } else {
                                assert(after[a] == before[a]);
                                assert(comes_from(v, i as int, prefix@, before[a]));
                                let j = choose|j: int| 0 <= j < i && #[trigger] v[j] == before[a];
                                assert(text_before(v[j].0, v[i as int].0));
                            }
                        }
                    }
                    assert forall|n: int| 0 <= n < rows.len() implies comes_from(
                        v,
                        i + 1,
                        prefix@,
                        #[trigger] after[n],
                    ) by {
                        if n < before.len() {
                            assert(after[n] == before[n]);
                            lemma_comes_from_more(v, i as int, prefix@, before[n]);
                        } else {
                            assert(v[i as int] == after[n]);
                        }
                    }
                    assert forall|j: int|
                        0 <= j < i + 1 && in_range((#[trigger] v[j]).0, prefix@) implies after.contains(
                        v[j],
                    ) by {
                        if j < i {
                            let n = choose|n: int| 0 <= n < before.len() && before[n] == v[j];
                            assert(after[n] == v[j]);
                        } else {
                            assert(after[before.len() as int] == v[j]);
                        }
                    }
                }
            } else {
                proof {
                    assert forall|n: int| 0 <= n < rows.len() implies comes_from(
                        v,
                        i + 1,
                        prefix@,
                        #[trigger] before[n],
                    ) by {
                        lemma_comes_from_more(v, i as int, prefix@, before[n]);
                    }
                }
            }
            i = i + 1;
        }
        proof {
            let out = ref_views(rows@);
            lemma_ascending_distinct(out);
            assert forall|n: int| 0 <= n < out.len() implies want.contains_key(
                (#[trigger] out[n]).0,
            ) && want[out[n].0] == out[n].1 by {
                let j = choose|j: int|
                    0 <= j < v.len() && #[trigger] v[j] == out[n] && in_range(v[j].0, prefix@);
                lemma_table_row(v, j);
            }
            assert forall|k: Seq<char>| #[trigger] want.contains_key(k) implies has_key(out, k) by {
                let j = choose|j: int| 0 <= j < v.len() && (#[trigger] v[j]).0 == k;
                let n = choose|n: int| 0 <= n < out.len() && out[n] == v[j];
                assert(out[n].0 == k);
            }
            crate::table::lemma_table_unique(out, want);
        }
        rows
    }

    /// Every `(name, action)` pair in lexicographic order.
    pub fn iter(&self) -> (rows: Vec<(&str, &A)>)
        ensures
            lists(ref_views(rows@), self@),
    {
        self.map.iter()
    }

    /// Returns the number of commands in the index.
    #[must_use]
    pub fn len(&self) -> (n: usize)
        ensures
            n == self@.len(),
            self@.dom().finite(),
    {
        self.map.len()
    }

    /// Returns `true` if the index contains no commands.
    #[must_use]
    pub fn is_empty(&self) -> (r: bool)
        ensures
            r == (self@ == Map::<Seq<char>, A>::empty()),
    {
        self.map.is_empty()
    }
}

impl<A: Clone> Clone for CommandIndex<A> {
    fn clone(&self) -> (index: Self)
        ensures
            index@.dom() == self@.dom(),
            forall|n: Seq<char>| #[trigger]
                index@.contains_key(n) ==> cloned::<A>(self@[n], index@[n]),
    {
        CommandIndex { map: self.map.clone() }
    }
}

impl<A> Default for CommandIndex<A> {
    fn default() -> (index: Self)
        ensures
            index@ == Map::<Seq<char>, A>::empty(),
    {
        CommandIndex::new()
    }
}

/// The upper bound of the completion of a prefix, if it has one.
pub fn next_prefix(prefix: &str) -> (end: Option<String>)
    ensures
        match end {
            Some(e) => prefix_end(prefix@) == Some(e@),
            None => prefix_end(prefix@) is None,
        },
{
    let mut chars = chars_of(prefix);
    if chars.len() == 0 {
        return None;
    }
    let last = chars[chars.len() - 1];
    let c = last as u32;
    proof {
        vstd::utf8::char_is_scalar(last);
    }
    if c == 0x7f || (c >= 0x80 && c % 64 == 63) {
        return None;
    }
    match char::from_u32(c + 1) {
        Some(next) => {
            proof {
                vstd::utf8::char_u32_cast(next, (c + 1) as u32);
            }
            chars.pop();
            chars.push(next);
            let end = string_of(&chars);
            assert(end@ =~= prefix@.drop_last().push(next));
            Some(end)
        },
        None => {
            assert(false);
            None
        },
    }
}

/// `name` begins with `prefix`.
pub open spec fn begins_with(name: Seq<char>, prefix: Seq<char>) -> bool {
    prefix.len() <= name.len() && name.take(prefix.len() as int) == prefix
}

/// A text is not before its own prefix.
proof fn lemma_not_before_prefix(name: Seq<char>, prefix: Seq<char>)
    requires
        begins_with(name, prefix),
    ensures
        !text_before(name, prefix),
    decreases prefix.len(),
{
    if prefix.len() > 0 {
        assert(name[0] == name.take(prefix.len() as int)[0]);
        assert(name.drop_first().take(prefix.len() - 1) =~= prefix.drop_first());
        lemma_not_before_prefix(name.drop_first(), prefix.drop_first());
    }
}

/// Nothing stands between a character and the next one.
proof fn lemma_next_char(a: char, c: char, next: char)
    requires
        next as u32 == c as u32 + 1,
    ensures
        a == c <==> !(a < c) && a < next,
{
}

/// Between a prefix and its upper bound stand exactly the texts that begin with
/// the prefix.
proof fn lemma_range_is_prefix(name: Seq<char>, prefix: Seq<char>, next: char)
    requires
        prefix.len() > 0,
        next as u32 == prefix.last() as u32 + 1,
    ensures
        begins_with(name, prefix) <==> !text_before(name, prefix) && text_before(
            name,
            prefix.drop_last().push(next),
        ),
    decreases prefix.len(),
{
    let end = prefix.drop_last().push(next);
    if name.len() == 0 {
    } else if prefix.len() == 1 {
        assert(end.drop_first() =~= Seq::<char>::empty());
        assert(prefix.drop_first() =~= Seq::<char>::empty());
        assert(end[0] == next);
        lemma_next_char(name[0], prefix[0], next);
        reveal_with_fuel(text_before, 2);
        assert(name.take(1) =~= seq![name[0]]);
        assert(prefix =~= seq![prefix[0]]);
        if begins_with(name, prefix) {
            assert(name.take(1)[0] == prefix[0]);
        }
    } else {
        assert(end.drop_first() =~= prefix.drop_first().drop_last().push(next));
        assert(end[0] == prefix[0]);
        lemma_range_is_prefix(name.drop_first(), prefix.drop_first(), next);
        if begins_with(name, prefix) {
            assert(name.take(prefix.len() as int)[0] == prefix[0]);
            assert(name.drop_first().take(prefix.len() - 1) =~= prefix.drop_first());
        }
        if name[0] == prefix[0] && begins_with(name.drop_first(), prefix.drop_first()) {
            assert(name.take(prefix.len() as int) =~= seq![name[0]] + name.drop_first().take(
                prefix.len() - 1,
            ));
            assert(prefix =~= seq![prefix[0]] + prefix.drop_first());
        }
    }
}

/// A completion misses no name that begins with the prefix, and lists no other
/// where the prefix has an upper bound.
pub proof fn law_completion_covers_prefix(name: Seq<char>, prefix: Seq<char>)
    ensures
        begins_with(name, prefix) ==> in_range(name, prefix),
        prefix_end(prefix) is Some ==> (in_range(name, prefix) <==> begins_with(name, prefix)),
{
    if begins_with(name, prefix) {
        lemma_not_before_prefix(name, prefix);
    }
    if prefix_end(prefix) is Some {
        vstd::utf8::char_is_scalar(prefix.last());
        let c = prefix.last() as u32;
        let next = (c + 1) as char;
        assert(is_scalar_value((c + 1) as u32));
        lemma_range_is_prefix(name, prefix, next);
    }
}

/// The empty prefix completes to every command.
pub proof fn law_empty_prefix_lists_all<A>(rows: Seq<(Seq<char>, A)>, m: Map<Seq<char>, A>)
    requires
        completes(rows, m, Seq::empty()),
    ensures
        lists(rows, m),
{
    assert(m.restrict(
        Set::new(|n: Seq<char>| m.contains_key(n) && in_range(n, Seq::empty())),
    ) =~= m);
}

/// Completion lists every command that begins with what was typed, each with its action and
/// in ascending order, and makes none up. Where the text typed ends in an ASCII character but
/// the last one, it lists no other command.
pub proof fn law_completion_lists_what_begins_so<A>(
    rows: Seq<(Seq<char>, A)>,
    m: Map<Seq<char>, A>,
    prefix: Seq<char>,
)
    requires
        completes(rows, m, prefix),
    ensures
        forall|name: Seq<char>| #[trigger]
            m.contains_key(name) && prefix.is_prefix_of(name) ==> rows.contains((name, m[name])),
        forall|i: int|
            0 <= i < rows.len() ==> m.contains_key((#[trigger] rows[i]).0) && rows[i].1
                == m[rows[i].0],
        prefix.len() > 0 && (prefix.last() as u32) < 0x7f ==> forall|i: int|
            0 <= i < rows.len() ==> prefix.is_prefix_of((#[trigger] rows[i]).0),
        forall|i: int, j: int|
            0 <= i < j < rows.len() ==> text_before(
                (#[trigger] rows[i]).0,
                (#[trigger] rows[j]).0,
            ),
{
    let want = m.restrict(Set::new(|n: Seq<char>| m.contains_key(n) && in_range(n, prefix)));
    lemma_ascending_distinct(rows);
    lemma_table_dom(rows);
    assert forall|name: Seq<char>| #[trigger]
        m.contains_key(name) && prefix.is_prefix_of(name) implies rows.contains((name, m[name])) by {
        assert(name.take(prefix.len() as int) =~= prefix);
        law_completion_covers_prefix(name, prefix);
        assert(want.contains_key(name));
        let i = choose|i: int| 0 <= i < rows.len() && (#[trigger] rows[i]).0 == name;
        lemma_table_row(rows, i);
        assert(rows[i] == (name, m[name]));
    }
    assert forall|i: int| 0 <= i < rows.len() implies m.contains_key((#[trigger] rows[i]).0)
        && rows[i].1 == m[rows[i].0] && in_range(rows[i].0, prefix) by {
        lemma_table_row(rows, i);
        assert(want.contains_key(rows[i].0));
    }
    if prefix.len() > 0 && (prefix.last() as u32) < 0x7f {
        assert forall|i: int| 0 <= i < rows.len() implies prefix.is_prefix_of((#[trigger] rows[i]).0) by {
            law_completion_covers_prefix(rows[i].0, prefix);
            assert(rows[i].0.take(prefix.len() as int) =~= rows[i].0.subrange(
                0,
                prefix.len() as int,
            ));
        }
    }
}

/// Completion lists nothing but commands that begin with what was typed, unless nothing was
/// typed, or the last byte of it in UTF-8 is one that cannot be counted up in its place: the
/// last of ASCII, or the last that continues a character.
pub proof fn law_completion_is_exact_but_for_last_bytes<A>(
    rows: Seq<(Seq<char>, A)>,
    m: Map<Seq<char>, A>,
    prefix: Seq<char>,
)
    requires
        completes(rows, m, prefix),
        prefix.len() > 0,
        ({
            let last = vstd::utf8::encode_scalar(prefix.last() as u32).last();
            last != 0x7f && last != 0xbf
        }),
    ensures
        forall|i: int| 0 <= i < rows.len() ==> prefix.is_prefix_of((#[trigger] rows[i]).0),
{
    let c = prefix.last() as u32;
    let want = m.restrict(Set::new(|n: Seq<char>| m.contains_key(n) && in_range(n, prefix)));
    vstd::utf8::char_is_scalar(prefix.last());
    crate::decode::lemma_utf8_bits(c);
    assert(prefix_end(prefix) is Some);
    lemma_ascending_distinct(rows);
    lemma_table_dom(rows);
    assert forall|i: int| 0 <= i < rows.len() implies prefix.is_prefix_of((#[trigger] rows[i]).0) by {
        lemma_table_row(rows, i);
        assert(want.contains_key(rows[i].0));
        law_completion_covers_prefix(rows[i].0, prefix);
        assert(rows[i].0.take(prefix.len() as int) =~= rows[i].0.subrange(0, prefix.len() as int));
    }
}

} // verus!
