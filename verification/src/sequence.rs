//! The sequence table: a prefix-free trie of [`KeyInput`] sequences.
use crate::input::KeyInput;
use crate::keymap::find_row;
use crate::table::{distinct_keys, has_key, lemma_table_dom, lemma_table_row, lemma_table_unique,
    table_map};
use vstd::prelude::*;

verus! {

/// `a` is a proper prefix of `b`.
pub open spec fn proper_prefix(a: Seq<KeyInput>, b: Seq<KeyInput>) -> bool {
    a.len() < b.len() && b.take(a.len() as int) == a
}

/// One of the two sequences is a proper prefix of the other.
pub open spec fn shadows(a: Seq<KeyInput>, b: Seq<KeyInput>) -> bool {
    proper_prefix(a, b) || proper_prefix(b, a)
}

/// No bound sequence is a proper prefix of another, and the empty sequence is not
/// bound.
pub open spec fn prefix_free<A>(m: Map<Seq<KeyInput>, A>) -> bool {
    &&& !m.contains_key(Seq::empty())
    &&& forall|a: Seq<KeyInput>, b: Seq<KeyInput>|
        #![trigger m.contains_key(a), m.contains_key(b)]
        m.contains_key(a) && m.contains_key(b) ==> !proper_prefix(a, b)
}

/// Some bound sequence goes on after `keys`.
pub open spec fn opens<A>(m: Map<Seq<KeyInput>, A>, keys: Seq<KeyInput>) -> bool {
    exists|s: Seq<KeyInput>| #[trigger] m.contains_key(s) && proper_prefix(keys, s)
}

/// Some bound sequence is a proper prefix of `keys`, or the other way round.
pub open spec fn is_shadowed<A>(m: Map<Seq<KeyInput>, A>, keys: Seq<KeyInput>) -> bool {
    exists|s: Seq<KeyInput>| #[trigger] m.contains_key(s) && shadows(keys, s)
}

/// One trie node. A node that resolves to an action is always a leaf, and a node
/// with children never resolves on its own.
#[derive(Debug)]
struct Node<A> {
    action: Option<A>,
    children: Vec<(KeyInput, Node<A>)>,
}

impl<A> Node<A> {
    fn new() -> (node: Self)
        ensures
            node.action is None,
            node.children@.len() == 0,
    {
        Node { action: None, children: Vec::new() }
    }

    fn is_terminal(&self) -> (r: bool)
        ensures
            r == self.action is Some,
    {
        self.action.is_some()
    }
}

/// The child of a node under a key.
spec fn child<A>(node: Node<A>, k: KeyInput) -> Option<Node<A>> {
    if has_key(node.children@, k) {
        Some(table_map(node.children@)[k])
    } else {
        None
    }
}

/// The node that a path leads to.
spec fn at<A>(node: Node<A>, path: Seq<KeyInput>) -> Option<Node<A>>
    decreases path.len(),
{
    if path.len() == 0 {
        Some(node)
    } else {
        match child(node, path[0]) {
            Some(c) => at(c, path.drop_first()),
            None => None,
        }
    }
}

/// The action at the end of a path.
spec fn action_at<A>(node: Node<A>, path: Seq<KeyInput>) -> Option<A> {
    match at(node, path) {
        Some(n) => n.action,
        None => None,
    }
}

/// A node that holds an action or children.
spec fn alive<A>(node: Node<A>) -> bool {
    node.action is Some || node.children@.len() > 0
}

/// Below the node, keys of siblings are distinct, nodes with an action are
/// leaves, and no branch is dead.
spec fn sound<A>(node: Node<A>) -> bool {
    forall|path: Seq<KeyInput>|
        (#[trigger] at(node, path)) matches Some(n) ==> {
            &&& distinct_keys(n.children@)
            &&& n.action is Some ==> n.children@.len() == 0
            &&& path.len() > 0 ==> alive(n)
        }
}

/// The child under the key of row `i` is that of row `i`.
proof fn lemma_child_row<A>(node: Node<A>, i: int)
    requires
        distinct_keys(node.children@),
        0 <= i < node.children@.len(),
    ensures
        child(node, node.children@[i].0) == Some(node.children@[i].1),
{
    lemma_table_row(node.children@, i);
    assert(has_key(node.children@, node.children@[i].0));
}

/// A child is the one in some row.
proof fn lemma_child_has_row<A>(node: Node<A>, k: KeyInput) -> (i: int)
    requires
        distinct_keys(node.children@),
        child(node, k) is Some,
    ensures
        0 <= i < node.children@.len(),
        node.children@[i].0 == k,
        child(node, k) == Some(node.children@[i].1),
{
    let i = choose|i: int| 0 <= i < node.children@.len() && (#[trigger] node.children@[i]).0 == k;
    lemma_child_row(node, i);
    i
}

/// A path that begins with `k` goes on in the child under `k`.
proof fn lemma_at_step<A>(node: Node<A>, k: KeyInput, rest: Seq<KeyInput>)
    ensures
        at(node, seq![k] + rest) == (match child(node, k) {
            Some(c) => at(c, rest),
            None => None,
        }),
{
    let p = seq![k] + rest;
    assert(p[0] == k);
    assert(p.drop_first() =~= rest);
}

/// A path made of two parts is followed one after the other.
proof fn lemma_at_concat<A>(node: Node<A>, a: Seq<KeyInput>, b: Seq<KeyInput>)
    ensures
        at(node, a + b) == (match at(node, a) {
            Some(n) => at(n, b),
            None => None,
        }),
    decreases a.len(),
{
    if a.len() == 0 {
        assert(a + b =~= b);
    } else {
        assert((a + b)[0] == a[0]);
        assert((a + b).drop_first() =~= a.drop_first() + b);
        match child(node, a[0]) {
            Some(c) => {
                lemma_at_concat(c, a.drop_first(), b);
            },
            None => {},
        }
    }
}

/// Every node below a sound node is sound.
proof fn lemma_sound_below<A>(node: Node<A>, path: Seq<KeyInput>)
    requires
        sound(node),
        at(node, path) is Some,
    ensures
        sound(at(node, path)->0),
        path.len() > 0 ==> alive(at(node, path)->0),
{
    let n = at(node, path)->0;
    assert forall|q: Seq<KeyInput>| (#[trigger] at(n, q)) is Some implies ({
        let x = at(n, q)->0;
        &&& distinct_keys(x.children@)
        &&& x.action is Some ==> x.children@.len() == 0
        &&& q.len() > 0 ==> alive(x)
    }) by {
        lemma_at_concat(node, path, q);
        assert(at(node, path + q) == at(n, q));
    }
}

/// The children of a sound node are sound and alive.
proof fn lemma_sound_child<A>(node: Node<A>, i: int)
    requires
        sound(node),
        0 <= i < node.children@.len(),
    ensures
        sound(node.children@[i].1),
        alive(node.children@[i].1),
{
    assert(at(node, Seq::empty()) == Some(node));
    lemma_child_row(node, i);
    let k = node.children@[i].0;
    lemma_at_step(node, k, Seq::empty());
    assert(at(node.children@[i].1, Seq::empty()) == Some(node.children@[i].1));
    lemma_sound_below(node, seq![k] + Seq::empty());
}

/// Under every sound node that is alive there is an action.
proof fn lemma_alive_reaches_action<A>(node: Node<A>) -> (path: Seq<KeyInput>)
    requires
        sound(node),
        alive(node),
    ensures
        action_at(node, path) is Some,
    decreases node,
{
    assert(at(node, Seq::empty()) == Some(node));
    if node.action is Some {
        Seq::empty()
    } else {
        lemma_sound_child(node, 0);
        lemma_child_row(node, 0);
        let k = node.children@[0].0;
        let c = node.children@[0].1;
        assert(decreases_to!(node => node.children));
        assert(decreases_to!(node.children => node.children@));
        assert(decreases_to!(node.children@ => node.children@[0]));
        let rest = lemma_alive_reaches_action(c);
        lemma_at_step(node, k, rest);
        seq![k] + rest
    }
}

/// The path as the exec code walks it: `keys` from position `from` on.
spec fn tail(keys: Seq<KeyInput>, from: int) -> Seq<KeyInput> {
    keys.skip(from)
}

/// Binds the rest of `keys` below `node`, where nothing bound stands in the way.
fn put<A>(node: &mut Node<A>, keys: &Vec<KeyInput>, from: usize, action: A) -> (previous: Option<A>)
    requires
        sound(*old(node)),
        from <= keys.len(),
        forall|d: int|
            0 <= d < keys.len() - from ==> ((#[trigger] at(*old(node), tail(keys@, from as int).take(d)))
                matches Some(n) ==> n.action is None),
        at(*old(node), tail(keys@, from as int)) matches Some(n) ==> n.children@.len() == 0,
    ensures
        sound(*final(node)),
        alive(*final(node)),
        forall|p: Seq<KeyInput>| #[trigger]
            action_at(*final(node), p) == (if p == tail(keys@, from as int) {
                Some(action)
            } else {
                action_at(*old(node), p)
            }),
        previous == action_at(*old(node), tail(keys@, from as int)),
    decreases keys.len() - from,
{
    let ghost before = *node;
    let ghost rest = tail(keys@, from as int);
    assert(at(before, Seq::empty()) == Some(before));
    if from == keys.len() {
        assert(rest =~= Seq::<KeyInput>::empty());
        let mut slot = Some(action);
        core::mem::swap(&mut slot, &mut node.action);
        proof {
            let after = *node;
            assert(after.children@.len() == 0);
            assert forall|p: Seq<KeyInput>| p.len() > 0 implies #[trigger] at(after, p) is None
                && at(before, p) is None by {
                assert(!has_key(after.children@, p[0]));
                assert(!has_key(before.children@, p[0]));
            }
            assert forall|p: Seq<KeyInput>| #[trigger] action_at(after, p) == (if p == rest {
                Some(action)
            } else {
                action_at(before, p)
            }) by {
                if p.len() == 0 {
                    assert(p =~= rest);
                }
            }
            assert(sound(after));
        }
        slot
    } else {
        let k = keys[from];
        let i = find_row(&node.children, &k);
        let ghost grown = i == node.children@.len();
        if i == node.children.len() {
            node.children.push((k, Node::new()));
        }
        let ghost middle = *node;
        let ghost c0 = middle.children@[i as int].1;
        let ghost rest1 = tail(keys@, from + 1);
        proof {
            assert(rest[0] == k);
            assert(rest.drop_first() =~= rest1);
            assert(rest =~= seq![k] + rest1);
            assert(rest.take(0) =~= Seq::<KeyInput>::empty());
            assert(at(before, rest.take(0)) == Some(before));
            assert(before.action is None);
            if grown {
                assert(child(before, k) is None);
                assert forall|p: Seq<KeyInput>| #[trigger] at(c0, p) == (if p.len() == 0 {
                    Some(c0)
                } else {
                    None::<Node<A>>
                }) by {
                    if p.len() > 0 {
                        assert(!has_key(c0.children@, p[0]));
                    }
                }
            } else {
                lemma_child_row(before, i as int);
                lemma_sound_child(before, i as int);
            }
            assert(sound(c0));
            assert forall|d: int| 0 <= d < keys.len() - (from + 1) implies ((#[trigger] at(
                c0,
                rest1.take(d),
            )) matches Some(n) ==> n.action is None) by {
                lemma_at_step(before, k, rest1.take(d));
                assert(seq![k] + rest1.take(d) =~= rest.take(d + 1));
            }
            lemma_at_step(before, k, rest1);
        }
        let previous = put(&mut node.children[i].1, keys, from + 1, action);
        proof {
            let after = *node;
            let c1 = after.children@[i as int].1;
            assert(after.action is None);
            assert(after.children@ =~= middle.children@.update(i as int, (k, c1)));
            assert(distinct_keys(before.children@));
            assert(distinct_keys(after.children@)) by {
                assert forall|a: int, b: int| 0 <= a < b < after.children@.len() implies (
                #[trigger] after.children@[a]).0 != (#[trigger] after.children@[b]).0 by {
                    if !grown || b < before.children@.len() {
                        assert(before.children@[a].0 != before.children@[b].0);
                    } else {
                        assert(before.children@[a].0 != k);
                    }
                }
            }
            lemma_child_row(after, i as int);
            assert forall|q: KeyInput| q != k implies #[trigger] child(after, q) == child(before, q) by {
                if child(before, q) is Some {
                    let j = lemma_child_has_row(before, q);
                    assert(after.children@[j] == before.children@[j]);
                    lemma_child_row(after, j);
                }
                if child(after, q) is Some {
                    let j = lemma_child_has_row(after, q);
                    assert(after.children@[j] == before.children@[j]);
                    lemma_child_row(before, j);
                }
            }
            assert forall|p: Seq<KeyInput>| #[trigger] action_at(after, p) == (if p == rest {
                Some(action)
            } else {
                action_at(before, p)
            }) by {
                if p.len() > 0 {
                    let t = p.drop_first();
                    assert(p =~= seq![p[0]] + t);
                    if p[0] == k {
                        assert(action_at(after, p) == action_at(c1, t));
                        assert(p == rest <==> t == rest1);
                        if grown {
                            assert(action_at(before, p) is None);
                            assert(action_at(c0, t) is None);
                        } else {
                            assert(action_at(before, p) == action_at(c0, t));
                        }
                    } else {
                        assert(child(after, p[0]) == child(before, p[0]));
                        assert(rest[0] == k);
                    }
                }
            }
            assert(sound(after)) by {
                assert forall|p: Seq<KeyInput>| (#[trigger] at(after, p)) is Some implies ({
                    let n = at(after, p)->0;
                    &&& distinct_keys(n.children@)
                    &&& n.action is Some ==> n.children@.len() == 0
                    &&& p.len() > 0 ==> alive(n)
                }) by {
                    if p.len() > 0 {
                        let t = p.drop_first();
                        if p[0] == k {
                            assert(at(after, p) == at(c1, t));
                            if t.len() == 0 {
                                assert(at(c1, t) == Some(c1));
                            }
                        } else {
                            assert(child(after, p[0]) == child(before, p[0]));
                            assert(at(after, p) == at(before, p));
                        }
                    }
                }
            }
        }
        previous
    }
}

/// Appends keys to `seq` while descending from `node` to the first terminal it
/// can reach. Where the node fans out, one branch is taken.
fn extend_to_terminal<A>(node: &Node<A>, seq: &mut Vec<KeyInput>)
    requires
        sound(*node),
        alive(*node),
    ensures
        exists|path: Seq<KeyInput>| #[trigger]
            action_at(*node, path) is Some && final(seq)@ == old(seq)@ + path && (node.action is None
                ==> path.len() > 0),
    decreases *node,
{
    let ghost start = seq@;
    assert(at(*node, Seq::empty()) == Some(*node));
    if node.is_terminal() {
        assert(action_at(*node, Seq::empty()) is Some);
        assert(seq@ =~= start + Seq::<KeyInput>::empty());
        return;
    }
    let row = &node.children[0];
    proof {
        lemma_sound_child(*node, 0);
        lemma_child_row(*node, 0);
        assert(decreases_to!(*node => node.children));
        assert(decreases_to!(node.children => node.children@));
        assert(decreases_to!(node.children@ => node.children@[0]));
    }
    seq.push(row.0);
    let ghost middle = seq@;
    extend_to_terminal(&row.1, seq);
    proof {
        let rest = choose|rest: Seq<KeyInput>| #[trigger]
            action_at(row.1, rest) is Some && seq@ == middle + rest;
        lemma_at_step(*node, row.0, rest);
        assert(action_at(*node, seq![row.0] + rest) is Some);
        assert(seq@ =~= start + (seq![row.0] + rest));
    }
}

/// The path leads through one of the first `n` children.
spec fn through<A>(node: Node<A>, n: int, q: Seq<KeyInput>) -> bool {
    q.len() > 0 && exists|j: int|
        0 <= j < n && j < node.children@.len() && (#[trigger] node.children@[j]).0 == q[0]
}

/// The row is a bound path below `node`, with `path` before it.
spec fn row_below<A>(node: Node<A>, path: Seq<KeyInput>, row: (Seq<KeyInput>, A)) -> bool {
    exists|q: Seq<KeyInput>| #[trigger]
        action_at(node, q) == Some(row.1) && row.0 == path + q
}

/// The row is a bound path below `node` that leads through one of its first `n`
/// children, with `path` before it.
spec fn row_through<A>(node: Node<A>, n: int, path: Seq<KeyInput>, row: (Seq<KeyInput>, A)) -> bool {
    exists|q: Seq<KeyInput>|
        through(node, n, q) && #[trigger] action_at(node, q) == Some(row.1) && row.0 == path + q
}

/// Some row is for the path.
spec fn has_path<A>(rows: Seq<(Seq<KeyInput>, A)>, p: Seq<KeyInput>) -> bool {
    exists|i: int| 0 <= i < rows.len() && (#[trigger] rows[i]).0 == p
}

/// No two rows are for the same path.
spec fn distinct_paths<A>(rows: Seq<(Seq<KeyInput>, A)>) -> bool {
    forall|i: int, j: int|
        0 <= i < j < rows.len() ==> (#[trigger] rows[i]).0 != (#[trigger] rows[j]).0
}

/// The rows are the bound paths below `node` that lead through one of its first
/// `n` children, each once, with `path` before it.
spec fn collected<A>(
    node: Node<A>,
    n: int,
    path: Seq<KeyInput>,
    rows: Seq<(Seq<KeyInput>, A)>,
) -> bool {
    &&& forall|i: int| 0 <= i < rows.len() ==> row_through(node, n, path, #[trigger] rows[i])
    &&& forall|q: Seq<KeyInput>| #[trigger]
        through(node, n, q) && action_at(node, q) is Some ==> has_path(rows, path + q)
    &&& distinct_paths(rows)
}

/// The rows are all bound paths below `node`, each once, with `path` before it.
spec fn collected_all<A>(
    node: Node<A>,
    path: Seq<KeyInput>,
    rows: Seq<(Seq<KeyInput>, A)>,
) -> bool {
    &&& forall|i: int| 0 <= i < rows.len() ==> row_below(node, path, #[trigger] rows[i])
    &&& forall|q: Seq<KeyInput>| #[trigger]
        action_at(node, q) is Some ==> has_path(rows, path + q)
    &&& distinct_paths(rows)
}

/// A row through the first `n` children is one through the first `n + 1`.
proof fn lemma_row_through_more<A>(node: Node<A>, n: int, path: Seq<KeyInput>, row: (Seq<KeyInput>, A))
    requires
        row_through(node, n, path, row),
    ensures
        row_through(node, n + 1, path, row),
{
    let q = choose|q: Seq<KeyInput>|
        through(node, n, q) && #[trigger] action_at(node, q) == Some(row.1) && row.0 == path + q;
    let j = choose|j: int|
        0 <= j < n && j < node.children@.len() && (#[trigger] node.children@[j]).0 == q[0];
    assert(node.children@[j].0 == q[0]);
    assert(through(node, n + 1, q));
    assert(action_at(node, q) == Some(row.1));
}

/// A row below child `n` is one through the first `n + 1` children, and begins
/// with the path to that child.
proof fn lemma_row_of_child<A>(node: Node<A>, n: int, path: Seq<KeyInput>, row: (Seq<KeyInput>, A))
    requires
        distinct_keys(node.children@),
        0 <= n < node.children@.len(),
        row_below(node.children@[n].1, path.push(node.children@[n].0), row),
    ensures
        row_through(node, n + 1, path, row),
        row.0.len() > path.len(),
        row.0[path.len() as int] == node.children@[n].0,
{
    let k = node.children@[n].0;
    let c = node.children@[n].1;
    lemma_child_row(node, n);
    let t = choose|t: Seq<KeyInput>| #[trigger]
        action_at(c, t) == Some(row.1) && row.0 == path.push(k) + t;
    let q = seq![k] + t;
    lemma_at_step(node, k, t);
    assert(node.children@[n].0 == q[0]);
    assert(through(node, n + 1, q));
    assert(path.push(k) + t =~= path + q);
    assert(action_at(node, q) == Some(row.1));
}

/// A path through the first `n + 1` children is covered by the rows through the
/// first `n`, or by those of child `n`.
proof fn lemma_path_covered<A>(
    node: Node<A>,
    n: int,
    path: Seq<KeyInput>,
    rows: Seq<(Seq<KeyInput>, A)>,
    more: Seq<(Seq<KeyInput>, A)>,
    q: Seq<KeyInput>,
)
    requires
        distinct_keys(node.children@),
        0 <= n < node.children@.len(),
        collected(node, n, path, rows),
        collected_all(node.children@[n].1, path.push(node.children@[n].0), more),
        through(node, n + 1, q),
        action_at(node, q) is Some,
    ensures
        has_path(rows + more, path + q),
{
    let k = node.children@[n].0;
    let c = node.children@[n].1;
    let all = rows + more;
    let j = choose|j: int|
        0 <= j < n + 1 && j < node.children@.len() && (#[trigger] node.children@[j]).0 == q[0];
    if j < n {
        assert(through(node, n, q));
        let i = choose|i: int| 0 <= i < rows.len() && (#[trigger] rows[i]).0 == path + q;
        assert(all[i].0 == path + q);
    } else {
        lemma_child_row(node, n);
        let t = q.drop_first();
        assert(q =~= seq![k] + t);
        lemma_at_step(node, k, t);
        assert(action_at(c, t) is Some);
        let p = path.push(k) + t;
        let i = choose|i: int| 0 <= i < more.len() && (#[trigger] more[i]).0 == p;
        assert(p =~= path + q);
        assert(all[rows.len() + i].0 == path + q);
    }
}

/// The rows of one more child extend the collection.
proof fn lemma_collect_child<A>(
    node: Node<A>,
    n: int,
    path: Seq<KeyInput>,
    rows: Seq<(Seq<KeyInput>, A)>,
    more: Seq<(Seq<KeyInput>, A)>,
)
    requires
        distinct_keys(node.children@),
        0 <= n < node.children@.len(),
        collected(node, n, path, rows),
        collected_all(node.children@[n].1, path.push(node.children@[n].0), more),
    ensures
        collected(node, n + 1, path, rows + more),
{
    let all = rows + more;
    assert forall|i: int| 0 <= i < all.len() implies row_through(node, n + 1, path, #[trigger] all[i]) by {
        if i < rows.len() {
            assert(all[i] == rows[i]);
            lemma_row_through_more(node, n, path, rows[i]);
        } else {
            assert(all[i] == more[i - rows.len()]);
            lemma_row_of_child(node, n, path, more[i - rows.len()]);
        }
    }
    assert forall|q: Seq<KeyInput>| #[trigger]
        through(node, n + 1, q) && action_at(node, q) is Some implies has_path(all, path + q) by {
        lemma_path_covered(node, n, path, rows, more, q);
    }
    assert forall|i: int, j: int| 0 <= i < j < all.len() implies (#[trigger] all[i]).0 != (
    #[trigger] all[j]).0 by {
        if j < rows.len() {
            assert(rows[i].0 != rows[j].0);
        } else if i >= rows.len() {
            assert(more[i - rows.len()].0 != more[j - rows.len()].0);
        } else {
            assert(row_through(node, n, path, rows[i]));
            let q = choose|q: Seq<KeyInput>|
                through(node, n, q) && #[trigger] action_at(node, q) == Some(rows[i].1)
                    && rows[i].0 == path + q;
            let h = choose|h: int|
                0 <= h < n && h < node.children@.len() && (#[trigger] node.children@[h]).0 == q[0];
            assert(node.children@[h].0 != node.children@[n].0);
            assert(rows[i].0[path.len() as int] == q[0]);
            lemma_row_of_child(node, n, path, more[j - rows.len()]);
        }
    }
}

/// The rows with the views of their paths.
pub open spec fn path_views<A>(rows: Seq<(Vec<KeyInput>, &A)>) -> Seq<(Seq<KeyInput>, A)> {
    rows.map_values(|r: (Vec<KeyInput>, &A)| (r.0@, *r.1))
}

/// The owned rows with the views of their paths.
pub open spec fn owned_views<A>(rows: Seq<(Vec<KeyInput>, A)>) -> Seq<(Seq<KeyInput>, A)> {
    rows.map_values(|r: (Vec<KeyInput>, A)| (r.0@, r.1))
}

/// The only row below a node with an action is that action.
proof fn lemma_terminal_row<A>(node: Node<A>, path: Seq<KeyInput>)
    requires
        sound(node),
        node.action is Some,
    ensures
        collected_all(node, path, seq![(path, node.action->0)]),
{
    let rows = seq![(path, node.action->0)];
    assert(at(node, Seq::empty()) == Some(node));
    assert(path + Seq::<KeyInput>::empty() =~= path);
    assert(action_at(node, Seq::empty()) == Some(rows[0].1));
    assert(row_below(node, path, rows[0]));
    assert forall|q: Seq<KeyInput>| #[trigger] action_at(node, q) is Some implies has_path(
        rows,
        path + q,
    ) by {
        if q.len() > 0 {
            assert(!has_key(node.children@, q[0]));
        }
        assert(q =~= Seq::<KeyInput>::empty());
        assert(rows[0].0 == path + q);
    }
}

/// The rows through all children of a node without an action are all its rows.
proof fn lemma_collected_all_children<A>(node: Node<A>, path: Seq<KeyInput>, rows: Seq<(Seq<KeyInput>, A)>)
    requires
        sound(node),
        node.action is None,
        collected(node, node.children@.len() as int, path, rows),
    ensures
        collected_all(node, path, rows),
{
    assert(at(node, Seq::empty()) == Some(node));
    assert forall|i: int| 0 <= i < rows.len() implies row_below(node, path, #[trigger] rows[i]) by {
        assert(row_through(node, node.children@.len() as int, path, rows[i]));
    }
    assert forall|q: Seq<KeyInput>| #[trigger] action_at(node, q) is Some implies has_path(
        rows,
        path + q,
    ) by {
        let j = lemma_child_has_row(node, q[0]);
        assert(node.children@[j].0 == q[0]);
        assert(through(node, node.children@.len() as int, q));
    }
}

/// Depth-first collects every leaf `(path, action)` under `node`, threading a
/// shared `path` stack.
fn collect_bindings<'a, A>(
    node: &'a Node<A>,
    path: &mut Vec<KeyInput>,
    out: &mut Vec<(Vec<KeyInput>, &'a A)>,
)
    requires
        sound(*node),
    ensures
        final(path)@ == old(path)@,
        final(out)@.len() >= old(out)@.len(),
        path_views(final(out)@).take(old(out)@.len() as int) == path_views(old(out)@),
        collected_all(*node, old(path)@, path_views(final(out)@).skip(old(out)@.len() as int)),
    decreases *node,
{
    let ghost path0 = path@;
    let ghost out0 = path_views(out@);
    let ghost n0 = out@.len() as int;
    assert(at(*node, Seq::empty()) == Some(*node));
    if let Some(action) = &node.action {
        let key = copy_keys(path.as_slice(), path.len());
        assert(key@ =~= path0);
        out.push((key, action));
        proof {
            let all = path_views(out@);
            lemma_terminal_row(*node, path0);
            assert(all.skip(n0) =~= seq![(path0, node.action->0)]);
            assert(all.take(n0) =~= out0);
        }
        return;
    }
    let mut i: usize = 0;
    assert(path_views(out@).skip(n0) =~= Seq::<(Seq<KeyInput>, A)>::empty());
    assert(path_views(out@).take(n0) =~= out0);
    while i < node.children.len()
        invariant
            i <= node.children.len(),
            sound(*node),
            node.action is None,
            distinct_keys(node.children@),
            path@ == path0,
            out@.len() >= n0,
            n0 == out0.len(),
            path_views(out@).take(n0) == out0,
            collected(*node, i as int, path0, path_views(out@).skip(n0)),
        decreases node.children.len() - i,
    {
        let row = &node.children[i];
        let ghost out1 = path_views(out@);
        let ghost n1 = out@.len() as int;
        proof {
            lemma_sound_child(*node, i as int);
            assert(decreases_to!(*node => node.children));
            assert(decreases_to!(node.children => node.children@));
            assert(decreases_to!(node.children@ => node.children@[i as int]));
        }
        path.push(row.0);
        assert(path@ == path0.push(row.0));
        collect_bindings(&row.1, path, out);
        path.pop();
        proof {
            let all = path_views(out@);
            let more = all.skip(n1);
            lemma_collect_child(*node, i as int, path0, out1.skip(n0), more);
            assert(all.skip(n0) =~= out1.skip(n0) + more) by {
                assert(all.take(n1) == out1);
                assert forall|j: int| n0 <= j < n1 implies #[trigger] all[j] == out1[j] by {
                    assert(all.take(n1)[j] == all[j]);
                }
            }
            assert(all.take(n0) =~= all.take(n1).take(n0));
            assert(path@ =~= path0);
        }
        i = i + 1;
    }
    proof {
        lemma_collected_all_children(*node, path0, path_views(out@).skip(n0));
    }
}

/// As [`collect_bindings`], taking the actions out of the tree.
fn drain_bindings<A>(node: Node<A>, path: &mut Vec<KeyInput>, out: &mut Vec<(Vec<KeyInput>, A)>)
    requires
        sound(node),
    ensures
        final(path)@ == old(path)@,
        final(out)@.len() >= old(out)@.len(),
        owned_views(final(out)@).take(old(out)@.len() as int) == owned_views(old(out)@),
        collected_all(node, old(path)@, owned_views(final(out)@).skip(old(out)@.len() as int)),
    decreases node,
{
    let ghost node0 = node;
    let ghost path0 = path@;
    let ghost out0 = owned_views(out@);
    let ghost n0 = out@.len() as int;
    assert(at(node, Seq::empty()) == Some(node));
    let Node { action, children } = node;
    if let Some(action) = action {
        let key = copy_keys(path.as_slice(), path.len());
        assert(key@ =~= path0);
        out.push((key, action));
        proof {
            let all = owned_views(out@);
            lemma_terminal_row(node0, path0);
            assert(all.skip(n0) =~= seq![(path0, action)]);
            assert(all.take(n0) =~= out0);
        }
        return;
    }
    let mut rest = children;
    let ghost mut done: int = 0;
    let ghost all_children = children@;
    assert(owned_views(out@).skip(n0) =~= Seq::<(Seq<KeyInput>, A)>::empty());
    assert(owned_views(out@).take(n0) =~= out0);
    assert(rest@ =~= all_children.skip(0));
    while rest.len() > 0
        invariant
            0 <= done <= all_children.len(),
            rest@ == all_children.skip(done),
            all_children == node0.children@,
            node0 == node,
            sound(node0),
            node0.action is None,
            distinct_keys(node0.children@),
            path@ == path0,
            out@.len() >= n0,
            n0 == out0.len(),
            owned_views(out@).take(n0) == out0,
            collected(node0, done, path0, owned_views(out@).skip(n0)),
        decreases rest.len(),
    {
        let ghost out1 = owned_views(out@);
        let ghost n1 = out@.len() as int;
        let (key, child_node) = rest.remove(0);
        proof {
            assert(all_children[done] == (key, child_node));
            assert(rest@ =~= all_children.skip(done + 1));
            lemma_sound_child(node0, done);
            assert(decreases_to!(node0 => node0.children));
            assert(decreases_to!(node0.children => node0.children@));
            assert(decreases_to!(node0.children@ => node0.children@[done]));
            assert(decreases_to!(node0.children@[done] => node0.children@[done].1));
        }
        path.push(key);
        assert(path@ == path0.push(key));
        drain_bindings(child_node, path, out);
        path.pop();
        proof {
            let all = owned_views(out@);
            let more = all.skip(n1);
            lemma_collect_child(node0, done, path0, out1.skip(n0), more);
            assert(all.skip(n0) =~= out1.skip(n0) + more) by {
                assert(all.take(n1) == out1);
                assert forall|j: int| n0 <= j < n1 implies #[trigger] all[j] == out1[j] by {
                    assert(all.take(n1)[j] == all[j]);
                }
            }
            assert(all.take(n0) =~= all.take(n1).take(n0));
            assert(path@ =~= path0);
            done = done + 1;
        }
    }
    proof {
        lemma_collected_all_children(node0, path0, owned_views(out@).skip(n0));
    }
}

/// A copy of the first `n` keys.
pub(crate) fn copy_keys(keys: &[KeyInput], n: usize) -> (out: Vec<KeyInput>)
    requires
        n <= keys.len(),
    ensures
        out@ == keys@.take(n as int),
{
    let mut out: Vec<KeyInput> = Vec::new();
    let mut i: usize = 0;
    while i < n
        invariant
            i <= n <= keys.len(),
            out@ == keys@.take(i as int),
        decreases n - i,
    {
        out.push(keys[i]);
        i = i + 1;
        assert(out@ =~= keys@.take(i as int));
    }
    out
}

/// A table mapping *sequences* of normalized [`KeyInput`]s to a caller-defined
/// action `A`.
///
/// It is state-free, and **prefix-free** by construction — see
/// [`SequenceKeymap::bind`] — so [`lookup`](SequenceKeymap::lookup) never needs a
/// timeout to disambiguate. Its model is the map from sequences to actions.
#[derive(Debug)]
pub struct SequenceKeymap<A> {
    root: Node<A>,
}

impl<A> View for SequenceKeymap<A> {
    type V = Map<Seq<KeyInput>, A>;

    closed spec fn view(&self) -> Map<Seq<KeyInput>, A> {
        node_map(self.root)
    }
}

/// The bindings below a node.
spec fn node_map<A>(node: Node<A>) -> Map<Seq<KeyInput>, A> {
    Map::new(
        |p: Seq<KeyInput>| action_at(node, p) is Some,
        |p: Seq<KeyInput>| action_at(node, p)->0,
    )
}

/// The rows collected from the root are the bindings.
proof fn lemma_collected_map<A>(root: Node<A>, rows: Seq<(Seq<KeyInput>, A)>)
    requires
        collected_all(root, Seq::empty(), rows),
    ensures
        distinct_keys(rows),
        table_map(rows) == node_map(root),
{
    let e = Seq::<KeyInput>::empty();
    let m = node_map(root);
    assert forall|i: int| 0 <= i < rows.len() implies m.contains_key((#[trigger] rows[i]).0)
        && m[rows[i].0] == rows[i].1 by {
        assert(row_below(root, e, rows[i]));
        let q = choose|q: Seq<KeyInput>| #[trigger]
            action_at(root, q) == Some(rows[i].1) && rows[i].0 == e + q;
        assert(e + q =~= q);
    }
    assert forall|p: Seq<KeyInput>| #[trigger] m.contains_key(p) implies has_key(rows, p) by {
        assert(action_at(root, p) is Some);
        assert(has_path(rows, e + p));
        assert(e + p =~= p);
    }
    lemma_table_unique(rows, m);
}

/// The bindings of a sound tree are prefix-free.
proof fn lemma_sound_is_prefix_free<A>(root: Node<A>)
    requires
        sound(root),
        root.action is None,
    ensures
        prefix_free(node_map(root)),
{
    let m = node_map(root);
    assert(at(root, Seq::empty()) == Some(root));
    assert forall|a: Seq<KeyInput>, b: Seq<KeyInput>|
        #![trigger m.contains_key(a), m.contains_key(b)]
        m.contains_key(a) && m.contains_key(b) implies !proper_prefix(a, b) by {
        if proper_prefix(a, b) {
            lemma_action_ends_path(root, a, b);
        }
    }
}

/// Nothing is bound beyond an action.
proof fn lemma_action_ends_path<A>(root: Node<A>, a: Seq<KeyInput>, b: Seq<KeyInput>)
    requires
        sound(root),
        action_at(root, a) is Some,
        proper_prefix(a, b),
    ensures
        at(root, b) is None,
{
    let rest = b.skip(a.len() as int);
    assert(b =~= a + rest);
    lemma_at_concat(root, a, rest);
    let n = at(root, a)->0;
    assert(n.children@.len() == 0);
    assert(!has_key(n.children@, rest[0]));
}

/// A path leads to a node with children exactly where a longer one is bound.
proof fn lemma_opens<A>(root: Node<A>, path: Seq<KeyInput>)
    requires
        sound(root),
    ensures
        opens(node_map(root), path) <==> (at(root, path) is Some && at(
            root,
            path,
        )->0.children@.len() > 0),
{
    let m = node_map(root);
    if opens(m, path) {
        let s = choose|s: Seq<KeyInput>| #[trigger] m.contains_key(s) && proper_prefix(path, s);
        let rest = s.skip(path.len() as int);
        assert(s =~= path + rest);
        lemma_at_concat(root, path, rest);
        let n = at(root, path)->0;
        if n.children@.len() == 0 {
            assert(!has_key(n.children@, rest[0]));
        }
    }
    if at(root, path) is Some && at(root, path)->0.children@.len() > 0 {
        let n = at(root, path)->0;
        lemma_sound_below(root, path);
        let rest = lemma_alive_reaches_action(n);
        assert(at(n, Seq::empty()) == Some(n));
        lemma_at_concat(root, path, rest);
        let s = path + rest;
        assert(rest.len() > 0) by {
            if rest.len() == 0 {
                assert(rest =~= Seq::<KeyInput>::empty());
                assert(n.action is Some);
            }
        }
        assert(s.take(path.len() as int) =~= path);
        assert(m.contains_key(s));
    }
}

/// An empty tree is sound.
proof fn lemma_new_is_sound<A>(node: Node<A>)
    requires
        node.action is None,
        node.children@.len() == 0,
    ensures
        sound(node),
        node_map(node) == Map::<Seq<KeyInput>, A>::empty(),
{
    assert forall|p: Seq<KeyInput>| (#[trigger] at(node, p)) is Some implies p.len() == 0 && at(
        node,
        p,
    ) == Some(node) by {
        if p.len() > 0 {
            assert(!has_key(node.children@, p[0]));
        }
    }
    assert(node_map(node) =~= Map::<Seq<KeyInput>, A>::empty());
}

/// The outcome of resolving a pending key buffer with
/// [`SequenceKeymap::lookup`].
///
/// The three variants are exhaustive on purpose: a pure trie lookup has no other
/// outcome.
#[derive(Debug, PartialEq, Eq)]
#[must_use]
pub enum Match<'a, A> {
    /// The keys are a complete binding, resolving to this action.
    Exact(&'a A),
    /// The keys are a proper prefix of at least one longer binding.
    Prefix,
    /// The keys are not on any binding path.
    NoMatch,
}

/// What pressing one more key after a prefix does, as reported by
/// [`SequenceKeymap::continuations`]: a node is terminal *xor* internal, so there
/// is no third kind.
#[derive(Debug, PartialEq, Eq)]
#[must_use]
pub enum Continuation<'a, A> {
    /// Pressing this key completes a binding, resolving to this action.
    Action(&'a A),
    /// Pressing this key opens a deeper prefix; more keys must follow.
    Prefix,
}

/// Why a [`SequenceKeymap::bind`] call was rejected.
#[derive(Debug, Clone, PartialEq, Eq)]
pub enum SeqBindError {
    /// The sequence contained no keys.
    Empty,
    /// The sequence collides with an existing binding on a shared prefix: one is
    /// a proper prefix of the other, which cannot be resolved without a timeout.
    PrefixShadow {
        /// The sequence whose binding was rejected.
        sequence: Vec<KeyInput>,
        /// An existing binding it collides with. When several existing bindings
        /// share the prefix, this names one of them.
        conflict: Vec<KeyInput>,
    },
}

impl SeqBindError {
    /// The message of the error.
    pub open spec fn message(self) -> Seq<char> {
        match self {
            SeqBindError::Empty => "empty key sequence"@,
            SeqBindError::PrefixShadow { .. } => "key sequence shares a prefix with an existing binding"@,
        }
    }

    /// The message of the error.
    #[must_use]
    pub fn to_string(&self) -> (s: String)
        ensures
            s@ == self.message(),
    {
        match self {
            SeqBindError::Empty => crate::text::copy_text("empty key sequence"),
            SeqBindError::PrefixShadow { .. } => crate::text::copy_text(
                "key sequence shares a prefix with an existing binding",
            ),
        }
    }
}

/// The continuation of `prefix` by the key `k` is what the row says: the action
/// that the longer sequence is bound to, or a prefix where bindings go on after
/// it.
pub open spec fn continues<A>(
    m: Map<Seq<KeyInput>, A>,
    prefix: Seq<KeyInput>,
    row: (KeyInput, Continuation<A>),
) -> bool {
    match row.1 {
        Continuation::Action(a) => m.contains_key(prefix.push(row.0)) && m[prefix.push(row.0)] == *a,
        Continuation::Prefix => opens(m, prefix.push(row.0)),
    }
}

impl<A> SequenceKeymap<A> {
    #[verifier::type_invariant]
    spec fn inv(self) -> bool {
        sound(self.root) && self.root.action is None
    }

    /// Creates an empty sequence map.
    #[must_use]
    pub fn new() -> (m: Self)
        ensures
            m@ == Map::<Seq<KeyInput>, A>::empty(),
    {
        let root = Node::new();
        proof {
            lemma_new_is_sound(root);
        }
        SequenceKeymap { root }
    }

    /// Returns `true` if no sequences are bound.
    #[must_use]
    pub fn is_empty(&self) -> (r: bool)
        ensures
            r == (self@ == Map::<Seq<KeyInput>, A>::empty()),
    {
        proof {
            use_type_invariant(self);
            assert(at(self.root, Seq::empty()) == Some(self.root));
            if self.root.children@.len() == 0 {
                lemma_new_is_sound(self.root);
            } else {
                let p = lemma_alive_reaches_action(self.root);
                assert(self@.contains_key(p));
            }
        }
        self.root.children.len() == 0
    }

    /// Binds a key `sequence` to `action`.
    ///
    /// Re-binding the *exact* same sequence overwrites and returns the previous
    /// action.
    ///
    /// # Errors
    ///
    /// - [`SeqBindError::Empty`] if `sequence` has no keys.
    /// - [`SeqBindError::PrefixShadow`] if the new sequence would be a proper
    ///   prefix of an existing binding, or an existing binding would be a proper
    ///   prefix of it. The map is left unchanged.
    pub fn bind(&mut self, sequence: &[KeyInput], action: A) -> (r: Result<Option<A>, SeqBindError>)
        ensures
            prefix_free(final(self)@),
            match r {
                Ok(previous) => {
                    &&& sequence@.len() > 0
                    &&& !is_shadowed(old(self)@, sequence@)
                    &&& final(self)@ == old(self)@.insert(sequence@, action)
                    &&& match previous {
                        Some(a) => old(self)@.contains_key(sequence@) && a == old(
                            self,
                        )@[sequence@],
                        None => !old(self)@.contains_key(sequence@),
                    }
                },
                Err(SeqBindError::Empty) => sequence@.len() == 0 && final(self)@ == old(self)@,
                Err(SeqBindError::PrefixShadow { sequence: s, conflict: c }) => {
                    &&& sequence@.len() > 0
                    &&& s@ == sequence@
                    &&& old(self)@.contains_key(c@)
                    &&& shadows(sequence@, c@)
                    &&& final(self)@ == old(self)@
                },
            },
    {
        proof {
            use_type_invariant(&*self);
            lemma_sound_is_prefix_free(self.root);
        }
        let keys = copy_keys(sequence, sequence.len());
        assert(keys@ =~= sequence@);
        if keys.len() == 0 {
            return Err(SeqBindError::Empty);
        }
        let ghost root0 = self.root;
        let ghost m = self@;
        let mut broken: bool = false;
        {
            let mut node: &Node<A> = &self.root;
            let mut depth: usize = 0;
            assert(keys@.take(0) =~= Seq::<KeyInput>::empty());
            while depth < keys.len() && !broken
                invariant
                    depth <= keys.len(),
                    keys@ == sequence@,
                    keys.len() > 0,
                    m == node_map(root0),
                    sound(root0),
                    *self == *old(self),
                    old(self)@ == m,
                    prefix_free(m),
                    !broken ==> at(root0, keys@.take(depth as int)) == Some(*node),
                    broken ==> depth < keys.len() && at(root0, keys@.take(depth + 1)) is None,
                    forall|d: int|
                        0 <= d < depth ==> action_at(root0, #[trigger] keys@.take(d)) is None,
                    broken ==> action_at(root0, keys@.take(depth as int)) is None,
                decreases (keys.len() - depth) + (if broken { 0int } else { 1int }),
            {
                let ghost here = keys@.take(depth as int);
                if node.is_terminal() {
                    let conflict = copy_keys(keys.as_slice(), depth);
                    proof {
                        assert(m.contains_key(conflict@));
                        assert(keys@.take(conflict@.len() as int) =~= conflict@);
                    }
                    return Err(SeqBindError::PrefixShadow { sequence: keys, conflict });
                }
                let key = keys[depth];
                proof {
                    lemma_sound_below(root0, here);
                    assert(at(*node, Seq::empty()) == Some(*node));
                    assert(keys@.take(depth + 1) =~= here + seq![key]);
                    lemma_at_concat(root0, here, seq![key]);
                    lemma_at_step(*node, key, Seq::empty());
                    assert(seq![key] + Seq::<KeyInput>::empty() =~= seq![key]);
                }
                let i = find_row(&node.children, &key);
                if i == node.children.len() {
                    broken = true;
                } else {
                    proof {
                        lemma_child_row(*node, i as int);
                    }
                    node = &node.children[i].1;
                    depth = depth + 1;
                }
            }
            if !broken {
                assert(keys@.take(keys@.len() as int) =~= keys@);
                if node.children.len() > 0 {
                    let mut conflict = copy_keys(keys.as_slice(), keys.len());
                    proof {
                        lemma_sound_below(root0, keys@);
                        assert(at(*node, Seq::empty()) == Some(*node));
                    }
                    extend_to_terminal(node, &mut conflict);
                    proof {
                        let path = choose|path: Seq<KeyInput>| #[trigger]
                            action_at(*node, path) is Some && conflict@ == keys@ + path && (
                            node.action is None ==> path.len() > 0);
                        lemma_at_concat(root0, keys@, path);
                        assert(m.contains_key(conflict@));
                        assert(conflict@.take(keys@.len() as int) =~= keys@);
                    }
                    return Err(SeqBindError::PrefixShadow { sequence: keys, conflict });
                }
            }
            proof {
                // Nothing bound stands on the path, or beyond it.
                assert forall|d: int| 0 <= d < keys.len() implies ((#[trigger] at(
                    root0,
                    tail(keys@, 0).take(d),
                )) matches Some(n) ==> n.action is None) by {
                    assert(tail(keys@, 0) =~= keys@);
                    if broken && d > depth {
                        let rest = keys@.take(d).skip(depth + 1);
                        assert(keys@.take(d) =~= keys@.take(depth + 1) + rest);
                        lemma_at_concat(root0, keys@.take(depth + 1), rest);
                    } else if d < depth {
                        assert(action_at(root0, keys@.take(d)) is None);
                    }
                }
                assert(tail(keys@, 0) =~= keys@);
                if broken {
                    let rest = keys@.skip(depth + 1);
                    assert(keys@ =~= keys@.take(depth + 1) + rest);
                    lemma_at_concat(root0, keys@.take(depth + 1), rest);
                }
                assert(at(root0, keys@) matches Some(n) ==> n.children@.len() == 0);
                if is_shadowed(m, keys@) {
                    let s = choose|s: Seq<KeyInput>| #[trigger] m.contains_key(s) && shadows(keys@, s);
                    if proper_prefix(s, keys@) {
                        assert(at(root0, tail(keys@, 0).take(s.len() as int)) is Some);
                    } else {
                        lemma_opens(root0, keys@);
                        assert(opens(m, keys@));
                    }
                }
            }
        }
        let mut root = Node::new();
        proof {
            lemma_new_is_sound(root);
        }
        core::mem::swap(&mut root, &mut self.root);
        let previous = put(&mut root, &keys, 0, action);
        proof {
            assert(node_map(root) =~= m.insert(keys@, action)) by {
                assert forall|p: Seq<KeyInput>| #[trigger] node_map(root).contains_key(p) == m.insert(
                    keys@,
                    action,
                ).contains_key(p) by {
                    assert(action_at(root, p) == (if p == tail(keys@, 0) {
                        Some(action)
                    } else {
                        action_at(root0, p)
                    }));
                }
                assert forall|p: Seq<KeyInput>| #[trigger] node_map(root).contains_key(p) implies node_map(root)[p] == m.insert(keys@, action)[p] by {
                    assert(action_at(root, p) == (if p == tail(keys@, 0) {
                        Some(action)
                    } else {
                        action_at(root0, p)
                    }));
                }
            }
            assert(at(root, Seq::empty()) == Some(root));
            assert(at(root0, Seq::empty()) == Some(root0));
            assert(action_at(root, Seq::empty()) is None);
            lemma_sound_is_prefix_free(root);
        }
        self.root = root;
        Ok(previous)
    }

    /// Resolves the keys pressed so far against the table.
    ///
    /// - [`Match::Exact`] — `keys` is a complete binding.
    /// - [`Match::Prefix`] — `keys` is a proper prefix of one or more bindings.
    /// - [`Match::NoMatch`] — `keys` is not on any binding path.
    pub fn lookup(&self, keys: &[KeyInput]) -> (r: Match<'_, A>)
        ensures
            prefix_free(self@),
            match r {
                Match::Exact(a) => self@.contains_key(keys@) && *a == self@[keys@],
                Match::Prefix => !self@.contains_key(keys@) && opens(self@, keys@),
                Match::NoMatch => !self@.contains_key(keys@) && !opens(self@, keys@),
            },
    {
        proof {
            use_type_invariant(self);
            lemma_sound_is_prefix_free(self.root);
            lemma_opens(self.root, keys@);
        }
        match self.node_at(keys) {
            Some(node) => match &node.action {
                Some(action) => Match::Exact(action),
                None => if node.children.len() == 0 {
                    Match::NoMatch
                } else {
                    Match::Prefix
                },
            },
            None => Match::NoMatch,
        }
    }

    /// The node that the keys lead to.
    fn node_at(&self, keys: &[KeyInput]) -> (node: Option<&Node<A>>)
        ensures
            match node {
                Some(n) => at(self.root, keys@) == Some(*n),
                None => at(self.root, keys@) is None,
            },
    {
        proof {
            use_type_invariant(self);
        }
        let mut node: &Node<A> = &self.root;
        let mut i: usize = 0;
        assert(keys@.take(0) =~= Seq::<KeyInput>::empty());
        while i < keys.len()
            invariant
                i <= keys.len(),
                sound(self.root),
                at(self.root, keys@.take(i as int)) == Some(*node),
            decreases keys.len() - i,
        {
            let key = keys[i];
            let ghost here = keys@.take(i as int);
            proof {
                lemma_sound_below(self.root, here);
                assert(at(*node, Seq::empty()) == Some(*node));
                assert(keys@.take(i + 1) =~= here + seq![key]);
                lemma_at_concat(self.root, here, seq![key]);
                lemma_at_step(*node, key, Seq::empty());
                assert(seq![key] + Seq::<KeyInput>::empty() =~= seq![key]);
            }
            let j = find_row(&node.children, &key);
            if j == node.children.len() {
                proof {
                    let rest = keys@.skip(i + 1);
                    assert(keys@ =~= keys@.take(i + 1) + rest);
                    lemma_at_concat(self.root, keys@.take(i + 1), rest);
                }
                return None;
            }
            proof {
                lemma_child_row(*node, j as int);
            }
            node = &node.children[j].1;
            i = i + 1;
        }
        assert(keys@.take(keys@.len() as int) =~= keys@);
        Some(node)
    }

    /// Enumerates every bound sequence as a `(path, action)` pair, once each.
    ///
    /// Each `Vec<KeyInput>` is a complete bound sequence, never a partial prefix.
    /// Order is unspecified; sort caller-side for stable output.
    pub fn bindings(&self) -> (rows: Vec<(Vec<KeyInput>, &A)>)
        ensures
            distinct_keys(path_views(rows@)),
            table_map(path_views(rows@)) == self@,
            prefix_free(self@),
    {
        proof {
            use_type_invariant(self);
            lemma_sound_is_prefix_free(self.root);
        }
        let mut out: Vec<(Vec<KeyInput>, &A)> = Vec::new();
        let mut path: Vec<KeyInput> = Vec::new();
        collect_bindings(&self.root, &mut path, &mut out);
        proof {
            assert(path_views(out@).skip(0) =~= path_views(out@));
            lemma_collected_map(self.root, path_views(out@));
        }
        out
    }

    /// Takes every bound sequence out as a `(path, action)` pair, once each, in
    /// unspecified order.
    pub fn into_bindings(self) -> (rows: Vec<(Vec<KeyInput>, A)>)
        ensures
            distinct_keys(owned_views(rows@)),
            table_map(owned_views(rows@)) == self@,
            prefix_free(self@),
    {
        proof {
            use_type_invariant(&self);
            lemma_sound_is_prefix_free(self.root);
        }
        let ghost root = self.root;
        let mut out: Vec<(Vec<KeyInput>, A)> = Vec::new();
        let mut path: Vec<KeyInput> = Vec::new();
        drain_bindings(self.root, &mut path, &mut out);
        proof {
            assert(owned_views(out@).skip(0) =~= owned_views(out@));
            lemma_collected_map(root, owned_views(out@));
        }
        out
    }

    /// Enumerates the keys that may immediately follow `prefix`, for rendering a
    /// menu of what can be pressed next.
    ///
    /// The list is empty when `prefix` does not name an internal node — whether
    /// it is off the tree, already completes a binding, or the map is empty; call
    /// [`lookup`](Self::lookup) to tell those apart. Order is unspecified.
    pub fn continuations(&self, prefix: &[KeyInput]) -> (rows: Vec<(KeyInput, Continuation<'_, A>)>)
        ensures
            distinct_keys(rows@),
            forall|i: int|
                0 <= i < rows.len() ==> continues(self@, prefix@, #[trigger] rows@[i]),
            forall|k: KeyInput|
                (#[trigger] self@.contains_key(prefix@.push(k)) || opens(self@, prefix@.push(k)))
                    ==> has_key(rows@, k),
    {
        proof {
            use_type_invariant(self);
        }
        let mut rows: Vec<(KeyInput, Continuation<'_, A>)> = Vec::new();
        let ghost m = self@;
        let ghost root = self.root;
        proof {
            assert forall|k: KeyInput| #[trigger]
                m.contains_key(prefix@.push(k)) || opens(m, prefix@.push(k)) implies at(
                root,
                prefix@.push(k),
            ) is Some by {
                lemma_opens(root, prefix@.push(k));
            }
        }
        match self.node_at(prefix) {
            Some(node) => {
                proof {
                    lemma_sound_below(root, prefix@);
                    assert(at(*node, Seq::empty()) == Some(*node));
                }
                let mut i: usize = 0;
                while i < node.children.len()
                    invariant
                        i <= node.children.len(),
                        rows.len() == i,
                        m == node_map(root),
                        sound(root),
                        sound(*node),
                        distinct_keys(node.children@),
                        at(root, prefix@) == Some(*node),
                        forall|j: int|
                            0 <= j < i ==> (#[trigger] rows@[j]).0 == node.children@[j].0
                                && continues(m, prefix@, rows@[j]),
                    decreases node.children.len() - i,
                {
                    let row = &node.children[i];
                    let what = match &row.1.action {
                        Some(a) => Continuation::Action(a),
                        None => Continuation::Prefix,
                    };
                    proof {
                        lemma_child_row(*node, i as int);
                        lemma_sound_child(*node, i as int);
                        let p = prefix@.push(row.0);
                        assert(p =~= prefix@ + seq![row.0]);
                        lemma_at_concat(root, prefix@, seq![row.0]);
                        lemma_at_step(*node, row.0, Seq::empty());
                        assert(seq![row.0] + Seq::<KeyInput>::empty() =~= seq![row.0]);
                        assert(at(row.1, Seq::empty()) == Some(row.1));
                        assert(at(root, p) == Some(row.1));
                        lemma_opens(root, p);
                    }
                    rows.push((row.0, what));
                    i = i + 1;
                }
                proof {
                    assert(distinct_keys(rows@)) by {
                        assert forall|a: int, b: int| 0 <= a < b < rows.len() implies (
                        #[trigger] rows@[a]).0 != (#[trigger] rows@[b]).0 by {
                            assert(node.children@[a].0 != node.children@[b].0);
                        }
                    }
                    assert forall|k: KeyInput|
                        (#[trigger] m.contains_key(prefix@.push(k)) || opens(m, prefix@.push(k)))
                        implies has_key(rows@, k) by {
                        let p = prefix@.push(k);
                        assert(p =~= prefix@ + seq![k]);
                        lemma_at_concat(root, prefix@, seq![k]);
                        lemma_at_step(*node, k, Seq::empty());
                        assert(seq![k] + Seq::<KeyInput>::empty() =~= seq![k]);
                        let j = lemma_child_has_row(*node, k);
                        assert(rows@[j].0 == k);
                    }
                }
            },
            None => {
                proof {
                    assert forall|k: KeyInput|
                        (#[trigger] m.contains_key(prefix@.push(k)) || opens(m, prefix@.push(k)))
                        implies has_key(rows@, k) by {
                        assert(prefix@.push(k) =~= prefix@ + seq![k]);
                        lemma_at_concat(root, prefix@, seq![k]);
                    }
                }
            },
        }
        rows
    }
}

impl<A: Clone> Clone for SequenceKeymap<A> {
    fn clone(&self) -> (m: Self)
        ensures
            m@.dom() == self@.dom(),
            forall|s: Seq<KeyInput>| #[trigger]
                m@.contains_key(s) ==> cloned::<A>(self@[s], m@[s]),
    {
        proof {
            use_type_invariant(self);
            lemma_sound_is_prefix_free(self.root);
        }
        let rows = self.bindings();
        let ghost v = path_views(rows@);
        let mut copy: SequenceKeymap<A> = SequenceKeymap::new();
        proof {
            lemma_table_dom(v);
        }
        let mut i: usize = 0;
        while i < rows.len()
            invariant
                i <= rows.len(),
                v == path_views(rows@),
                distinct_keys(v),
                table_map(v) == self@,
                prefix_free(self@),
                forall|s: Seq<KeyInput>| #[trigger]
                    copy@.contains_key(s) <==> exists|j: int| 0 <= j < i && (#[trigger] v[j]).0 == s,
                forall|s: Seq<KeyInput>| #[trigger]
                    copy@.contains_key(s) ==> self@.contains_key(s) && cloned::<A>(self@[s], copy@[s]),
            decreases rows.len() - i,
        {
            let keys = &rows[i].0;
            let action = rows[i].1.clone();
            let ghost before = copy@;
            proof {
                lemma_table_row(v, i as int);
                assert(v[i as int] == (keys@, *rows@[i as int].1));
                assert(self@.contains_key(keys@));
                assert(keys@.len() > 0) by {
                    if keys@.len() == 0 {
                        assert(keys@ =~= Seq::<KeyInput>::empty());
                    }
                }
                assert(!is_shadowed(before, keys@));
            }
            let r = copy.bind(keys.as_slice(), action);
            proof {
                assert(r is Ok);
                assert forall|s: Seq<KeyInput>| #[trigger] copy@.contains_key(s) <==> exists|j: int|
                    0 <= j < i + 1 && (#[trigger] v[j]).0 == s by {
                    if before.contains_key(s) {
                        let j = choose|j: int| 0 <= j < i && (#[trigger] v[j]).0 == s;
                        assert(v[j].0 == s);
                    }
                    if s == keys@ {
                        assert(v[i as int].0 == s);
                    }
                }
            }
            i = i + 1;
        }
        proof {
            assert forall|s: Seq<KeyInput>| copy@.dom().contains(s) == self@.dom().contains(s) by {
                if self@.contains_key(s) {
                    assert(has_key(v, s));
                }
                assert(copy@.contains_key(s) ==> self@.contains_key(s));
            }
            assert(copy@.dom() =~= self@.dom());
        }
        copy
    }
}

impl<A> Default for SequenceKeymap<A> {
    fn default() -> (m: Self)
        ensures
            m@ == Map::<Seq<KeyInput>, A>::empty(),
    {
        SequenceKeymap::new()
    }
}

/// In a prefix-free table a completed binding opens nothing: a sequence is
/// complete or a prefix, never both, so no timeout is needed to tell.
pub proof fn law_complete_or_prefix<A>(m: Map<Seq<KeyInput>, A>, keys: Seq<KeyInput>)
    requires
        prefix_free(m),
    ensures
        !(m.contains_key(keys) && opens(m, keys)),
{
}

/// A buffer is a proper prefix of a binding exactly when some key continues it: a
/// menu of continuations is empty on a hit and on a miss, and only there.
pub proof fn law_prefix_iff_continued<A>(m: Map<Seq<KeyInput>, A>, keys: Seq<KeyInput>)
    ensures
        opens(m, keys) <==> exists|k: KeyInput|
            #![trigger keys.push(k)]
            m.contains_key(keys.push(k)) || opens(m, keys.push(k)),
{
    if opens(m, keys) {
        let s = choose|s: Seq<KeyInput>| #[trigger] m.contains_key(s) && proper_prefix(keys, s);
        let k = s[keys.len() as int];
        let longer = keys.push(k);
        assert(s.take(longer.len() as int) =~= longer);
        if s.len() == longer.len() {
            assert(s =~= longer);
        }
        assert(m.contains_key(longer) || opens(m, longer));
    }
    if exists|k: KeyInput|
        #![trigger keys.push(k)]
        m.contains_key(keys.push(k)) || opens(m, keys.push(k)) {
        let k = choose|k: KeyInput|
            #![trigger keys.push(k)]
            m.contains_key(keys.push(k)) || opens(m, keys.push(k));
        let longer = keys.push(k);
        let s = if m.contains_key(longer) {
            longer
        } else {
            choose|s: Seq<KeyInput>| #[trigger] m.contains_key(s) && proper_prefix(longer, s)
        };
        assert(s.take(keys.len() as int) =~= s.take(longer.len() as int).take(keys.len() as int));
        assert(longer.take(keys.len() as int) =~= keys);
        assert(s.take(longer.len() as int) =~= longer);
        assert(proper_prefix(keys, s));
    }
}

/// Binding a sequence that nothing shadows keeps a table prefix-free, and one
/// that something shadows would not.
pub proof fn law_bind_keeps_prefix_free<A>(m: Map<Seq<KeyInput>, A>, keys: Seq<KeyInput>, action: A)
    requires
        prefix_free(m),
        keys.len() > 0,
    ensures
        prefix_free(m.insert(keys, action)) <==> !is_shadowed(m, keys),
{
    let n = m.insert(keys, action);
    if is_shadowed(m, keys) {
        let s = choose|s: Seq<KeyInput>| #[trigger] m.contains_key(s) && shadows(keys, s);
        assert(n.contains_key(s) && n.contains_key(keys));
    } else {
        assert forall|a: Seq<KeyInput>, b: Seq<KeyInput>|
            #![trigger n.contains_key(a), n.contains_key(b)]
            n.contains_key(a) && n.contains_key(b) implies !proper_prefix(a, b) by {
            if a == keys && b != keys {
                assert(m.contains_key(b));
            } else if b == keys && a != keys {
                assert(m.contains_key(a));
            } else if a != keys && b != keys {
                assert(m.contains_key(a) && m.contains_key(b));
            }
        }
    }
}

/// A table tells three kinds of keys apart, and no fourth: those that it binds, those
/// that a longer bound sequence begins with, and the rest. What it says of the keys looks
/// at every bound sequence and at nothing else.
pub proof fn law_keys_open_what_begins_with_them<A>(m: Map<Seq<KeyInput>, A>, keys: Seq<KeyInput>)
    ensures
        opens(m, keys) <==> exists|s: Seq<KeyInput>| #[trigger]
            m.contains_key(s) && keys.is_prefix_of(s) && keys.len() < s.len(),
{
    if opens(m, keys) {
        let s = choose|s: Seq<KeyInput>| #[trigger] m.contains_key(s) && proper_prefix(keys, s);
        assert(s.take(keys.len() as int) =~= s.subrange(0, keys.len() as int));
        assert(keys.is_prefix_of(s));
    }
    if exists|s: Seq<KeyInput>| #[trigger]
        m.contains_key(s) && keys.is_prefix_of(s) && keys.len() < s.len() {
        let s = choose|s: Seq<KeyInput>| #[trigger]
            m.contains_key(s) && keys.is_prefix_of(s) && keys.len() < s.len();
        assert(s.take(keys.len() as int) =~= keys);
        assert(proper_prefix(keys, s));
    }
}

/// A bind is refused for a clash exactly where another bound sequence begins with the
/// keys, or the keys begin with another bound sequence.
pub proof fn law_clash_is_a_shared_beginning<A>(m: Map<Seq<KeyInput>, A>, keys: Seq<KeyInput>)
    ensures
        is_shadowed(m, keys) <==> exists|s: Seq<KeyInput>| #[trigger]
            m.contains_key(s) && s != keys && (keys.is_prefix_of(s) || s.is_prefix_of(keys)),
{
    if is_shadowed(m, keys) {
        let s = choose|s: Seq<KeyInput>| #[trigger] m.contains_key(s) && shadows(keys, s);
        if proper_prefix(keys, s) {
            assert(s.take(keys.len() as int) =~= s.subrange(0, keys.len() as int));
        } else {
            assert(keys.take(s.len() as int) =~= keys.subrange(0, s.len() as int));
        }
        assert(s != keys && (keys.is_prefix_of(s) || s.is_prefix_of(keys)));
    }
    if exists|s: Seq<KeyInput>| #[trigger]
        m.contains_key(s) && s != keys && (keys.is_prefix_of(s) || s.is_prefix_of(keys)) {
        let s = choose|s: Seq<KeyInput>| #[trigger]
            m.contains_key(s) && s != keys && (keys.is_prefix_of(s) || s.is_prefix_of(keys));
        if s.len() == keys.len() {
            assert(s =~= keys);
        }
        if keys.is_prefix_of(s) {
            assert(s.take(keys.len() as int) =~= keys);
        } else {
            assert(keys.take(s.len() as int) =~= s);
        }
        assert(shadows(keys, s));
    }
}

/// In a table that binds do not refuse, no bound sequence begins with another, and every
/// bound sequence has a key.
pub proof fn law_bound_sequences_do_not_begin_each_other<A>(
    m: Map<Seq<KeyInput>, A>,
    a: Seq<KeyInput>,
    b: Seq<KeyInput>,
)
    requires
        prefix_free(m),
        m.contains_key(a),
        m.contains_key(b),
    ensures
        a.len() > 0,
        a.is_prefix_of(b) ==> a == b,
{
    if a.len() == 0 {
        assert(a =~= Seq::<KeyInput>::empty());
    }
    if a.is_prefix_of(b) {
        if a.len() == b.len() {
            assert(a =~= b);
        } else {
            assert(b.take(a.len() as int) =~= a);
            assert(proper_prefix(a, b));
        }
    }
}

/// What may be pressed next is read off the bound sequences: a key is listed with the
/// action of the sequence that it completes, or as a prefix where a bound sequence goes
/// on after it.
pub proof fn law_continuation_is_the_next_key<A>(
    m: Map<Seq<KeyInput>, A>,
    prefix: Seq<KeyInput>,
    row: (KeyInput, Continuation<A>),
)
    requires
        continues(m, prefix, row),
    ensures
        row.1 matches Continuation::Action(a) ==> m.contains_key(prefix.push(row.0)) && *a
            == m[prefix.push(row.0)],
        row.1 is Prefix ==> exists|s: Seq<KeyInput>| #[trigger]
            m.contains_key(s) && prefix.push(row.0).is_prefix_of(s) && prefix.len() + 1 < s.len(),
{
    law_keys_open_what_begins_with_them(m, prefix.push(row.0));
}

/// The views of bindings are theirs, one by one.
pub proof fn law_binding_views_are_those_of_the_rows<A>(
    owned: Seq<(Vec<KeyInput>, A)>,
    lent: Seq<(Vec<KeyInput>, &A)>,
)
    ensures
        owned_views(owned).len() == owned.len(),
        forall|i: int|
            0 <= i < owned.len() ==> #[trigger] owned_views(owned)[i] == (owned[i].0@, owned[i].1),
        path_views(lent).len() == lent.len(),
        forall|i: int|
            0 <= i < lent.len() ==> #[trigger] path_views(lent)[i] == (lent[i].0@, *lent[i].1),
{
}

} // verus!
