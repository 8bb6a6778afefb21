//! The binding table.
use crate::input::KeyInput;
use crate::table::{distinct_keys, has_key, lemma_table_dom, lemma_table_len, lemma_table_row,
    lemma_table_unique, table_map};
use vstd::prelude::*;

verus! {

/// A table mapping normalized [`KeyInput`]s to a caller-defined action `A`.
///
/// `Keymap` is state-free: it answers "what is bound to this input?" and nothing
/// more. A lookup miss is an absence ([`None`]), not an error — the caller treats
/// it as "pass through".
///
/// Its model is the map from presses to actions.
#[derive(Debug)]
pub struct Keymap<A> {
    bindings: Vec<(KeyInput, A)>,
}

impl<A> View for Keymap<A> {
    type V = Map<KeyInput, A>;

    closed spec fn view(&self) -> Map<KeyInput, A> {
        table_map(self.bindings@)
    }
}

/// The position of the row with the given press, or the number of rows.
pub(crate) fn find_row<A>(rows: &Vec<(KeyInput, A)>, input: &KeyInput) -> (i: usize)
    ensures
        i <= rows.len(),
        i < rows.len() ==> rows@[i as int].0 == *input,
        i == rows.len() ==> !has_key(rows@, *input),
{
    let mut i: usize = 0;
    while i < rows.len()
        invariant
            i <= rows.len(),
            forall|j: int| 0 <= j < i ==> (#[trigger] rows@[j]).0 != *input,
        decreases rows.len() - i,
    {
        if rows[i].0 == *input {
            return i;
        }
        i = i + 1;
    }
    i
}

impl<A> Keymap<A> {
    #[verifier::type_invariant]
    spec fn inv(self) -> bool {
        distinct_keys(self.bindings@)
    }

    /// Creates an empty keymap.
    #[must_use]
    pub fn new() -> (m: Self)
        ensures
            m@ == Map::<KeyInput, A>::empty(),
    {
        Keymap { bindings: Vec::new() }
    }

    /// Binds `input` to `action`, returning the action previously bound to that
    /// input, if any.
    pub fn bind(&mut self, input: KeyInput, action: A) -> (old_action: Option<A>)
        ensures
            final(self)@ == old(self)@.insert(input, action),
            match old_action {
                Some(a) => old(self)@.contains_key(input) && a == old(self)@[input],
                None => !old(self)@.contains_key(input),
            },
    {
        proof {
            use_type_invariant(&*self);
        }
        let ghost before = self.bindings@;
        let mut rows: Vec<(KeyInput, A)> = Vec::new();
        core::mem::swap(&mut rows, &mut self.bindings);
        let i = find_row(&rows, &input);
        let mut old_action: Option<A> = None;
        proof {
            lemma_table_dom(before);
        }
        if i < rows.len() {
            proof {
                lemma_table_row(before, i as int);
            }
            let (_, a) = rows.swap_remove(i);
            old_action = Some(a);
        }
        let ghost middle = rows@;
        rows.push((input, action));
        proof {
            assert(distinct_keys(rows@));
            let m = table_map(before).insert(input, action);
            assert forall|j: int| 0 <= j < rows@.len() implies m.contains_key(
                (#[trigger] rows@[j]).0,
            ) && m[rows@[j].0] == rows@[j].1 by {
                if j < middle.len() {
                    let o = if i < before.len() && j == i {
                        before.len() - 1
                    } else {
                        j
                    };
                    assert(rows@[j] == before[o]);
                    lemma_table_row(before, o);
                }
            }
            assert forall|k: KeyInput| #[trigger] m.contains_key(k) implies has_key(rows@, k) by {
                if k == input {
                    assert(rows@[rows@.len() - 1].0 == k);
                } else {
                    let j = choose|j: int| 0 <= j < before.len() && (#[trigger] before[j]).0 == k;
                    if i < before.len() && j == before.len() - 1 {
                        assert(rows@[i as int].0 == k);
                    } else {
                        assert(rows@[j].0 == k);
                    }
                }
            }
            lemma_table_unique(rows@, m);
        }
        self.bindings = rows;
        old_action
    }

    /// Removes any binding for `input`, returning the action that was bound.
    pub fn unbind(&mut self, input: &KeyInput) -> (old_action: Option<A>)
        ensures
            final(self)@ == old(self)@.remove(*input),
            match old_action {
                Some(a) => old(self)@.contains_key(*input) && a == old(self)@[*input],
                None => !old(self)@.contains_key(*input),
            },
    {
        proof {
            use_type_invariant(&*self);
        }
        let ghost before = self.bindings@;
        let mut rows: Vec<(KeyInput, A)> = Vec::new();
        core::mem::swap(&mut rows, &mut self.bindings);
        let i = find_row(&rows, input);
        let mut old_action: Option<A> = None;
        proof {
            lemma_table_dom(before);
        }
        if i < rows.len() {
            proof {
                lemma_table_row(before, i as int);
            }
            let (_, a) = rows.swap_remove(i);
            old_action = Some(a);
            proof {
                let m = table_map(before).remove(*input);
                assert forall|j: int| 0 <= j < rows@.len() implies m.contains_key(
                    (#[trigger] rows@[j]).0,
                ) && m[rows@[j].0] == rows@[j].1 by {
                    let o = if j == i {
                        before.len() - 1
                    } else {
                        j
                    };
                    assert(rows@[j] == before[o]);
                    lemma_table_row(before, o);
                    assert(before[o].0 != before[i as int].0);
                }
                assert forall|k: KeyInput| #[trigger] m.contains_key(k) implies has_key(rows@, k) by {
                    let j = choose|j: int| 0 <= j < before.len() && (#[trigger] before[j]).0 == k;
                    if j == before.len() - 1 {
                        assert(rows@[i as int].0 == k);
                    } else {
                        assert(rows@[j].0 == k);
                    }
                }
                lemma_table_unique(rows@, m);
            }
        } else {
            assert(table_map(before).remove(*input) =~= table_map(before));
        }
        self.bindings = rows;
        old_action
    }

    /// Returns the action bound to `input`, or [`None`] if the input is unbound.
    #[must_use]
    pub fn get(&self, input: &KeyInput) -> (action: Option<&A>)
        ensures
            match action {
                Some(a) => self@.contains_key(*input) && *a == self@[*input],
                None => !self@.contains_key(*input),
            },
    {
        proof {
            use_type_invariant(self);
            lemma_table_dom(self.bindings@);
        }
        let i = find_row(&self.bindings, input);
        if i < self.bindings.len() {
            proof {
                lemma_table_row(self.bindings@, i as int);
            }
            Some(&self.bindings[i].1)
        } else {
            None
        }
    }

    /// Returns `true` if `input` has a binding.
    #[must_use]
    pub fn contains(&self, input: &KeyInput) -> (r: bool)
        ensures
            r == self@.contains_key(*input),
    {
        self.get(input).is_some()
    }

    /// The number of bindings in the table.
    #[must_use]
    pub fn len(&self) -> (n: usize)
        ensures
            n == self@.len(),
            self@.dom().finite(),
    {
        proof {
            use_type_invariant(self);
            lemma_table_len(self.bindings@);
            lemma_table_dom(self.bindings@);
        }
        self.bindings.len()
    }

    /// Returns `true` if the table has no bindings.
    #[must_use]
    pub fn is_empty(&self) -> (r: bool)
        ensures
            r == (self@ == Map::<KeyInput, A>::empty()),
    {
        proof {
            lemma_table_dom(self.bindings@);
            if self.bindings@.len() > 0 {
                assert(has_key(self.bindings@, self.bindings@[0].0));
                assert(self@.contains_key(self.bindings@[0].0));
            }
        }
        self.bindings.len() == 0
    }

    /// Every `(input, action)` binding, once each.
    ///
    /// Order is unspecified. This is the data source for listing and search
    /// built on top of the table.
    pub fn iter(&self) -> (rows: Vec<(&KeyInput, &A)>)
        ensures
            rows.len() == self@.len(),
            distinct_keys(rows@),
            forall|i: int|
                0 <= i < rows.len() ==> self@.contains_key(*(#[trigger] rows@[i]).0)
                    && self@[*rows@[i].0] == *rows@[i].1,
            forall|k: KeyInput| #[trigger]
                self@.contains_key(k) ==> exists|i: int|
                    0 <= i < rows.len() && *(#[trigger] rows@[i]).0 == k,
    {
        proof {
            use_type_invariant(self);
            lemma_table_dom(self.bindings@);
            lemma_table_len(self.bindings@);
        }
        let mut rows: Vec<(&KeyInput, &A)> = Vec::new();
        let mut i: usize = 0;
        while i < self.bindings.len()
            invariant
                i <= self.bindings.len(),
                rows.len() == i,
                forall|j: int|
                    0 <= j < i ==> *(#[trigger] rows@[j]).0 == self.bindings@[j].0 && *rows@[j].1
                        == self.bindings@[j].1,
            decreases self.bindings.len() - i,
        {
            let row = &self.bindings[i];
            rows.push((&row.0, &row.1));
            i = i + 1;
        }
        proof {
            assert forall|j: int| 0 <= j < rows.len() implies self@.contains_key(
                *(#[trigger] rows@[j]).0,
            ) && self@[*rows@[j].0] == *rows@[j].1 by {
                lemma_table_row(self.bindings@, j);
            }
            assert forall|k: KeyInput| #[trigger] self@.contains_key(k) implies exists|j: int|
                0 <= j < rows.len() && *(#[trigger] rows@[j]).0 == k by {
                let j = choose|j: int|
                    0 <= j < self.bindings@.len() && (#[trigger] self.bindings@[j]).0 == k;
                assert(*rows@[j].0 == k);
            }
        }
        rows
    }
}

impl<A> Default for Keymap<A> {
    fn default() -> (m: Self)
        ensures
            m@ == Map::<KeyInput, A>::empty(),
    {
        Keymap::new()
    }
}

impl<A: Clone> Clone for Keymap<A> {
    fn clone(&self) -> (m: Self)
        ensures
            m@.dom() == self@.dom(),
            forall|k: KeyInput| #[trigger]
                m@.contains_key(k) ==> cloned::<A>(self@[k], m@[k]),
    {
        proof {
            use_type_invariant(self);
        }
        let mut rows: Vec<(KeyInput, A)> = Vec::new();
        let mut i: usize = 0;
        while i < self.bindings.len()
            invariant
                i <= self.bindings.len(),
                rows.len() == i,
                forall|j: int|
                    0 <= j < i ==> (#[trigger] rows@[j]).0 == self.bindings@[j].0 && cloned::<A>(
                        self.bindings@[j].1,
                        rows@[j].1,
                    ),
            decreases self.bindings.len() - i,
        {
            let row = &self.bindings[i];
            rows.push((row.0, row.1.clone()));
            i = i + 1;
        }
        proof {
            lemma_table_dom(self.bindings@);
            lemma_table_dom(rows@);
            assert(distinct_keys(rows@)) by {
                assert forall|a: int, b: int| 0 <= a < b < rows.len() implies (#[trigger] rows@[a]).0
                    != (#[trigger] rows@[b]).0 by {
                    assert(self.bindings@[a].0 != self.bindings@[b].0);
                }
            }
            assert forall|k: KeyInput| #[trigger] table_map(rows@).contains_key(k) implies self@.contains_key(
                k,
            ) && cloned::<A>(self@[k], table_map(rows@)[k]) by {
                let j = choose|j: int| 0 <= j < rows@.len() && (#[trigger] rows@[j]).0 == k;
                lemma_table_row(rows@, j);
                lemma_table_row(self.bindings@, j);
            }
            assert forall|k: KeyInput| #[trigger] self@.contains_key(k) implies table_map(
                rows@,
            ).contains_key(k) by {
                let j = choose|j: int|
                    0 <= j < self.bindings@.len() && (#[trigger] self.bindings@[j]).0 == k;
                assert(rows@[j].0 == k);
            }
            assert(table_map(rows@).dom() =~= self@.dom());
        }
        Keymap { bindings: rows }
    }
}

/// What a stack of layers binds `input` to: the binding of the first layer that
/// has one.
pub open spec fn layered<A>(layers: Seq<&Keymap<A>>, input: KeyInput) -> Option<A>
    decreases layers.len(),
{
    if layers.len() == 0 {
        None
    } else if layers[0]@.contains_key(input) {
        Some(layers[0]@[input])
    } else {
        layered(layers.drop_first(), input)
    }
}

/// Resolves `input` against an ordered list of keymap layers, returning the
/// first match (earlier layers win).
///
/// This is how context-dependent bindings are expressed without the library
/// knowing anything about "contexts": the *caller* decides which layers are
/// active and in what priority order. A miss in every layer ([`None`]) is the
/// "pass through" signal.
pub fn resolve_layered<'a, A>(layers: &[&'a Keymap<A>], input: &KeyInput) -> (action: Option<&'a A>)
    ensures
        match action {
            Some(a) => layered(layers@, *input) == Some(*a),
            None => layered(layers@, *input) is None,
        },
{
    let mut i: usize = 0;
    assert(layers@.skip(0) =~= layers@);
    while i < layers.len()
        invariant
            i <= layers.len(),
            layered(layers@, *input) == layered(layers@.skip(i as int), *input),
        decreases layers.len() - i,
    {
        let layer: &'a Keymap<A> = layers[i];
        match layer.get(input) {
            Some(a) => return Some(a),
            None => {},
        }
        assert(layers@.skip(i as int).drop_first() =~= layers@.skip(i + 1));
        i = i + 1;
    }
    None
}

/// A stack of layers resolves an input exactly when some layer binds it, and then
/// as the first such layer does.
pub proof fn law_first_layer_wins<A>(layers: Seq<&Keymap<A>>, input: KeyInput)
    ensures
        layered(layers, input) is None <==> forall|i: int|
            0 <= i < layers.len() ==> !(#[trigger] layers[i])@.contains_key(input),
        forall|i: int|
            0 <= i < layers.len() && (#[trigger] layers[i])@.contains_key(input) && (forall|j: int|
                0 <= j < i ==> !(#[trigger] layers[j])@.contains_key(input)) ==> layered(
                layers,
                input,
            ) == Some(layers[i]@[input]),
    decreases layers.len(),
{
    if layers.len() > 0 {
        let rest = layers.drop_first();
        law_first_layer_wins(rest, input);
        assert forall|i: int|
            0 <= i < layers.len() && (#[trigger] layers[i])@.contains_key(input) && (forall|j: int|
                0 <= j < i ==> !(#[trigger] layers[j])@.contains_key(input)) implies layered(
            layers,
            input,
        ) == Some(layers[i]@[input]) by {
            if i > 0 {
                assert(rest[i - 1] == layers[i]);
                assert forall|j: int| 0 <= j < i - 1 implies !(#[trigger] rest[j])@.contains_key(
                    input,
                ) by {
                    assert(rest[j] == layers[j + 1]);
                }
                assert(!layers[0]@.contains_key(input));
            }
        }
        if forall|i: int| 0 <= i < layers.len() ==> !(#[trigger] layers[i])@.contains_key(input) {
            assert forall|i: int| 0 <= i < rest.len() implies !(#[trigger] rest[i])@.contains_key(
                input,
            ) by {
                assert(rest[i] == layers[i + 1]);
            }
        }
        if layered(layers, input) is None {
            assert forall|i: int| 0 <= i < layers.len() implies !(#[trigger] layers[i])@.contains_key(
                input,
            ) by {
                if i > 0 {
                    assert(rest[i - 1] == layers[i]);
                }
            }
        }
    }
}

} // verus!
