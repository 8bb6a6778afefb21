//! Merging a base configuration (defaults) with an overlay (user config).
use crate::capture::texts;
use crate::config::{layers_are, BuildOutput};
use crate::grammar::{chord_text, law_spelling_is_injective};
use crate::input::KeyInput;
use crate::keymap::Keymap;
use crate::names::{ascending, lemma_ascending_distinct, lists, row_views, NameMap};
use crate::sequence::{is_shadowed, owned_views, prefix_free, proper_prefix, shadows, SeqBindError,
    SequenceKeymap};
use crate::table::{distinct_keys, has_key, lemma_table_dom, lemma_table_row, table_map};
use crate::warning::{render_sequence, rendered};
use vstd::prelude::*;

verus! {

/// The result of a [`merge`] operation: the merged output plus advisory notes.
///
/// Notes are kept separate from [`BuildOutput::warnings`], so that callers gating on
/// warnings are not triggered by legitimate override operations.
#[derive(Debug)]
pub struct Merged<A> {
    /// The merged build output. Its `warnings` are those of the base, then those of
    /// the overlay.
    pub output: BuildOutput<A>,
    /// Advisory notes about the merge: overrides, unbinds, and dropped sequences.
    pub notes: Vec<MergeNote>,
}

/// An advisory note emitted by [`merge`]. Chords are in canonical form.
#[derive(Debug, Clone, PartialEq, Eq)]
pub enum MergeNote {
    /// The overlay bound `chord` in `layer`, overriding an existing binding in the
    /// base.
    Overrode {
        /// The layer name in which the override occurred.
        layer: String,
        /// The chord that was overridden.
        chord: String,
    },
    /// The overlay declared `chord` in `layer` as a tombstone (`= false`), and the
    /// chord was removed from the base layer.
    Unbound {
        /// The layer name from which the chord was removed.
        layer: String,
        /// The removed chord.
        chord: String,
    },
    /// The overlay's `unbinds` contained a tombstone for `chord` in `layer`, but the
    /// base had no binding for that chord — the tombstone was a no-op.
    UnbindMiss {
        /// The layer name.
        layer: String,
        /// The chord that was not found in the base.
        chord: String,
    },
    /// A sequence from the base was dropped because it shared a prefix with a
    /// sequence in the overlay.
    DroppedSequence {
        /// The chords of the dropped base sequence, one canonical string per key.
        sequence: Vec<String>,
    },
}

/// What a [`MergeNote`] says.
pub enum NoteView {
    /// See [`MergeNote::Overrode`].
    Overrode { layer: Seq<char>, chord: Seq<char> },
    /// See [`MergeNote::Unbound`].
    Unbound { layer: Seq<char>, chord: Seq<char> },
    /// See [`MergeNote::UnbindMiss`].
    UnbindMiss { layer: Seq<char>, chord: Seq<char> },
    /// See [`MergeNote::DroppedSequence`].
    DroppedSequence { sequence: Seq<Seq<char>> },
}

impl View for MergeNote {
    type V = NoteView;

    open spec fn view(&self) -> NoteView {
        match *self {
            MergeNote::Overrode { layer, chord } => NoteView::Overrode {
                layer: layer@,
                chord: chord@,
            },
            MergeNote::Unbound { layer, chord } => NoteView::Unbound {
                layer: layer@,
                chord: chord@,
            },
            MergeNote::UnbindMiss { layer, chord } => NoteView::UnbindMiss {
                layer: layer@,
                chord: chord@,
            },
            MergeNote::DroppedSequence { sequence } => NoteView::DroppedSequence {
                sequence: texts(sequence@),
            },
        }
    }
}

/// What a list of notes says.
pub open spec fn note_views(notes: Seq<MergeNote>) -> Seq<NoteView> {
    notes.map_values(|n: MergeNote| n@)
}

/// The bindings of a layer that are left when the chords are unbound.
pub open spec fn stripped<A>(m: Map<KeyInput, A>, chords: Seq<KeyInput>) -> Map<KeyInput, A> {
    Map::new(|k: KeyInput| m.contains_key(k) && !chords.contains(k), |k: KeyInput| m[k])
}

/// The note on the `i`th of the chords to unbind: it was bound, or not, or not any
/// more.
pub open spec fn unbind_note<A>(
    layer: Seq<char>,
    m: Map<KeyInput, A>,
    chords: Seq<KeyInput>,
    i: int,
) -> NoteView {
    if m.contains_key(chords[i]) && !chords.take(i).contains(chords[i]) {
        NoteView::Unbound { layer, chord: chord_text(chords[i]) }
    } else {
        NoteView::UnbindMiss { layer, chord: chord_text(chords[i]) }
    }
}

/// The bindings of a layer of the name; none where there is no such layer.
pub open spec fn bindings_in<A>(layers: Map<Seq<char>, Keymap<A>>, name: Seq<char>) -> Map<
    KeyInput,
    A,
> {
    if layers.contains_key(name) {
        layers[name]@
    } else {
        Map::empty()
    }
}

/// The chords declared unbound for a layer of the name; none where there is no such
/// declaration.
pub open spec fn unbinds_in(unbinds: Map<Seq<char>, Vec<KeyInput>>, name: Seq<char>) -> Seq<
    KeyInput,
> {
    if unbinds.contains_key(name) {
        unbinds[name]@
    } else {
        Seq::empty()
    }
}

/// The notes on the declarations of one layer.
pub open spec fn layer_unbind_notes<A>(
    layer: Seq<char>,
    m: Map<KeyInput, A>,
    chords: Seq<KeyInput>,
) -> Seq<NoteView> {
    Seq::new(chords.len(), |i: int| unbind_note(layer, m, chords, i))
}

/// The notes on the declarations of the layers, one after the other.
pub open spec fn unbind_notes<A>(
    base: Map<Seq<char>, Keymap<A>>,
    rows: Seq<(Seq<char>, Vec<KeyInput>)>,
) -> Seq<NoteView>
    decreases rows.len(),
{
    if rows.len() == 0 {
        Seq::empty()
    } else {
        unbind_notes(base, rows.drop_last()) + layer_unbind_notes(
            rows.last().0,
            bindings_in(base, rows.last().0),
            rows.last().1@,
        )
    }
}

/// What the base binds in a layer of the name once the declarations of the overlay
/// are applied.
pub open spec fn cleared<A>(
    base: Map<Seq<char>, Keymap<A>>,
    unbinds: Map<Seq<char>, Vec<KeyInput>>,
    name: Seq<char>,
) -> Map<KeyInput, A> {
    stripped(bindings_in(base, name), unbinds_in(unbinds, name))
}

/// The layers of the merge: those of either side, in which the overlay wins chord by
/// chord.
pub open spec fn merged_layers<A>(
    base: Map<Seq<char>, Keymap<A>>,
    overlay: Map<Seq<char>, Keymap<A>>,
    unbinds: Map<Seq<char>, Vec<KeyInput>>,
) -> Map<Seq<char>, Map<KeyInput, A>> {
    Map::new(
        |n: Seq<char>| base.contains_key(n) || overlay.contains_key(n),
        |n: Seq<char>|
            cleared(base, unbinds, n).union_prefer_right(bindings_in(overlay, n)),
    )
}

/// The chords are those that both sides bind, each once.
pub open spec fn are_overrides<A>(
    base: Map<KeyInput, A>,
    overlay: Map<KeyInput, A>,
    chords: Seq<KeyInput>,
) -> bool {
    &&& chords.no_duplicates()
    &&& forall|c: KeyInput| #[trigger]
        chords.contains(c) <==> base.contains_key(c) && overlay.contains_key(c)
}

/// The notes on the overridden chords of the layers, one layer after the other.
pub open spec fn override_notes(
    names: Seq<Seq<char>>,
    chords: Seq<Seq<KeyInput>>,
) -> Seq<NoteView>
    decreases names.len(),
{
    if names.len() == 0 {
        Seq::empty()
    } else {
        let layer = names.last();
        override_notes(names.drop_last(), chords) + chords[names.len() - 1].map_values(
            |c: KeyInput| NoteView::Overrode { layer, chord: chord_text(c) },
        )
    }
}

/// The sequences of the merge: those of the overlay, and those of the base that no
/// sequence of the overlay clashes with.
pub open spec fn merged_sequences<A>(
    base: Map<Seq<KeyInput>, A>,
    overlay: Map<Seq<KeyInput>, A>,
) -> Map<Seq<KeyInput>, A> {
    Map::new(
        |s: Seq<KeyInput>|
            overlay.contains_key(s) || (base.contains_key(s) && !is_shadowed(overlay, s)),
        |s: Seq<KeyInput>|
            if overlay.contains_key(s) {
                overlay[s]
            } else {
                base[s]
            },
    )
}

/// The sequences are those of the base that clash with one of the overlay, each
/// once.
pub open spec fn are_dropped<A>(
    base: Map<Seq<KeyInput>, A>,
    overlay: Map<Seq<KeyInput>, A>,
    dropped: Seq<Seq<KeyInput>>,
) -> bool {
    &&& dropped.no_duplicates()
    &&& forall|s: Seq<KeyInput>| #[trigger]
        dropped.contains(s) <==> base.contains_key(s) && is_shadowed(overlay, s)
}

/// The notes on the dropped sequences.
pub open spec fn drop_notes(dropped: Seq<Seq<KeyInput>>) -> Seq<NoteView> {
    dropped.map_values(
        |s: Seq<KeyInput>| NoteView::DroppedSequence { sequence: rendered(s) },
    )
}

/// What a merge went through: the declarations and the layers of the overlay in
/// ascending order of names, the chords that each layer overrode, and the sequences
/// that were dropped. The order of the chords, and that of the sequences, is not
/// fixed.
pub struct MergeTrace<A> {
    /// The declarations of the overlay.
    pub unbinds: Seq<(Seq<char>, Vec<KeyInput>)>,
    /// The layers of the overlay.
    pub layers: Seq<(Seq<char>, Keymap<A>)>,
    /// The overridden chords of each layer.
    pub overrides: Seq<Seq<KeyInput>>,
    /// The dropped sequences.
    pub dropped: Seq<Seq<KeyInput>>,
}

/// The names of the rows.
pub open spec fn row_names<V>(rows: Seq<(Seq<char>, V)>) -> Seq<Seq<char>> {
    rows.map_values(|r: (Seq<char>, V)| r.0)
}

/// The trace is one of merging the two, and the notes are those that it gives.
pub open spec fn notes_trace<A>(
    base: BuildOutput<A>,
    overlay: BuildOutput<A>,
    t: MergeTrace<A>,
    notes: Seq<NoteView>,
) -> bool {
    &&& lists(t.unbinds, overlay.unbinds@)
    &&& lists(t.layers, overlay.layers@)
    &&& t.overrides.len() == t.layers.len()
    &&& forall|i: int|
        0 <= i < t.layers.len() ==> are_overrides(
            cleared(base.layers@, overlay.unbinds@, t.layers[i].0),
            t.layers[i].1@,
            #[trigger] t.overrides[i],
        )
    &&& are_dropped(base.sequences@, overlay.sequences@, t.dropped)
    &&& notes == unbind_notes(base.layers@, t.unbinds) + override_notes(
        row_names(t.layers),
        t.overrides,
    ) + drop_notes(t.dropped)
}

/// Removes the chords from a layer, noting what was there.
fn strip_layer<A>(
    keymap: &mut Keymap<A>,
    name: &String,
    chords: &Vec<KeyInput>,
    notes: &mut Vec<MergeNote>,
)
    ensures
        final(keymap)@ == stripped(old(keymap)@, chords@),
        note_views(final(notes)@) == note_views(old(notes)@) + layer_unbind_notes(
            name@,
            old(keymap)@,
            chords@,
        ),
{
    let ghost m = keymap@;
    let ghost start = note_views(notes@);
    let mut i: usize = 0;
    assert(chords@.take(0) =~= Seq::<KeyInput>::empty());
    assert(keymap@ =~= stripped(m, chords@.take(0)));
    assert(layer_unbind_notes(name@, m, chords@).take(0) =~= Seq::<NoteView>::empty());
    assert(start =~= start + layer_unbind_notes(name@, m, chords@).take(0));
    while i < chords.len()
        invariant
            i <= chords.len(),
            keymap@ == stripped(m, chords@.take(i as int)),
            note_views(notes@) == start + layer_unbind_notes(name@, m, chords@).take(i as int),
        decreases chords.len() - i,
    {
        let c = chords[i];
        let ghost before = keymap@;
        let ghost noted = note_views(notes@);
        let removed = keymap.unbind(&c);
        let note = if removed.is_some() {
            MergeNote::Unbound { layer: name.clone(), chord: c.to_string() }
        } else {
            MergeNote::UnbindMiss { layer: name.clone(), chord: c.to_string() }
        };
        let ghost view = note@;
        notes.push(note);
        proof {
            let done = chords@.take(i as int);
            let next = chords@.take(i + 1);
            assert(next =~= done.push(c));
            assert forall|k: KeyInput| #[trigger] next.contains(k) <==> done.contains(k) || k == c by {
                if done.contains(k) {
                    let j = choose|j: int| 0 <= j < done.len() && done[j] == k;
                    assert(next[j] == k);
                }
                assert(next[done.len() as int] == c);
            }
            assert(keymap@ =~= stripped(m, next));
            assert(view == unbind_note(name@, m, chords@, i as int));
            let all = layer_unbind_notes(name@, m, chords@);
            assert(all.take(i + 1) =~= all.take(i as int).push(view));
            assert(note_views(notes@) =~= noted.push(view));
            assert(start + all.take(i + 1) =~= (start + all.take(i as int)).push(view));
        }
        i = i + 1;
    }
    proof {
        assert(chords@.take(i as int) =~= chords@);
        let all = layer_unbind_notes(name@, m, chords@);
        assert(all.take(i as int) =~= all);
    }
}

/// The layers are those of the base, once the first declarations are applied.
spec fn cleared_upto<A>(
    layers: Map<Seq<char>, Keymap<A>>,
    base: Map<Seq<char>, Keymap<A>>,
    done: Map<Seq<char>, Vec<KeyInput>>,
) -> bool {
    &&& layers.dom() == base.dom()
    &&& forall|n: Seq<char>| #[trigger]
        layers.contains_key(n) ==> layers[n]@ == cleared(base, done, n)
}

/// Applies the unbind declarations of the overlay to the layers of the base.
fn apply_unbinds<A>(
    layers: &mut NameMap<Keymap<A>>,
    rows: Vec<(String, Vec<KeyInput>)>,
    notes: &mut Vec<MergeNote>,
)
    requires
        ascending(row_views(rows@)),
    ensures
        cleared_upto(final(layers)@, old(layers)@, table_map(row_views(rows@))),
        note_views(final(notes)@) == note_views(old(notes)@) + unbind_notes(
            old(layers)@,
            row_views(rows@),
        ),
{
    let ghost base = layers@;
    let ghost start = note_views(notes@);
    let ghost v = row_views(rows@);
    let mut i: usize = 0;
    proof {
        lemma_ascending_distinct(v);
        assert(v.take(0) =~= Seq::<(Seq<char>, Vec<KeyInput>)>::empty());
        assert(start =~= start + unbind_notes(base, v.take(0)));
        let done = table_map(v.take(0));
        assert forall|n: Seq<char>| #[trigger] layers@.contains_key(n) implies layers@[n]@ == cleared(
            base,
            done,
            n,
        ) by {
            assert(cleared(base, done, n) =~= base[n]@);
        }
    }
    while i < rows.len()
        invariant
            i <= rows.len(),
            v == row_views(rows@),
            distinct_keys(v),
            cleared_upto(layers@, base, table_map(v.take(i as int))),
            note_views(notes@) == start + unbind_notes(base, v.take(i as int)),
        decreases rows.len() - i,
    {
        let name = &rows[i].0;
        let chords = &rows[i].1;
        let ghost done = table_map(v.take(i as int));
        let ghost next = table_map(v.take(i + 1));
        let ghost layers0 = layers@;
        proof {
            assert(v.take(i + 1).drop_last() =~= v.take(i as int));
            assert(v.take(i + 1).last() == v[i as int]);
            assert(next == done.insert(name@, *chords));
            lemma_table_dom(v.take(i as int));
            assert(!done.contains_key(name@)) by {
                if done.contains_key(name@) {
                    let f = v.take(i as int);
                    let j = choose|j: int| 0 <= j < f.len() && (#[trigger] f[j]).0 == name@;
                    assert(v[j].0 != v[i as int].0);
                }
            }
            assert(bindings_in(layers0, name@) =~= bindings_in(base, name@)) by {
                if layers0.contains_key(name@) {
                    assert(base.dom().contains(name@));
                    assert(cleared(base, done, name@) =~= base[name@]@);
                } else {
                    assert(!base.dom().contains(name@));
                }
            }
        }
        match layers.remove(name.as_str()) {
            Some(mut keymap) => {
                strip_layer(&mut keymap, name, chords, notes);
                layers.insert(name.clone(), keymap);
                proof {
                    assert(layers@.dom() =~= base.dom());
                }
            },
            None => {
                let mut keymap: Keymap<A> = Keymap::new();
                strip_layer(&mut keymap, name, chords, notes);
                proof {
                    assert(layers@ =~= layers0);
                }
            },
        }
        proof {
            assert forall|n: Seq<char>| #[trigger] layers@.contains_key(n) implies layers@[n]@ == cleared(
                base,
                next,
                n,
            ) by {
                if n == name@ {
                    assert(layers0.contains_key(n));
                    assert(unbinds_in(next, n) == chords@);
                } else {
                    assert(layers0.contains_key(n));
                    assert(unbinds_in(next, n) == unbinds_in(done, n));
                }
            }
            assert(start + unbind_notes(base, v.take(i + 1)) =~= (start + unbind_notes(
                base,
                v.take(i as int),
            )) + layer_unbind_notes(name@, bindings_in(base, name@), chords@));
        }
        i = i + 1;
    }
    assert(v.take(i as int) =~= v);
}

/// Moves the bindings of an overlay layer into a base layer, noting the chords that
/// were there.
fn override_layer<A>(
    target: &mut Keymap<A>,
    source: Keymap<A>,
    name: &String,
    notes: &mut Vec<MergeNote>,
) -> (chords: Ghost<Seq<KeyInput>>)
    ensures
        final(target)@ == old(target)@.union_prefer_right(source@),
        are_overrides(old(target)@, source@, chords@),
        note_views(final(notes)@) == note_views(old(notes)@) + chords@.map_values(
            |c: KeyInput| NoteView::Overrode { layer: name@, chord: chord_text(c) },
        ),
{
    let ghost base = target@;
    let ghost over = source@;
    let ghost start = note_views(notes@);
    let ghost tell = |c: KeyInput| NoteView::Overrode { layer: name@, chord: chord_text(c) };
    let ghost mut hit: Seq<KeyInput> = Seq::empty();
    let mut keys: Vec<KeyInput> = Vec::new();
    {
        let rows = source.iter();
        let mut i: usize = 0;
        while i < rows.len()
            invariant
                i <= rows.len(),
                keys.len() == i,
                forall|j: int| 0 <= j < i ==> #[trigger] keys@[j] == *rows@[j].0,
            decreases rows.len() - i,
        {
            keys.push(*rows[i].0);
            i = i + 1;
        }
        proof {
            assert forall|k: KeyInput| #[trigger] over.contains_key(k) implies keys@.contains(k) by {
                let j = choose|j: int| 0 <= j < rows.len() && *(#[trigger] rows@[j]).0 == k;
                assert(keys@[j] == k);
            }
            assert forall|a: int, b: int| 0 <= a < b < keys.len() implies keys@[a] != keys@[b] by {
                assert(rows@[a].0 != rows@[b].0);
            }
            assert forall|j: int| 0 <= j < keys.len() implies over.contains_key(#[trigger] keys@[j]) by {
                assert(over.contains_key(*rows@[j].0));
            }
        }
    }
    let mut rest = source;
    let mut i: usize = 0;
    assert(start + hit.map_values(tell) =~= start);
    assert(keys@.take(0) =~= Seq::<KeyInput>::empty());
    while i < keys.len()
        invariant
            i <= keys.len(),
            tell == (|c: KeyInput| NoteView::Overrode { layer: name@, chord: chord_text(c) }),
            forall|j: int| 0 <= j < keys.len() ==> over.contains_key(#[trigger] keys@[j]),
            forall|a: int, b: int| 0 <= a < b < keys.len() ==> keys@[a] != keys@[b],
            forall|k: KeyInput| #[trigger] over.contains_key(k) ==> keys@.contains(k),
            forall|k: KeyInput| #[trigger]
                rest@.contains_key(k) <==> over.contains_key(k) && !keys@.take(i as int).contains(
                    k,
                ),
            forall|k: KeyInput| #[trigger] rest@.contains_key(k) ==> rest@[k] == over[k],
            forall|k: KeyInput| #[trigger]
                target@.contains_key(k) <==> base.contains_key(k) || keys@.take(
                    i as int,
                ).contains(k),
            forall|k: KeyInput| #[trigger]
                target@.contains_key(k) ==> target@[k] == (if keys@.take(i as int).contains(k) {
                    over[k]
                } else {
                    base[k]
                }),
            hit.no_duplicates(),
            forall|k: KeyInput| #[trigger]
                hit.contains(k) <==> base.contains_key(k) && keys@.take(i as int).contains(k),
            note_views(notes@) == start + hit.map_values(tell),
        decreases keys.len() - i,
    {
        let c = keys[i];
        let ghost done = keys@.take(i as int);
        let ghost next = keys@.take(i + 1);
        proof {
            assert(next =~= done.push(c));
            assert forall|k: KeyInput| #[trigger] next.contains(k) <==> done.contains(k) || k == c by {
                if done.contains(k) {
                    let j = choose|j: int| 0 <= j < done.len() && done[j] == k;
                    assert(next[j] == k);
                }
                assert(next[done.len() as int] == c);
            }
            assert(!done.contains(c)) by {
                if done.contains(c) {
                    let j = choose|j: int| 0 <= j < done.len() && done[j] == c;
                    assert(keys@[j] != keys@[i as int]);
                }
            }
        }
        if target.contains(&c) {
            let ghost noted = note_views(notes@);
            let ghost hit0 = hit;
            let note = MergeNote::Overrode { layer: name.clone(), chord: c.to_string() };
            let ghost view = note@;
            notes.push(note);
            proof {
                hit = hit.push(c);
                assert(!hit0.contains(c));
                assert forall|k: KeyInput| #[trigger] hit.contains(k) <==> hit0.contains(k) || k == c by {
                    if hit0.contains(k) {
                        let j = choose|j: int| 0 <= j < hit0.len() && hit0[j] == k;
                        assert(hit[j] == k);
                    }
                    assert(hit[hit0.len() as int] == c);
                }
                assert(note_views(notes@) =~= noted.push(view));
                assert(hit.map_values(tell) =~= hit0.map_values(tell).push(view));
                assert(start + hit.map_values(tell) =~= (start + hit0.map_values(tell)).push(view));
            }
        }
        match rest.unbind(&c) {
            Some(action) => {
                target.bind(c, action);
            },
            None => {
                assert(over.contains_key(c));
                assert(false);
            },
        }
        i = i + 1;
    }
    proof {
        assert(keys@.take(i as int) =~= keys@);
        assert forall|k: KeyInput| #[trigger] keys@.contains(k) <==> over.contains_key(k) by {}
        assert(target@ =~= base.union_prefer_right(over));
    }
    Ghost(hit)
}

/// What the layers are once the first layers of the overlay are applied.
spec fn merged_upto<A>(
    layers: Map<Seq<char>, Keymap<A>>,
    base: Map<Seq<char>, Keymap<A>>,
    done: Map<Seq<char>, Keymap<A>>,
) -> bool {
    &&& forall|n: Seq<char>| #[trigger]
        layers.contains_key(n) <==> base.contains_key(n) || done.contains_key(n)
    &&& forall|n: Seq<char>| #[trigger]
        layers.contains_key(n) ==> layers[n]@ == bindings_in(base, n).union_prefer_right(
            bindings_in(done, n),
        )
}

/// Moves the layers of the overlay into those of the base.
fn apply_layers<A>(
    layers: &mut NameMap<Keymap<A>>,
    rows: Vec<(String, Keymap<A>)>,
    notes: &mut Vec<MergeNote>,
) -> (overrides: Ghost<Seq<Seq<KeyInput>>>)
    requires
        ascending(row_views(rows@)),
    ensures
        merged_upto(final(layers)@, old(layers)@, table_map(row_views(rows@))),
        overrides@.len() == rows@.len(),
        forall|i: int|
            0 <= i < rows@.len() ==> are_overrides(
                bindings_in(old(layers)@, rows@[i].0@),
                rows@[i].1@,
                #[trigger] overrides@[i],
            ),
        note_views(final(notes)@) == note_views(old(notes)@) + override_notes(
            row_names(row_views(rows@)),
            overrides@,
        ),
{
    let ghost base = layers@;
    let ghost start = note_views(notes@);
    let ghost v = row_views(rows@);
    let ghost names = row_names(v);
    let ghost mut overrides: Seq<Seq<KeyInput>> = Seq::empty();
    let mut rest = rows;
    proof {
        lemma_ascending_distinct(v);
        assert(rest@ =~= rows@.skip(0));
        assert(v.take(0) =~= Seq::<(Seq<char>, Keymap<A>)>::empty());
        assert(names.take(0) =~= Seq::<Seq<char>>::empty());
        assert(start =~= start + override_notes(names.take(0), overrides));
        assert forall|n: Seq<char>| #[trigger] layers@.contains_key(n) implies layers@[n]@
            == bindings_in(base, n).union_prefer_right(bindings_in(table_map(v.take(0)), n)) by {
            assert(bindings_in(base, n).union_prefer_right(bindings_in(table_map(v.take(0)), n))
                =~= base[n]@);
        }
    }
    while rest.len() > 0
        invariant
            v == row_views(rows@),
            names == row_names(v),
            distinct_keys(v),
            overrides.len() + rest.len() == rows@.len(),
            rest@ == rows@.skip(overrides.len() as int),
            merged_upto(layers@, base, table_map(v.take(overrides.len() as int))),
            forall|i: int|
                0 <= i < overrides.len() ==> are_overrides(
                    bindings_in(base, rows@[i].0@),
                    rows@[i].1@,
                    #[trigger] overrides[i],
                ),
            note_views(notes@) == start + override_notes(
                names.take(overrides.len() as int),
                overrides,
            ),
        decreases rest.len(),
    {
        let ghost n = overrides.len() as int;
        let (name, source) = rest.remove(0);
        let ghost over = source@;
        let ghost done = table_map(v.take(n));
        let ghost next = table_map(v.take(n + 1));
        let ghost layers0 = layers@;
        proof {
            assert(rows@[n] == (name, source));
            assert(v[n] == (name@, source));
            assert(v.take(n + 1).drop_last() =~= v.take(n));
            assert(v.take(n + 1).last() == v[n]);
            assert(next == done.insert(name@, source));
            lemma_table_dom(v.take(n));
            assert(!done.contains_key(name@)) by {
                if done.contains_key(name@) {
                    let f = v.take(n);
                    let j = choose|j: int| 0 <= j < f.len() && (#[trigger] f[j]).0 == name@;
                    assert(v[j].0 != v[n].0);
                }
            }
        }
        let mut target = match layers.remove(name.as_str()) {
            Some(keymap) => keymap,
            None => Keymap::new(),
        };
        proof {
            assert(target@ =~= bindings_in(base, name@)) by {
                if layers0.contains_key(name@) {
                    assert(bindings_in(base, name@).union_prefer_right(bindings_in(done, name@))
                        =~= bindings_in(base, name@));
                }
            }
        }
        let hit = override_layer(&mut target, source, &name, notes);
        layers.insert(name.clone(), target);
        let ghost overrides0 = overrides;
        proof {
            overrides = overrides.push(hit@);
            assert forall|i: int| 0 <= i < overrides.len() implies are_overrides(
                bindings_in(base, rows@[i].0@),
                rows@[i].1@,
                #[trigger] overrides[i],
            ) by {
                if i < n {
                    assert(overrides[i] == overrides0[i]);
                }
            }
            assert forall|k: Seq<char>| #[trigger] layers@.contains_key(k) implies layers@[k]@
                == bindings_in(base, k).union_prefer_right(bindings_in(next, k)) by {
                if k != name@ {
                    assert(layers0.contains_key(k));
                    assert(bindings_in(next, k) == bindings_in(done, k));
                } else {
                    assert(bindings_in(next, k) == over);
                }
            }
            assert(names.take(n + 1).drop_last() =~= names.take(n));
            assert(names.take(n + 1).last() == name@);
            lemma_override_notes_front(names.take(n), overrides0, overrides);
            let tell = |c: KeyInput| NoteView::Overrode { layer: name@, chord: chord_text(c) };
            assert(override_notes(names.take(n + 1), overrides) =~= override_notes(
                names.take(n),
                overrides,
            ) + hit@.map_values(tell));
            assert(note_views(notes@) =~= start + override_notes(names.take(n + 1), overrides));
        }
        assert(rest@ =~= rows@.skip(overrides.len() as int));
    }
    proof {
        assert(v.take(overrides.len() as int) =~= v);
        assert(names.take(overrides.len() as int) =~= names);
    }
    Ghost(overrides)
}

/// The notes of the first layers depend on their chords only.
proof fn lemma_override_notes_front(
    names: Seq<Seq<char>>,
    a: Seq<Seq<KeyInput>>,
    b: Seq<Seq<KeyInput>>,
)
    requires
        names.len() <= a.len(),
        forall|i: int| 0 <= i < names.len() ==> #[trigger] a[i] == b[i],
    ensures
        override_notes(names, a) == override_notes(names, b),
    decreases names.len(),
{
    if names.len() > 0 {
        lemma_override_notes_front(names.drop_last(), a, b);
        assert(a[names.len() - 1] == b[names.len() - 1]);
    }
}

/// Whether two sequences clash: one is a proper prefix of the other.
fn clashes(a: &Vec<KeyInput>, b: &Vec<KeyInput>) -> (r: bool)
    ensures
        r == shadows(a@, b@),
{
    let n = if a.len() < b.len() {
        a.len()
    } else {
        b.len()
    };
    if a.len() == b.len() {
        return false;
    }
    let mut i: usize = 0;
    while i < n
        invariant
            i <= n,
            a.len() != b.len(),
            n == (if a.len() < b.len() {
                a.len()
            } else {
                b.len()
            }),
            forall|j: int| 0 <= j < i ==> a@[j] == b@[j],
        decreases n - i,
    {
        if a[i] != b[i] {
            proof {
                if proper_prefix(a@, b@) {
                    assert(b@.take(a@.len() as int)[i as int] == b@[i as int]);
                }
                if proper_prefix(b@, a@) {
                    assert(a@.take(b@.len() as int)[i as int] == a@[i as int]);
                }
            }
            return false;
        }
        i = i + 1;
    }
    proof {
        if a.len() < b.len() {
            assert(b@.take(a@.len() as int) =~= a@);
        } else {
            assert(a@.take(b@.len() as int) =~= b@);
        }
    }
    true
}

/// Whether a sequence clashes with one of the rows.
fn clashes_any<A>(keys: &Vec<KeyInput>, rows: &Vec<(Vec<KeyInput>, A)>) -> (r: bool)
    ensures
        r == is_shadowed(table_map(owned_views(rows@)), keys@),
{
    let ghost v = owned_views(rows@);
    proof {
        lemma_table_dom(v);
    }
    let mut i: usize = 0;
    while i < rows.len()
        invariant
            i <= rows.len(),
            v == owned_views(rows@),
            forall|s: Seq<KeyInput>| #[trigger] table_map(v).contains_key(s) <==> has_key(v, s),
            forall|j: int| 0 <= j < i ==> !shadows(keys@, (#[trigger] v[j]).0),
        decreases rows.len() - i,
    {
        assert(v[i as int].0 == rows@[i as int].0@);
        if clashes(keys, &rows[i].0) {
            assert(has_key(v, v[i as int].0));
            assert(table_map(v).contains_key(v[i as int].0));
            return true;
        }
        i = i + 1;
    }
    proof {
        if is_shadowed(table_map(v), keys@) {
            let s = choose|s: Seq<KeyInput>| #[trigger]
                table_map(v).contains_key(s) && shadows(keys@, s);
            let j = choose|j: int| 0 <= j < v.len() && (#[trigger] v[j]).0 == s;
            assert(!shadows(keys@, v[j].0));
        }
    }
    false
}

/// The merged sequences are prefix-free.
proof fn lemma_merged_prefix_free<A>(base: Map<Seq<KeyInput>, A>, overlay: Map<Seq<KeyInput>, A>)
    requires
        prefix_free(base),
        prefix_free(overlay),
    ensures
        prefix_free(merged_sequences(base, overlay)),
{
    let m = merged_sequences(base, overlay);
    assert forall|a: Seq<KeyInput>, b: Seq<KeyInput>|
        #![trigger m.contains_key(a), m.contains_key(b)]
        m.contains_key(a) && m.contains_key(b) implies !proper_prefix(a, b) by {
        if proper_prefix(a, b) {
            if overlay.contains_key(a) && !overlay.contains_key(b) {
                assert(shadows(b, a));
            } else if overlay.contains_key(b) && !overlay.contains_key(a) {
                assert(shadows(a, b));
            }
        }
    }
}

/// Binds rows of a prefix-free table into a part of it.
fn bind_all<A>(
    sequences: &mut SequenceKeymap<A>,
    rows: Vec<(Vec<KeyInput>, A)>,
    Ghost(whole): Ghost<Map<Seq<KeyInput>, A>>,
)
    requires
        prefix_free(whole),
        distinct_keys(owned_views(rows@)),
        forall|s: Seq<KeyInput>| #[trigger] old(sequences)@.contains_key(s) ==> whole.contains_key(s),
        forall|i: int| 0 <= i < rows@.len() ==> whole.contains_key((#[trigger] rows@[i]).0@),
    ensures
        final(sequences)@ == old(sequences)@.union_prefer_right(table_map(owned_views(rows@))),
{
    let ghost start = sequences@;
    let ghost v = owned_views(rows@);
    let ghost mut done: int = 0;
    let mut rest = rows;
    assert(rest@ =~= rows@.skip(0));
    assert(v.take(0) =~= Seq::<(Seq<KeyInput>, A)>::empty());
    assert(start.union_prefer_right(table_map(v.take(0))) =~= start);
    while rest.len() > 0
        invariant
            prefix_free(whole),
            v == owned_views(rows@),
            0 <= done <= rows@.len(),
            rest@ == rows@.skip(done),
            forall|s: Seq<KeyInput>| #[trigger] start.contains_key(s) ==> whole.contains_key(s),
            forall|i: int| 0 <= i < rows@.len() ==> whole.contains_key((#[trigger] rows@[i]).0@),
            forall|s: Seq<KeyInput>| #[trigger]
                sequences@.contains_key(s) ==> whole.contains_key(s),
            sequences@ == start.union_prefer_right(table_map(v.take(done))),
        decreases rest.len(),
    {
        let ghost before = sequences@;
        let (keys, action) = rest.remove(0);
        proof {
            assert(rows@[done] == (keys, action));
            assert(whole.contains_key(keys@));
            assert(v[done] == (keys@, action));
            assert(v.take(done + 1).drop_last() =~= v.take(done));
            assert(v.take(done + 1).last() == v[done]);
            assert(keys@.len() > 0) by {
                if keys@.len() == 0 {
                    assert(keys@ =~= Seq::<KeyInput>::empty());
                }
            }
        }
        let r = sequences.bind(keys.as_slice(), action);
        match r {
            Ok(_) => {},
            Err(SeqBindError::Empty) => {
                assert(false);
            },
            Err(SeqBindError::PrefixShadow { sequence, conflict }) => {
                proof {
                    assert(whole.contains_key(conflict@));
                    assert(false);
                }
            },
        }
        proof {
            assert(sequences@ =~= start.union_prefer_right(table_map(v.take(done + 1))));
            done = done + 1;
        }
        assert(rest@ =~= rows@.skip(done));
    }
    assert(v.take(done) =~= v);
}

/// The rows are parted into those to keep, and the sequences that clash.
spec fn parted<A>(
    overlay: Map<Seq<KeyInput>, A>,
    rows: Seq<(Seq<KeyInput>, A)>,
    kept: Seq<(Seq<KeyInput>, A)>,
    dropped: Seq<Seq<KeyInput>>,
) -> bool {
    &&& distinct_keys(kept)
    &&& dropped.no_duplicates()
    &&& forall|i: int|
        0 <= i < kept.len() ==> rows.contains(#[trigger] kept[i]) && !is_shadowed(
            overlay,
            kept[i].0,
        )
    &&& forall|i: int|
        0 <= i < rows.len() && !is_shadowed(overlay, rows[i].0) ==> kept.contains(
            #[trigger] rows[i],
        )
    &&& forall|i: int|
        0 <= i < dropped.len() ==> has_key(rows, #[trigger] dropped[i]) && is_shadowed(
            overlay,
            dropped[i],
        )
    &&& forall|i: int|
        0 <= i < rows.len() && is_shadowed(overlay, rows[i].0) ==> dropped.contains(
            (#[trigger] rows[i]).0,
        )
}

/// Parting one more row, which clashes.
proof fn lemma_parted_drop<A>(
    overlay: Map<Seq<KeyInput>, A>,
    rows: Seq<(Seq<KeyInput>, A)>,
    row: (Seq<KeyInput>, A),
    kept: Seq<(Seq<KeyInput>, A)>,
    dropped: Seq<Seq<KeyInput>>,
)
    requires
        parted(overlay, rows, kept, dropped),
        distinct_keys(rows.push(row)),
        is_shadowed(overlay, row.0),
    ensures
        parted(overlay, rows.push(row), kept, dropped.push(row.0)),
{
    let next = rows.push(row);
    let more = dropped.push(row.0);
    assert(next[rows.len() as int] == row);
    assert forall|i: int| 0 <= i < kept.len() implies next.contains(#[trigger] kept[i]) by {
        let j = choose|j: int| 0 <= j < rows.len() && rows[j] == kept[i];
        assert(next[j] == kept[i]);
    }
    assert forall|i: int| 0 <= i < next.len() && !is_shadowed(overlay, next[i].0) implies kept.contains(
        #[trigger] next[i],
    ) by {
        assert(next[i] == rows[i]);
    }
    assert forall|i: int| 0 <= i < dropped.len() implies has_key(next, #[trigger] dropped[i])
        && dropped[i] != row.0 by {
        let j = choose|j: int| 0 <= j < rows.len() && (#[trigger] rows[j]).0 == dropped[i];
        assert(next[j].0 == dropped[i]);
        assert(next[j].0 != next[rows.len() as int].0);
    }
    assert forall|i: int| 0 <= i < more.len() implies has_key(next, #[trigger] more[i])
        && is_shadowed(overlay, more[i]) by {
        if i < dropped.len() {
            assert(more[i] == dropped[i]);
        }
    }
    assert forall|i: int| 0 <= i < next.len() && is_shadowed(overlay, next[i].0) implies more.contains(
        (#[trigger] next[i]).0,
    ) by {
        if i < rows.len() {
            assert(dropped.contains(rows[i].0));
            let k = choose|k: int| 0 <= k < dropped.len() && dropped[k] == rows[i].0;
            assert(more[k] == next[i].0);
        } else {
            assert(more[dropped.len() as int] == next[i].0);
        }
    }
    assert(more.no_duplicates());
}

/// Parting one more row, which clashes with nothing.
proof fn lemma_parted_keep<A>(
    overlay: Map<Seq<KeyInput>, A>,
    rows: Seq<(Seq<KeyInput>, A)>,
    row: (Seq<KeyInput>, A),
    kept: Seq<(Seq<KeyInput>, A)>,
    dropped: Seq<Seq<KeyInput>>,
)
    requires
        parted(overlay, rows, kept, dropped),
        distinct_keys(rows.push(row)),
        !is_shadowed(overlay, row.0),
    ensures
        parted(overlay, rows.push(row), kept.push(row), dropped),
{
    let next = rows.push(row);
    let more = kept.push(row);
    assert(next[rows.len() as int] == row);
    assert forall|i: int| 0 <= i < kept.len() implies next.contains(#[trigger] kept[i]) && kept[i].0
        != row.0 by {
        let j = choose|j: int| 0 <= j < rows.len() && rows[j] == kept[i];
        assert(next[j] == kept[i]);
        assert(next[j].0 != next[rows.len() as int].0);
    }
    assert forall|i: int| 0 <= i < more.len() implies next.contains(#[trigger] more[i])
        && !is_shadowed(overlay, more[i].0) by {
        if i < kept.len() {
            assert(more[i] == kept[i]);
        }
    }
    assert forall|i: int| 0 <= i < next.len() && !is_shadowed(overlay, next[i].0) implies more.contains(
        #[trigger] next[i],
    ) by {
        if i < rows.len() {
            assert(kept.contains(rows[i]));
            let k = choose|k: int| 0 <= k < kept.len() && kept[k] == rows[i];
            assert(more[k] == next[i]);
        } else {
            assert(more[kept.len() as int] == next[i]);
        }
    }
    assert forall|i: int| 0 <= i < dropped.len() implies has_key(next, #[trigger] dropped[i]) by {
        let j = choose|j: int| 0 <= j < rows.len() && (#[trigger] rows[j]).0 == dropped[i];
        assert(next[j].0 == dropped[i]);
    }
    assert forall|i: int| 0 <= i < next.len() && is_shadowed(overlay, next[i].0) implies dropped.contains(
        (#[trigger] next[i]).0,
    ) by {
        assert(next[i] == rows[i]);
    }
    assert forall|a: int, b: int| 0 <= a < b < more.len() implies (#[trigger] more[a]).0 != (
    #[trigger] more[b]).0 by {
        assert(more[a] == kept[a]);
        if b < kept.len() {
            assert(more[b] == kept[b]);
        }
    }
}

/// What parting all rows of the base comes to.
proof fn lemma_parted_all<A>(
    base: Map<Seq<KeyInput>, A>,
    overlay: Map<Seq<KeyInput>, A>,
    rows: Seq<(Seq<KeyInput>, A)>,
    kept: Seq<(Seq<KeyInput>, A)>,
    dropped: Seq<Seq<KeyInput>>,
)
    requires
        distinct_keys(rows),
        base == table_map(rows),
        parted(overlay, rows, kept, dropped),
    ensures
        are_dropped(base, overlay, dropped),
        forall|s: Seq<KeyInput>| #[trigger]
            table_map(kept).contains_key(s) <==> base.contains_key(s) && !is_shadowed(overlay, s),
        forall|s: Seq<KeyInput>| #[trigger]
            table_map(kept).contains_key(s) ==> table_map(kept)[s] == base[s],
{
    lemma_table_dom(rows);
    lemma_table_dom(kept);
    assert forall|s: Seq<KeyInput>| #[trigger] dropped.contains(s) <==> base.contains_key(s)
        && is_shadowed(overlay, s) by {
        if dropped.contains(s) {
            let i = choose|i: int| 0 <= i < dropped.len() && dropped[i] == s;
            assert(has_key(rows, dropped[i]));
        }
        if base.contains_key(s) && is_shadowed(overlay, s) {
            let j = choose|j: int| 0 <= j < rows.len() && (#[trigger] rows[j]).0 == s;
            assert(dropped.contains(rows[j].0));
        }
    }
    assert forall|s: Seq<KeyInput>| #[trigger]
        table_map(kept).contains_key(s) implies base.contains_key(s) && !is_shadowed(overlay, s)
        && table_map(kept)[s] == base[s] by {
        let i = choose|i: int| 0 <= i < kept.len() && (#[trigger] kept[i]).0 == s;
        lemma_table_row(kept, i);
        let j = choose|j: int| 0 <= j < rows.len() && rows[j] == kept[i];
        lemma_table_row(rows, j);
    }
    assert forall|s: Seq<KeyInput>|
        base.contains_key(s) && !is_shadowed(overlay, s) implies #[trigger] table_map(
        kept,
    ).contains_key(s) by {
        let j = choose|j: int| 0 <= j < rows.len() && (#[trigger] rows[j]).0 == s;
        let i = choose|i: int| 0 <= i < kept.len() && kept[i] == rows[j];
        assert(kept[i].0 == s);
    }
}

/// Merges the sequences of the overlay into those of the base.
fn merge_sequences<A>(
    base: SequenceKeymap<A>,
    overlay: SequenceKeymap<A>,
    notes: &mut Vec<MergeNote>,
) -> (r: (SequenceKeymap<A>, Ghost<Seq<Seq<KeyInput>>>))
    ensures
        r.0@ == merged_sequences(base@, overlay@),
        are_dropped(base@, overlay@, (r.1)@),
        note_views(final(notes)@) == note_views(old(notes)@) + drop_notes((r.1)@),
{
    let ghost bm = base@;
    let ghost om = overlay@;
    let ghost start = note_views(notes@);
    let ghost mut dropped: Seq<Seq<KeyInput>> = Seq::empty();
    let over_rows = overlay.into_bindings();
    let base_rows = base.into_bindings();
    let ghost ov = owned_views(over_rows@);
    let ghost bv = owned_views(base_rows@);
    let ghost whole = merged_sequences(bm, om);
    let mut kept: Vec<(Vec<KeyInput>, A)> = Vec::new();
    let mut rest = base_rows;
    let ghost mut done: int = 0;
    proof {
        lemma_merged_prefix_free(bm, om);
        assert(start + drop_notes(dropped) =~= start);
        assert(rest@ =~= base_rows@.skip(0));
        assert(bv.take(0) =~= Seq::<(Seq<KeyInput>, A)>::empty());
        assert(parted(om, bv.take(0), owned_views(kept@), dropped));
    }
    while rest.len() > 0
        invariant
            om == table_map(owned_views(over_rows@)),
            bv == owned_views(base_rows@),
            distinct_keys(bv),
            0 <= done <= base_rows@.len(),
            rest@ == base_rows@.skip(done),
            parted(om, bv.take(done), owned_views(kept@), dropped),
            note_views(notes@) == start + drop_notes(dropped),
        decreases rest.len(),
    {
        let (keys, action) = rest.remove(0);
        let ghost rows = bv.take(done);
        let ghost row = bv[done];
        proof {
            assert(base_rows@[done] == (keys, action));
            assert(row == (keys@, action));
            assert(bv.take(done + 1) =~= rows.push(row));
            assert(distinct_keys(bv.take(done + 1)));
        }
        let ghost kept0 = owned_views(kept@);
        let ghost dropped0 = dropped;
        if clashes_any(&keys, &over_rows) {
            let ghost noted = note_views(notes@);
            let note = MergeNote::DroppedSequence { sequence: render_sequence(keys.as_slice()) };
            let ghost view = note@;
            notes.push(note);
            proof {
                dropped = dropped.push(keys@);
                lemma_parted_drop(om, rows, row, kept0, dropped0);
                assert(note_views(notes@) =~= noted.push(view));
                assert(drop_notes(dropped) =~= drop_notes(dropped0).push(view));
                assert(start + drop_notes(dropped) =~= (start + drop_notes(dropped0)).push(view));
            }
        } else {
            kept.push((keys, action));
            proof {
                lemma_parted_keep(om, rows, row, kept0, dropped0);
                assert(owned_views(kept@) =~= kept0.push(row));
            }
        }
        proof {
            done = done + 1;
        }
        assert(rest@ =~= base_rows@.skip(done));
    }
    let ghost kv = owned_views(kept@);
    proof {
        assert(bv.take(done) =~= bv);
        lemma_parted_all(bm, om, bv, kv, dropped);
        lemma_table_dom(kv);
        lemma_table_dom(ov);
        assert forall|i: int| 0 <= i < kept@.len() implies whole.contains_key(
            (#[trigger] kept@[i]).0@,
        ) by {
            assert(kv[i].0 == kept@[i].0@);
            lemma_table_row(kv, i);
        }
        assert forall|i: int| 0 <= i < over_rows@.len() implies whole.contains_key(
            (#[trigger] over_rows@[i]).0@,
        ) by {
            assert(ov[i].0 == over_rows@[i].0@);
            lemma_table_row(ov, i);
        }
    }
    let mut sequences: SequenceKeymap<A> = SequenceKeymap::new();
    bind_all(&mut sequences, kept, Ghost(whole));
    proof {
        assert(sequences@ =~= table_map(kv));
    }
    bind_all(&mut sequences, over_rows, Ghost(whole));
    assert(sequences@ =~= whole);
    (sequences, Ghost(dropped))
}

/// Merges a `base` (defaults) [`BuildOutput`] with an `overlay` (user config)
/// [`BuildOutput`], returning the combined result with advisory notes.
///
/// - **Layers**: the layer sets are unioned. In a layer of both, the overlay chord
///   wins silently; a [`MergeNote::Overrode`] is emitted for each.
/// - **Tombstones** (`overlay.unbinds`): each chord is removed from the base layer
///   before the bindings are merged, noted as [`MergeNote::Unbound`], or
///   [`MergeNote::UnbindMiss`] when it was absent.
/// - **Sequences**: the overlay's sequences win. A base sequence that shares a prefix
///   with one of them is dropped and noted as [`MergeNote::DroppedSequence`].
/// - **Warnings**: those of the base, then those of the overlay.
#[must_use]
pub fn merge<A>(base: BuildOutput<A>, overlay: BuildOutput<A>) -> (merged: Merged<A>)
    ensures
        layers_are(
            merged.output.layers@,
            merged_layers(base.layers@, overlay.layers@, overlay.unbinds@),
        ),
        merged.output.sequences@ == merged_sequences(base.sequences@, overlay.sequences@),
        merged.output.warnings@ == base.warnings@ + overlay.warnings@,
        merged.output.unbinds@ == base.unbinds@,
        exists|t: MergeTrace<A>| #[trigger]
            notes_trace(base, overlay, t, note_views(merged.notes@)),
{
    let ghost base0 = base;
    let ghost overlay0 = overlay;
    let BuildOutput { mut layers, sequences, mut warnings, unbinds } = base;
    let BuildOutput {
        layers: over_layers,
        sequences: over_sequences,
        warnings: mut over_warnings,
        unbinds: over_unbinds,
    } = overlay;
    let mut notes: Vec<MergeNote> = Vec::new();
    warnings.append(&mut over_warnings);
    let ghost bl = layers@;
    let ghost ub = over_unbinds@;
    let ghost ol = over_layers@;
    let unbind_rows = over_unbinds.into_rows();
    let ghost uv = row_views(unbind_rows@);
    apply_unbinds(&mut layers, unbind_rows, &mut notes);
    let ghost cl = layers@;
    let layer_rows = over_layers.into_rows();
    let ghost lv = row_views(layer_rows@);
    let overrides = apply_layers(&mut layers, layer_rows, &mut notes);
    proof {
        assert forall|n: Seq<char>| #[trigger] bindings_in(cl, n) == cleared(bl, ub, n) by {
            if cl.contains_key(n) {
                assert(cl.dom().contains(n));
            } else {
                assert(!bl.dom().contains(n)) by {
                    assert(!cl.dom().contains(n));
                }
                assert(cleared(bl, ub, n) =~= Map::<KeyInput, A>::empty());
            }
        }
        let want = merged_layers(bl, ol, ub);
        assert forall|n: Seq<char>| #[trigger] cl.contains_key(n) == bl.contains_key(n) by {
            assert(cl.dom().contains(n) == bl.dom().contains(n));
        }
        assert(layers@.dom() =~= want.dom());
        assert forall|n: Seq<char>| #[trigger] layers@.contains_key(n) implies layers@[n]@ == want[n] by {
            assert(bindings_in(cl, n) == cleared(bl, ub, n));
        }
    }
    let (sequences, dropped) = merge_sequences(sequences, over_sequences, &mut notes);
    let merged = Merged { output: BuildOutput { layers, sequences, warnings, unbinds }, notes };
    proof {
        let t = MergeTrace {
            unbinds: uv,
            layers: lv,
            overrides: overrides@,
            dropped: dropped@,
        };
        assert forall|i: int| 0 <= i < t.layers.len() implies are_overrides(
            cleared(bl, ub, t.layers[i].0),
            t.layers[i].1@,
            #[trigger] t.overrides[i],
        ) by {
            assert(bindings_in(cl, layer_rows@[i].0@) == cleared(bl, ub, layer_rows@[i].0@));
        }
        assert(note_views(merged.notes@) =~= unbind_notes(bl, t.unbinds) + override_notes(
            row_names(t.layers),
            t.overrides,
        ) + drop_notes(t.dropped));
        assert(notes_trace(base0, overlay0, t, note_views(merged.notes@)));
    }
    merged
}

/// Merging never loses a binding of the overlay: what the user bound resolves as the
/// user bound it.
pub proof fn law_overlay_wins<A>(
    base: Map<Seq<char>, Keymap<A>>,
    overlay: Map<Seq<char>, Keymap<A>>,
    unbinds: Map<Seq<char>, Vec<KeyInput>>,
    name: Seq<char>,
    c: KeyInput,
)
    requires
        overlay.contains_key(name),
        overlay[name]@.contains_key(c),
    ensures
        merged_layers(base, overlay, unbinds).contains_key(name),
        merged_layers(base, overlay, unbinds)[name].contains_key(c),
        merged_layers(base, overlay, unbinds)[name][c] == overlay[name]@[c],
{
}

/// A chord that the overlay neither binds nor declares unbound keeps its base
/// binding, and one that it only declares unbound has none.
pub proof fn law_untouched_chords_stay<A>(
    base: Map<Seq<char>, Keymap<A>>,
    overlay: Map<Seq<char>, Keymap<A>>,
    unbinds: Map<Seq<char>, Vec<KeyInput>>,
    name: Seq<char>,
    c: KeyInput,
)
    requires
        base.contains_key(name),
        !bindings_in(overlay, name).contains_key(c),
    ensures
        unbinds_in(unbinds, name).contains(c) ==> !merged_layers(base, overlay, unbinds)[name].contains_key(c),
        !unbinds_in(unbinds, name).contains(c) ==> (merged_layers(base, overlay, unbinds)[name].contains_key(c) <==> base[name]@.contains_key(c)),
        !unbinds_in(unbinds, name).contains(c) && base[name]@.contains_key(c) ==> merged_layers(base, overlay, unbinds)[name][c] == base[name]@[c],
{
}

/// The merged sequences are those of both sides, less the base ones that clash, and
/// are prefix-free: no lookup in them needs a timeout.
pub proof fn law_merged_sequences_are_prefix_free<A>(
    base: Map<Seq<KeyInput>, A>,
    overlay: Map<Seq<KeyInput>, A>,
)
    requires
        prefix_free(base),
        prefix_free(overlay),
    ensures
        prefix_free(merged_sequences(base, overlay)),
{
    lemma_merged_prefix_free(base, overlay);
}

/// Merging with an overlay that says nothing changes no binding.
pub proof fn law_empty_overlay_is_identity<A>(
    base: Map<Seq<char>, Keymap<A>>,
    sequences: Map<Seq<KeyInput>, A>,
    name: Seq<char>,
)
    requires
        base.contains_key(name),
    ensures
        merged_layers(base, Map::empty(), Map::empty()).dom() == base.dom(),
        merged_layers(base, Map::empty(), Map::empty())[name] == base[name]@,
        merged_sequences(sequences, Map::empty()) == sequences,
{
    let e = Map::<Seq<char>, Keymap<A>>::empty();
    let u = Map::<Seq<char>, Vec<KeyInput>>::empty();
    assert(merged_layers(base, e, u).dom() =~= base.dom());
    assert(merged_layers(base, e, u)[name] =~= base[name]@);
    assert(merged_sequences(sequences, Map::empty()) =~= sequences);
}

/// The texts are the canonical spellings of the keys, one for each.
pub open spec fn spells_keys(texts: Seq<Seq<char>>, keys: Seq<KeyInput>) -> bool {
    &&& texts.len() == keys.len()
    &&& forall|i: int| 0 <= i < keys.len() ==> #[trigger] texts[i] == chord_text(keys[i])
}

/// A sequence of the overlay clashes with `s`: one of the two begins with the other.
pub open spec fn touches<A>(overlay: Map<Seq<KeyInput>, A>, s: Seq<KeyInput>) -> bool {
    exists|t: Seq<KeyInput>| #[trigger]
        overlay.contains_key(t) && (t.is_prefix_of(s) || s.is_prefix_of(t))
}

/// The overlay is laid over the base sequence by sequence: every sequence of the overlay
/// is bound as the overlay binds it; a sequence of the base that neither begins one of the
/// overlay nor begins with one is bound as the base binds it; any other sequence of the
/// base is gone; and nothing else is bound.
pub proof fn law_sequences_of_both_sides_are_bound<A>(
    base: Map<Seq<KeyInput>, A>,
    overlay: Map<Seq<KeyInput>, A>,
    s: Seq<KeyInput>,
)
    ensures
        ({
            let merged = merged_sequences(base, overlay);
            &&& overlay.contains_key(s) ==> merged.contains_key(s) && merged[s] == overlay[s]
            &&& base.contains_key(s) && !touches(overlay, s) ==> merged.contains_key(s) && merged[s]
                == base[s]
            &&& touches(overlay, s) && !overlay.contains_key(s) ==> !merged.contains_key(s)
            &&& merged.contains_key(s) ==> base.contains_key(s) || overlay.contains_key(s)
        }),
{
    let merged = merged_sequences(base, overlay);
    if overlay.contains_key(s) {
        assert(s.is_prefix_of(s));
    } else if touches(overlay, s) {
        let t = choose|t: Seq<KeyInput>| #[trigger]
            overlay.contains_key(t) && (t.is_prefix_of(s) || s.is_prefix_of(t));
        if t.len() == s.len() {
            assert(t =~= s);
        }
        if t.is_prefix_of(s) {
            assert(s.take(t.len() as int) =~= t);
        } else {
            assert(t.take(s.len() as int) =~= s);
        }
        assert(shadows(s, t));
        assert(is_shadowed(overlay, s));
    } else if is_shadowed(overlay, s) {
        let t = choose|t: Seq<KeyInput>| #[trigger] overlay.contains_key(t) && shadows(s, t);
        assert(t.is_prefix_of(s) || s.is_prefix_of(t)) by {
            if proper_prefix(s, t) {
                assert(t.take(s.len() as int) =~= t.subrange(0, s.len() as int));
            } else {
                assert(s.take(t.len() as int) =~= s.subrange(0, t.len() as int));
            }
        }
    }
}

/// Nothing is lost in silence: a sequence of the base is missing from the merge exactly
/// where a note says that it was dropped, by the spellings of its keys; and such a note
/// speaks of nothing else.
pub proof fn law_dropped_sequences_are_noted<A>(
    base: BuildOutput<A>,
    overlay: BuildOutput<A>,
    t: MergeTrace<A>,
    notes: Seq<NoteView>,
    s: Seq<KeyInput>,
)
    requires
        notes_trace(base, overlay, t, notes),
    ensures
        ({
            let merged = merged_sequences(base.sequences@, overlay.sequences@);
            base.sequences@.contains_key(s) && !merged.contains_key(s) ==> exists|i: int|
                0 <= i < notes.len() && (#[trigger] notes[i] matches NoteView::DroppedSequence {
                    sequence,
                } && spells_keys(sequence, s))
        }),
        prefix_free(overlay.sequences@) ==> forall|i: int|
            0 <= i < notes.len() && #[trigger] notes[i] is DroppedSequence ==> exists|d: Seq<KeyInput>|
                {
                    &&& spells_keys(notes[i]->sequence, d)
                    &&& base.sequences@.contains_key(d)
                    &&& !#[trigger] merged_sequences(
                        base.sequences@,
                        overlay.sequences@,
                    ).contains_key(d)
                },
{
    let merged = merged_sequences(base.sequences@, overlay.sequences@);
    let u = unbind_notes(base.layers@, t.unbinds);
    let o = override_notes(row_names(t.layers), t.overrides);
    let d = drop_notes(t.dropped);
    lemma_unbind_notes(base.layers@, t.unbinds);
    lemma_override_notes(row_names(t.layers), t.overrides);
    if base.sequences@.contains_key(s) && !merged.contains_key(s) {
        assert(t.dropped.contains(s));
        let j = choose|j: int| 0 <= j < t.dropped.len() && t.dropped[j] == s;
        let i = u.len() + o.len() + j;
        assert(notes[i] == d[j]);
        assert(spells_keys(notes[i]->sequence, s));
    }
    if prefix_free(overlay.sequences@) {
        assert forall|i: int|
            0 <= i < notes.len() && #[trigger] notes[i] is DroppedSequence implies exists|d: Seq<
            KeyInput,
        >|
            {
                &&& spells_keys(notes[i]->sequence, d)
                &&& base.sequences@.contains_key(d)
                &&& !#[trigger] merged_sequences(base.sequences@, overlay.sequences@).contains_key(
                    d,
                )
            } by {
            if i < u.len() {
                assert(notes[i] == u[i]);
            } else if i < u.len() + o.len() {
                assert(notes[i] == o[i - u.len()]);
            } else {
                let j = i - u.len() - o.len();
                assert(notes[i] == d[j]);
                let x = t.dropped[j];
                assert(t.dropped.contains(x));
                let y = choose|y: Seq<KeyInput>| #[trigger]
                    overlay.sequences@.contains_key(y) && shadows(x, y);
                assert(!overlay.sequences@.contains_key(x));
                assert(!merged.contains_key(x));
                assert(spells_keys(notes[i]->sequence, x));
            }
        }
    }
}

/// Every note on a declaration is an unbind note of the layer and one of its chords, and
/// every chord of every declaration has its note.
proof fn lemma_unbind_notes<A>(
    base: Map<Seq<char>, Keymap<A>>,
    rows: Seq<(Seq<char>, Vec<KeyInput>)>,
)
    ensures
        forall|i: int|
            0 <= i < unbind_notes(base, rows).len() ==> exists|r: int, j: int|
                0 <= r < rows.len() && 0 <= j < rows[r].1@.len() && #[trigger] unbind_notes(
                    base,
                    rows,
                )[i] == #[trigger] unbind_note(
                    rows[r].0,
                    bindings_in(base, rows[r].0),
                    rows[r].1@,
                    j,
                ),
        forall|r: int, j: int|
            0 <= r < rows.len() && 0 <= j < rows[r].1@.len() ==> unbind_notes(base, rows).contains(
                #[trigger] unbind_note(rows[r].0, bindings_in(base, rows[r].0), rows[r].1@, j),
            ),
    decreases rows.len(),
{
    if rows.len() > 0 {
        let init = rows.drop_last();
        lemma_unbind_notes(base, init);
        let a = unbind_notes(base, init);
        let last = rows.last();
        let b = layer_unbind_notes(last.0, bindings_in(base, last.0), last.1@);
        let all = unbind_notes(base, rows);
        assert(all == a + b);
        assert forall|i: int| 0 <= i < all.len() implies exists|r: int, j: int|
            0 <= r < rows.len() && 0 <= j < rows[r].1@.len() && #[trigger] all[i]
                == #[trigger] unbind_note(rows[r].0, bindings_in(base, rows[r].0), rows[r].1@, j) by {
            if i < a.len() {
                assert(all[i] == a[i]);
                let (r, j) = choose|r: int, j: int|
                    0 <= r < init.len() && 0 <= j < init[r].1@.len() && a[i]
                        == #[trigger] unbind_note(
                        init[r].0,
                        bindings_in(base, init[r].0),
                        init[r].1@,
                        j,
                    );
                assert(init[r] == rows[r]);
                assert(all[i] == unbind_note(
                    rows[r].0,
                    bindings_in(base, rows[r].0),
                    rows[r].1@,
                    j,
                ));
            } else {
                let r = rows.len() - 1;
                assert(all[i] == unbind_note(
                    rows[r].0,
                    bindings_in(base, rows[r].0),
                    rows[r].1@,
                    i - a.len(),
                ));
            }
        }
        assert forall|r: int, j: int|
            0 <= r < rows.len() && 0 <= j < rows[r].1@.len() implies all.contains(
            #[trigger] unbind_note(rows[r].0, bindings_in(base, rows[r].0), rows[r].1@, j),
        ) by {
            let note = unbind_note(rows[r].0, bindings_in(base, rows[r].0), rows[r].1@, j);
            if r < rows.len() - 1 {
                assert(init[r] == rows[r]);
                assert(a.contains(
                    unbind_note(init[r].0, bindings_in(base, init[r].0), init[r].1@, j),
                ));
                let i = choose|i: int| 0 <= i < a.len() && a[i] == note;
                assert(all[i] == note);
            } else {
                assert(all[a.len() + j] == note);
            }
        }
    }
}

/// Every note on an override is one of the layer and one of its chords, and every chord
/// of every layer has its note.
proof fn lemma_override_notes(names: Seq<Seq<char>>, chords: Seq<Seq<KeyInput>>)
    ensures
        forall|i: int|
            0 <= i < override_notes(names, chords).len() ==> exists|r: int, j: int|
                0 <= r < names.len() && 0 <= j < chords[r].len() && #[trigger] override_notes(
                    names,
                    chords,
                )[i] == (NoteView::Overrode {
                    layer: names[r],
                    chord: chord_text(#[trigger] chords[r][j]),
                }),
        forall|r: int, j: int|
            0 <= r < names.len() && 0 <= j < chords[r].len() ==> override_notes(
                names,
                chords,
            ).contains(
                (NoteView::Overrode { layer: names[r], chord: chord_text(#[trigger] chords[r][j]) }),
            ),
    decreases names.len(),
{
    if names.len() > 0 {
        let init = names.drop_last();
        lemma_override_notes(init, chords);
        let layer = names.last();
        let a = override_notes(init, chords);
        let b = chords[names.len() - 1].map_values(
            |c: KeyInput| NoteView::Overrode { layer, chord: chord_text(c) },
        );
        let all = override_notes(names, chords);
        assert(all == a + b);
        assert forall|i: int| 0 <= i < all.len() implies exists|r: int, j: int|
            0 <= r < names.len() && 0 <= j < chords[r].len() && #[trigger] all[i] == (
            NoteView::Overrode { layer: names[r], chord: chord_text(#[trigger] chords[r][j]) }) by {
            if i < a.len() {
                assert(all[i] == a[i]);
                let (r, j) = choose|r: int, j: int|
                    0 <= r < init.len() && 0 <= j < chords[r].len() && a[i] == (
                    NoteView::Overrode {
                        layer: init[r],
                        chord: chord_text(#[trigger] chords[r][j]),
                    });
                assert(init[r] == names[r]);
                assert(chords[r][j] == chords[r][j]);
            } else {
                let r = names.len() - 1;
                assert(all[i] == b[i - a.len()]);
                assert(chords[r][i - a.len()] == chords[r][i - a.len()]);
            }
        }
        assert forall|r: int, j: int|
            0 <= r < names.len() && 0 <= j < chords[r].len() implies all.contains(
            (NoteView::Overrode { layer: names[r], chord: chord_text(#[trigger] chords[r][j]) }),
        ) by {
            let note = NoteView::Overrode { layer: names[r], chord: chord_text(chords[r][j]) };
            if r < names.len() - 1 {
                assert(init[r] == names[r]);
                assert(a.contains(note));
                let i = choose|i: int| 0 <= i < a.len() && a[i] == note;
                assert(all[i] == note);
            } else {
                assert(b[j] == note);
                assert(all[a.len() + j] == note);
            }
        }
    }
}

/// The overlay is laid over the base chord by chord: a chord of a layer of the merge is
/// bound as the overlay binds it there; else, unless the overlay declares it unbound
/// there, as the base does; and the layers of the merge are those of either side.
pub proof fn law_layers_are_merged_chord_by_chord<A>(
    base: Map<Seq<char>, Keymap<A>>,
    overlay: Map<Seq<char>, Keymap<A>>,
    unbinds: Map<Seq<char>, Vec<KeyInput>>,
    layers: Map<Seq<char>, Keymap<A>>,
    name: Seq<char>,
    c: KeyInput,
)
    requires
        layers_are(layers, merged_layers(base, overlay, unbinds)),
    ensures
        layers.contains_key(name) <==> base.contains_key(name) || overlay.contains_key(name),
        ({
            let over = overlay.contains_key(name) && overlay[name]@.contains_key(c);
            let under = base.contains_key(name) && base[name]@.contains_key(c);
            let gone = unbinds.contains_key(name) && unbinds[name]@.contains(c);
            let bound = layers.contains_key(name) && layers[name]@.contains_key(c);
            &&& over ==> bound && layers[name]@[c] == overlay[name]@[c]
            &&& under && !over && !gone ==> bound && layers[name]@[c] == base[name]@[c]
            &&& gone && !over ==> !bound
            &&& bound ==> over || under
        }),
{
    let want = merged_layers(base, overlay, unbinds);
    assert(layers.dom().contains(name) == want.dom().contains(name));
    if layers.contains_key(name) {
        assert(layers[name]@ == want[name]);
    }
}

/// The notes tell what the merge did to the chords of the base: an override where both
/// sides bind a chord that is not declared unbound, an unbinding where a chord of the base
/// is declared unbound, a miss where one is declared that the base does not bind.
pub proof fn law_notes_tell_what_was_done<A>(
    base: BuildOutput<A>,
    overlay: BuildOutput<A>,
    t: MergeTrace<A>,
    notes: Seq<NoteView>,
    name: Seq<char>,
    c: KeyInput,
)
    requires
        notes_trace(base, overlay, t, notes),
    ensures
        ({
            let over = overlay.layers@.contains_key(name) && overlay.layers@[name]@.contains_key(c);
            let under = base.layers@.contains_key(name) && base.layers@[name]@.contains_key(c);
            let gone = overlay.unbinds@.contains_key(name) && overlay.unbinds@[name]@.contains(c);
            let chord = chord_text(c);
            &&& notes.contains(NoteView::Overrode { layer: name, chord }) <==> over && under
                && !gone
            &&& notes.contains(NoteView::Unbound { layer: name, chord }) <==> under && gone
            &&& gone && !under ==> notes.contains(NoteView::UnbindMiss { layer: name, chord })
            &&& notes.contains(NoteView::UnbindMiss { layer: name, chord }) ==> gone && (under ==> !(
            overlay.unbinds@[name]@.no_duplicates()))
        }),
{
    let over = overlay.layers@.contains_key(name) && overlay.layers@[name]@.contains_key(c);
    let under = base.layers@.contains_key(name) && base.layers@[name]@.contains_key(c);
    let gone = overlay.unbinds@.contains_key(name) && overlay.unbinds@[name]@.contains(c);
    let chord = chord_text(c);
    let u = unbind_notes(base.layers@, t.unbinds);
    let names = row_names(t.layers);
    let o = override_notes(names, t.overrides);
    let d = drop_notes(t.dropped);
    lemma_unbind_notes(base.layers@, t.unbinds);
    lemma_override_notes(names, t.overrides);
    lemma_ascending_distinct(t.unbinds);
    lemma_ascending_distinct(t.layers);
    lemma_table_dom(t.unbinds);
    lemma_table_dom(t.layers);
    let hit = NoteView::Overrode { layer: name, chord };
    let cut = NoteView::Unbound { layer: name, chord };
    let miss = NoteView::UnbindMiss { layer: name, chord };
    assert forall|n: NoteView| !(n is DroppedSequence) implies #[trigger] notes.contains(n) == (
    u.contains(n) || o.contains(n)) by {
        if notes.contains(n) {
            let i = choose|i: int| 0 <= i < notes.len() && notes[i] == n;
            if i < u.len() {
                assert(u[i] == n);
            } else if i < u.len() + o.len() {
                assert(o[i - u.len()] == n);
            } else {
                assert(d[i - u.len() - o.len()] == n);
            }
        }
        if u.contains(n) {
            let i = choose|i: int| 0 <= i < u.len() && u[i] == n;
            assert(notes[i] == n);
        }
        if o.contains(n) {
            let i = choose|i: int| 0 <= i < o.len() && o[i] == n;
            assert(notes[u.len() + i] == n);
        }
    }
    assert(notes.contains(hit) == o.contains(hit)) by {
        if u.contains(hit) {
            let i = choose|i: int| 0 <= i < u.len() && u[i] == hit;
            assert(!(u[i] is Overrode));
        }
    }
    assert(!o.contains(cut) && !o.contains(miss)) by {
        if o.contains(cut) {
            let i = choose|i: int| 0 <= i < o.len() && o[i] == cut;
            assert(o[i] is Overrode);
        }
        if o.contains(miss) {
            let i = choose|i: int| 0 <= i < o.len() && o[i] == miss;
            assert(o[i] is Overrode);
        }
    }
    if o.contains(hit) {
        let i = choose|i: int| 0 <= i < o.len() && o[i] == hit;
        let (r, j) = choose|r: int, j: int|
            0 <= r < names.len() && 0 <= j < t.overrides[r].len() && o[i] == (NoteView::Overrode {
                layer: names[r],
                chord: chord_text(#[trigger] t.overrides[r][j]),
            });
        law_spelling_is_injective(t.overrides[r][j], c);
        lemma_table_row(t.layers, r);
        assert(t.overrides[r].contains(c));
        assert(t.layers[r].0 == name);
    }
    if over && under && !gone {
        let r = choose|r: int| 0 <= r < t.layers.len() && (#[trigger] t.layers[r]).0 == name;
        lemma_table_row(t.layers, r);
        assert(are_overrides(
            cleared(base.layers@, overlay.unbinds@, t.layers[r].0),
            t.layers[r].1@,
            t.overrides[r],
        ));
        assert(t.overrides[r].contains(c));
        let j = choose|j: int| 0 <= j < t.overrides[r].len() && t.overrides[r][j] == c;
        assert(names[r] == name);
        assert(o.contains(
            NoteView::Overrode { layer: names[r], chord: chord_text(t.overrides[r][j]) },
        ));
    }
    assert forall|n: NoteView| (n == cut || n == miss) && #[trigger] u.contains(n) implies gone && (n
        == cut ==> under) && (n == miss && under ==> !overlay.unbinds@[name]@.no_duplicates()) by {
        let i = choose|i: int| 0 <= i < u.len() && u[i] == n;
        let (r, j) = choose|r: int, j: int|
            0 <= r < t.unbinds.len() && 0 <= j < t.unbinds[r].1@.len() && u[i]
                == #[trigger] unbind_note(
                t.unbinds[r].0,
                bindings_in(base.layers@, t.unbinds[r].0),
                t.unbinds[r].1@,
                j,
            );
        let chords = t.unbinds[r].1@;
        law_spelling_is_injective(chords[j], c);
        lemma_table_row(t.unbinds, r);
        assert(t.unbinds[r].0 == name);
        assert(chords[j] == c);
        if n == miss && under {
            let k = choose|k: int| 0 <= k < chords.take(j).len() && chords.take(j)[k] == c;
            assert(chords[k] == chords[j]);
        }
    }
    if gone {
        let r = choose|r: int| 0 <= r < t.unbinds.len() && (#[trigger] t.unbinds[r]).0 == name;
        lemma_table_row(t.unbinds, r);
        let chords = t.unbinds[r].1@;
        assert(chords == overlay.unbinds@[name]@);
        let j = first_index(chords, c);
        let m = bindings_in(base.layers@, name);
        assert(!chords.take(j).contains(c)) by {
            if chords.take(j).contains(c) {
                let k = choose|k: int| 0 <= k < chords.take(j).len() && chords.take(j)[k] == c;
                assert(chords[k] == c);
            }
        }
        assert(u.contains(unbind_note(t.unbinds[r].0, m, chords, j)));
    }
}

/// The first position of a chord among the chords.
proof fn first_index(chords: Seq<KeyInput>, c: KeyInput) -> (j: int)
    requires
        chords.contains(c),
    ensures
        0 <= j < chords.len(),
        chords[j] == c,
        forall|k: int| 0 <= k < j ==> chords[k] != c,
    decreases chords.len(),
{
    let init = chords.drop_last();
    if init.contains(c) {
        let j = first_index(init, c);
        assert forall|k: int| 0 <= k < j implies chords[k] != c by {
            assert(init[k] == chords[k]);
        }
        j
    } else {
        let i = choose|i: int| 0 <= i < chords.len() && chords[i] == c;
        if i < init.len() {
            assert(init[i] == c);
        }
        assert forall|k: int| 0 <= k < chords.len() - 1 implies chords[k] != c by {
            assert(init[k] == chords[k]);
        }
        chords.len() - 1
    }
}

/// What a list of notes says is what each of them says, field by field and one by one.
pub proof fn law_notes_say_what_they_hold(notes: Seq<MergeNote>, n: MergeNote)
    ensures
        note_views(notes).len() == notes.len(),
        forall|i: int| 0 <= i < notes.len() ==> #[trigger] note_views(notes)[i] == notes[i]@,
        n matches MergeNote::Overrode { layer, chord } ==> (n@ matches NoteView::Overrode {
            layer: a,
            chord: b,
        } && a == layer@ && b == chord@),
        n matches MergeNote::Unbound { layer, chord } ==> (n@ matches NoteView::Unbound {
            layer: a,
            chord: b,
        } && a == layer@ && b == chord@),
        n matches MergeNote::UnbindMiss { layer, chord } ==> (n@ matches NoteView::UnbindMiss {
            layer: a,
            chord: b,
        } && a == layer@ && b == chord@),
        n matches MergeNote::DroppedSequence { sequence } ==> (
        n@ matches NoteView::DroppedSequence { sequence: a } && a == texts(sequence@)),
{
}

/// Where a note stands among the notes: those on declarations come first, those on overrides
/// next, those on dropped sequences last.
pub open spec fn note_rank(note: NoteView) -> int {
    match note {
        NoteView::Unbound { .. } => 0,
        NoteView::UnbindMiss { .. } => 0,
        NoteView::Overrode { .. } => 1,
        NoteView::DroppedSequence { .. } => 2,
    }
}

/// The notes come in the order of what a merge does, and say nothing twice, but that a chord
/// which is declared more than once is missed more than once.
pub proof fn law_notes_come_in_order_and_once<A>(
    base: BuildOutput<A>,
    overlay: BuildOutput<A>,
    t: MergeTrace<A>,
    notes: Seq<NoteView>,
)
    requires
        notes_trace(base, overlay, t, notes),
    ensures
        forall|i: int, j: int|
            0 <= i < j < notes.len() ==> note_rank(#[trigger] notes[i]) <= note_rank(
                #[trigger] notes[j],
            ),
        forall|i: int, j: int|
            0 <= i < j < notes.len() && #[trigger] notes[i] == #[trigger] notes[j]
                ==> notes[i] is UnbindMiss,
{
    let u = unbind_notes(base.layers@, t.unbinds);
    let names = row_names(t.layers);
    let o = override_notes(names, t.overrides);
    let d = drop_notes(t.dropped);
    lemma_unbind_notes(base.layers@, t.unbinds);
    lemma_override_notes(names, t.overrides);
    lemma_ascending_distinct(t.unbinds);
    lemma_ascending_distinct(t.layers);
    lemma_unbound_once(base.layers@, t.unbinds);
    assert forall|i: int, j: int| 0 <= i < j < names.len() implies #[trigger] names[i]
        != #[trigger] names[j] by {
        assert(t.layers[i].0 != t.layers[j].0);
    }
    assert forall|r: int| 0 <= r < names.len() implies (#[trigger] t.overrides[r]).no_duplicates() by {
        assert(are_overrides(
            cleared(base.layers@, overlay.unbinds@, t.layers[r].0),
            t.layers[r].1@,
            t.overrides[r],
        ));
    }
    lemma_overridden_once(names, t.overrides);
    assert forall|i: int| 0 <= i < notes.len() implies note_rank(#[trigger] notes[i]) == (if i
        < u.len() {
        0int
    } else if i < u.len() + o.len() {
        1
    } else {
        2
    }) by {
        if i < u.len() {
            assert(notes[i] == u[i]);
        } else if i < u.len() + o.len() {
            assert(notes[i] == o[i - u.len()]);
        } else {
            assert(notes[i] == d[i - u.len() - o.len()]);
        }
    }
    assert forall|i: int, j: int|
        0 <= i < j < notes.len() && #[trigger] notes[i] == #[trigger] notes[j] implies notes[i] is UnbindMiss by {
        assert(note_rank(notes[i]) == note_rank(notes[j]));
        if j < u.len() {
            assert(u[i] == u[j]);
        } else if j < u.len() + o.len() {
            assert(o[i - u.len()] == o[j - u.len()]);
        } else {
            let a = i - u.len() - o.len();
            let b = j - u.len() - o.len();
            assert(d[a] == d[b]);
            lemma_rendered_injective(t.dropped[a], t.dropped[b]);
        }
    }
}

/// Sequences with the same spellings are the same.
proof fn lemma_rendered_injective(a: Seq<KeyInput>, b: Seq<KeyInput>)
    requires
        rendered(a) == rendered(b),
    ensures
        a == b,
{
    assert(rendered(a).len() == a.len() && rendered(b).len() == b.len());
    assert forall|i: int| 0 <= i < a.len() implies a[i] == b[i] by {
        assert(rendered(a)[i] == chord_text(a[i]));
        assert(rendered(b)[i] == chord_text(b[i]));
        law_spelling_is_injective(a[i], b[i]);
    }
    assert(a =~= b);
}

/// No chord of a layer is noted as unbound twice.
proof fn lemma_unbound_once<A>(
    base: Map<Seq<char>, Keymap<A>>,
    rows: Seq<(Seq<char>, Vec<KeyInput>)>,
)
    requires
        distinct_keys(rows),
    ensures
        forall|i: int, j: int|
            0 <= i < j < unbind_notes(base, rows).len() && #[trigger] unbind_notes(base, rows)[i]
                == #[trigger] unbind_notes(base, rows)[j] ==> unbind_notes(base, rows)[i] is UnbindMiss,
    decreases rows.len(),
{
    if rows.len() > 0 {
        let init = rows.drop_last();
        let last = rows.last();
        let n = rows.len() - 1;
        assert forall|a: int, b: int| 0 <= a < b < init.len() implies (#[trigger] init[a]).0 != (
        #[trigger] init[b]).0 by {
            assert(rows[a].0 != rows[b].0);
        }
        lemma_unbound_once(base, init);
        lemma_unbind_notes(base, init);
        let m = bindings_in(base, last.0);
        let chords = last.1@;
        let a = unbind_notes(base, init);
        let b = layer_unbind_notes(last.0, m, chords);
        let all = unbind_notes(base, rows);
        assert(all == a + b);
        assert forall|i: int, j: int|
            0 <= i < j < all.len() && #[trigger] all[i] == #[trigger] all[j] implies all[i] is UnbindMiss by {
            if j < a.len() {
                assert(a[i] == a[j]);
            } else if i < a.len() {
                assert(all[i] == a[i]);
                let (r, k) = choose|r: int, k: int|
                    0 <= r < init.len() && 0 <= k < init[r].1@.len() && a[i]
                        == #[trigger] unbind_note(
                        init[r].0,
                        bindings_in(base, init[r].0),
                        init[r].1@,
                        k,
                    );
                assert(rows[r].0 != rows[n].0);
                assert(all[j] == unbind_note(last.0, m, chords, j - a.len()));
            } else {
                let x = i - a.len();
                let y = j - a.len();
                assert(all[i] == unbind_note(last.0, m, chords, x));
                assert(all[j] == unbind_note(last.0, m, chords, y));
                law_spelling_is_injective(chords[x], chords[y]);
                assert(chords.take(y)[x] == chords[y]);
                assert(chords.take(y).contains(chords[y]));
            }
        }
    }
}

/// No chord of a layer is noted as overridden twice.
proof fn lemma_overridden_once(names: Seq<Seq<char>>, chords: Seq<Seq<KeyInput>>)
    requires
        forall|i: int, j: int| 0 <= i < j < names.len() ==> #[trigger] names[i] != #[trigger] names[j],
        forall|r: int| 0 <= r < names.len() ==> (#[trigger] chords[r]).no_duplicates(),
    ensures
        forall|i: int, j: int|
            0 <= i < j < override_notes(names, chords).len() ==> #[trigger] override_notes(
                names,
                chords,
            )[i] != #[trigger] override_notes(names, chords)[j],
    decreases names.len(),
{
    if names.len() > 0 {
        let init = names.drop_last();
        let n = names.len() - 1;
        assert forall|i: int, j: int| 0 <= i < j < init.len() implies #[trigger] init[i]
            != #[trigger] init[j] by {
            assert(names[i] != names[j]);
        }
        lemma_overridden_once(init, chords);
        lemma_override_notes(init, chords);
        let layer = names.last();
        let a = override_notes(init, chords);
        let b = chords[n].map_values(|c: KeyInput| NoteView::Overrode { layer, chord: chord_text(c) });
        let all = override_notes(names, chords);
        assert(all == a + b);
        assert forall|i: int, j: int| 0 <= i < j < all.len() implies #[trigger] all[i]
            != #[trigger] all[j] by {
            if j < a.len() {
                assert(a[i] != a[j]);
            } else if i < a.len() {
                assert(all[i] == a[i]);
                let (r, k) = choose|r: int, k: int|
                    0 <= r < init.len() && 0 <= k < chords[r].len() && a[i] == (
                    NoteView::Overrode {
                        layer: init[r],
                        chord: chord_text(#[trigger] chords[r][k]),
                    });
                assert(names[r] != names[n]);
                assert(all[j] == b[j - a.len()]);
            } else {
                let x = i - a.len();
                let y = j - a.len();
                assert(all[i] == b[x] && all[j] == b[y]);
                assert(chords[n].no_duplicates());
                if all[i] == all[j] {
                    law_spelling_is_injective(chords[n][x], chords[n][y]);
                }
            }
        }
    }
}

} // verus!
