//! Single chords that collide with the first key of a sequence.
use crate::grammar::{chord_text, law_spelling_is_injective};
use crate::input::KeyInput;
use crate::keymap::Keymap;
use crate::layer::names_are;
use crate::names::{lemma_ascending_distinct, row_views, NameMap};
use crate::seqbuild::seq_names_are;
use crate::sequence::{path_views, SequenceKeymap};
use crate::table::{lemma_table_dom, lemma_table_row};
use crate::text::{is_before, lemma_text_irreflexive, lemma_text_transitive, text_before};
use crate::warning::{join_texts, joined, render_sequence, rendered, warning_views, Warning,
    WarningView};
use vstd::prelude::*;

verus! {

/// The sequence is bound and begins with the chord.
pub open spec fn begins_with_chord(
    seqs: Map<Seq<KeyInput>, Seq<char>>,
    c: KeyInput,
    s: Seq<KeyInput>,
) -> bool {
    seqs.contains_key(s) && s.len() > 0 && s[0] == c
}

/// Some sequence begins with the chord.
pub open spec fn is_ambiguous(seqs: Map<Seq<KeyInput>, Seq<char>>, c: KeyInput) -> bool {
    exists|s: Seq<KeyInput>| #[trigger] begins_with_chord(seqs, c, s)
}

/// The sequence begins with the chord, and none that does comes before it.
pub open spec fn is_first_shadowed(
    seqs: Map<Seq<KeyInput>, Seq<char>>,
    c: KeyInput,
    s: Seq<KeyInput>,
) -> bool {
    &&& begins_with_chord(seqs, c, s)
    &&& forall|t: Seq<KeyInput>| #[trigger]
        begins_with_chord(seqs, c, t) ==> !text_before(joined(rendered(t)), joined(rendered(s)))
}

/// The warning is the one on the chord: it names the first sequence that begins
/// with it.
pub open spec fn is_cross_warning(
    singles: Map<KeyInput, Seq<char>>,
    seqs: Map<Seq<KeyInput>, Seq<char>>,
    c: KeyInput,
    w: WarningView,
) -> bool {
    exists|s: Seq<KeyInput>| #[trigger]
        is_first_shadowed(seqs, c, s) && w == (WarningView::SequenceShadow {
            chord: chord_text(c),
            chord_action: singles[c],
            sequence: rendered(s),
            sequence_action: seqs[s],
        })
}

/// The chords are the ambiguous ones, in ascending order of spelling, and the
/// warnings are those on them.
pub open spec fn cross_shadows(
    singles: Map<KeyInput, Seq<char>>,
    seqs: Map<Seq<KeyInput>, Seq<char>>,
    chords: Seq<KeyInput>,
    warnings: Seq<WarningView>,
) -> bool {
    &&& chords.len() == warnings.len()
    &&& forall|i: int|
        0 <= i < chords.len() ==> singles.contains_key(#[trigger] chords[i]) && is_cross_warning(
            singles,
            seqs,
            chords[i],
            warnings[i],
        )
    &&& forall|c: KeyInput| #[trigger]
        singles.contains_key(c) && is_ambiguous(seqs, c) ==> chords.contains(c)
    &&& forall|i: int, j: int|
        0 <= i < j < chords.len() ==> text_before(
            chord_text(#[trigger] chords[i]),
            chord_text(#[trigger] chords[j]),
        )
}

/// The first sequence that begins with the chord, among the bindings.
fn first_shadowed(
    rows: &Vec<(Vec<KeyInput>, &String)>,
    c: KeyInput,
    Ghost(seqs): Ghost<Map<Seq<KeyInput>, Seq<char>>>,
) -> (found: Option<usize>)
    requires
        forall|s: Seq<KeyInput>| #[trigger]
            seqs.contains_key(s) ==> exists|i: int|
                0 <= i < rows.len() && (#[trigger] rows@[i]).0@ == s,
        forall|i: int| 0 <= i < rows.len() ==> seqs.contains_key((#[trigger] rows@[i]).0@),
    ensures
        match found {
            Some(i) => i < rows.len() && is_first_shadowed(seqs, c, rows@[i as int].0@),
            None => !is_ambiguous(seqs, c),
        },
{
    let mut best: Option<usize> = None;
    let mut best_text = String::new();
    let mut i: usize = 0;
    while i < rows.len()
        invariant
            i <= rows.len(),
            forall|j: int| 0 <= j < rows.len() ==> seqs.contains_key((#[trigger] rows@[j]).0@),
            match best {
                Some(b) => {
                    &&& b < i
                    &&& begins_with_chord(seqs, c, rows@[b as int].0@)
                    &&& best_text@ == joined(rendered(rows@[b as int].0@))
                    &&& forall|j: int|
                        0 <= j < i && begins_with_chord(seqs, c, (#[trigger] rows@[j]).0@)
                            ==> !text_before(joined(rendered(rows@[j].0@)), best_text@)
                },
                None => forall|j: int|
                    0 <= j < i ==> !begins_with_chord(seqs, c, (#[trigger] rows@[j]).0@),
            },
        decreases rows.len() - i,
    {
        let keys = &rows[i].0;
        if keys.len() > 0 && keys[0] == c {
            let parts = render_sequence(keys.as_slice());
            let text = join_texts(&parts);
            let better = match best {
                Some(_) => is_before(text.as_str(), best_text.as_str()),
                None => true,
            };
            proof {
                lemma_text_irreflexive(text@);
            }
            if better {
                proof {
                    if best is Some {
                        assert forall|j: int|
                            0 <= j < i && begins_with_chord(seqs, c, (#[trigger] rows@[j]).0@) implies !text_before(
                            joined(rendered(rows@[j].0@)),
                            text@,
                        ) by {
                            if text_before(joined(rendered(rows@[j].0@)), text@) {
                                lemma_text_transitive(
                                    joined(rendered(rows@[j].0@)),
                                    text@,
                                    best_text@,
                                );
                            }
                        }
                    }
                }
                best = Some(i);
                best_text = text;
            }
        }
        i = i + 1;
    }
    proof {
        match best {
            Some(b) => {
                assert forall|t: Seq<KeyInput>| #[trigger] begins_with_chord(seqs, c, t) implies !text_before(
                    joined(rendered(t)),
                    joined(rendered(rows@[b as int].0@)),
                ) by {
                    let j = choose|j: int| 0 <= j < rows.len() && (#[trigger] rows@[j]).0@ == t;
                    assert(begins_with_chord(seqs, c, rows@[j].0@));
                }
            },
            None => {
                if is_ambiguous(seqs, c) {
                    let s = choose|s: Seq<KeyInput>| #[trigger] begins_with_chord(seqs, c, s);
                    let j = choose|j: int| 0 <= j < rows.len() && (#[trigger] rows@[j]).0@ == s;
                    assert(begins_with_chord(seqs, c, rows@[j].0@));
                }
            },
        }
    }
    best
}

/// The chords of a keymap in ascending order of spelling.
fn sorted_chords<A>(keymap: &Keymap<A>) -> (chords: Vec<KeyInput>)
    ensures
        forall|i: int| 0 <= i < chords.len() ==> keymap@.contains_key(#[trigger] chords@[i]),
        forall|c: KeyInput| #[trigger] keymap@.contains_key(c) ==> chords@.contains(c),
        forall|i: int, j: int|
            0 <= i < j < chords.len() ==> text_before(
                chord_text(#[trigger] chords@[i]),
                chord_text(#[trigger] chords@[j]),
            ),
{
    let rows = keymap.iter();
    let mut sorted: NameMap<KeyInput> = NameMap::new();
    let mut i: usize = 0;
    while i < rows.len()
        invariant
            i <= rows.len(),
            forall|j: int|
                0 <= j < i ==> sorted@.contains_key(chord_text(*(#[trigger] rows@[j]).0)),
            forall|t: Seq<char>| #[trigger]
                sorted@.contains_key(t) ==> chord_text(sorted@[t]) == t && exists|j: int|
                    0 <= j < i && *(#[trigger] rows@[j]).0 == sorted@[t],
        decreases rows.len() - i,
    {
        let k: KeyInput = *rows[i].0;
        let ghost before = sorted@;
        sorted.insert(k.to_string(), k);
        proof {
            assert forall|t: Seq<char>| #[trigger] sorted@.contains_key(t) implies chord_text(
                sorted@[t],
            ) == t && exists|j: int| 0 <= j < i + 1 && *(#[trigger] rows@[j]).0 == sorted@[t] by {
                if t == chord_text(k) {
                    assert(*rows@[i as int].0 == sorted@[t]);
                } else {
                    assert(before.contains_key(t));
                    let j = choose|j: int| 0 <= j < i && *(#[trigger] rows@[j]).0 == before[t];
                    assert(*rows@[j].0 == sorted@[t]);
                }
            }
        }
        i = i + 1;
    }
    let ghost m = sorted@;
    let listed = sorted.into_rows();
    let ghost v = row_views(listed@);
    let mut chords: Vec<KeyInput> = Vec::new();
    let mut n: usize = 0;
    proof {
        lemma_ascending_distinct(v);
        lemma_table_dom(v);
    }
    while n < listed.len()
        invariant
            n <= listed.len(),
            chords.len() == n,
            forall|j: int| 0 <= j < n ==> #[trigger] chords@[j] == listed@[j].1,
        decreases listed.len() - n,
    {
        chords.push(listed[n].1);
        n = n + 1;
    }
    proof {
        assert forall|j: int| 0 <= j < chords.len() implies chord_text(#[trigger] chords@[j]) == v[j].0
            && m.contains_key(v[j].0) && m[v[j].0] == chords@[j] by {
            lemma_table_row(v, j);
        }
        assert forall|j: int| 0 <= j < chords.len() implies keymap@.contains_key(#[trigger] chords@[j]) by {
            lemma_table_row(v, j);
            assert(m.contains_key(v[j].0));
            let q = choose|q: int| 0 <= q < rows.len() && *(#[trigger] rows@[q]).0 == m[v[j].0];
            assert(keymap@.contains_key(*rows@[q].0));
        }
        assert forall|c: KeyInput| #[trigger] keymap@.contains_key(c) implies chords@.contains(c) by {
            let q = choose|q: int| 0 <= q < rows.len() && *(#[trigger] rows@[q]).0 == c;
            assert(m.contains_key(chord_text(c)));
            let j = choose|j: int| 0 <= j < v.len() && (#[trigger] v[j]).0 == chord_text(c);
            law_spelling_is_injective(chords@[j], c);
            assert(chords@[j] == c);
        }
        assert forall|a: int, b: int| 0 <= a < b < chords.len() implies text_before(
            chord_text(#[trigger] chords@[a]),
            chord_text(#[trigger] chords@[b]),
        ) by {
            assert(text_before(v[a].0, v[b].0));
        }
    }
    chords
}

/// Flags single-chord bindings that collide with the first key of a sequence.
///
/// One advisory [`Warning::SequenceShadow`] is emitted per offending chord (naming
/// the lexicographically-first sequence it shadows), chords visited in
/// canonical-string order.
pub(crate) fn detect_cross_shadows(
    singles: &Keymap<String>,
    seqs: &SequenceKeymap<String>,
    warnings: &mut Vec<Warning>,
    Ghost(single_names): Ghost<Map<KeyInput, Seq<char>>>,
    Ghost(seq_names): Ghost<Map<Seq<KeyInput>, Seq<char>>>,
) -> (found: (Ghost<Seq<KeyInput>>, Ghost<Seq<WarningView>>))
    requires
        names_are(singles@, single_names),
        seq_names_are(seqs@, seq_names),
    ensures
        cross_shadows(single_names, seq_names, found.0@, found.1@),
        warning_views(final(warnings)@) == warning_views(old(warnings)@) + found.1@,
{
    let ghost start = warning_views(warnings@);
    let ghost mut hit: Seq<KeyInput> = Seq::empty();
    let ghost mut views: Seq<WarningView> = Seq::empty();
    let chords = sorted_chords(singles);
    let rows = seqs.bindings();
    let ghost pv = path_views(rows@);
    proof {
        lemma_table_dom(pv);
        assert forall|s: Seq<KeyInput>| #[trigger] seq_names.contains_key(s) implies exists|i: int|
            0 <= i < rows.len() && (#[trigger] rows@[i]).0@ == s by {
            assert(seqs@.dom().contains(s));
            assert(seqs@.contains_key(s));
            let i = choose|i: int| 0 <= i < pv.len() && (#[trigger] pv[i]).0 == s;
            assert(rows@[i].0@ == s);
        }
        assert forall|i: int| 0 <= i < rows.len() implies seq_names.contains_key(
            (#[trigger] rows@[i]).0@,
        ) && (*rows@[i].1)@ == seq_names[rows@[i].0@] by {
            lemma_table_row(pv, i);
            assert(pv[i].0 == rows@[i].0@);
            assert(seqs@.contains_key(pv[i].0));
            assert(seq_names.dom().contains(pv[i].0));
        }
        assert(start + views =~= start);
    }
    let mut i: usize = 0;
    while i < chords.len()
        invariant
            i <= chords.len(),
            names_are(singles@, single_names),
            forall|j: int|
                0 <= j < chords.len() ==> singles@.contains_key(#[trigger] chords@[j]),
            forall|a: int, b: int|
                0 <= a < b < chords.len() ==> text_before(
                    chord_text(#[trigger] chords@[a]),
                    chord_text(#[trigger] chords@[b]),
                ),
            forall|s: Seq<KeyInput>| #[trigger]
                seq_names.contains_key(s) ==> exists|j: int|
                    0 <= j < rows.len() && (#[trigger] rows@[j]).0@ == s,
            forall|j: int|
                0 <= j < rows.len() ==> seq_names.contains_key((#[trigger] rows@[j]).0@) && (
                *rows@[j].1)@ == seq_names[rows@[j].0@],
            hit.len() == views.len(),
            forall|n: int|
                0 <= n < hit.len() ==> single_names.contains_key(#[trigger] hit[n])
                    && is_cross_warning(single_names, seq_names, hit[n], views[n]) && exists|j: int|
                    0 <= j < i && #[trigger] chords@[j] == hit[n],
            forall|j: int|
                0 <= j < i && is_ambiguous(seq_names, #[trigger] chords@[j]) ==> hit.contains(
                    chords@[j],
                ),
            forall|a: int, b: int|
                0 <= a < b < hit.len() ==> text_before(
                    chord_text(#[trigger] hit[a]),
                    chord_text(#[trigger] hit[b]),
                ),
            warning_views(warnings@) == start + views,
        decreases chords.len() - i,
    {
        let c = chords[i];
        match first_shadowed(&rows, c, Ghost(seq_names)) {
            Some(f) => {
                let name = match singles.get(&c) {
                    Some(n) => n.clone(),
                    None => {
                        assert(false);
                        String::new()
                    },
                };
                let ghost warned = warning_views(warnings@);
                let ghost hit0 = hit;
                let ghost views0 = views;
                let w = Warning::SequenceShadow {
                    chord: c.to_string(),
                    chord_action: name,
                    sequence: render_sequence(rows[f].0.as_slice()),
                    sequence_action: rows[f].1.clone(),
                };
                proof {
                    hit = hit.push(c);
                    views = views.push(w@);
                    assert(single_names.dom().contains(c)) by {
                        assert(singles@.contains_key(c));
                        assert(singles@.dom().contains(c));
                    }
                    assert(is_first_shadowed(seq_names, c, rows@[f as int].0@));
                    assert(is_cross_warning(single_names, seq_names, c, w@));
                    assert forall|n: int| 0 <= n < hit.len() implies single_names.contains_key(
                        #[trigger] hit[n],
                    ) && is_cross_warning(single_names, seq_names, hit[n], views[n]) && exists|j: int|
                        0 <= j < i + 1 && #[trigger] chords@[j] == hit[n] by {
                        if n < hit0.len() {
                            assert(hit[n] == hit0[n] && views[n] == views0[n]);
                            let j = choose|j: int| 0 <= j < i && #[trigger] chords@[j] == hit0[n];
                            assert(chords@[j] == hit[n]);
                        } else {
                            assert(chords@[i as int] == hit[n]);
                        }
                    }
                    assert forall|j: int|
                        0 <= j < i + 1 && is_ambiguous(seq_names, #[trigger] chords@[j]) implies hit.contains(
                        chords@[j],
                    ) by {
                        if j < i {
                            let n = choose|n: int| 0 <= n < hit0.len() && hit0[n] == chords@[j];
                            assert(hit[n] == chords@[j]);
                        } else {
                            assert(hit[hit0.len() as int] == chords@[j]);
                        }
                    }
                    assert forall|a: int, b: int| 0 <= a < b < hit.len() implies text_before(
                        chord_text(#[trigger] hit[a]),
                        chord_text(#[trigger] hit[b]),
                    ) by {
                        if b < hit0.len() {
                            assert(text_before(chord_text(hit0[a]), chord_text(hit0[b])));
                        } else {
                            assert(hit[a] == hit0[a]);
                            let j = choose|j: int| 0 <= j < i && #[trigger] chords@[j] == hit0[a];
                            assert(text_before(chord_text(chords@[j]), chord_text(chords@[i as int])));
                        }
                    }
                }
                warnings.push(w);
                proof {
                    assert(warning_views(warnings@) =~= warned.push(w@));
                    assert(start + views =~= (start + views0).push(w@));
                }
            },
            None => {},
        }
        i = i + 1;
    }
    proof {
        assert forall|c: KeyInput| #[trigger]
            single_names.contains_key(c) && is_ambiguous(seq_names, c) implies hit.contains(c) by {
            assert(singles@.dom().contains(c));
            assert(singles@.contains_key(c));
            let j = choose|j: int| 0 <= j < chords@.len() && chords@[j] == c;
            assert(is_ambiguous(seq_names, chords@[j]));
        }
    }
    (Ghost(hit), Ghost(views))
}

/// Every chord of the global layer that a bound sequence begins with is warned of, once,
/// and no other: the warning names the chord and its action, and a sequence that begins
/// with it and comes first among those that do, with its action.
pub proof fn law_ambiguous_chords_are_warned_of(
    singles: Map<KeyInput, Seq<char>>,
    seqs: Map<Seq<KeyInput>, Seq<char>>,
    chords: Seq<KeyInput>,
    warnings: Seq<WarningView>,
    c: KeyInput,
)
    requires
        cross_shadows(singles, seqs, chords, warnings),
    ensures
        singles.contains_key(c) && (exists|s: Seq<KeyInput>| #[trigger]
            seqs.contains_key(s) && s.len() > 0 && s[0] == c) <==> exists|i: int|
            0 <= i < warnings.len() && (#[trigger] warnings[i] matches WarningView::SequenceShadow {
                chord,
                ..
            } && chord == chord_text(c)),
        forall|i: int|
            0 <= i < warnings.len() ==> (#[trigger] warnings[i]) is SequenceShadow && exists|
                k: KeyInput,
                s: Seq<KeyInput>,
            |
                {
                    &&& warnings[i] == (WarningView::SequenceShadow {
                        chord: chord_text(k),
                        chord_action: singles[k],
                        sequence: s.map_values(|x: KeyInput| chord_text(x)),
                        sequence_action: seqs[s],
                    })
                    &&& #[trigger] singles.contains_key(k)
                    &&& #[trigger] seqs.contains_key(s)
                    &&& s.len() > 0
                    &&& s[0] == k
                    &&& forall|t: Seq<KeyInput>| #[trigger]
                        seqs.contains_key(t) && t.len() > 0 && t[0] == k ==> !text_before(
                            joined(rendered(t)),
                            joined(rendered(s)),
                        )
                },
        forall|i: int, j: int|
            0 <= i < j < warnings.len() ==> text_before(
                (#[trigger] warnings[i])->SequenceShadow_chord,
                (#[trigger] warnings[j])->SequenceShadow_chord,
            ),
{
    assert forall|i: int| 0 <= i < warnings.len() implies (#[trigger] warnings[i]) is SequenceShadow
        && warnings[i]->SequenceShadow_chord == chord_text(chords[i]) && exists|
        k: KeyInput,
        s: Seq<KeyInput>,
    |
        {
            &&& warnings[i] == (WarningView::SequenceShadow {
                chord: chord_text(k),
                chord_action: singles[k],
                sequence: s.map_values(|x: KeyInput| chord_text(x)),
                sequence_action: seqs[s],
            })
            &&& #[trigger] singles.contains_key(k)
            &&& #[trigger] seqs.contains_key(s)
            &&& s.len() > 0
            &&& s[0] == k
            &&& forall|t: Seq<KeyInput>| #[trigger]
                seqs.contains_key(t) && t.len() > 0 && t[0] == k ==> !text_before(
                    joined(rendered(t)),
                    joined(rendered(s)),
                )
        } by {
        let k = chords[i];
        assert(singles.contains_key(k) && is_cross_warning(singles, seqs, k, warnings[i]));
        let s = choose|s: Seq<KeyInput>| #[trigger]
            is_first_shadowed(seqs, k, s) && warnings[i] == (WarningView::SequenceShadow {
                chord: chord_text(k),
                chord_action: singles[k],
                sequence: rendered(s),
                sequence_action: seqs[s],
            });
        assert(rendered(s) =~= s.map_values(|x: KeyInput| chord_text(x)));
        assert forall|t: Seq<KeyInput>| #[trigger]
            seqs.contains_key(t) && t.len() > 0 && t[0] == k implies !text_before(
            joined(rendered(t)),
            joined(rendered(s)),
        ) by {
            assert(begins_with_chord(seqs, k, t));
        }
        assert(seqs.contains_key(s));
    }
    if singles.contains_key(c) && (exists|s: Seq<KeyInput>| #[trigger]
        seqs.contains_key(s) && s.len() > 0 && s[0] == c) {
        let s = choose|s: Seq<KeyInput>| #[trigger]
            seqs.contains_key(s) && s.len() > 0 && s[0] == c;
        assert(begins_with_chord(seqs, c, s));
        assert(is_ambiguous(seqs, c));
        assert(chords.contains(c));
        let i = choose|i: int| 0 <= i < chords.len() && chords[i] == c;
        assert(warnings[i] is SequenceShadow);
    }
    if exists|i: int|
        0 <= i < warnings.len() && (#[trigger] warnings[i] matches WarningView::SequenceShadow {
            chord,
            ..
        } && chord == chord_text(c)) {
        let i = choose|i: int|
            0 <= i < warnings.len() && (#[trigger] warnings[i] matches WarningView::SequenceShadow {
                chord,
                ..
            } && chord == chord_text(c));
        law_spelling_is_injective(chords[i], c);
        assert(is_cross_warning(singles, seqs, chords[i], warnings[i]));
        let s = choose|s: Seq<KeyInput>| #[trigger] is_first_shadowed(seqs, c, s);
        assert(seqs.contains_key(s) && s.len() > 0 && s[0] == c);
    }
}

} // verus!
