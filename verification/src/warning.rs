//! Problems found in a configuration that do not prevent building it.
use crate::capture::texts;
use crate::grammar::{chord_text, law_spelling_is_injective, lemma_chord_spaces, quote, quoted_text};
use crate::input::KeyInput;
use crate::text::{copy_text, push_text};
use vstd::prelude::*;

verus! {

/// A non-fatal problem found while building a keymap.
#[derive(Debug, PartialEq, Eq)]
pub enum Warning {
    /// Two or more keys resolved to the same chord *within one layer*; the last
    /// one wins. The same chord across *different* layers is an override, not a
    /// conflict, and is never reported.
    Conflict {
        /// The shared chord, in canonical form (e.g. `"ctrl+a"`).
        chord: String,
        /// The competing action names, in the order of their key strings.
        contenders: Vec<String>,
        /// The action name that won (the last binding for the chord).
        winner: String,
    },
    /// An action name in the config was not recognized by the resolver; the
    /// binding was skipped.
    UnknownAction {
        /// The key string as written in the config. For a sequence, the canonical
        /// chords joined by spaces.
        key: String,
        /// The unrecognized action name.
        action: String,
    },
    /// Two sequence bindings share a prefix: the shorter (`prefix`) is a proper
    /// prefix of the longer (`shadowed`), so they cannot coexist without a timeout
    /// to tell them apart. The later-in-file binding was dropped.
    PrefixShadow {
        /// The shorter sequence, one canonical chord per element.
        prefix: Vec<String>,
        /// The action bound to the shorter sequence.
        prefix_action: String,
        /// The longer sequence that shares the prefix, one chord per element.
        shadowed: Vec<String>,
        /// The action bound to the longer sequence.
        shadowed_action: String,
    },
    /// A `[[sequences]]` entry had an empty `keys` array; it was skipped.
    EmptySequence {
        /// The action name the empty sequence would have been bound to.
        action: String,
    },
    /// A single-chord binding of the global layer collides with the first key of a
    /// `[[sequences]]` entry. Pressing that chord is then ambiguous, and can only
    /// be disambiguated by a caller-side timeout. Nothing is dropped.
    SequenceShadow {
        /// The single chord, in canonical form (e.g. `"j"`).
        chord: String,
        /// The action bound to the single chord.
        chord_action: String,
        /// One sequence the chord shadows — the lexicographically-first when it
        /// shadows several — one canonical chord per element.
        sequence: Vec<String>,
        /// The action bound to that sequence.
        sequence_action: String,
    },
}

/// What a [`Warning`] says.
#[verifier::ext_equal]
pub enum WarningView {
    /// See [`Warning::Conflict`].
    Conflict { chord: Seq<char>, contenders: Seq<Seq<char>>, winner: Seq<char> },
    /// See [`Warning::UnknownAction`].
    UnknownAction { key: Seq<char>, action: Seq<char> },
    /// See [`Warning::PrefixShadow`].
    PrefixShadow {
        prefix: Seq<Seq<char>>,
        prefix_action: Seq<char>,
        shadowed: Seq<Seq<char>>,
        shadowed_action: Seq<char>,
    },
    /// See [`Warning::EmptySequence`].
    EmptySequence { action: Seq<char> },
    /// See [`Warning::SequenceShadow`].
    SequenceShadow {
        chord: Seq<char>,
        chord_action: Seq<char>,
        sequence: Seq<Seq<char>>,
        sequence_action: Seq<char>,
    },
}

impl View for Warning {
    type V = WarningView;

    open spec fn view(&self) -> WarningView {
        match *self {
            Warning::Conflict { chord, contenders, winner } => WarningView::Conflict {
                chord: chord@,
                contenders: texts(contenders@),
                winner: winner@,
            },
            Warning::UnknownAction { key, action } => WarningView::UnknownAction {
                key: key@,
                action: action@,
            },
            Warning::PrefixShadow { prefix, prefix_action, shadowed, shadowed_action } =>
            WarningView::PrefixShadow {
                prefix: texts(prefix@),
                prefix_action: prefix_action@,
                shadowed: texts(shadowed@),
                shadowed_action: shadowed_action@,
            },
            Warning::EmptySequence { action } => WarningView::EmptySequence { action: action@ },
            Warning::SequenceShadow { chord, chord_action, sequence, sequence_action } =>
            WarningView::SequenceShadow {
                chord: chord@,
                chord_action: chord_action@,
                sequence: texts(sequence@),
                sequence_action: sequence_action@,
            },
        }
    }
}

/// What a list of warnings says.
pub open spec fn warning_views(warnings: Seq<Warning>) -> Seq<WarningView> {
    warnings.map_values(|w: Warning| w@)
}

/// Copies of texts.
fn copy_texts(v: &Vec<String>) -> (out: Vec<String>)
    ensures
        texts(out@) == texts(v@),
{
    let mut out: Vec<String> = Vec::new();
    let mut i: usize = 0;
    while i < v.len()
        invariant
            i <= v.len(),
            out.len() == i,
            forall|j: int| 0 <= j < i ==> (#[trigger] out@[j])@ == v@[j]@,
        decreases v.len() - i,
    {
        out.push(copy_text(v[i].as_str()));
        i = i + 1;
    }
    assert(texts(out@) =~= texts(v@));
    out
}

impl Clone for Warning {
    fn clone(&self) -> (w: Self)
        ensures
            w@ == self@,
    {
        match self {
            Warning::Conflict { chord, contenders, winner } => Warning::Conflict {
                chord: copy_text(chord.as_str()),
                contenders: copy_texts(contenders),
                winner: copy_text(winner.as_str()),
            },
            Warning::UnknownAction { key, action } => Warning::UnknownAction {
                key: copy_text(key.as_str()),
                action: copy_text(action.as_str()),
            },
            Warning::PrefixShadow { prefix, prefix_action, shadowed, shadowed_action } =>
            Warning::PrefixShadow {
                prefix: copy_texts(prefix),
                prefix_action: copy_text(prefix_action.as_str()),
                shadowed: copy_texts(shadowed),
                shadowed_action: copy_text(shadowed_action.as_str()),
            },
            Warning::EmptySequence { action } => Warning::EmptySequence {
                action: copy_text(action.as_str()),
            },
            Warning::SequenceShadow { chord, chord_action, sequence, sequence_action } =>
            Warning::SequenceShadow {
                chord: copy_text(chord.as_str()),
                chord_action: copy_text(chord_action.as_str()),
                sequence: copy_texts(sequence),
                sequence_action: copy_text(sequence_action.as_str()),
            },
        }
    }
}

/// A category tag for a [`Warning`], without the field data.
#[derive(Debug, Clone, Copy, PartialEq, Eq, Hash, Structural)]
pub enum WarningKind {
    /// See [`Warning::Conflict`].
    Conflict,
    /// See [`Warning::UnknownAction`].
    UnknownAction,
    /// See [`Warning::PrefixShadow`].
    PrefixShadow,
    /// See [`Warning::EmptySequence`].
    EmptySequence,
    /// See [`Warning::SequenceShadow`].
    SequenceShadow,
}

/// The category of a warning.
pub open spec fn kind_of(w: WarningView) -> WarningKind {
    match w {
        WarningView::Conflict { .. } => WarningKind::Conflict,
        WarningView::UnknownAction { .. } => WarningKind::UnknownAction,
        WarningView::PrefixShadow { .. } => WarningKind::PrefixShadow,
        WarningView::EmptySequence { .. } => WarningKind::EmptySequence,
        WarningView::SequenceShadow { .. } => WarningKind::SequenceShadow,
    }
}

/// The texts joined by single spaces.
pub open spec fn joined(parts: Seq<Seq<char>>) -> Seq<char>
    decreases parts.len(),
{
    if parts.len() == 0 {
        Seq::empty()
    } else if parts.len() == 1 {
        parts[0]
    } else {
        joined(parts.drop_last()).push(' ') + parts.last()
    }
}

/// One canonical chord text per key.
pub open spec fn rendered(keys: Seq<KeyInput>) -> Seq<Seq<char>> {
    keys.map_values(|k: KeyInput| chord_text(k))
}

/// The warning as a single human-readable line.
pub open spec fn warning_text(w: WarningView) -> Seq<char> {
    match w {
        WarningView::Conflict { chord, winner, .. } => "conflict on "@ + quoted_text(chord) + ": "@
            + quoted_text(winner) + " wins"@,
        WarningView::UnknownAction { key, action } => "unknown action "@ + quoted_text(action)
            + " for key "@ + quoted_text(key),
        WarningView::PrefixShadow { prefix, prefix_action, shadowed, .. } => "prefix shadow: "@
            + quoted_text(joined(prefix)) + " ("@ + quoted_text(prefix_action) + ") shadows "@
            + quoted_text(joined(shadowed)) + "; later binding dropped"@,
        WarningView::EmptySequence { action } => "empty sequence for action "@ + quoted_text(
            action,
        ),
        WarningView::SequenceShadow { chord, chord_action, sequence, .. } =>
        "sequence shadow: chord "@ + quoted_text(chord) + " ("@ + quoted_text(chord_action)
            + ") shadows sequence "@ + quoted_text(joined(sequence)),
    }
}

/// Renders a sequence as one canonical chord string per key.
pub(crate) fn render_sequence(keys: &[KeyInput]) -> (out: Vec<String>)
    ensures
        texts(out@) == rendered(keys@),
{
    let mut out: Vec<String> = Vec::new();
    let mut i: usize = 0;
    while i < keys.len()
        invariant
            i <= keys.len(),
            out.len() == i,
            forall|j: int| 0 <= j < i ==> (#[trigger] out@[j])@ == chord_text(keys@[j]),
        decreases keys.len() - i,
    {
        out.push(keys[i].to_string());
        i = i + 1;
    }
    assert(texts(out@) =~= rendered(keys@));
    out
}

/// Joins texts by single spaces.
pub(crate) fn join_texts(parts: &Vec<String>) -> (out: String)
    ensures
        out@ == joined(texts(parts@)),
{
    let mut out = String::new();
    let ghost t = texts(parts@);
    if parts.len() == 0 {
        return out;
    }
    push_text(&mut out, parts[0].as_str());
    let mut i: usize = 1;
    assert(t.take(1) =~= seq![t[0]]);
    assert(out@ =~= joined(t.take(1)));
    while i < parts.len()
        invariant
            1 <= i <= parts.len(),
            t == texts(parts@),
            out@ == joined(t.take(i as int)),
        decreases parts.len() - i,
    {
        out.push(' ');
        push_text(&mut out, parts[i].as_str());
        assert(t.take(i + 1).drop_last() =~= t.take(i as int));
        i = i + 1;
    }
    assert(t.take(i as int) =~= t);
    out
}

/// Appends a text between quotes.
fn push_quoted(out: &mut String, s: &str)
    ensures
        final(out)@ == old(out)@ + quoted_text(s@),
{
    let q = quote(s);
    push_text(out, q.as_str());
}

impl Warning {
    /// Returns the category of this warning without the field data.
    #[must_use]
    pub fn kind(&self) -> (kind: WarningKind)
        ensures
            kind == kind_of(self@),
    {
        match self {
            Warning::Conflict { .. } => WarningKind::Conflict,
            Warning::UnknownAction { .. } => WarningKind::UnknownAction,
            Warning::PrefixShadow { .. } => WarningKind::PrefixShadow,
            Warning::EmptySequence { .. } => WarningKind::EmptySequence,
            Warning::SequenceShadow { .. } => WarningKind::SequenceShadow,
        }
    }

    /// The warning as a single human-readable line, for logging and user messages.
    #[must_use]
    pub fn to_string(&self) -> (s: String)
        ensures
            s@ == warning_text(self@),
    {
        match self {
            Warning::Conflict { chord, winner, .. } => {
                let mut s = copy_text("conflict on ");
                push_quoted(&mut s, chord.as_str());
                push_text(&mut s, ": ");
                push_quoted(&mut s, winner.as_str());
                push_text(&mut s, " wins");
                s
            },
            Warning::UnknownAction { key, action } => {
                let mut s = copy_text("unknown action ");
                push_quoted(&mut s, action.as_str());
                push_text(&mut s, " for key ");
                push_quoted(&mut s, key.as_str());
                s
            },
            Warning::PrefixShadow { prefix, shadowed, prefix_action, .. } => {
                let mut s = copy_text("prefix shadow: ");
                let p = join_texts(prefix);
                push_quoted(&mut s, p.as_str());
                push_text(&mut s, " (");
                push_quoted(&mut s, prefix_action.as_str());
                push_text(&mut s, ") shadows ");
                let l = join_texts(shadowed);
                push_quoted(&mut s, l.as_str());
                push_text(&mut s, "; later binding dropped");
                s
            },
            Warning::EmptySequence { action } => {
                let mut s = copy_text("empty sequence for action ");
                push_quoted(&mut s, action.as_str());
                s
            },
            Warning::SequenceShadow { chord, sequence, chord_action, .. } => {
                let mut s = copy_text("sequence shadow: chord ");
                push_quoted(&mut s, chord.as_str());
                push_text(&mut s, " (");
                push_quoted(&mut s, chord_action.as_str());
                push_text(&mut s, ") shadows sequence ");
                let l = join_texts(sequence);
                push_quoted(&mut s, l.as_str());
                s
            },
        }
    }
}

/// What stands behind the last space of a text is determined by the text.
proof fn lemma_last_part(a: Seq<char>, x: Seq<char>, b: Seq<char>, y: Seq<char>)
    requires
        a.push(' ') + x == b.push(' ') + y,
        forall|i: int| 0 <= i < x.len() ==> #[trigger] x[i] != ' ',
        forall|i: int| 0 <= i < y.len() ==> #[trigger] y[i] != ' ',
    ensures
        a == b,
        x == y,
{
    let s = a.push(' ') + x;
    let t = b.push(' ') + y;
    assert(s.len() == a.len() + 1 + x.len());
    assert(t.len() == b.len() + 1 + y.len());
    assert(s[a.len() as int] == ' ');
    assert(t[b.len() as int] == ' ');
    if a.len() < b.len() {
        assert(s[b.len() as int] == x[b.len() - a.len() - 1]);
    }
    if b.len() < a.len() {
        assert(t[a.len() as int] == y[a.len() - b.len() - 1]);
    }
    assert(a =~= b) by {
        assert forall|i: int| 0 <= i < a.len() implies a[i] == b[i] by {
            assert(s[i] == a[i] && t[i] == b[i]);
        }
    }
    assert(x =~= y) by {
        assert forall|i: int| 0 <= i < x.len() implies x[i] == y[i] by {
            assert(s[a.len() + 1 + i] == x[i] && t[b.len() + 1 + i] == y[i]);
        }
    }
}

/// The joined chords tell sequences of keys apart.
pub proof fn law_joined_chords_are_injective(p: Seq<KeyInput>, q: Seq<KeyInput>)
    requires
        joined(rendered(p)) == joined(rendered(q)),
    ensures
        p == q,
    decreases p.len(),
{
    if p.len() == 0 || q.len() == 0 {
        lemma_joined_end(p);
        lemma_joined_end(q);
        assert(p =~= q);
    } else {
        let c = chord_text(p.last());
        let d = chord_text(q.last());
        lemma_chord_spaces(p.last());
        lemma_chord_spaces(q.last());
        lemma_joined_end(p);
        lemma_joined_end(q);
        let s = joined(rendered(p));
        assert(s.last() == c.last() && s.last() == d.last());
        // Without the space that ends it, if one does, the last chord has no space.
        let cut = s.last() == ' ';
        let x = if cut {
            c.drop_last()
        } else {
            c
        };
        let y = if cut {
            d.drop_last()
        } else {
            d
        };
        let r = if cut {
            s.drop_last()
        } else {
            s
        };
        assert(forall|i: int| 0 <= i < x.len() ==> #[trigger] x[i] != ' ');
        assert(forall|i: int| 0 <= i < y.len() ==> #[trigger] y[i] != ' ');
        let jp = joined(rendered(p.drop_last()));
        let jq = joined(rendered(q.drop_last()));
        assert(p.len() > 1 ==> r =~= jp.push(' ') + x);
        assert(q.len() > 1 ==> r =~= jq.push(' ') + y);
        if p.len() == 1 {
            assert(r == x);
            if q.len() > 1 {
                assert(r[jq.len() as int] == ' ');
            }
            assert(x == y);
        } else if q.len() == 1 {
            assert(r == y);
            assert(r[jp.len() as int] == ' ');
        } else {
            lemma_last_part(jp, x, jq, y);
            law_joined_chords_are_injective(p.drop_last(), q.drop_last());
        }
        assert(c =~= d) by {
            if cut {
                assert(c =~= x.push(' '));
                assert(d =~= y.push(' '));
            }
        }
        law_spelling_is_injective(p.last(), q.last());
        assert(p =~= p.drop_last().push(p.last()));
        assert(q =~= q.drop_last().push(q.last()));
        assert(p.drop_last() =~= q.drop_last());
    }
}

/// How the joined chords of a sequence end.
proof fn lemma_joined_end(p: Seq<KeyInput>)
    ensures
        p.len() == 0 <==> joined(rendered(p)).len() == 0,
        p.len() == 1 ==> joined(rendered(p)) == chord_text(p.last()),
        p.len() > 1 ==> joined(rendered(p)) == joined(rendered(p.drop_last())).push(' ')
            + chord_text(p.last()),
        p.len() > 0 ==> joined(rendered(p)).last() == chord_text(p.last()).last(),
{
    if p.len() > 0 {
        lemma_chord_spaces(p.last());
        assert(rendered(p).drop_last() =~= rendered(p.drop_last()));
    }
}

/// The kind of a warning tells which it is.
pub proof fn law_kind_tells_the_variant(w: WarningView)
    ensures
        w is Conflict <==> kind_of(w) == WarningKind::Conflict,
        w is UnknownAction <==> kind_of(w) == WarningKind::UnknownAction,
        w is PrefixShadow <==> kind_of(w) == WarningKind::PrefixShadow,
        w is EmptySequence <==> kind_of(w) == WarningKind::EmptySequence,
        w is SequenceShadow <==> kind_of(w) == WarningKind::SequenceShadow,
{
}

/// The second and the third text stand in the first, in this order.
pub open spec fn mentions(text: Seq<char>, a: Seq<char>, b: Seq<char>) -> bool {
    exists|x: Seq<char>, y: Seq<char>, z: Seq<char>| text == #[trigger] (x + a + y + b + z)
}

/// A warning says in words what it is about: the chord and the winner, the action and the
/// key, the two sequences, the action, or the chord and the sequence, each in quotes.
pub proof fn law_warning_says_what_it_is_about(w: WarningView)
    ensures
        match w {
            WarningView::Conflict { chord, winner, .. } => mentions(
                warning_text(w),
                quoted_text(chord),
                quoted_text(winner),
            ),
            WarningView::UnknownAction { key, action } => mentions(
                warning_text(w),
                quoted_text(action),
                quoted_text(key),
            ),
            WarningView::PrefixShadow { prefix, shadowed, .. } => mentions(
                warning_text(w),
                quoted_text(joined(prefix)),
                quoted_text(joined(shadowed)),
            ),
            WarningView::EmptySequence { action } => quoted_text(action).is_suffix_of(
                warning_text(w),
            ),
            WarningView::SequenceShadow { chord, sequence, .. } => mentions(
                warning_text(w),
                quoted_text(chord),
                quoted_text(joined(sequence)),
            ),
        },
{
    let t = warning_text(w);
    let none = Seq::<char>::empty();
    match w {
        WarningView::Conflict { chord, winner, .. } => {
            assert(t =~= "conflict on "@ + quoted_text(chord) + ": "@ + quoted_text(winner)
                + " wins"@);
        },
        WarningView::UnknownAction { key, action } => {
            assert(t =~= "unknown action "@ + quoted_text(action) + " for key "@ + quoted_text(key)
                + none);
        },
        WarningView::PrefixShadow { prefix, prefix_action, shadowed, .. } => {
            let middle = " ("@ + quoted_text(prefix_action) + ") shadows "@;
            assert(t =~= "prefix shadow: "@ + quoted_text(joined(prefix)) + middle + quoted_text(
                joined(shadowed),
            ) + "; later binding dropped"@);
        },
        WarningView::EmptySequence { action } => {
            let q = quoted_text(action);
            assert(t.subrange(t.len() - q.len(), t.len() as int) =~= q);
        },
        WarningView::SequenceShadow { chord, chord_action, sequence, .. } => {
            let middle = " ("@ + quoted_text(chord_action) + ") shadows sequence "@;
            assert(t =~= "sequence shadow: chord "@ + quoted_text(chord) + middle + quoted_text(
                joined(sequence),
            ) + none);
        },
    }
}

/// Joined texts are the texts with one space between neighbours.
pub proof fn law_joined_texts_are_set_apart(a: Seq<Seq<char>>, b: Seq<Seq<char>>)
    requires
        a.len() > 0,
        b.len() > 0,
    ensures
        joined(a + b) == joined(a) + seq![' '] + joined(b),
        joined(seq![a[0]]) == a[0],
    decreases b.len(),
{
    let all = a + b;
    if b.len() == 1 {
        assert(all.drop_last() =~= a);
        assert(joined(all) =~= joined(a) + seq![' '] + joined(b));
    } else {
        assert(all.drop_last() =~= a + b.drop_last());
        law_joined_texts_are_set_apart(a, b.drop_last());
        assert(joined(all) =~= joined(a) + seq![' '] + joined(b));
    }
}

/// What a list of warnings says is what each of them says, field by field and one by one.
pub proof fn law_warnings_say_what_they_hold(warnings: Seq<Warning>, w: Warning)
    ensures
        warning_views(warnings).len() == warnings.len(),
        forall|i: int| 0 <= i < warnings.len() ==> #[trigger] warning_views(warnings)[i] == warnings[i]@,
        w matches Warning::Conflict { chord, contenders, winner } ==> (
        w@ matches WarningView::Conflict { chord: a, contenders: b, winner: c } && a == chord@ && b
            == texts(contenders@) && c == winner@),
        w matches Warning::UnknownAction { key, action } ==> (w@ matches WarningView::UnknownAction {
            key: a,
            action: b,
        } && a == key@ && b == action@),
        w matches Warning::PrefixShadow { prefix, prefix_action, shadowed, shadowed_action } ==> (
        w@ matches WarningView::PrefixShadow {
            prefix: a,
            prefix_action: b,
            shadowed: c,
            shadowed_action: d,
        } && a == texts(prefix@) && b == prefix_action@ && c == texts(shadowed@) && d
            == shadowed_action@),
        w matches Warning::EmptySequence { action } ==> (w@ matches WarningView::EmptySequence {
            action: a,
        } && a == action@),
        w matches Warning::SequenceShadow { chord, chord_action, sequence, sequence_action } ==> (
        w@ matches WarningView::SequenceShadow {
            chord: a,
            chord_action: b,
            sequence: c,
            sequence_action: d,
        } && a == chord@ && b == chord_action@ && c == texts(sequence@) && d == sequence_action@),
{
}

} // verus!
