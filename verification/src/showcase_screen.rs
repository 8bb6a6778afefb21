//! What the showcase puts on the screen.
use crate::capture::texts;
use crate::grammar::{chord_text, quote, quoted_text};
use crate::input::KeyInput;
use crate::merge::{note_views, MergeNote, NoteView};
use crate::names::{ref_views, row_views};
use crate::screen::{
    add_label, add_row, binding_line, binding_text, front, set_right, shown, Row, Tone,
};
use crate::showcase::{
    action_shown, are_candidates, is_menu, join_by, joined_by, legacy_views, Action, AppState, Mode,
    ModeView,
};
use crate::suite::{are_chord_rows, chord_rows};
use crate::text::{copy_text, decimal_text, push_decimal, push_text};
use crate::warning::{mentions, warning_text, warning_views, WarningView};
use vstd::prelude::*;

verus! {

/// What the mode is called.
pub open spec fn mode_label(mode: ModeView) -> Seq<char> {
    match mode {
        ModeView::Normal => "NORMAL"@,
        ModeView::CaptureRebind { chord } => "REBIND ← "@ + chord,
        ModeView::Palette { text } => "PALETTE  :"@ + text + "▌"@,
    }
}

/// The mode and the status.
pub fn mode_rows(app: &AppState) -> (rows: Vec<Row>)
    ensures
        shown(rows@) == seq![
            (" mode: "@ + mode_label(app@.mode), Tone::Plain),
            (" status: "@ + app@.status, Tone::Dim),
        ],
{
    let mut mode = copy_text(" mode: ");
    match &app.mode {
        Mode::Normal => push_text(&mut mode, "NORMAL"),
        Mode::CaptureRebind { chord } => {
            push_text(&mut mode, "REBIND ← ");
            push_text(&mut mode, chord.as_str());
        },
        Mode::Palette { text } => {
            push_text(&mut mode, "PALETTE  :");
            push_text(&mut mode, text.as_str());
            push_text(&mut mode, "▌");
        },
    }
    assert(mode@ =~= " mode: "@ + mode_label(app@.mode));
    let mut status = copy_text(" status: ");
    push_text(&mut status, app.status.as_str());
    let mut rows: Vec<Row> = Vec::new();
    add_row(&mut rows, mode, Tone::Plain);
    add_row(&mut rows, status, Tone::Dim);
    assert(shown(rows@) =~= seq![
        (" mode: "@ + mode_label(app@.mode), Tone::Plain),
        (" status: "@ + app@.status, Tone::Dim),
    ]);
    rows
}

/// The rows of bindings.
pub open spec fn binding_lines(bound: Seq<(Seq<char>, &Action)>) -> Seq<(Seq<char>, Tone)> {
    bound.map_values(
        |b: (Seq<char>, &Action)|
            (binding_text(b.0, action_shown(*b.1)), Tone::Plain),
    )
}

/// A note with its fields by name and its texts quoted.
pub open spec fn note_text(note: NoteView) -> Seq<char> {
    match note {
        NoteView::Overrode { layer, chord } => "Overrode"@ + place_text(layer, chord),
        NoteView::Unbound { layer, chord } => "Unbound"@ + place_text(layer, chord),
        NoteView::UnbindMiss { layer, chord } => "UnbindMiss"@ + place_text(layer, chord),
        NoteView::DroppedSequence { sequence } => "DroppedSequence { sequence: ["@ + joined_by(
            quoted_texts(sequence),
            ", "@,
        ) + "] }"@,
    }
}

/// A chord of a layer, by name and quoted.
pub open spec fn place_text(layer: Seq<char>, chord: Seq<char>) -> Seq<char> {
    " { layer: "@ + quoted_text(layer) + ", chord: "@ + quoted_text(chord) + " }"@
}

/// The texts, each quoted.
pub open spec fn quoted_texts(parts: Seq<Seq<char>>) -> Seq<Seq<char>> {
    parts.map_values(|p: Seq<char>| quoted_text(p))
}

/// Appends a chord of a layer, by name and quoted.
fn push_place(out: &mut String, layer: &str, chord: &str)
    ensures
        final(out)@ == old(out)@ + place_text(layer@, chord@),
{
    let ghost before = out@;
    push_text(out, " { layer: ");
    push_text(out, quote(layer).as_str());
    push_text(out, ", chord: ");
    push_text(out, quote(chord).as_str());
    push_text(out, " }");
    assert(out@ =~= before + place_text(layer@, chord@));
}

/// The texts, each quoted.
fn quote_all(parts: &Vec<String>) -> (out: Vec<String>)
    ensures
        texts(out@) == quoted_texts(texts(parts@)),
{
    let mut out: Vec<String> = Vec::new();
    let mut i: usize = 0;
    while i < parts.len()
        invariant
            i <= parts.len(),
            out.len() == i,
            forall|j: int| 0 <= j < i ==> (#[trigger] out@[j])@ == quoted_text(parts@[j]@),
        decreases parts.len() - i,
    {
        out.push(quote(parts[i].as_str()));
        i = i + 1;
    }
    assert(texts(out@) =~= quoted_texts(texts(parts@)));
    out
}

/// A note as a line.
fn show_note(note: &MergeNote) -> (out: String)
    ensures
        out@ == note_text(note@),
{
    let mut out = String::new();
    match note {
        MergeNote::Overrode { layer, chord } => {
            push_text(&mut out, "Overrode");
            push_place(&mut out, layer.as_str(), chord.as_str());
        },
        MergeNote::Unbound { layer, chord } => {
            push_text(&mut out, "Unbound");
            push_place(&mut out, layer.as_str(), chord.as_str());
        },
        MergeNote::UnbindMiss { layer, chord } => {
            push_text(&mut out, "UnbindMiss");
            push_place(&mut out, layer.as_str(), chord.as_str());
        },
        MergeNote::DroppedSequence { sequence } => {
            push_text(&mut out, "DroppedSequence { sequence: [");
            let quoted = quote_all(sequence);
            push_text(&mut out, join_by(&quoted, ", ").as_str());
            push_text(&mut out, "] }");
        },
    }
    assert(out@ =~= note_text(note@));
    out
}

/// The rows of the notes of the merge; none where there are no notes.
pub open spec fn note_lines(notes: Seq<NoteView>) -> Seq<(Seq<char>, Tone)> {
    if notes.len() == 0 {
        Seq::empty()
    } else {
        seq![("\nmerge notes ("@ + decimal_text(notes.len()) + ")"@, Tone::Dim)]
            + noted(notes)
    }
}

/// The notes, one to a row.
pub open spec fn noted(notes: Seq<NoteView>) -> Seq<(Seq<char>, Tone)> {
    notes.map_values(|n: NoteView| ("  "@ + note_text(n), Tone::Dim))
}

/// The left pane: the bindings of the global layer, and the notes of the merge.
pub open spec fn binding_pane(
    bound: Seq<(Seq<char>, &Action)>,
    notes: Seq<NoteView>,
) -> Seq<(Seq<char>, Tone)> {
    seq![("global layer:"@, Tone::Bold)] + binding_lines(bound) + note_lines(notes)
}

/// The bindings of the global layer in the order of their chords, and the notes of the
/// merge.
pub fn binding_rows(app: &AppState) -> (rows: Vec<Row>)
    ensures
        exists|bound: Seq<(Seq<char>, &Action)>| #[trigger]
            are_chord_rows(bound, app@.global) && shown(rows@) == binding_pane(bound, app@.notes),
{
    let mut rows: Vec<Row> = Vec::new();
    add_label(&mut rows, "global layer:", Tone::Bold);
    let ghost head = shown(rows@);
    let given = chord_rows(&app.global);
    let ghost bound = row_views(given@);
    let mut i: usize = 0;
    assert(shown(rows@) =~= head + binding_lines(bound.take(0)));
    while i < given.len()
        invariant
            i <= given.len(),
            bound == row_views(given@),
            shown(rows@) == head + binding_lines(bound.take(i as int)),
        decreases given.len() - i,
    {
        let line = binding_line(given[i].0.as_str(), given[i].1.shown());
        add_row(&mut rows, line, Tone::Plain);
        proof {
            assert(bound[i as int] == (given@[i as int].0@, given@[i as int].1));
            assert(shown(rows@) =~= head + binding_lines(bound.take(i + 1)));
        }
        i = i + 1;
    }
    assert(bound.take(i as int) =~= bound);
    let ghost notes = note_views(app.merge_notes@);
    let ghost body = head + binding_lines(bound);
    if app.merge_notes.len() > 0 {
        let mut title = copy_text("\nmerge notes (");
        push_decimal(&mut title, app.merge_notes.len() as u64);
        push_text(&mut title, ")");
        add_row(&mut rows, title, Tone::Dim);
        let ghost titled = shown(rows@);
        let mut i: usize = 0;
        assert(shown(rows@) =~= titled + noted(notes.take(0)));
        while i < app.merge_notes.len()
            invariant
                i <= app.merge_notes.len(),
                notes == note_views(app.merge_notes@),
                shown(rows@) == titled + noted(notes.take(i as int)),
            decreases app.merge_notes.len() - i,
        {
            let mut line = copy_text("  ");
            push_text(&mut line, show_note(&app.merge_notes[i]).as_str());
            add_row(&mut rows, line, Tone::Dim);
            assert(shown(rows@) =~= titled + noted(notes.take(i + 1)));
            i = i + 1;
        }
        assert(notes.take(i as int) =~= notes);
    }
    assert(shown(rows@) =~= binding_pane(bound, notes));
    assert(are_chord_rows(bound, app@.global));
    rows
}

/// The row on the keys that go on from a pending sequence.
pub open spec fn menu_line(next: Seq<Seq<char>>) -> (Seq<char>, Tone) {
    if next.len() == 0 {
        ("  (none)"@, Tone::Dim)
    } else {
        ("  next keys: "@ + joined_by(next, ", "@), Tone::Plain)
    }
}

/// How many completions are shown.
pub open spec fn candidates_shown() -> int {
    6
}

/// How many warnings are shown.
pub open spec fn warnings_shown() -> int {
    4
}

/// The rows of the completions.
pub open spec fn candidate_lines(rows: Seq<(Seq<char>, Action)>) -> Seq<(Seq<char>, Tone)> {
    if rows.len() == 0 {
        seq![("  (enter palette with ':')"@, Tone::Dim)]
    } else {
        named(front(rows, candidates_shown()))
    }
}

/// The names, one to a row.
pub open spec fn named(rows: Seq<(Seq<char>, Action)>) -> Seq<(Seq<char>, Tone)> {
    rows.map_values(|r: (Seq<char>, Action)| ("  "@ + r.0, Tone::Plain))
}

/// The rows of the warnings; none where there are no warnings.
pub open spec fn warning_lines(warnings: Seq<WarningView>) -> Seq<(Seq<char>, Tone)> {
    if warnings.len() == 0 {
        Seq::empty()
    } else {
        seq![
            (Seq::<char>::empty(), Tone::Plain),
            ("warnings ("@ + decimal_text(warnings.len()) + "):"@, Tone::Yellow),
        ] + warned(front(warnings, warnings_shown()))
    }
}

/// The warnings, one to a row.
pub open spec fn warned(warnings: Seq<WarningView>) -> Seq<(Seq<char>, Tone)> {
    warnings.map_values(|w: WarningView| ("  "@ + warning_text(w), Tone::Yellow))
}

/// The right pane: the pending sequence, the palette and the warnings.
pub open spec fn sequence_pane(
    next: Seq<Seq<char>>,
    candidates: Seq<(Seq<char>, Action)>,
    warnings: Seq<WarningView>,
) -> Seq<(Seq<char>, Tone)> {
    seq![
        ("sequences pending:"@, Tone::Bold),
        menu_line(next),
        (Seq::<char>::empty(), Tone::Plain),
        ("palette candidates:"@, Tone::Bold),
    ] + candidate_lines(candidates) + warning_lines(warnings)
}

/// Adds the rows of the completions.
fn add_candidates(rows: &mut Vec<Row>, candidates: &Vec<(&str, &Action)>)
    ensures
        shown(final(rows)@) == shown(old(rows)@) + candidate_lines(ref_views(candidates@)),
{
    let ghost before = shown(rows@);
    let ghost all = ref_views(candidates@);
    if candidates.len() == 0 {
        add_label(rows, "  (enter palette with ':')", Tone::Dim);
        assert(shown(rows@) =~= before + candidate_lines(all));
        return;
    }
    let mut i: usize = 0;
    assert(shown(rows@) =~= before + named(all.take(0)));
    while i < candidates.len() && i < 6
        invariant
            i <= candidates.len(),
            i <= 6,
            all == ref_views(candidates@),
            shown(rows@) == before + named(all.take(i as int)),
        decreases candidates.len() - i,
    {
        let mut line = copy_text("  ");
        push_text(&mut line, candidates[i].0);
        add_row(rows, line, Tone::Plain);
        assert(shown(rows@) =~= before + named(all.take(i + 1)));
        i = i + 1;
    }
    assert(all.take(i as int) =~= front(all, candidates_shown()));
}

/// Adds the rows of the warnings.
fn add_warnings(rows: &mut Vec<Row>, app: &AppState)
    ensures
        shown(final(rows)@) == shown(old(rows)@) + warning_lines(app@.warnings),
{
    let ghost before = shown(rows@);
    let ghost all = warning_views(app.warnings@);
    if app.warnings.len() == 0 {
        assert(shown(rows@) =~= before + warning_lines(all));
        return;
    }
    add_row(rows, String::new(), Tone::Plain);
    let mut title = copy_text("warnings (");
    push_decimal(&mut title, app.warnings.len() as u64);
    push_text(&mut title, "):");
    add_row(rows, title, Tone::Yellow);
    let ghost titled = shown(rows@);
    let mut i: usize = 0;
    assert(shown(rows@) =~= titled + warned(all.take(0)));
    while i < app.warnings.len() && i < 4
        invariant
            i <= app.warnings.len(),
            i <= 4,
            all == warning_views(app.warnings@),
            shown(rows@) == titled + warned(all.take(i as int)),
        decreases app.warnings.len() - i,
    {
        let mut line = copy_text("  ");
        push_text(&mut line, app.warnings[i].to_string().as_str());
        add_row(rows, line, Tone::Yellow);
        assert(shown(rows@) =~= titled + warned(all.take(i + 1)));
        i = i + 1;
    }
    assert(all.take(i as int) =~= front(all, warnings_shown()));
    assert(shown(rows@) =~= before + warning_lines(all));
}

/// The keys that go on from a pending sequence, the completions of the palette text,
/// and the warnings of the load.
pub fn sequence_rows(app: &AppState) -> (rows: Vec<Row>)
    ensures
        exists|next: Seq<Seq<char>>, candidates: Seq<(Seq<char>, Action)>| #[trigger]
            is_menu(app@, next) && #[trigger] are_candidates(app@, candidates) && shown(rows@)
                == sequence_pane(next, candidates, app@.warnings),
{
    let mut rows: Vec<Row> = Vec::new();
    add_label(&mut rows, "sequences pending:", Tone::Bold);
    let next = app.continuations();
    if next.len() == 0 {
        add_label(&mut rows, "  (none)", Tone::Dim);
    } else {
        let mut line = copy_text("  next keys: ");
        push_text(&mut line, join_by(&next, ", ").as_str());
        add_row(&mut rows, line, Tone::Plain);
    }
    add_row(&mut rows, String::new(), Tone::Plain);
    add_label(&mut rows, "palette candidates:", Tone::Bold);
    let candidates = app.palette_candidates();
    let ghost head = shown(rows@);
    add_candidates(&mut rows, &candidates);
    add_warnings(&mut rows, app);
    proof {
        let t = texts(next@);
        let c = ref_views(candidates@);
        assert(head =~= seq![
            ("sequences pending:"@, Tone::Bold),
            menu_line(t),
            (Seq::<char>::empty(), Tone::Plain),
            ("palette candidates:"@, Tone::Bold),
        ]);
        assert(shown(rows@) =~= sequence_pane(t, c, app@.warnings));
        assert(is_menu(app@, t) && are_candidates(app@, c));
    }
    rows
}

/// How many findings are shown.
pub open spec fn findings_shown() -> int {
    4
}

/// The rows of the legacy findings.
pub open spec fn finding_lines(findings: Seq<(Seq<char>, Seq<char>)>) -> Seq<(Seq<char>, Tone)> {
    if findings.len() == 0 {
        seq![("  all chords survive legacy terminals"@, Tone::Dim)]
    } else {
        found(front(findings, findings_shown()))
    }
}

/// The findings, one to a row.
pub open spec fn found(findings: Seq<(Seq<char>, Seq<char>)>) -> Seq<(Seq<char>, Tone)> {
    findings.map_values(
        |f: (Seq<char>, Seq<char>)| ("  "@ + f.0 + "  "@ + f.1, Tone::Yellow),
    )
}

/// Which chords do not survive a legacy terminal.
pub fn lint_rows(app: &AppState) -> (rows: Vec<Row>)
    ensures
        shown(rows@) == seq![("legacy lints (keymap_suite::legacy_lints):"@, Tone::Bold)]
            + finding_lines(app@.findings),
{
    let mut rows: Vec<Row> = Vec::new();
    add_label(&mut rows, "legacy lints (keymap_suite::legacy_lints):", Tone::Bold);
    let ghost head = shown(rows@);
    let ghost all = legacy_views(app.legacy_warnings@);
    assert(head =~= seq![("legacy lints (keymap_suite::legacy_lints):"@, Tone::Bold)]);
    if app.legacy_warnings.len() == 0 {
        add_label(&mut rows, "  all chords survive legacy terminals", Tone::Dim);
        assert(shown(rows@) =~= head + finding_lines(all));
        return rows;
    }
    let mut i: usize = 0;
    assert(shown(rows@) =~= head + found(all.take(0)));
    while i < app.legacy_warnings.len() && i < 4
        invariant
            i <= app.legacy_warnings.len(),
            i <= 4,
            all == legacy_views(app.legacy_warnings@),
            shown(rows@) == head + found(all.take(i as int)),
        decreases app.legacy_warnings.len() - i,
    {
        let finding = &app.legacy_warnings[i];
        let mut line = copy_text("  ");
        push_text(&mut line, finding.chord.as_str());
        push_text(&mut line, "  ");
        push_text(&mut line, finding.detail.as_str());
        add_row(&mut rows, line, Tone::Yellow);
        assert(shown(rows@) =~= head + found(all.take(i + 1)));
        i = i + 1;
    }
    assert(all.take(i as int) =~= front(all, findings_shown()));
    rows
}

/// The decode demonstration.
pub fn decode_rows(app: &AppState) -> (rows: Vec<Row>)
    ensures
        shown(rows@) == seq![
            ("canned-bytes decode (keymap-term):"@, Tone::Bold),
            ("  "@ + app@.demo, Tone::Dim),
        ],
{
    let mut rows: Vec<Row> = Vec::new();
    add_label(&mut rows, "canned-bytes decode (keymap-term):", Tone::Bold);
    let mut line = copy_text("  ");
    push_text(&mut line, app.decode_demo.as_str());
    add_row(&mut rows, line, Tone::Dim);
    assert(shown(rows@) =~= seq![
        ("canned-bytes decode (keymap-term):"@, Tone::Bold),
        ("  "@ + app@.demo, Tone::Dim),
    ]);
    rows
}

/// Every binding of the global layer has a row of its own, which begins with the chord in
/// its column and ends with the action; the rows come in the order of the chords, under one
/// heading, before any note.
pub proof fn law_every_binding_has_a_row(
    bound: Seq<(Seq<char>, &Action)>,
    notes: Seq<NoteView>,
    m: Map<KeyInput, Action>,
    k: KeyInput,
)
    requires
        are_chord_rows(bound, m),
        m.contains_key(k),
    ensures
        exists|i: int|
            {
                let text = (#[trigger] binding_pane(bound, notes)[i]).0;
                &&& 1 <= i <= bound.len()
                &&& bound[i - 1].0 == chord_text(k)
                &&& action_shown(m[k]).is_suffix_of(text)
                &&& chord_text(k).is_suffix_of(
                    text.subrange(0, text.len() - action_shown(m[k]).len() - 2),
                )
            },
        binding_pane(bound, notes).len() == 1 + bound.len() + (if notes.len() > 0 {
            1 + notes.len()
        } else {
            0
        }),
{
    let pane = binding_pane(bound, notes);
    let n = choose|n: int| 0 <= n < bound.len() && bound[n] == (chord_text(k), &m[k]);
    let i = n + 1;
    assert(pane[i] == binding_lines(bound)[n]);
    let text = pane[i].0;
    let chord = chord_text(k);
    let action = action_shown(m[k]);
    reveal_strlit("  ");
    assert(text == "  "@ + set_right(chord, 12) + "  "@ + action);
    assert(text.subrange(text.len() - action.len(), text.len() as int) =~= action);
    let front = text.subrange(0, text.len() - action.len() - 2);
    assert(front =~= "  "@ + set_right(chord, 12));
    assert(front.subrange(front.len() - chord.len(), front.len() as int) =~= chord);
}

/// A note is shown by what happened, then the layer and the chord, both in quotes.
pub proof fn law_note_is_shown_with_its_place(layer: Seq<char>, chord: Seq<char>)
    ensures
        ({
            let over = note_text(NoteView::Overrode { layer, chord });
            let gone = note_text(NoteView::Unbound { layer, chord });
            let miss = note_text(NoteView::UnbindMiss { layer, chord });
            &&& mentions(over, quoted_text(layer), quoted_text(chord))
            &&& mentions(gone, quoted_text(layer), quoted_text(chord))
            &&& mentions(miss, quoted_text(layer), quoted_text(chord))
            &&& "Overrode"@.is_prefix_of(over)
            &&& "Unbound"@.is_prefix_of(gone)
            &&& "UnbindMiss"@.is_prefix_of(miss)
        }),
{
    let l = quoted_text(layer);
    let c = quoted_text(chord);
    let over = note_text(NoteView::Overrode { layer, chord });
    let gone = note_text(NoteView::Unbound { layer, chord });
    let miss = note_text(NoteView::UnbindMiss { layer, chord });
    assert(over =~= "Overrode"@ + " { layer: "@ + l + ", chord: "@ + c + " }"@);
    assert(gone =~= "Unbound"@ + " { layer: "@ + l + ", chord: "@ + c + " }"@);
    assert(miss =~= "UnbindMiss"@ + " { layer: "@ + l + ", chord: "@ + c + " }"@);
    assert(over.subrange(0, "Overrode"@.len() as int) =~= "Overrode"@);
    assert(gone.subrange(0, "Unbound"@.len() as int) =~= "Unbound"@);
    assert(miss.subrange(0, "UnbindMiss"@.len() as int) =~= "UnbindMiss"@);
}

} // verus!
