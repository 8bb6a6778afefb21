//! What the inspector puts on the screen, and the log that it leaves behind.
use crate::capture::texts;
use crate::input::KeyInput;
use crate::inspector::{action_shown, layer_states, log_views, Action, App, Context, InspectorView};
use crate::keymap::Keymap;
use crate::names::row_views;
use crate::screen::{
    add_label, add_row, binding_line, binding_text, column_line, columns, flag_text, flag_word,
    front, set_left, shown, Row, Tone,
};
use crate::suite::{are_chord_rows, chord_rows};
use crate::text::{copy_text, decimal_text, push_decimal, push_text};
use vstd::prelude::*;

verus! {

/// What a variable of the environment is shown as.
pub open spec fn variable_text(value: Option<&str>) -> Seq<char> {
    match value {
        Some(value) => value@,
        None => "?"@,
    }
}

/// The state of the enhanced keyboard protocol.
pub open spec fn protocol_text(s: InspectorView) -> Seq<char> {
    if s.supported {
        "kitty: supported=true active="@ + flag_text(s.on) + "  (F3 toggles)"@
    } else {
        "kitty: supported=false  (F3 unavailable on this terminal)"@
    }
}

/// The terminal that the inspector runs in, and the state of the enhanced keyboard
/// protocol.
pub fn status_text(
    app: &App,
    term: Option<&str>,
    program: Option<&str>,
    tmux: bool,
    ssh: bool,
) -> (line: String)
    ensures
        line@ == "TERM="@ + variable_text(term) + "  TERM_PROGRAM="@ + variable_text(program)
            + "  tmux="@ + flag_text(tmux) + "  ssh="@ + flag_text(ssh) + "   "@ + protocol_text(
            app@,
        ),
{
    let mut line = copy_text("TERM=");
    match term {
        Some(value) => push_text(&mut line, value),
        None => push_text(&mut line, "?"),
    }
    push_text(&mut line, "  TERM_PROGRAM=");
    match program {
        Some(value) => push_text(&mut line, value),
        None => push_text(&mut line, "?"),
    }
    push_text(&mut line, "  tmux=");
    push_text(&mut line, flag_word(tmux));
    push_text(&mut line, "  ssh=");
    push_text(&mut line, flag_word(ssh));
    push_text(&mut line, "   ");
    let ghost lead = line@;
    if app.enhancement_supported {
        push_text(&mut line, "kitty: supported=true active=");
        push_text(&mut line, flag_word(app.enhancement_on));
        push_text(&mut line, "  (F3 toggles)");
    } else {
        push_text(&mut line, "kitty: supported=false  (F3 unavailable on this terminal)");
    }
    assert(line@ =~= lead + protocol_text(app@));
    line
}

/// The layer is the innermost of the active ones.
pub open spec fn is_innermost(layers: Seq<(&'static str, bool)>, i: int) -> bool {
    layers[i].1 && forall|j: int| 0 <= j < i ==> !(#[trigger] layers[j]).1
}

/// The row of a layer of the scope chain, with a mark on the innermost active one.
pub open spec fn layer_line(layers: Seq<(&'static str, bool)>, i: int) -> (Seq<char>, Tone) {
    let mark = if is_innermost(layers, i) {
        "▶ "@
    } else {
        "  "@
    };
    if layers[i].1 {
        (mark + layers[i].0@ + "    [active]"@, Tone::Plain)
    } else {
        (mark + layers[i].0@ + "    (inactive in this context)"@, Tone::Dim)
    }
}

/// The scope chain in the order of resolution: the reserved key on top, the layers,
/// innermost first, and the sink past the end.
pub open spec fn chain_pane(layers: Seq<(&'static str, bool)>) -> Seq<(Seq<char>, Tone)> {
    seq![
        ("⚡ reserved   ctrl+c → force-quit  (wins over every layer)"@, Tone::Yellow),
        ("── chain (first hit wins, miss falls outward) ──"@, Tone::Dim),
    ] + Seq::new(layers.len(), |i: int| layer_line(layers, i)) + seq![
        ("── sink (outside the chain) ──"@, Tone::Dim),
        ("  PTY passthrough   (all layers miss → here)"@, Tone::Dim),
    ]
}

/// The scope chain, with the layers that are active in the current context.
pub fn chain_rows(app: &App) -> (rows: Vec<Row>)
    ensures
        shown(rows@) == chain_pane(layer_states(app@.context)),
{
    let mut rows: Vec<Row> = Vec::new();
    add_label(
        &mut rows,
        "⚡ reserved   ctrl+c → force-quit  (wins over every layer)",
        Tone::Yellow,
    );
    add_label(&mut rows, "── chain (first hit wins, miss falls outward) ──", Tone::Dim);
    let ghost head = shown(rows@);
    let layers = app.chain();
    let mut marked = false;
    let mut i: usize = 0;
    while i < layers.len()
        invariant
            i <= layers.len(),
            marked == exists|j: int| 0 <= j < i && (#[trigger] layers@[j]).1,
            shown(rows@) == head + Seq::new(i as nat, |j: int| layer_line(layers@, j)),
        decreases layers.len() - i,
    {
        let (name, active) = layers[i];
        let mut line = copy_text(
            if active && !marked {
                "▶ "
            } else {
                "  "
            },
        );
        push_text(&mut line, name);
        if active {
            push_text(&mut line, "    [active]");
            add_row(&mut rows, line, Tone::Plain);
        } else {
            push_text(&mut line, "    (inactive in this context)");
            add_row(&mut rows, line, Tone::Dim);
        }
        proof {
            assert(is_innermost(layers@, i as int) == (active && !marked));
            assert(shown(rows@) =~= head + Seq::new(
                (i + 1) as nat,
                |j: int| layer_line(layers@, j),
            ));
        }
        marked = marked || active;
        i = i + 1;
    }
    add_label(&mut rows, "── sink (outside the chain) ──", Tone::Dim);
    add_label(&mut rows, "  PTY passthrough   (all layers miss → here)", Tone::Dim);
    assert(shown(rows@) =~= chain_pane(layers@));
    rows
}

/// The rows of bindings.
pub open spec fn binding_lines(bound: Seq<(Seq<char>, &Action)>) -> Seq<(Seq<char>, Tone)> {
    bound.map_values(
        |b: (Seq<char>, &Action)| (binding_text(b.0, action_shown(*b.1)), Tone::Plain),
    )
}

/// The rows of a layer: its name, and its bindings.
pub open spec fn layer_lines(name: Seq<char>, bound: Seq<(Seq<char>, &Action)>) -> Seq<
    (Seq<char>, Tone),
> {
    seq![("["@ + name + "]"@, Tone::Bold)] + if bound.len() == 0 {
        seq![("    (no bindings)"@, Tone::Dim)]
    } else {
        binding_lines(bound)
    }
}

/// The rows are those of a layer with the bindings.
pub open spec fn are_layer_lines(
    rows: Seq<(Seq<char>, Tone)>,
    name: Seq<char>,
    m: Map<KeyInput, Action>,
) -> bool {
    exists|bound: Seq<(Seq<char>, &Action)>| #[trigger]
        are_chord_rows(bound, m) && rows == layer_lines(name, bound)
}

/// Adds the rows of a layer.
fn add_layer(rows: &mut Vec<Row>, name: &str, map: &Keymap<Action>) -> (added: Ghost<
    Seq<(Seq<char>, Tone)>,
>)
    ensures
        shown(final(rows)@) == shown(old(rows)@) + added@,
        are_layer_lines(added@, name@, map@),
{
    let ghost before = shown(rows@);
    let mut title = copy_text("[");
    push_text(&mut title, name);
    push_text(&mut title, "]");
    add_row(rows, title, Tone::Bold);
    let ghost head = shown(rows@);
    let given = chord_rows(map);
    let ghost bound = row_views(given@);
    if given.len() == 0 {
        add_label(rows, "    (no bindings)", Tone::Dim);
    }
    let ghost body = shown(rows@);
    let mut i: usize = 0;
    assert(shown(rows@) =~= body + binding_lines(bound.take(0)));
    while i < given.len()
        invariant
            i <= given.len(),
            bound == row_views(given@),
            shown(rows@) == body + binding_lines(bound.take(i as int)),
        decreases given.len() - i,
    {
        let line = binding_line(given[i].0.as_str(), given[i].1.shown());
        add_row(rows, line, Tone::Plain);
        proof {
            assert(bound[i as int] == (given@[i as int].0@, given@[i as int].1));
            assert(shown(rows@) =~= body + binding_lines(bound.take(i + 1)));
        }
        i = i + 1;
    }
    proof {
        assert(bound.take(i as int) =~= bound);
        assert(shown(rows@) =~= before + layer_lines(name@, bound));
        assert(are_chord_rows(bound, map@));
    }
    Ghost(layer_lines(name@, bound))
}

/// The rows are those of the three layers, innermost first.
pub open spec fn is_layer_pane(rows: Seq<(Seq<char>, Tone)>, s: InspectorView) -> bool {
    exists|b: Seq<(Seq<char>, Tone)>, p: Seq<(Seq<char>, Tone)>, g: Seq<(Seq<char>, Tone)>|
        {
            &&& #[trigger] are_layer_lines(b, "block"@, s.block)
            &&& #[trigger] are_layer_lines(p, "panel"@, s.panel)
            &&& #[trigger] are_layer_lines(g, "global"@, s.global)
            &&& rows == b + p + g
        }
}

/// The bindings of all three layers in the order of their chords, so that what is bound
/// at each level can be seen.
pub fn layer_rows(app: &App) -> (rows: Vec<Row>)
    ensures
        is_layer_pane(shown(rows@), app@),
{
    let mut rows: Vec<Row> = Vec::new();
    let b = add_layer(&mut rows, "block", &app.block);
    let p = add_layer(&mut rows, "panel", &app.panel);
    let g = add_layer(&mut rows, "global", &app.global);
    proof {
        assert(shown(rows@) =~= b@ + p@ + g@);
        assert(are_layer_lines(b@, "block"@, app@.block));
        assert(are_layer_lines(p@, "panel"@, app@.panel));
        assert(are_layer_lines(g@, "global"@, app@.global));
    }
    rows
}

/// What the columns of the log hold.
pub open spec fn log_heading() -> (Seq<char>, Seq<char>, Seq<char>) {
    ("crossterm event"@, "decoded"@, "dispatch"@)
}

/// How many lines of the log are shown.
pub open spec fn lines_shown() -> int {
    14
}

/// The lines of the log, one to a row.
pub open spec fn logged(log: Seq<(Seq<char>, Seq<char>, Seq<char>)>) -> Seq<(Seq<char>, Tone)> {
    log.map_values(
        |r: (Seq<char>, Seq<char>, Seq<char>)| (columns(r, 20, 14), Tone::Plain),
    )
}

/// The newest lines of the key log, newest first.
pub fn log_rows(app: &App) -> (rows: Vec<Row>)
    ensures
        shown(rows@) == seq![(columns(log_heading(), 20, 14), Tone::Bold)] + logged(
            front(app@.log, lines_shown()),
        ),
{
    let mut rows: Vec<Row> = Vec::new();
    add_row(&mut rows, column_line("crossterm event", "decoded", "dispatch", 20, 14), Tone::Bold);
    let ghost head = shown(rows@);
    let ghost all = log_views(app.log@);
    assert(head =~= seq![(columns(log_heading(), 20, 14), Tone::Bold)]);
    let mut i: usize = 0;
    assert(shown(rows@) =~= head + logged(all.take(0)));
    while i < app.log.len() && i < 14
        invariant
            i <= app.log.len(),
            i <= 14,
            all == log_views(app.log@),
            shown(rows@) == head + logged(all.take(i as int)),
        decreases app.log.len() - i,
    {
        let row = &app.log[i];
        let line = column_line(
            row.event.as_str(),
            row.decoded.as_str(),
            row.dispatch.as_str(),
            20,
            14,
        );
        add_row(&mut rows, line, Tone::Plain);
        proof {
            assert(all[i as int] == app.log@[i as int]@);
            assert(shown(rows@) =~= head + logged(all.take(i + 1)));
        }
        i = i + 1;
    }
    assert(all.take(i as int) =~= front(all, lines_shown()));
    rows
}

/// The lines of the log in columns.
pub open spec fn report_lines(log: Seq<(Seq<char>, Seq<char>, Seq<char>)>) -> Seq<Seq<char>> {
    log.map_values(|r: (Seq<char>, Seq<char>, Seq<char>)| columns(r, 22, 16))
}

/// The log as it is left behind: a title, a heading, and every line, oldest first.
/// Nothing where no key came.
pub open spec fn report_text(log: Seq<(Seq<char>, Seq<char>, Seq<char>)>) -> Seq<Seq<char>> {
    if log.len() == 0 {
        Seq::empty()
    } else {
        seq![
            "\nkeymap-tui — "@ + decimal_text(log.len()) + " key event(s), oldest first:"@,
            columns(log_heading(), 22, 16),
        ] + report_lines(log.reverse())
    }
}

/// The whole key log, oldest first, for the terminal's scrollback.
pub fn report(app: &App) -> (lines: Vec<String>)
    ensures
        texts(lines@) == report_text(app@.log),
{
    let mut lines: Vec<String> = Vec::new();
    let ghost all = log_views(app.log@);
    if app.log.len() == 0 {
        assert(texts(lines@) =~= report_text(all));
        return lines;
    }
    let mut title = copy_text("\nkeymap-tui — ");
    push_decimal(&mut title, app.log.len() as u64);
    push_text(&mut title, " key event(s), oldest first:");
    lines.push(title);
    lines.push(column_line("crossterm event", "decoded", "dispatch", 22, 16));
    let ghost head = texts(lines@);
    let ghost back = all.reverse();
    let n = app.log.len();
    let mut i: usize = 0;
    assert(texts(lines@) =~= head + report_lines(back.take(0)));
    while i < n
        invariant
            i <= n == app.log.len(),
            all == log_views(app.log@),
            back == all.reverse(),
            texts(lines@) == head + report_lines(back.take(i as int)),
        decreases n - i,
    {
        let row = &app.log[n - 1 - i];
        let ghost before = lines@;
        lines.push(
            column_line(row.event.as_str(), row.decoded.as_str(), row.dispatch.as_str(), 22, 16),
        );
        proof {
            assert(back[i as int] == app.log@[n - 1 - i]@);
            assert(texts(lines@) =~= texts(before).push(columns(back[i as int], 22, 16)));
            assert(report_lines(back.take(i + 1)) =~= report_lines(back.take(i as int)).push(
                columns(back[i as int], 22, 16),
            ));
            assert(texts(lines@) =~= head + report_lines(back.take(i + 1)));
        }
        i = i + 1;
    }
    assert(back.take(i as int) =~= back);
    assert(texts(lines@) =~= report_text(all));
    lines
}

/// The report leaves no key out and puts them in the order in which they came: with a title
/// and a heading in front, its lines are those of the log, of which the last is the oldest.
pub proof fn law_report_is_the_whole_log(log: Seq<(Seq<char>, Seq<char>, Seq<char>)>, i: int)
    requires
        0 <= i < log.len(),
    ensures
        report_text(log).len() == log.len() + 2,
        log[i].2.is_suffix_of(report_text(log)[2 + (log.len() - 1 - i)]),
        log[i].0.is_prefix_of(report_text(log)[2 + (log.len() - 1 - i)]),
{
    let back = log.reverse();
    let n = log.len() - 1 - i;
    assert(back[n] == log[i]);
    let line = report_text(log)[2 + n];
    assert(line == report_lines(back)[n]);
    let row = log[i];
    assert(line == set_left(row.0, 22) + set_left(row.1, 16) + row.2);
    assert(line.subrange(line.len() - row.2.len(), line.len() as int) =~= row.2);
    assert(line.subrange(0, row.0.len() as int) =~= row.0);
}

/// Of the scope chain, the layers of the context and of all contexts further out are active:
/// the global layer always is, and the block layer only where the panel layer is.
pub proof fn law_active_layers_are_nested(context: Context)
    ensures
        layer_states(context).len() == 3,
        layer_states(context)[0].0@ == "block"@,
        layer_states(context)[1].0@ == "panel"@,
        layer_states(context)[2].0@ == "global"@,
        layer_states(context)[2].1,
        layer_states(context)[0].1 ==> layer_states(context)[1].1,
        layer_states(context)[0].1 <==> context == Context::Block,
        layer_states(context)[1].1 <==> context == Context::Block || context == Context::Panel,
{
}

} // verus!
