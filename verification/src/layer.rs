//! Building one layer of a configuration.
use crate::document::{layer_of, raw_rows, Node, Raw, RawValue, DATE_FIELD};
use crate::error::{key_error, BuildError, ErrorView};
use crate::grammar::{chord_text, law_spelling_is_injective, lemma_long_word_is_no_chord,
    parsed_chord};
use crate::input::KeyInput;
use crate::keymap::Keymap;
use crate::warning::{warning_views, Warning, WarningView};
use crate::capture::texts;
use vstd::prelude::*;

verus! {

/// A row of a layer once its key is parsed and its action name is resolved.
pub struct Line<A> {
    /// The key string as written.
    pub key: Seq<char>,
    /// The chord that it spells.
    pub chord: KeyInput,
    /// The action name; none for a tombstone.
    pub name: Option<Seq<char>>,
    /// What the resolver made of the name.
    pub action: Option<A>,
}

/// The resolver may answer so for the name.
pub open spec fn answers<A, F: Fn(&str) -> Option<A>>(
    resolve: F,
    name: Seq<char>,
    answer: Option<A>,
) -> bool {
    exists|s: &str| s@ == name && #[trigger] call_ensures(resolve, (s,), answer)
}

/// The line is what the row says, given what the resolver answered.
pub open spec fn is_line<A, F: Fn(&str) -> Option<A>>(
    resolve: F,
    row: (Seq<char>, Raw),
    line: Line<A>,
) -> bool {
    &&& line.key == row.0
    &&& parsed_chord(row.0) == Some(line.chord)
    &&& match row.1 {
        Raw::Action(name) => line.name == Some(name) && answers(resolve, name, line.action),
        Raw::Bool(b) => !b && line.name is None,
    }
}

/// The lines are those of the rows.
pub open spec fn are_lines<A, F: Fn(&str) -> Option<A>>(
    resolve: F,
    rows: Seq<(Seq<char>, Raw)>,
    lines: Seq<Line<A>>,
) -> bool {
    lines.len() == rows.len() && forall|i: int|
        0 <= i < rows.len() ==> is_line(resolve, rows[i], #[trigger] lines[i])
}

/// What is fatal about a row.
pub open spec fn row_error(row: (Seq<char>, Raw)) -> Option<ErrorView> {
    if parsed_chord(row.0) is None {
        Some(key_error(row.0))
    } else if row.1 == Raw::Bool(true) {
        Some(ErrorView::InvalidTombstone { key: row.0 })
    } else {
        None
    }
}

/// The first thing that is fatal about the rows.
pub open spec fn rows_error(rows: Seq<(Seq<char>, Raw)>) -> Option<ErrorView>
    decreases rows.len(),
{
    if rows.len() == 0 {
        None
    } else {
        match rows_error(rows.drop_last()) {
            Some(e) => Some(e),
            None => row_error(rows.last()),
        }
    }
}

/// A date in place of a layer is fatal: the name that it stands under spells no chord.
pub proof fn law_date_is_no_layer(text: Seq<char>)
    ensures
        rows_error(layer_of(Node::Date(text))) == Some(key_error(DATE_FIELD@)),
{
    let rows = layer_of(Node::Date(text));
    reveal_strlit("$__toml_private_datetime");
    lemma_long_word_is_no_chord(DATE_FIELD@);
    reveal_with_fuel(rows_error, 2);
    assert(rows.last() == rows[0]);
}

/// The line binds the chord to an action.
pub open spec fn binds<A>(line: Line<A>, c: KeyInput) -> bool {
    line.chord == c && line.name is Some && line.action is Some
}

/// The names of the lines that bind the chord, in order.
pub open spec fn contenders<A>(lines: Seq<Line<A>>, c: KeyInput) -> Seq<Seq<char>>
    decreases lines.len(),
{
    if lines.len() == 0 {
        Seq::empty()
    } else if binds(lines.last(), c) {
        contenders(lines.drop_last(), c).push(lines.last().name->0)
    } else {
        contenders(lines.drop_last(), c)
    }
}

/// The last line that binds the chord.
pub open spec fn winner<A>(lines: Seq<Line<A>>, c: KeyInput) -> Option<Line<A>>
    decreases lines.len(),
{
    if lines.len() == 0 {
        None
    } else if binds(lines.last(), c) {
        Some(lines.last())
    } else {
        winner(lines.drop_last(), c)
    }
}

/// The warnings on the lines of the chord whose action name is unknown, in order.
pub open spec fn unknown_actions<A>(lines: Seq<Line<A>>, c: KeyInput) -> Seq<WarningView>
    decreases lines.len(),
{
    if lines.len() == 0 {
        Seq::empty()
    } else {
        let line = lines.last();
        let before = unknown_actions(lines.drop_last(), c);
        if line.chord == c && line.name is Some && line.action is None {
            before.push(WarningView::UnknownAction { key: line.key, action: line.name->0 })
        } else {
            before
        }
    }
}

/// The warnings on a chord: its unknown actions, then a conflict where more than
/// one line binds it.
pub open spec fn chord_warnings<A>(lines: Seq<Line<A>>, c: KeyInput) -> Seq<WarningView> {
    let names = contenders(lines, c);
    if names.len() > 1 {
        unknown_actions(lines, c).push(
            WarningView::Conflict { chord: chord_text(c), contenders: names, winner: names.last() },
        )
    } else {
        unknown_actions(lines, c)
    }
}

/// The chords of the lines with an action name, each where it is first seen.
pub open spec fn first_seen<A>(lines: Seq<Line<A>>) -> Seq<KeyInput>
    decreases lines.len(),
{
    if lines.len() == 0 {
        Seq::empty()
    } else {
        let before = first_seen(lines.drop_last());
        if lines.last().name is Some && !before.contains(lines.last().chord) {
            before.push(lines.last().chord)
        } else {
            before
        }
    }
}

/// The warnings on the chords, one after the other.
pub open spec fn warnings_on<A>(lines: Seq<Line<A>>, chords: Seq<KeyInput>) -> Seq<WarningView>
    decreases chords.len(),
{
    if chords.len() == 0 {
        Seq::empty()
    } else {
        warnings_on(lines, chords.drop_last()) + chord_warnings(lines, chords.last())
    }
}

/// The warnings on a layer.
pub open spec fn layer_warnings<A>(lines: Seq<Line<A>>) -> Seq<WarningView> {
    warnings_on(lines, first_seen(lines))
}

/// The bindings of a layer: each chord to the action of the last line that binds
/// it.
pub open spec fn layer_map<A>(lines: Seq<Line<A>>) -> Map<KeyInput, A> {
    Map::new(
        |c: KeyInput| winner(lines, c) is Some,
        |c: KeyInput| (winner(lines, c)->0).action->0,
    )
}

/// The action names that won, by chord.
pub open spec fn layer_names<A>(lines: Seq<Line<A>>) -> Map<KeyInput, Seq<char>> {
    Map::new(
        |c: KeyInput| winner(lines, c) is Some,
        |c: KeyInput| (winner(lines, c)->0).name->0,
    )
}

/// The chords declared unbound, each where it is first seen.
pub open spec fn tombstones<A>(lines: Seq<Line<A>>) -> Seq<KeyInput>
    decreases lines.len(),
{
    if lines.len() == 0 {
        Seq::empty()
    } else {
        let before = tombstones(lines.drop_last());
        if lines.last().name is None && !before.contains(lines.last().chord) {
            before.push(lines.last().chord)
        } else {
            before
        }
    }
}

/// A row whose key is parsed.
struct Parsed {
    key: String,
    chord: KeyInput,
    name: Option<String>,
}

/// The line that a parsed row and an answer are.
spec fn line_of<A>(p: Parsed, action: Option<A>) -> Line<A> {
    Line {
        key: p.key@,
        chord: p.chord,
        name: match p.name {
            Some(n) => Some(n@),
            None => None,
        },
        action,
    }
}

/// The parsed row is what the row says.
spec fn is_parsed(row: (Seq<char>, Raw), p: Parsed) -> bool {
    &&& p.key@ == row.0
    &&& parsed_chord(row.0) == Some(p.chord)
    &&& match row.1 {
        Raw::Action(name) => p.name matches Some(n) && n@ == name,
        Raw::Bool(b) => !b && p.name is None,
    }
}

/// An error in the first rows is the error of all.
proof fn lemma_error_front(rows: Seq<(Seq<char>, Raw)>, n: int)
    requires
        0 <= n <= rows.len(),
        rows_error(rows.take(n)) is Some,
    ensures
        rows_error(rows) == rows_error(rows.take(n)),
    decreases rows.len(),
{
    if n == rows.len() {
        assert(rows.take(n) =~= rows);
    } else {
        assert(rows.drop_last().take(n) =~= rows.take(n));
        lemma_error_front(rows.drop_last(), n);
    }
}

/// Parses the keys of the rows, in order.
fn parse_rows(entries: Vec<(String, RawValue)>) -> (r: Result<Vec<Parsed>, BuildError>)
    ensures
        match r {
            Ok(parsed) => {
                &&& rows_error(raw_rows(entries@)) is None
                &&& parsed.len() == entries.len()
                &&& forall|i: int|
                    0 <= i < parsed.len() ==> is_parsed(
                        raw_rows(entries@)[i],
                        #[trigger] parsed@[i],
                    )
            },
            Err(e) => rows_error(raw_rows(entries@)) == Some(e@) && !(e is Toml),
        },
{
    let ghost rows = raw_rows(entries@);
    let mut rest = entries;
    let mut parsed: Vec<Parsed> = Vec::new();
    assert(rest@ =~= entries@.skip(0));
    assert(rows.take(0) =~= Seq::<(Seq<char>, Raw)>::empty());
    while rest.len() > 0
        invariant
            rows == raw_rows(entries@),
            parsed.len() + rest.len() == entries.len(),
            rest@ == entries@.skip(parsed.len() as int),
            rows_error(rows.take(parsed.len() as int)) is None,
            forall|i: int| 0 <= i < parsed.len() ==> is_parsed(rows[i], #[trigger] parsed@[i]),
        decreases rest.len(),
    {
        let ghost n = parsed.len() as int;
        let (key, value) = rest.remove(0);
        proof {
            assert(entries@[n] == (key, value));
            assert(rows[n] == (key@, value@));
            assert(rows.take(n + 1).drop_last() =~= rows.take(n));
            assert(rows.take(n + 1).last() == rows[n]);
            if row_error(rows[n]) is Some {
                lemma_error_front(rows, n + 1);
            }
        }
        let chord = match KeyInput::parse(key.as_str()) {
            Ok(chord) => chord,
            Err(source) => {
                return Err(BuildError::KeyParse { key, source });
            },
        };
        match value {
            RawValue::Bool(b) => {
                if b {
                    return Err(BuildError::InvalidTombstone { key });
                }
                parsed.push(Parsed { key, chord, name: None });
            },
            RawValue::Action(name) => {
                parsed.push(Parsed { key, chord, name: Some(name) });
            },
        }
        assert(rest@ =~= entries@.skip(parsed.len() as int));
    }
    assert(rows.take(parsed.len() as int) =~= rows);
    Ok(parsed)
}

/// Whether the chord is among the chords.
pub(crate) fn has_chord(chords: &Vec<KeyInput>, c: KeyInput) -> (r: bool)
    ensures
        r == chords@.contains(c),
{
    let mut i: usize = 0;
    while i < chords.len()
        invariant
            i <= chords.len(),
            forall|j: int| 0 <= j < i ==> chords@[j] != c,
        decreases chords.len() - i,
    {
        if chords[i] == c {
            return true;
        }
        i = i + 1;
    }
    false
}

/// The lines that the parsed rows and the answers are.
spec fn lines_of<A>(parsed: Seq<Parsed>, given: Seq<Option<A>>) -> Seq<Line<A>> {
    Seq::new(parsed.len(), |i: int| line_of(parsed[i], given[i]))
}

/// The chords with an action name and the tombstones do not depend on the answers.
proof fn lemma_chords_of_answers<A>(parsed: Seq<Parsed>, a: Seq<Option<A>>, b: Seq<Option<A>>)
    ensures
        first_seen(lines_of(parsed, a)) == first_seen(lines_of(parsed, b)),
        tombstones(lines_of(parsed, a)) == tombstones(lines_of(parsed, b)),
    decreases parsed.len(),
{
    if parsed.len() > 0 {
        let init = parsed.drop_last();
        lemma_chords_of_answers(init, a, b);
        assert(lines_of(parsed, a).drop_last() =~= lines_of(init, a));
        assert(lines_of(parsed, b).drop_last() =~= lines_of(init, b));
    }
}

/// The chords of the parsed rows: those with an action name, and the tombstones.
fn collect_chords<A>(parsed: &Vec<Parsed>) -> (r: (Vec<KeyInput>, Vec<KeyInput>))
    ensures
        forall|given: Seq<Option<A>>|
            #![trigger lines_of(parsed@, given)]
            r.0@ == first_seen(lines_of(parsed@, given)) && r.1@ == tombstones(
                lines_of(parsed@, given),
            ),
{
    let ghost nothing = Seq::new(parsed@.len(), |i: int| None::<A>);
    let ghost lines = lines_of(parsed@, nothing);
    let mut order: Vec<KeyInput> = Vec::new();
    let mut unbinds: Vec<KeyInput> = Vec::new();
    let mut i: usize = 0;
    assert(lines.take(0) =~= Seq::<Line<A>>::empty());
    while i < parsed.len()
        invariant
            i <= parsed.len(),
            lines == lines_of(parsed@, nothing),
            order@ == first_seen(lines.take(i as int)),
            unbinds@ == tombstones(lines.take(i as int)),
        decreases parsed.len() - i,
    {
        assert(lines.take(i + 1).drop_last() =~= lines.take(i as int));
        assert(lines.take(i + 1).last() == lines[i as int]);
        let c = parsed[i].chord;
        if parsed[i].name.is_some() {
            if !has_chord(&order, c) {
                order.push(c);
            }
        } else {
            if !has_chord(&unbinds, c) {
                unbinds.push(c);
            }
        }
        i = i + 1;
    }
    proof {
        assert(lines.take(i as int) =~= lines);
        assert forall|given: Seq<Option<A>>|
            #![trigger lines_of(parsed@, given)]
            order@ == first_seen(lines_of(parsed@, given)) && unbinds@ == tombstones(
                lines_of(parsed@, given),
            ) by {
            lemma_chords_of_answers(parsed@, given, nothing);
        }
    }
    (order, unbinds)
}

/// Every chord that has a line with an action name is seen.
proof fn lemma_seen<A>(lines: Seq<Line<A>>, i: int)
    requires
        0 <= i < lines.len(),
        lines[i].name is Some,
    ensures
        first_seen(lines).contains(lines[i].chord),
    decreases lines.len(),
{
    let before = first_seen(lines.drop_last());
    if i < lines.len() - 1 {
        lemma_seen(lines.drop_last(), i);
        let j = choose|j: int| 0 <= j < before.len() && before[j] == lines[i].chord;
        assert(first_seen(lines)[j] == lines[i].chord);
    } else if before.contains(lines[i].chord) {
        let j = choose|j: int| 0 <= j < before.len() && before[j] == lines[i].chord;
        assert(first_seen(lines)[j] == lines[i].chord);
    } else {
        assert(first_seen(lines)[before.len() as int] == lines[i].chord);
    }
}

/// No chord is seen twice.
proof fn lemma_seen_once<A>(lines: Seq<Line<A>>)
    ensures
        first_seen(lines).no_duplicates(),
    decreases lines.len(),
{
    if lines.len() > 0 {
        lemma_seen_once(lines.drop_last());
    }
}

/// A chord that a line binds is seen, and its winner is a line that binds it.
proof fn lemma_winner<A>(lines: Seq<Line<A>>, c: KeyInput)
    requires
        winner(lines, c) is Some,
    ensures
        first_seen(lines).contains(c),
        binds(winner(lines, c)->0, c),
    decreases lines.len(),
{
    if binds(lines.last(), c) {
        lemma_seen(lines, lines.len() - 1);
    } else {
        lemma_winner(lines.drop_last(), c);
        let before = first_seen(lines.drop_last());
        let j = choose|j: int| 0 <= j < before.len() && before[j] == c;
        assert(first_seen(lines)[j] == c);
    }
}

/// The result of building one layer.
pub struct LayerBuild<A> {
    /// The resolved bindings.
    pub keymap: Keymap<A>,
    /// The winning action name per chord.
    pub names: Keymap<String>,
    /// The chords declared with `= false`, in the order they were first seen.
    pub unbinds: Vec<KeyInput>,
    /// The lines that the layer was built from.
    pub lines: Ghost<Seq<Line<A>>>,
}

/// The names are those that the lines give the chords.
pub open spec fn names_are(names: Map<KeyInput, String>, want: Map<KeyInput, Seq<char>>) -> bool {
    &&& names.dom() == want.dom()
    &&& forall|c: KeyInput| #[trigger] names.contains_key(c) ==> names[c]@ == want[c]
}

/// Asks the resolver for the action names, chord by chord.
fn ask_resolver<A, F: Fn(&str) -> Option<A>>(
    parsed: &Vec<Parsed>,
    order: &Vec<KeyInput>,
    resolve: &F,
) -> (given: Vec<Option<A>>)
    requires
        forall|s: &str| #[trigger] call_requires(*resolve, (s,)),
        forall|i: int|
            0 <= i < parsed.len() && (#[trigger] parsed@[i]).name is Some ==> order@.contains(
                parsed@[i].chord,
            ),
    ensures
        given.len() == parsed.len(),
        forall|i: int|
            0 <= i < parsed.len() && (#[trigger] parsed@[i]).name is Some ==> answers(
                *resolve,
                (parsed@[i].name->0)@,
                given@[i],
            ),
{
    let mut given: Vec<Option<A>> = Vec::new();
    while given.len() < parsed.len()
        invariant
            given.len() <= parsed.len(),
        decreases parsed.len() - given.len(),
    {
        given.push(None);
    }
    let mut o: usize = 0;
    while o < order.len()
        invariant
            o <= order.len(),
            given.len() == parsed.len(),
            forall|s: &str| #[trigger] call_requires(*resolve, (s,)),
            forall|i: int|
                0 <= i < parsed.len() && (#[trigger] parsed@[i]).name is Some && order@.take(
                    o as int,
                ).contains(parsed@[i].chord) ==> answers(
                    *resolve,
                    (parsed@[i].name->0)@,
                    given@[i],
                ),
        decreases order.len() - o,
    {
        let c = order[o];
        let mut i: usize = 0;
        while i < parsed.len()
            invariant
                i <= parsed.len(),
                o < order.len(),
                c == order@[o as int],
                given.len() == parsed.len(),
                forall|s: &str| #[trigger] call_requires(*resolve, (s,)),
                forall|j: int|
                    0 <= j < parsed.len() && (#[trigger] parsed@[j]).name is Some && (order@.take(
                        o as int,
                    ).contains(parsed@[j].chord) || (j < i && parsed@[j].chord == c)) ==> answers(
                        *resolve,
                        (parsed@[j].name->0)@,
                        given@[j],
                    ),
            decreases parsed.len() - i,
        {
            if parsed[i].chord == c {
                if let Some(name) = &parsed[i].name {
                    let answer = resolve(name.as_str());
                    assert(answers(*resolve, name@, answer));
                    given.set(i, answer);
                }
            }
            i = i + 1;
        }
        o = o + 1;
        proof {
            assert forall|i: int|
                0 <= i < parsed.len() && (#[trigger] parsed@[i]).name is Some && order@.take(
                    o as int,
                ).contains(parsed@[i].chord) implies answers(
                *resolve,
                (parsed@[i].name->0)@,
                given@[i],
            ) by {
                let t = order@.take(o as int);
                let j = choose|j: int| 0 <= j < t.len() && t[j] == parsed@[i].chord;
                if j < o - 1 {
                    assert(order@.take(o - 1)[j] == parsed@[i].chord);
                }
            }
        }
    }
    assert(order@.take(o as int) =~= order@);
    given
}

/// Builds one layer from its rows, appending survivable problems to `warnings`.
///
/// Rows are grouped by the chord they normalize to, visited in first-seen order.
/// Within a group the last resolvable binding wins and a [`Warning::Conflict`] is
/// reported; an unresolvable action name is a [`Warning::UnknownAction`] and that
/// single row is skipped. A `= false` tombstone is collected without adding a
/// binding; a `= true` tombstone is a fatal [`BuildError::InvalidTombstone`].
pub(crate) fn build_layer<A, F: Fn(&str) -> Option<A>>(
    entries: Vec<(String, RawValue)>,
    resolve: &F,
    warnings: &mut Vec<Warning>,
) -> (r: Result<LayerBuild<A>, BuildError>)
    requires
        forall|s: &str| #[trigger] call_requires(*resolve, (s,)),
    ensures
        match r {
            Ok(built) => {
                &&& rows_error(raw_rows(entries@)) is None
                &&& are_lines(*resolve, raw_rows(entries@), built.lines@)
                &&& built.keymap@ == layer_map(built.lines@)
                &&& names_are(built.names@, layer_names(built.lines@))
                &&& built.unbinds@ == tombstones(built.lines@)
                &&& warning_views(final(warnings)@) == warning_views(old(warnings)@)
                    + layer_warnings(built.lines@)
            },
            Err(e) => {
                &&& rows_error(raw_rows(entries@)) == Some(e@)
                &&& !(e is Toml)
                &&& final(warnings)@ == old(warnings)@
            },
        },
{
    let ghost rows = raw_rows(entries@);
    let ghost start = warning_views(warnings@);
    let parsed = match parse_rows(entries) {
        Ok(parsed) => parsed,
        Err(e) => {
            return Err(e);
        },
    };
    let (order, unbinds) = collect_chords::<A>(&parsed);
    proof {
        let nothing = Seq::new(parsed@.len(), |i: int| None::<A>);
        let lines = lines_of(parsed@, nothing);
        assert forall|i: int| 0 <= i < parsed.len() && (#[trigger] parsed@[i]).name is Some implies order@.contains(parsed@[i].chord) by {
            assert(lines[i] == line_of(parsed@[i], nothing[i]));
            lemma_seen(lines, i);
        }
    }
    let mut given = ask_resolver(&parsed, &order, resolve);
    let ghost answers0 = given@;
    let ghost lines = lines_of(parsed@, answers0);
    proof {
        assert(order@ == first_seen(lines));
        assert(unbinds@ == tombstones(lines));
        assert forall|i: int| 0 <= i < rows.len() implies is_line(*resolve, rows[i], #[trigger] lines[i]) by {
            assert(is_parsed(rows[i], parsed@[i]));
        }
        lemma_seen_once(lines);
    }
    let mut keymap: Keymap<A> = Keymap::new();
    let mut names: Keymap<String> = Keymap::new();
    let mut o: usize = 0;
    assert(order@.take(0) =~= Seq::<KeyInput>::empty());
    assert(start + warnings_on(lines, order@.take(0)) =~= start);
    while o < order.len()
        invariant
            o <= order.len(),
            order@ == first_seen(lines),
            order@.no_duplicates(),
            lines == lines_of(parsed@, answers0),
            answers0.len() == parsed.len(),
            given.len() == parsed.len(),
            warning_views(warnings@) == start + warnings_on(lines, order@.take(o as int)),
            forall|i: int|
                0 <= i < parsed.len() && !order@.take(o as int).contains(
                    (#[trigger] parsed@[i]).chord,
                ) ==> given@[i] == answers0[i],
            forall|c: KeyInput| #[trigger]
                keymap@.contains_key(c) <==> order@.take(o as int).contains(c) && winner(
                    lines,
                    c,
                ) is Some,
            forall|c: KeyInput| #[trigger]
                keymap@.contains_key(c) ==> keymap@[c] == (winner(lines, c)->0).action->0,
            forall|c: KeyInput| #[trigger]
                names@.contains_key(c) <==> order@.take(o as int).contains(c) && winner(
                    lines,
                    c,
                ) is Some,
            forall|c: KeyInput| #[trigger]
                names@.contains_key(c) ==> names@[c]@ == (winner(lines, c)->0).name->0,
        decreases order.len() - o,
    {
        let c = order[o];
        let ghost done = order@.take(o as int);
        let ghost next = order@.take(o + 1);
        let ghost before = warning_views(warnings@);
        proof {
            assert(next.drop_last() =~= done);
            assert(next.last() == c);
            assert(!done.contains(c));
            assert(next =~= done.push(c));
        }
        let mut rivals: Vec<String> = Vec::new();
        let mut last: usize = 0;
        let mut i: usize = 0;
        assert(lines.take(0) =~= Seq::<Line<A>>::empty());
        assert(texts(rivals@) =~= Seq::<Seq<char>>::empty());
        assert(before + Seq::<WarningView>::empty() =~= before);
        while i < parsed.len()
            invariant
                i <= parsed.len(),
                lines == lines_of(parsed@, answers0),
                answers0.len() == parsed.len(),
                given.len() == parsed.len(),
                !done.contains(c),
                forall|j: int|
                    0 <= j < parsed.len() && !done.contains((#[trigger] parsed@[j]).chord)
                        ==> given@[j] == answers0[j],
                texts(rivals@) == contenders(lines.take(i as int), c),
                warning_views(warnings@) == before + unknown_actions(lines.take(i as int), c),
                rivals.len() > 0 <==> winner(lines.take(i as int), c) is Some,
                rivals.len() > 0 ==> last < i && winner(lines.take(i as int), c) == Some(
                    lines[last as int],
                ),
                rivals.len() > 0 ==> binds(lines[last as int], c),
            decreases parsed.len() - i,
        {
            let ghost line = lines[i as int];
            let ghost warned = warning_views(warnings@);
            let ghost rivals0 = texts(rivals@);
            proof {
                assert(lines.take(i + 1).drop_last() =~= lines.take(i as int));
                assert(lines.take(i + 1).last() == line);
                assert(line == line_of(parsed@[i as int], answers0[i as int]));
            }
            if parsed[i].chord == c {
                if let Some(name) = &parsed[i].name {
                    assert(given@[i as int] == answers0[i as int]);
                    if given[i].is_some() {
                        rivals.push(name.clone());
                        last = i;
                        assert(texts(rivals@) =~= rivals0.push(name@));
                    } else {
                        warnings.push(
                            Warning::UnknownAction { key: parsed[i].key.clone(), action: name.clone() },
                        );
                        proof {
                            let w = WarningView::UnknownAction { key: line.key, action: name@ };
                            assert(warning_views(warnings@) =~= warned.push(w));
                            assert(warned.push(w) =~= before + unknown_actions(
                                lines.take(i as int),
                                c,
                            ).push(w));
                        }
                    }
                }
            }
            i = i + 1;
        }
        assert(lines.take(i as int) =~= lines);
        if rivals.len() > 0 {
            let name = rivals[rivals.len() - 1].clone();
            proof {
                lemma_contenders_last(lines, c);
                assert(texts(rivals@).last() == name@);
            }
            if rivals.len() > 1 {
                let ghost warned = warning_views(warnings@);
                let ghost w = WarningView::Conflict {
                    chord: chord_text(c),
                    contenders: texts(rivals@),
                    winner: name@,
                };
                warnings.push(
                    Warning::Conflict {
                        chord: c.to_string(),
                        contenders: rivals,
                        winner: name.clone(),
                    },
                );
                proof {
                    assert(warning_views(warnings@) =~= warned.push(w));
                    assert(warned.push(w) =~= before + unknown_actions(lines, c).push(w));
                }
            }
            let mut slot: Option<A> = None;
            core::mem::swap(&mut slot, &mut given[last]);
            proof {
                assert(parsed@[last as int].chord == c);
                assert(slot == answers0[last as int]);
            }
            match slot {
                Some(action) => {
                    keymap.bind(c, action);
                    names.bind(c, name);
                },
                None => {
                    assert(false);
                },
            }
        }
        proof {
            assert(warning_views(warnings@) =~= before + chord_warnings(lines, c));
            assert(before + chord_warnings(lines, c) =~= start + warnings_on(lines, next));
            assert forall|k: KeyInput| #[trigger] next.contains(k) <==> done.contains(k) || k == c by {
                if done.contains(k) {
                    let j = choose|j: int| 0 <= j < done.len() && done[j] == k;
                    assert(next[j] == k);
                }
                assert(next[done.len() as int] == c);
            }
        }
        o = o + 1;
    }
    proof {
        assert(order@.take(o as int) =~= order@);
        assert forall|c: KeyInput| winner(lines, c) is Some implies order@.contains(c) by {
            lemma_winner(lines, c);
        }
        assert(keymap@ =~= layer_map(lines));
        assert(names@.dom() =~= layer_names(lines).dom());
    }
    Ok(LayerBuild { keymap, names, unbinds, lines: Ghost(lines) })
}

/// The last contender is the winner's name.
proof fn lemma_contenders_last<A>(lines: Seq<Line<A>>, c: KeyInput)
    ensures
        contenders(lines, c).len() > 0 <==> winner(lines, c) is Some,
        winner(lines, c) matches Some(w) ==> contenders(lines, c).last() == w.name->0,
    decreases lines.len(),
{
    if lines.len() > 0 {
        lemma_contenders_last(lines.drop_last(), c);
    }
}

/// The line spells the chord and has a known action, and no later line does.
pub open spec fn is_last_known<A>(lines: Seq<Line<A>>, i: int, c: KeyInput) -> bool {
    &&& 0 <= i < lines.len()
    &&& lines[i].chord == c
    &&& lines[i].name is Some
    &&& lines[i].action is Some
    &&& forall|j: int|
        i < j < lines.len() && (#[trigger] lines[j]).chord == c && lines[j].name is Some
            ==> lines[j].action is None
}

/// The last of the lines that bind a chord decides: the chord is bound where a line with
/// a known action spells it, to the action of the last such line, under the name that the
/// line gives. A line that declares a chord unbound, or whose action is unknown, neither
/// binds nor unbinds anything.
pub proof fn law_last_known_line_wins<A>(lines: Seq<Line<A>>, c: KeyInput)
    ensures
        layer_map(lines).contains_key(c) <==> exists|i: int|
            0 <= i < lines.len() && (#[trigger] lines[i]).chord == c && lines[i].name is Some
                && lines[i].action is Some,
        layer_names(lines).contains_key(c) <==> layer_map(lines).contains_key(c),
        forall|i: int| #[trigger]
            is_last_known(lines, i, c) ==> layer_map(lines)[c] == lines[i].action->0
                && layer_names(lines)[c] == lines[i].name->0,
{
    if winner(lines, c) is Some {
        let k = lemma_winner_is_last(lines, c);
        assert(lines[k].chord == c);
        assert forall|i: int| #[trigger] is_last_known(lines, i, c) implies i == k by {
            assert(binds(lines[i], c));
        }
    }
    assert forall|i: int|
        0 <= i < lines.len() && (#[trigger] lines[i]).chord == c && lines[i].name is Some
            && lines[i].action is Some implies winner(lines, c) is Some by {
        lemma_binder_has_winner(lines, c, i);
    }
}

/// Where a line binds a chord, some line wins it.
proof fn lemma_binder_has_winner<A>(lines: Seq<Line<A>>, c: KeyInput, i: int)
    requires
        0 <= i < lines.len(),
        binds(lines[i], c),
    ensures
        winner(lines, c) is Some,
    decreases lines.len(),
{
    if i < lines.len() - 1 {
        lemma_binder_has_winner(lines.drop_last(), c, i);
    }
}

/// The winner is the last line that binds the chord.
proof fn lemma_winner_is_last<A>(lines: Seq<Line<A>>, c: KeyInput) -> (k: int)
    requires
        winner(lines, c) is Some,
    ensures
        0 <= k < lines.len(),
        winner(lines, c) == Some(lines[k]),
        binds(lines[k], c),
        forall|j: int| k < j < lines.len() ==> !binds(#[trigger] lines[j], c),
    decreases lines.len(),
{
    let init = lines.drop_last();
    if binds(lines.last(), c) {
        lines.len() - 1
    } else {
        let k = lemma_winner_is_last(init, c);
        assert forall|j: int| k < j < lines.len() implies !binds(#[trigger] lines[j], c) by {
            if j < init.len() {
                assert(init[j] == lines[j]);
            }
        }
        k
    }
}

/// The chords declared unbound are those of the lines without an action name, each once.
pub proof fn law_declared_chords_are_listed_once<A>(lines: Seq<Line<A>>, c: KeyInput)
    ensures
        tombstones(lines).contains(c) <==> exists|i: int|
            0 <= i < lines.len() && (#[trigger] lines[i]).chord == c && lines[i].name is None,
        tombstones(lines).no_duplicates(),
    decreases lines.len(),
{
    if lines.len() > 0 {
        let init = lines.drop_last();
        let last = lines.last();
        let n = lines.len() - 1;
        law_declared_chords_are_listed_once(init, c);
        let before = tombstones(init);
        let after = tombstones(lines);
        assert(lines[n] == last);
        if tombstones(init).contains(c) {
            let i = choose|i: int|
                0 <= i < init.len() && (#[trigger] init[i]).chord == c && init[i].name is None;
            assert(lines[i] == init[i]);
            let k = choose|k: int| 0 <= k < before.len() && before[k] == c;
            assert(after[k] == c);
        }
        if last.chord == c && last.name is None && !before.contains(c) {
            assert(after[before.len() as int] == c);
        }
        if after.contains(c) && !before.contains(c) {
            let k = choose|k: int| 0 <= k < after.len() && after[k] == c;
            if k < before.len() {
                assert(before[k] == c);
            }
            assert(last.chord == c && last.name is None);
        }
        if exists|i: int|
            0 <= i < lines.len() && (#[trigger] lines[i]).chord == c && lines[i].name is None {
            let i = choose|i: int|
                0 <= i < lines.len() && (#[trigger] lines[i]).chord == c && lines[i].name is None;
            if i < n {
                assert(init[i] == lines[i]);
            }
        }
    }
}

/// The names of the lines that give a chord a known action, in the order of the lines.
pub open spec fn rivals<A>(lines: Seq<Line<A>>, c: KeyInput) -> Seq<Seq<char>> {
    lines.filter(|l: Line<A>| l.chord == c && l.name is Some && l.action is Some).map_values(
        |l: Line<A>| l.name->0,
    )
}

/// The names that contend for a chord are those of all lines that bind it, in order.
proof fn lemma_contenders_are_filtered<A>(lines: Seq<Line<A>>, c: KeyInput)
    ensures
        contenders(lines, c) == rivals(lines, c),
    decreases lines.len(),
{
    reveal(Seq::filter);
    let f = |l: Line<A>| l.chord == c && l.name is Some && l.action is Some;
    let g = |l: Line<A>| l.name->0;
    if lines.len() > 0 {
        lemma_contenders_are_filtered(lines.drop_last(), c);
        let x = lines.drop_last().filter(f);
        assert(x.push(lines.last()).map_values(g) =~= x.map_values(g).push(lines.last().name->0));
    }
    assert(contenders(lines, c) =~= lines.filter(f).map_values(g));
}

/// The warnings on a chord stand among those on the chords.
proof fn lemma_warnings_on<A>(lines: Seq<Line<A>>, chords: Seq<KeyInput>, w: WarningView)
    ensures
        warnings_on(lines, chords).contains(w) <==> exists|k: int|
            0 <= k < chords.len() && chord_warnings(lines, #[trigger] chords[k]).contains(w),
    decreases chords.len(),
{
    if chords.len() > 0 {
        let init = chords.drop_last();
        let n = chords.len() - 1;
        lemma_warnings_on(lines, init, w);
        let a = warnings_on(lines, init);
        let b = chord_warnings(lines, chords.last());
        assert(chords[n] == chords.last());
        if a.contains(w) {
            let k = choose|k: int|
                0 <= k < init.len() && chord_warnings(lines, #[trigger] init[k]).contains(w);
            assert(init[k] == chords[k]);
            let i = choose|i: int| 0 <= i < a.len() && a[i] == w;
            assert((a + b)[i] == w);
        }
        if b.contains(w) {
            let i = choose|i: int| 0 <= i < b.len() && b[i] == w;
            assert((a + b)[a.len() + i] == w);
        }
        if (a + b).contains(w) {
            let i = choose|i: int| 0 <= i < (a + b).len() && (a + b)[i] == w;
            if i < a.len() {
                assert(a[i] == w);
                let k = choose|k: int|
                    0 <= k < init.len() && chord_warnings(lines, #[trigger] init[k]).contains(w);
                assert(init[k] == chords[k]);
            } else {
                assert(b[i - a.len()] == w);
            }
        }
        if exists|k: int|
            0 <= k < chords.len() && chord_warnings(lines, #[trigger] chords[k]).contains(w) {
            let k = choose|k: int|
                0 <= k < chords.len() && chord_warnings(lines, #[trigger] chords[k]).contains(w);
            if k < n {
                assert(init[k] == chords[k]);
            }
        }
    }
}

/// The unknown actions of a chord are those of its lines.
proof fn lemma_unknown_actions<A>(lines: Seq<Line<A>>, c: KeyInput, w: WarningView)
    ensures
        unknown_actions(lines, c).contains(w) <==> exists|i: int|
            0 <= i < lines.len() && (#[trigger] lines[i]).chord == c && lines[i].name is Some
                && lines[i].action is None && w == (WarningView::UnknownAction {
                key: lines[i].key,
                action: lines[i].name->0,
            }),
    decreases lines.len(),
{
    if lines.len() > 0 {
        let init = lines.drop_last();
        let n = lines.len() - 1;
        lemma_unknown_actions(init, c, w);
        let a = unknown_actions(init, c);
        let all = unknown_actions(lines, c);
        assert(lines[n] == lines.last());
        if a.contains(w) {
            let i = choose|i: int| 0 <= i < a.len() && a[i] == w;
            assert(all[i] == w);
            let j = choose|j: int|
                0 <= j < init.len() && (#[trigger] init[j]).chord == c && init[j].name is Some
                    && init[j].action is None && w == (WarningView::UnknownAction {
                    key: init[j].key,
                    action: init[j].name->0,
                });
            assert(lines[j] == init[j]);
        }
        if all.len() > a.len() {
            assert(all[a.len() as int] == (WarningView::UnknownAction {
                key: lines[n].key,
                action: lines[n].name->0,
            }));
        }
        if all.contains(w) && !a.contains(w) {
            let i = choose|i: int| 0 <= i < all.len() && all[i] == w;
            if i < a.len() {
                assert(a[i] == w);
            }
        }
        if exists|i: int|
            0 <= i < lines.len() && (#[trigger] lines[i]).chord == c && lines[i].name is Some
                && lines[i].action is None && w == (WarningView::UnknownAction {
                key: lines[i].key,
                action: lines[i].name->0,
            }) {
            let i = choose|i: int|
                0 <= i < lines.len() && (#[trigger] lines[i]).chord == c && lines[i].name is Some
                    && lines[i].action is None && w == (WarningView::UnknownAction {
                    key: lines[i].key,
                    action: lines[i].name->0,
                });
            if i < n {
                assert(init[i] == lines[i]);
            }
        }
    }
}

/// Nothing that a layer says is passed over in silence: a line whose action is unknown is
/// reported, by its key and its name; and where more than one line binds a chord, the
/// conflict is reported, with all their names in order and that of the last as the winner.
/// Nothing else is reported.
pub proof fn law_layer_problems_are_reported<A>(lines: Seq<Line<A>>, w: WarningView)
    ensures
        layer_warnings(lines).contains(w) <==> ({
            ||| exists|i: int|
                0 <= i < lines.len() && (#[trigger] lines[i]).name is Some && lines[i].action is None
                    && w == (WarningView::UnknownAction {
                    key: lines[i].key,
                    action: lines[i].name->0,
                })
            ||| exists|c: KeyInput|
                (#[trigger] rivals(lines, c)).len() > 1 && w == (WarningView::Conflict {
                    chord: chord_text(c),
                    contenders: rivals(lines, c),
                    winner: rivals(lines, c).last(),
                })
        }),
{
    let seen = first_seen(lines);
    lemma_warnings_on(lines, seen, w);
    if layer_warnings(lines).contains(w) {
        let k = choose|k: int|
            0 <= k < seen.len() && chord_warnings(lines, #[trigger] seen[k]).contains(w);
        let c = seen[k];
        lemma_contenders_are_filtered(lines, c);
        lemma_unknown_actions(lines, c, w);
        let told = unknown_actions(lines, c);
        let all = chord_warnings(lines, c);
        let i = choose|i: int| 0 <= i < all.len() && all[i] == w;
        if i < told.len() {
            assert(told[i] == w);
        }
    }
    if exists|i: int|
        0 <= i < lines.len() && (#[trigger] lines[i]).name is Some && lines[i].action is None && w
            == (WarningView::UnknownAction { key: lines[i].key, action: lines[i].name->0 }) {
        let i = choose|i: int|
            0 <= i < lines.len() && (#[trigger] lines[i]).name is Some && lines[i].action is None
                && w == (WarningView::UnknownAction {
                key: lines[i].key,
                action: lines[i].name->0,
            });
        let c = lines[i].chord;
        lemma_seen(lines, i);
        lemma_unknown_actions(lines, c, w);
        let told = unknown_actions(lines, c);
        let all = chord_warnings(lines, c);
        let j = choose|j: int| 0 <= j < told.len() && told[j] == w;
        assert(all[j] == w);
        let k = choose|k: int| 0 <= k < seen.len() && seen[k] == c;
        assert(chord_warnings(lines, seen[k]).contains(w));
    }
    if exists|c: KeyInput|
        (#[trigger] rivals(lines, c)).len() > 1 && w == (WarningView::Conflict {
            chord: chord_text(c),
            contenders: rivals(lines, c),
            winner: rivals(lines, c).last(),
        }) {
        let c = choose|c: KeyInput|
            (#[trigger] rivals(lines, c)).len() > 1 && w == (WarningView::Conflict {
                chord: chord_text(c),
                contenders: rivals(lines, c),
                winner: rivals(lines, c).last(),
            });
        lemma_contenders_are_filtered(lines, c);
        lemma_contenders_last(lines, c);
        lemma_winner(lines, c);
        let told = unknown_actions(lines, c);
        let all = chord_warnings(lines, c);
        assert(all[told.len() as int] == w);
        let k = choose|k: int| 0 <= k < seen.len() && seen[k] == c;
        assert(chord_warnings(lines, seen[k]).contains(w));
    }
}

/// A layer is fatal where a key spells no chord, or a chord is declared `true`; what is
/// reported is the first such row, by its key, and which of the two it is.
pub proof fn law_first_bad_row_is_fatal(rows: Seq<(Seq<char>, Raw)>, i: int)
    requires
        0 <= i < rows.len(),
        parsed_chord(rows[i].0) is None || rows[i].1 == Raw::Bool(true),
        forall|j: int|
            0 <= j < i ==> parsed_chord((#[trigger] rows[j]).0) is Some && rows[j].1 != Raw::Bool(
                true,
            ),
    ensures
        parsed_chord(rows[i].0) is None ==> (rows_error(rows) matches Some(ErrorView::KeyParse {
            key,
            source,
        }) && key == rows[i].0 && source.0 == rows[i].0 && (source.1 is Empty <==> rows[i].0.len()
            == 0)),
        parsed_chord(rows[i].0) is Some ==> rows_error(rows) == Some(
            ErrorView::InvalidTombstone { key: rows[i].0 },
        ),
{
    law_good_rows_are_not_fatal(rows.take(i));
    assert(rows.take(i + 1).drop_last() =~= rows.take(i));
    assert(rows.take(i + 1).last() == rows[i]);
    lemma_error_front(rows, i + 1);
}

/// A layer whose keys all spell chords, none of them declared `true`, is not fatal.
pub proof fn law_good_rows_are_not_fatal(rows: Seq<(Seq<char>, Raw)>)
    requires
        forall|j: int|
            0 <= j < rows.len() ==> parsed_chord((#[trigger] rows[j]).0) is Some && rows[j].1
                != Raw::Bool(true),
    ensures
        rows_error(rows) is None,
    decreases rows.len(),
{
    if rows.len() > 0 {
        let init = rows.drop_last();
        assert forall|j: int| 0 <= j < init.len() implies parsed_chord((#[trigger] init[j]).0) is Some
            && init[j].1 != Raw::Bool(true) by {
            assert(init[j] == rows[j]);
        }
        law_good_rows_are_not_fatal(init);
        assert(rows.last() == rows[rows.len() - 1]);
    }
}

/// Where two lines bind a chord it has rivals, and the last of them is the one that won.
pub(crate) proof fn lemma_rivals<A>(lines: Seq<Line<A>>, c: KeyInput, i: int, j: int)
    requires
        0 <= i < j < lines.len(),
        lines[i].chord == c && lines[i].name is Some && lines[i].action is Some,
        lines[j].chord == c && lines[j].name is Some && lines[j].action is Some,
    ensures
        rivals(lines, c).len() > 1,
        rivals(lines, c).last() == layer_names(lines)[c],
{
    lemma_contenders_are_filtered(lines, c);
    lemma_contenders_last(lines, c);
    lemma_binder_has_winner(lines, c, j);
    lemma_two_contend(lines, c, i, j);
}

/// Two lines that bind a chord both contend for it.
proof fn lemma_two_contend<A>(lines: Seq<Line<A>>, c: KeyInput, i: int, j: int)
    requires
        0 <= i < j < lines.len(),
        binds(lines[i], c),
        binds(lines[j], c),
    ensures
        contenders(lines, c).len() > 1,
    decreases lines.len(),
{
    let init = lines.drop_last();
    if j < lines.len() - 1 {
        lemma_two_contend(init, c, i, j);
    } else {
        lemma_binder_has_winner(init, c, i);
        lemma_contenders_last(init, c);
    }
}

/// The warnings on unknown actions.
pub open spec fn only_unknown(warnings: Seq<WarningView>) -> Seq<WarningView> {
    warnings.filter(|w: WarningView| w is UnknownAction)
}

/// Each problem of a layer is reported once: there are as many warnings on unknown actions as
/// lines with one, and no chord has two conflicts.
pub proof fn law_layer_problems_are_reported_once<A>(lines: Seq<Line<A>>)
    ensures
        only_unknown(layer_warnings(lines)).len() == lines.filter(
            |l: Line<A>| l.name is Some && l.action is None,
        ).len(),
        forall|i: int, j: int|
            0 <= i < j < layer_warnings(lines).len() && (#[trigger] layer_warnings(lines)[i]) is Conflict
                && (#[trigger] layer_warnings(lines)[j]) is Conflict ==> layer_warnings(
                lines,
            )[i]->Conflict_chord != layer_warnings(lines)[j]->Conflict_chord,
{
    let seen = first_seen(lines);
    lemma_seen_once(lines);
    assert forall|i: int| 0 <= i < lines.len() && (#[trigger] lines[i]).name is Some implies seen.contains(
        lines[i].chord,
    ) by {
        lemma_seen(lines, i);
    }
    lemma_unknown_of_chords(lines, seen);
    lemma_unknown_total(lines, seen);
    lemma_conflicts_once(lines, seen);
}

/// The number of lines of the chords whose action is unknown.
spec fn unknown_total<A>(lines: Seq<Line<A>>, chords: Seq<KeyInput>) -> nat
    decreases chords.len(),
{
    if chords.len() == 0 {
        0
    } else {
        unknown_total(lines, chords.drop_last()) + unknown_actions(lines, chords.last()).len()
    }
}

/// The warnings on the unknown actions of a chord are all of that kind.
proof fn lemma_unknown_of_chord<A>(lines: Seq<Line<A>>, c: KeyInput)
    ensures
        only_unknown(unknown_actions(lines, c)) == unknown_actions(lines, c),
        only_unknown(chord_warnings(lines, c)) == unknown_actions(lines, c),
        forall|i: int|
            0 <= i < unknown_actions(lines, c).len() ==> (#[trigger] unknown_actions(
                lines,
                c,
            )[i]) is UnknownAction,
    decreases lines.len(),
{
    reveal(Seq::filter);
    let f = |w: WarningView| w is UnknownAction;
    let told = unknown_actions(lines, c);
    if lines.len() > 0 {
        let init = unknown_actions(lines.drop_last(), c);
        lemma_unknown_of_chord(lines.drop_last(), c);
        if told.len() > init.len() {
            assert(told.drop_last() =~= init);
            assert(told.filter(f) =~= init.filter(f).push(told.last()));
            assert(told =~= init.push(told.last()));
        } else {
            assert(told =~= init);
        }
    } else {
        assert(told.filter(f) =~= told);
    }
    let all = chord_warnings(lines, c);
    if all.len() > told.len() {
        assert(all.drop_last() =~= told);
        assert(all.filter(f) =~= told.filter(f));
    } else {
        assert(all =~= told);
    }
}

/// The warnings on unknown actions are those of the chords.
proof fn lemma_unknown_of_chords<A>(lines: Seq<Line<A>>, chords: Seq<KeyInput>)
    ensures
        only_unknown(warnings_on(lines, chords)).len() == unknown_total(lines, chords),
    decreases chords.len(),
{
    reveal(Seq::filter);
    let f = |w: WarningView| w is UnknownAction;
    if chords.len() > 0 {
        let a = warnings_on(lines, chords.drop_last());
        let b = chord_warnings(lines, chords.last());
        lemma_unknown_of_chords(lines, chords.drop_last());
        lemma_unknown_of_chord(lines, chords.last());
        Seq::filter_distributes_over_add(a, b, f);
    }
}

/// One more line adds to its chord only.
proof fn lemma_unknown_step<A>(lines: Seq<Line<A>>, chords: Seq<KeyInput>)
    requires
        lines.len() > 0,
        chords.no_duplicates(),
    ensures
        ({
            let last = lines.last();
            let more: int = if last.name is Some && last.action is None && chords.contains(
                last.chord,
            ) {
                1
            } else {
                0
            };
            unknown_total(lines, chords) == unknown_total(lines.drop_last(), chords) + more
        }),
    decreases chords.len(),
{
    if chords.len() > 0 {
        let init = chords.drop_last();
        let c = lines.last().chord;
        lemma_unknown_step(lines, init);
        if init.contains(c) {
            let i = choose|i: int| 0 <= i < init.len() && init[i] == c;
            assert(chords[i] == c);
            assert(chords.last() != c);
        }
        if chords.contains(c) && chords.last() != c {
            let i = choose|i: int| 0 <= i < chords.len() && chords[i] == c;
            assert(init[i] == c);
        }
        if chords.last() == c {
            assert(chords[chords.len() - 1] == c);
        }
    }
}

/// Where the chords hold those of all lines with a name, all unknown actions are theirs.
proof fn lemma_unknown_total<A>(lines: Seq<Line<A>>, chords: Seq<KeyInput>)
    requires
        chords.no_duplicates(),
        forall|i: int|
            0 <= i < lines.len() && (#[trigger] lines[i]).name is Some ==> chords.contains(
                lines[i].chord,
            ),
    ensures
        unknown_total(lines, chords) == lines.filter(
            |l: Line<A>| l.name is Some && l.action is None,
        ).len(),
    decreases lines.len(),
{
    reveal(Seq::filter);
    if lines.len() > 0 {
        let init = lines.drop_last();
        assert forall|i: int| 0 <= i < init.len() && (#[trigger] init[i]).name is Some implies chords.contains(
            init[i].chord,
        ) by {
            assert(init[i] == lines[i]);
        }
        assert(lines[lines.len() - 1] == lines.last());
        lemma_unknown_total(init, chords);
        lemma_unknown_step(lines, chords);
    } else {
        lemma_no_lines(lines, chords);
    }
}

/// Without lines nothing is unknown.
proof fn lemma_no_lines<A>(lines: Seq<Line<A>>, chords: Seq<KeyInput>)
    requires
        lines.len() == 0,
    ensures
        unknown_total(lines, chords) == 0,
    decreases chords.len(),
{
    if chords.len() > 0 {
        lemma_no_lines(lines, chords.drop_last());
    }
}

/// No chord has two conflicts.
proof fn lemma_conflicts_once<A>(lines: Seq<Line<A>>, chords: Seq<KeyInput>)
    requires
        chords.no_duplicates(),
    ensures
        forall|i: int, j: int|
            0 <= i < j < warnings_on(lines, chords).len() && (#[trigger] warnings_on(
                lines,
                chords,
            )[i]) is Conflict && (#[trigger] warnings_on(lines, chords)[j]) is Conflict
                ==> warnings_on(lines, chords)[i]->Conflict_chord != warnings_on(
                lines,
                chords,
            )[j]->Conflict_chord,
        forall|i: int|
            0 <= i < warnings_on(lines, chords).len() && (#[trigger] warnings_on(
                lines,
                chords,
            )[i]) is Conflict ==> exists|k: int|
                0 <= k < chords.len() && chord_text(#[trigger] chords[k]) == warnings_on(
                    lines,
                    chords,
                )[i]->Conflict_chord,
    decreases chords.len(),
{
    if chords.len() > 0 {
        let init = chords.drop_last();
        let c = chords.last();
        let n = chords.len() - 1;
        lemma_conflicts_once(lines, init);
        lemma_unknown_of_chord(lines, c);
        let a = warnings_on(lines, init);
        let b = chord_warnings(lines, c);
        let told = unknown_actions(lines, c);
        let all = warnings_on(lines, chords);
        assert(all == a + b);
        assert(chords[n] == c);
        assert forall|i: int| 0 <= i < b.len() && (#[trigger] b[i]) is Conflict implies i == told.len()
            && b[i]->Conflict_chord == chord_text(c) by {
            if i < told.len() {
                assert(told[i] is UnknownAction);
            }
        }
        assert forall|i: int| 0 <= i < all.len() && (#[trigger] all[i]) is Conflict implies exists|k: int|
            0 <= k < chords.len() && chord_text(#[trigger] chords[k]) == all[i]->Conflict_chord by {
            if i < a.len() {
                assert(a[i] is Conflict);
                let k = choose|k: int|
                    0 <= k < init.len() && chord_text(#[trigger] init[k]) == a[i]->Conflict_chord;
                assert(chords[k] == init[k]);
            } else {
                assert(b[i - a.len()] is Conflict);
            }
        }
        assert forall|i: int, j: int|
            0 <= i < j < all.len() && (#[trigger] all[i]) is Conflict && (#[trigger] all[j]) is Conflict implies all[i]->Conflict_chord
            != all[j]->Conflict_chord by {
            if j < a.len() {
                assert(a[i] is Conflict && a[j] is Conflict);
            } else {
                assert(b[j - a.len()] is Conflict);
                if i < a.len() {
                    assert(a[i] is Conflict);
                    let k = choose|k: int|
                        0 <= k < init.len() && chord_text(#[trigger] init[k]) == a[i]->Conflict_chord;
                    if chord_text(init[k]) == chord_text(c) {
                        law_spelling_is_injective(init[k], c);
                        assert(chords[k] == chords[n]);
                    }
                } else {
                    assert(b[i - a.len()] is Conflict);
                }
            }
        }
    }
}

} // verus!
