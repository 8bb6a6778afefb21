//! Building the sequences of a configuration.
use crate::capture::texts;
use crate::document::{raw_sequences, RawSequence};
use crate::error::{key_error, BuildError, ErrorView};
use crate::grammar::{chord_text, parsed_chord};
use crate::input::KeyInput;
use crate::layer::answers;
use crate::sequence::{is_shadowed, proper_prefix, shadows, Match, SeqBindError, SequenceKeymap};
use crate::warning::{join_texts, joined, render_sequence, rendered, warning_views, Warning,
    WarningView};
use vstd::prelude::*;

verus! {

/// A sequence once its keys are parsed and its action name is resolved.
pub struct SeqLine<A> {
    /// The keys.
    pub keys: Seq<KeyInput>,
    /// The action name.
    pub name: Seq<char>,
    /// What the resolver made of the name.
    pub action: Option<A>,
}

/// The table of sequences, and the action names that they were bound by.
pub struct SeqState<A> {
    /// The bindings.
    pub map: Map<Seq<KeyInput>, A>,
    /// The action names.
    pub names: Map<Seq<KeyInput>, Seq<char>>,
}

/// The keys are those that the texts spell.
pub open spec fn spell(spellings: Seq<Seq<char>>, keys: Seq<KeyInput>) -> bool {
    keys.len() == spellings.len() && forall|i: int|
        0 <= i < keys.len() ==> parsed_chord(spellings[i]) == Some(#[trigger] keys[i])
}

/// The line is what the entry says, given what the resolver answered.
pub open spec fn is_seq_line<A, F: Fn(&str) -> Option<A>>(
    resolve: F,
    raw: (Seq<Seq<char>>, Seq<char>),
    line: SeqLine<A>,
) -> bool {
    &&& spell(raw.0, line.keys)
    &&& line.name == raw.1
    &&& answers(resolve, raw.1, line.action)
}

/// The lines are those of the entries.
pub open spec fn are_seq_lines<A, F: Fn(&str) -> Option<A>>(
    resolve: F,
    raws: Seq<(Seq<Seq<char>>, Seq<char>)>,
    lines: Seq<SeqLine<A>>,
) -> bool {
    lines.len() == raws.len() && forall|i: int|
        0 <= i < raws.len() ==> is_seq_line(resolve, raws[i], #[trigger] lines[i])
}

/// The error on the first text that spells no chord.
pub open spec fn keys_error(spellings: Seq<Seq<char>>) -> Option<ErrorView>
    decreases spellings.len(),
{
    if spellings.len() == 0 {
        None
    } else {
        match keys_error(spellings.drop_last()) {
            Some(e) => Some(e),
            None => if parsed_chord(spellings.last()) is None {
                Some(key_error(spellings.last()))
            } else {
                None
            },
        }
    }
}

/// The first thing that is fatal about the entries.
pub open spec fn sequences_error(raws: Seq<(Seq<Seq<char>>, Seq<char>)>) -> Option<ErrorView>
    decreases raws.len(),
{
    if raws.len() == 0 {
        None
    } else {
        match sequences_error(raws.drop_last()) {
            Some(e) => Some(e),
            None => keys_error(raws.last().0),
        }
    }
}

/// The line is bound: its action is known, it has keys, and no binding shadows it.
pub open spec fn is_bound<A>(s: SeqState<A>, line: SeqLine<A>) -> bool {
    line.action is Some && line.keys.len() > 0 && !is_shadowed(s.map, line.keys)
}

/// The table after the lines, bound one after the other. An exact re-binding
/// overwrites; a prefix clash keeps the earlier binding.
pub open spec fn seq_state<A>(lines: Seq<SeqLine<A>>) -> SeqState<A>
    decreases lines.len(),
{
    if lines.len() == 0 {
        SeqState { map: Map::empty(), names: Map::empty() }
    } else {
        let s = seq_state(lines.drop_last());
        let line = lines.last();
        if is_bound(s, line) {
            SeqState {
                map: s.map.insert(line.keys, line.action->0),
                names: s.names.insert(line.keys, line.name),
            }
        } else {
            s
        }
    }
}

/// The warning on the clash of a new line with the binding of `conflict`: the
/// shorter sequence is the prefix.
pub open spec fn clash<A>(s: SeqState<A>, line: SeqLine<A>, conflict: Seq<KeyInput>) -> WarningView {
    if line.keys.len() <= conflict.len() {
        WarningView::PrefixShadow {
            prefix: rendered(line.keys),
            prefix_action: line.name,
            shadowed: rendered(conflict),
            shadowed_action: s.names[conflict],
        }
    } else {
        WarningView::PrefixShadow {
            prefix: rendered(conflict),
            prefix_action: s.names[conflict],
            shadowed: rendered(line.keys),
            shadowed_action: line.name,
        }
    }
}

/// The warning is the one on the line, if any, when the table was `s`. Where
/// several bindings clash with the line, one of them is named.
pub open spec fn is_seq_warning<A>(
    s: SeqState<A>,
    line: SeqLine<A>,
    warning: Option<WarningView>,
) -> bool {
    if line.action is None {
        warning == Some(
            WarningView::UnknownAction { key: joined(rendered(line.keys)), action: line.name },
        )
    } else if line.keys.len() == 0 {
        warning == Some(WarningView::EmptySequence { action: line.name })
    } else if is_shadowed(s.map, line.keys) {
        exists|c: Seq<KeyInput>| #[trigger]
            s.map.contains_key(c) && shadows(line.keys, c) && warning == Some(clash(s, line, c))
    } else if s.map.contains_key(line.keys) {
        warning == Some(
            WarningView::Conflict {
                chord: joined(rendered(line.keys)),
                contenders: seq![s.names[line.keys], line.name],
                winner: line.name,
            },
        )
    } else {
        warning is None
    }
}

/// The warnings are those on the lines, in order.
pub open spec fn are_seq_warnings<A>(
    lines: Seq<SeqLine<A>>,
    warnings: Seq<Option<WarningView>>,
) -> bool {
    warnings.len() == lines.len() && forall|i: int|
        0 <= i < lines.len() ==> is_seq_warning(
            seq_state(lines.take(i)),
            lines[i],
            #[trigger] warnings[i],
        )
}

/// The warnings there are, in order.
pub open spec fn told(warnings: Seq<Option<WarningView>>) -> Seq<WarningView>
    decreases warnings.len(),
{
    if warnings.len() == 0 {
        Seq::empty()
    } else {
        match warnings.last() {
            Some(w) => told(warnings.drop_last()).push(w),
            None => told(warnings.drop_last()),
        }
    }
}

/// Building the entries stops at the first one with a key that is no chord: the lines are
/// those of the entries before it, and the warnings those on the lines.
pub open spec fn stops<A, F: Fn(&str) -> Option<A>>(
    resolve: F,
    raws: Seq<(Seq<Seq<char>>, Seq<char>)>,
    lines: Seq<SeqLine<A>>,
    warnings: Seq<Option<WarningView>>,
) -> bool {
    let n = lines.len() as int;
    &&& n < raws.len()
    &&& sequences_error(raws.take(n)) is None
    &&& keys_error(raws[n].0) is Some
    &&& are_seq_lines(resolve, raws.take(n), lines)
    &&& are_seq_warnings(lines, warnings)
}

/// The names of a table of sequences are the wanted ones.
pub open spec fn seq_names_are(
    names: Map<Seq<KeyInput>, String>,
    want: Map<Seq<KeyInput>, Seq<char>>,
) -> bool {
    &&& names.dom() == want.dom()
    &&& forall|k: Seq<KeyInput>| #[trigger] names.contains_key(k) ==> names[k]@ == want[k]
}

/// The result of building the sequences.
pub struct SeqBuild<A> {
    /// The table of sequences.
    pub sequences: SequenceKeymap<A>,
    /// The action names that they were bound by.
    pub names: SequenceKeymap<String>,
    /// The lines that the table was built from.
    pub lines: Ghost<Seq<SeqLine<A>>>,
    /// The warnings on the lines.
    pub told: Ghost<Seq<Option<WarningView>>>,
}

/// An error in the first texts is the error of all.
proof fn lemma_keys_error_front(spellings: Seq<Seq<char>>, n: int)
    requires
        0 <= n <= spellings.len(),
        keys_error(spellings.take(n)) is Some,
    ensures
        keys_error(spellings) == keys_error(spellings.take(n)),
    decreases spellings.len(),
{
    if n == spellings.len() {
        assert(spellings.take(n) =~= spellings);
    } else {
        assert(spellings.drop_last().take(n) =~= spellings.take(n));
        lemma_keys_error_front(spellings.drop_last(), n);
    }
}

/// An error in the first entries is the error of all.
proof fn lemma_sequences_error_front(raws: Seq<(Seq<Seq<char>>, Seq<char>)>, n: int)
    requires
        0 <= n <= raws.len(),
        sequences_error(raws.take(n)) is Some,
    ensures
        sequences_error(raws) == sequences_error(raws.take(n)),
    decreases raws.len(),
{
    if n == raws.len() {
        assert(raws.take(n) =~= raws);
    } else {
        assert(raws.drop_last().take(n) =~= raws.take(n));
        lemma_sequences_error_front(raws.drop_last(), n);
    }
}

/// Parses the keys of a sequence.
fn parse_keys(raw: &Vec<String>) -> (r: Result<Vec<KeyInput>, BuildError>)
    ensures
        match r {
            Ok(keys) => keys_error(texts(raw@)) is None && spell(texts(raw@), keys@),
            Err(e) => keys_error(texts(raw@)) == Some(e@) && !(e is Toml),
        },
{
    let ghost t = texts(raw@);
    let mut keys: Vec<KeyInput> = Vec::new();
    let mut i: usize = 0;
    assert(t.take(0) =~= Seq::<Seq<char>>::empty());
    while i < raw.len()
        invariant
            i <= raw.len(),
            t == texts(raw@),
            keys.len() == i,
            keys_error(t.take(i as int)) is None,
            forall|j: int| 0 <= j < i ==> parsed_chord(t[j]) == Some(#[trigger] keys@[j]),
        decreases raw.len() - i,
    {
        proof {
            assert(t.take(i + 1).drop_last() =~= t.take(i as int));
            assert(t.take(i + 1).last() == raw@[i as int]@);
        }
        match KeyInput::parse(raw[i].as_str()) {
            Ok(k) => {
                keys.push(k);
            },
            Err(source) => {
                proof {
                    lemma_keys_error_front(t, i + 1);
                }
                return Err(BuildError::KeyParse { key: raw[i].clone(), source });
            },
        }
        i = i + 1;
    }
    assert(t.take(i as int) =~= t);
    Ok(keys)
}

/// The names have the domain of the bindings.
pub(crate) proof fn lemma_state_doms<A>(lines: Seq<SeqLine<A>>)
    ensures
        seq_state(lines).map.dom() == seq_state(lines).names.dom(),
    decreases lines.len(),
{
    if lines.len() > 0 {
        lemma_state_doms(lines.drop_last());
    }
}

/// Tables with the same sequences shadow the same sequences.
proof fn lemma_same_shadow<A, B>(
    a: Map<Seq<KeyInput>, A>,
    b: Map<Seq<KeyInput>, B>,
    keys: Seq<KeyInput>,
)
    requires
        a.dom() == b.dom(),
    ensures
        is_shadowed(a, keys) == is_shadowed(b, keys),
{
    assert forall|s: Seq<KeyInput>| #[trigger] a.contains_key(s) == b.contains_key(s) by {
        assert(a.dom().contains(s) == b.dom().contains(s));
    }
    if is_shadowed(a, keys) {
        let s = choose|s: Seq<KeyInput>| #[trigger] a.contains_key(s) && shadows(keys, s);
        assert(b.contains_key(s));
    }
    if is_shadowed(b, keys) {
        let s = choose|s: Seq<KeyInput>| #[trigger] b.contains_key(s) && shadows(keys, s);
        assert(a.contains_key(s));
    }
}

/// Tells the clash of a new sequence with an existing one.
fn tell_clash(
    keys: &Vec<KeyInput>,
    name: String,
    conflict: &Vec<KeyInput>,
    conflict_name: String,
) -> (w: Warning)
    ensures
        w@ == (if keys@.len() <= conflict@.len() {
            WarningView::PrefixShadow {
                prefix: rendered(keys@),
                prefix_action: name@,
                shadowed: rendered(conflict@),
                shadowed_action: conflict_name@,
            }
        } else {
            WarningView::PrefixShadow {
                prefix: rendered(conflict@),
                prefix_action: conflict_name@,
                shadowed: rendered(keys@),
                shadowed_action: name@,
            }
        }),
{
    let new = render_sequence(keys.as_slice());
    let old_keys = render_sequence(conflict.as_slice());
    if keys.len() <= conflict.len() {
        Warning::PrefixShadow {
            prefix: new,
            prefix_action: name,
            shadowed: old_keys,
            shadowed_action: conflict_name,
        }
    } else {
        Warning::PrefixShadow {
            prefix: old_keys,
            prefix_action: conflict_name,
            shadowed: new,
            shadowed_action: name,
        }
    }
}

/// What an optional warning says.
pub open spec fn view_of(w: Option<Warning>) -> Option<WarningView> {
    match w {
        Some(w) => Some(w@),
        None => None,
    }
}

/// Binds one line, returning the warning on it.
fn bind_line<A>(
    sequences: &mut SequenceKeymap<A>,
    names: &mut SequenceKeymap<String>,
    keys: &Vec<KeyInput>,
    name: String,
    action: Option<A>,
    Ghost(s): Ghost<SeqState<A>>,
) -> (w: Option<Warning>)
    requires
        s.map == old(sequences)@,
        seq_names_are(old(names)@, s.names),
        s.map.dom() == s.names.dom(),
    ensures
        ({
            let line = SeqLine { keys: keys@, name: name@, action };
            &&& is_seq_warning(s, line, view_of(w))
            &&& is_bound(s, line) ==> final(sequences)@ == s.map.insert(keys@, action->0)
                && seq_names_are(final(names)@, s.names.insert(keys@, name@))
            &&& !is_bound(s, line) ==> final(sequences)@ == s.map && seq_names_are(
                final(names)@,
                s.names,
            )
        }),
{
    let ghost line = SeqLine { keys: keys@, name: name@, action };
    let action = match action {
        Some(action) => action,
        None => {
            let parts = render_sequence(keys.as_slice());
            let key = join_texts(&parts);
            return Some(Warning::UnknownAction { key, action: name });
        },
    };
    proof {
        lemma_same_shadow(s.map, names@, keys@);
        assert(names@.dom() == s.map.dom());
        assert forall|k: Seq<KeyInput>| #[trigger] names@.contains_key(k) == s.map.contains_key(k) by {
            assert(names@.dom().contains(k) == s.map.dom().contains(k));
        }
    }
    match sequences.bind(keys.as_slice(), action) {
        Ok(previous) => {
            let ghost names0 = names@;
            let ghost spoken = name@;
            let r = names.bind(keys.as_slice(), name.clone());
            assert(!is_shadowed(names0, keys@));
            let earlier = match r {
                Ok(earlier) => earlier,
                Err(SeqBindError::Empty) => {
                    assert(false);
                    None
                },
                Err(SeqBindError::PrefixShadow { sequence, conflict }) => {
                    assert(names0.contains_key(conflict@) && shadows(keys@, conflict@));
                    assert(false);
                    None
                },
            };
            proof {
                let want = s.names.insert(keys@, spoken);
                assert(names@.dom() =~= want.dom());
                assert forall|k: Seq<KeyInput>| #[trigger] names@.contains_key(k) implies names@[k]@ == want[k] by {
                    if k != keys@ {
                        assert(names0.contains_key(k));
                    }
                }
            }
            match earlier {
                Some(earlier) => {
                    let parts = render_sequence(keys.as_slice());
                    let chord = join_texts(&parts);
                    let mut rivals: Vec<String> = Vec::new();
                    rivals.push(earlier);
                    rivals.push(name.clone());
                    assert(texts(rivals@) =~= seq![s.names[keys@], spoken]);
                    Some(Warning::Conflict { chord, contenders: rivals, winner: name })
                },
                None => None,
            }
        },
        Err(SeqBindError::Empty) => Some(Warning::EmptySequence { action: name }),
        Err(SeqBindError::PrefixShadow { sequence, conflict }) => {
            proof {
                assert(s.map.contains_key(conflict@));
                assert(names@.contains_key(conflict@));
            }
            let conflict_name = match names.lookup(conflict.as_slice()) {
                Match::Exact(n) => n.clone(),
                _ => {
                    assert(false);
                    String::new()
                },
            };
            let w = tell_clash(keys, name, &conflict, conflict_name);
            proof {
                assert(s.map.contains_key(conflict@) && shadows(keys@, conflict@));
                assert(w@ == clash(s, line, conflict@));
            }
            Some(w)
        },
    }
}

/// Builds the table of sequences from the `[[sequences]]` entries, appending any
/// survivable problems to `warnings`.
///
/// Entries are bound in file order. An exact re-binding of the same sequence
/// overwrites and is reported as a [`Warning::Conflict`]; a *prefix* clash keeps
/// the earlier binding and drops the later one, reported as
/// [`Warning::PrefixShadow`].
pub(crate) fn build_sequences<A, F: Fn(&str) -> Option<A>>(
    raws: Vec<RawSequence>,
    resolve: &F,
    warnings: &mut Vec<Warning>,
) -> (r: Result<SeqBuild<A>, BuildError>)
    requires
        forall|s: &str| #[trigger] call_requires(*resolve, (s,)),
    ensures
        match r {
            Ok(built) => {
                &&& sequences_error(raw_sequences(raws@)) is None
                &&& are_seq_lines(*resolve, raw_sequences(raws@), built.lines@)
                &&& built.sequences@ == seq_state(built.lines@).map
                &&& seq_names_are(built.names@, seq_state(built.lines@).names)
                &&& are_seq_warnings(built.lines@, built.told@)
                &&& warning_views(final(warnings)@) == warning_views(old(warnings)@) + told(
                    built.told@,
                )
            },
            Err(e) => {
                &&& sequences_error(raw_sequences(raws@)) == Some(e@)
                &&& !(e is Toml)
                &&& exists|lines: Seq<SeqLine<A>>, views: Seq<Option<WarningView>>| #[trigger]
                    stops(*resolve, raw_sequences(raws@), lines, views) && warning_views(
                        final(warnings)@,
                    ) == warning_views(old(warnings)@) + told(views)
            },
        },
{
    let ghost all = raw_sequences(raws@);
    let ghost start = warning_views(warnings@);
    let ghost mut lines: Seq<SeqLine<A>> = Seq::empty();
    let ghost mut views: Seq<Option<WarningView>> = Seq::empty();
    let mut sequences: SequenceKeymap<A> = SequenceKeymap::new();
    let mut names: SequenceKeymap<String> = SequenceKeymap::new();
    let mut rest = raws;
    assert(rest@ =~= raws@.skip(0));
    assert(all.take(0) =~= Seq::<(Seq<Seq<char>>, Seq<char>)>::empty());
    assert(start + told(views) =~= start);
    assert(names@.dom() =~= seq_state(lines).names.dom());
    while rest.len() > 0
        invariant
            all == raw_sequences(raws@),
            start == warning_views(old(warnings)@),
            forall|s: &str| #[trigger] call_requires(*resolve, (s,)),
            lines.len() + rest.len() == raws.len(),
            rest@ == raws@.skip(lines.len() as int),
            sequences_error(all.take(lines.len() as int)) is None,
            forall|i: int|
                0 <= i < lines.len() ==> is_seq_line(*resolve, all[i], #[trigger] lines[i]),
            sequences@ == seq_state(lines).map,
            seq_names_are(names@, seq_state(lines).names),
            are_seq_warnings(lines, views),
            warning_views(warnings@) == start + told(views),
        decreases rest.len(),
    {
        let ghost n = lines.len() as int;
        let raw = rest.remove(0);
        proof {
            assert(raws@[n] == raw);
            assert(all[n] == raw@);
            assert(all.take(n + 1).drop_last() =~= all.take(n));
            assert(all.take(n + 1).last() == all[n]);
            lemma_state_doms(lines);
        }
        let keys = match parse_keys(&raw.keys) {
            Ok(keys) => keys,
            Err(e) => {
                proof {
                    lemma_sequences_error_front(all, n + 1);
                    assert forall|i: int| 0 <= i < lines.len() implies is_seq_line(
                        *resolve,
                        all.take(n)[i],
                        #[trigger] lines[i],
                    ) by {
                        assert(all.take(n)[i] == all[i]);
                    }
                    assert(stops(*resolve, all, lines, views));
                }
                return Err(e);
            },
        };
        let action = resolve(raw.action.as_str());
        let ghost line = SeqLine { keys: keys@, name: raw.action@, action };
        let ghost s = seq_state(lines);
        assert(answers(*resolve, raw.action@, action));
        let w = bind_line(&mut sequences, &mut names, &keys, raw.action, action, Ghost(s));
        let ghost view = view_of(w);
        let ghost lines0 = lines;
        let ghost views0 = views;
        let ghost warned = warning_views(warnings@);
        proof {
            lines = lines.push(line);
            views = views.push(view);
            assert(lines.drop_last() =~= lines0);
            assert(views.drop_last() =~= views0);
            assert forall|i: int| 0 <= i < lines.len() implies is_seq_warning(
                seq_state(lines.take(i)),
                lines[i],
                #[trigger] views[i],
            ) by {
                if i < n {
                    assert(lines.take(i) =~= lines0.take(i));
                    assert(views0[i] == views[i]);
                } else {
                    assert(lines.take(i) =~= lines0);
                }
            }
            assert forall|i: int| 0 <= i < lines.len() implies is_seq_line(
                *resolve,
                all[i],
                #[trigger] lines[i],
            ) by {
                if i < n {
                    assert(lines0[i] == lines[i]);
                }
            }
        }
        match w {
            Some(w) => {
                warnings.push(w);
                proof {
                    assert(warning_views(warnings@) =~= warned.push(w@));
                    assert(start + told(views) =~= (start + told(views0)).push(w@));
                }
            },
            None => {},
        }
        assert(rest@ =~= raws@.skip(lines.len() as int));
    }
    assert(all.take(lines.len() as int) =~= all);
    Ok(SeqBuild { sequences, names, lines: Ghost(lines), told: Ghost(views) })
}

/// The two sequences cannot both be bound: they differ, and one begins with the other.
pub open spec fn cannot_coexist(a: Seq<KeyInput>, b: Seq<KeyInput>) -> bool {
    a != b && (a.is_prefix_of(b) || b.is_prefix_of(a))
}

/// Sequences that clash cannot coexist, and the other way round.
proof fn lemma_clash_is_prefix(a: Seq<KeyInput>, b: Seq<KeyInput>)
    ensures
        shadows(a, b) == cannot_coexist(a, b),
{
    if shadows(a, b) {
        if proper_prefix(a, b) {
            assert(b.take(a.len() as int) =~= b.subrange(0, a.len() as int));
        } else {
            assert(a.take(b.len() as int) =~= a.subrange(0, b.len() as int));
        }
    }
    if cannot_coexist(a, b) {
        if a.len() == b.len() {
            assert(a =~= b);
        }
        if a.is_prefix_of(b) {
            assert(b.take(a.len() as int) =~= a);
        } else {
            assert(a.take(b.len() as int) =~= b);
        }
    }
}

/// A sequence that is bound stays bound, whatever lines follow.
pub proof fn law_bound_sequence_stays<A>(lines: Seq<SeqLine<A>>, n: int, s: Seq<KeyInput>)
    requires
        0 <= n <= lines.len(),
        seq_state(lines.take(n)).map.contains_key(s),
    ensures
        seq_state(lines).map.contains_key(s),
    decreases lines.len(),
{
    if n == lines.len() {
        assert(lines.take(n) =~= lines);
    } else {
        assert(lines.drop_last().take(n) =~= lines.take(n));
        law_bound_sequence_stays(lines.drop_last(), n, s);
    }
}

/// No two bound sequences clash, and no empty one is bound.
pub proof fn law_built_sequences_can_coexist<A>(
    lines: Seq<SeqLine<A>>,
    a: Seq<KeyInput>,
    b: Seq<KeyInput>,
)
    requires
        seq_state(lines).map.contains_key(a),
        seq_state(lines).map.contains_key(b),
    ensures
        a.len() > 0,
        !cannot_coexist(a, b),
    decreases lines.len(),
{
    if lines.len() > 0 {
        let s = seq_state(lines.drop_last());
        let line = lines.last();
        lemma_clash_is_prefix(a, b);
        if s.map.contains_key(a) && s.map.contains_key(b) {
            law_built_sequences_can_coexist(lines.drop_last(), a, b);
        } else if s.map.contains_key(a) {
            law_built_sequences_can_coexist(lines.drop_last(), a, a);
            lemma_clash_is_prefix(b, a);
            assert(b == line.keys);
        } else if s.map.contains_key(b) {
            assert(a == line.keys);
        }
    }
}

/// What is bound comes from the lines: a bound sequence is the keys of a line with a known
/// action, and its action and name are those of the last such line.
pub proof fn law_last_line_of_a_sequence_wins<A>(lines: Seq<SeqLine<A>>, s: Seq<KeyInput>)
    requires
        seq_state(lines).map.contains_key(s),
    ensures
        exists|i: int|
            {
                &&& 0 <= i < lines.len()
                &&& (#[trigger] lines[i]).keys == s
                &&& lines[i].action == Some(seq_state(lines).map[s])
                &&& lines[i].name == seq_state(lines).names[s]
                &&& forall|j: int|
                    i < j < lines.len() && (#[trigger] lines[j]).keys == s ==> lines[j].action is None
            },
    decreases lines.len(),
{
    if lines.len() > 0 {
        let init = lines.drop_last();
        let n = lines.len() - 1;
        let before = seq_state(init);
        assert(lines[n] == lines.last());
        if is_bound(before, lines.last()) && lines.last().keys == s {
            assert(lines[n].keys == s);
        } else {
            assert(before.map.contains_key(s));
            law_last_line_of_a_sequence_wins(init, s);
            let i = choose|i: int|
                {
                    &&& 0 <= i < init.len()
                    &&& (#[trigger] init[i]).keys == s
                    &&& init[i].action == Some(before.map[s])
                    &&& init[i].name == before.names[s]
                    &&& forall|j: int|
                        i < j < init.len() && (#[trigger] init[j]).keys == s ==> init[j].action is None
                };
            assert(lines[i] == init[i]);
            assert forall|j: int| i < j < lines.len() && (#[trigger] lines[j]).keys == s implies lines[j].action is None by {
                if j < n {
                    assert(init[j] == lines[j]);
                } else if lines[j].action is Some {
                    law_built_sequences_can_coexist(init, s, s);
                    if is_shadowed(before.map, s) {
                        let c = choose|c: Seq<KeyInput>| #[trigger]
                            before.map.contains_key(c) && shadows(s, c);
                        lemma_clash_is_prefix(s, c);
                        law_built_sequences_can_coexist(init, s, c);
                    }
                }
            }
        }
    }
}

/// The earlier sequence wins a clash: a line with a known action and keys is bound, unless
/// a sequence of an earlier line, which stays bound, cannot coexist with it.
pub proof fn law_earlier_sequence_wins<A>(lines: Seq<SeqLine<A>>, j: int)
    requires
        0 <= j < lines.len(),
        lines[j].action is Some,
        lines[j].keys.len() > 0,
    ensures
        seq_state(lines).map.contains_key(lines[j].keys) || exists|i: int|
            0 <= i < j && #[trigger] cannot_coexist(lines[i].keys, lines[j].keys)
                && lines[i].action is Some && seq_state(lines).map.contains_key(lines[i].keys),
{
    let before = seq_state(lines.take(j));
    let line = lines[j];
    assert(lines.take(j + 1).drop_last() =~= lines.take(j));
    assert(lines.take(j + 1).last() == line);
    if is_bound(before, line) {
        law_bound_sequence_stays(lines, j + 1, line.keys);
    } else {
        let c = choose|c: Seq<KeyInput>| #[trigger]
            before.map.contains_key(c) && shadows(line.keys, c);
        lemma_clash_is_prefix(line.keys, c);
        law_last_line_of_a_sequence_wins(lines.take(j), c);
        let i = choose|i: int|
            {
                &&& 0 <= i < j
                &&& (#[trigger] lines.take(j)[i]).keys == c
                &&& lines.take(j)[i].action == Some(before.map[c])
            };
        assert(lines.take(j)[i] == lines[i]);
        law_bound_sequence_stays(lines, j, c);
        assert(cannot_coexist(lines[i].keys, lines[j].keys));
    }
}

/// Every line that is not simply bound is told, and why: an unknown action, no keys, a clash
/// with a sequence that is bound already, of which the shorter is the prefix, or the same
/// keys as a line before it, which it takes over. Nothing is told of any other line.
pub proof fn law_sequence_problems_are_told<A>(
    lines: Seq<SeqLine<A>>,
    warnings: Seq<Option<WarningView>>,
    i: int,
)
    requires
        are_seq_warnings(lines, warnings),
        0 <= i < lines.len(),
    ensures
        ({
            let line = lines[i];
            let before = seq_state(lines.take(i));
            let clash = exists|c: Seq<KeyInput>| #[trigger]
                before.map.contains_key(c) && cannot_coexist(line.keys, c);
            let known = line.action is Some;
            let keys = line.keys.map_values(|k: KeyInput| chord_text(k));
            &&& !known ==> warnings[i] == Some(
                WarningView::UnknownAction { key: joined(keys), action: line.name },
            )
            &&& known && line.keys.len() == 0 ==> warnings[i] == Some(
                WarningView::EmptySequence { action: line.name },
            )
            &&& known && line.keys.len() > 0 && clash ==> exists|c: Seq<KeyInput>|
                {
                    &&& #[trigger] before.map.contains_key(c)
                    &&& line.keys.is_prefix_of(c) && line.keys != c ==> warnings[i] == Some(
                        WarningView::PrefixShadow {
                            prefix: keys,
                            prefix_action: line.name,
                            shadowed: c.map_values(|k: KeyInput| chord_text(k)),
                            shadowed_action: before.names[c],
                        },
                    )
                    &&& c.is_prefix_of(line.keys) && line.keys != c ==> warnings[i] == Some(
                        WarningView::PrefixShadow {
                            prefix: c.map_values(|k: KeyInput| chord_text(k)),
                            prefix_action: before.names[c],
                            shadowed: keys,
                            shadowed_action: line.name,
                        },
                    )
                    &&& cannot_coexist(line.keys, c)
                }
            &&& known && line.keys.len() > 0 && !clash && before.map.contains_key(line.keys)
                ==> warnings[i] == Some(
                WarningView::Conflict {
                    chord: joined(keys),
                    contenders: seq![before.names[line.keys], line.name],
                    winner: line.name,
                },
            )
            &&& known && line.keys.len() > 0 && !clash && !before.map.contains_key(line.keys)
                ==> warnings[i] is None
        }),
{
    let line = lines[i];
    let before = seq_state(lines.take(i));
    assert(is_seq_warning(before, line, warnings[i]));
    assert(line.keys.map_values(|k: KeyInput| chord_text(k)) =~= rendered(line.keys));
    assert forall|c: Seq<KeyInput>| #[trigger] before.map.contains_key(c) implies shadows(
        line.keys,
        c,
    ) == cannot_coexist(line.keys, c) by {
        lemma_clash_is_prefix(line.keys, c);
    }
    if is_shadowed(before.map, line.keys) && line.action is Some && line.keys.len() > 0 {
        let c = choose|c: Seq<KeyInput>| #[trigger]
            before.map.contains_key(c) && shadows(line.keys, c) && warnings[i] == Some(
                clash(before, line, c),
            );
        assert(c.map_values(|k: KeyInput| chord_text(k)) =~= rendered(c));
        lemma_clash_is_prefix(line.keys, c);
        assert(before.map.contains_key(c));
    }
}

/// The warnings that there are are all told, in order, and no others.
pub proof fn law_told_is_every_warning(warnings: Seq<Option<WarningView>>, w: WarningView)
    ensures
        told(warnings).contains(w) <==> warnings.contains(Some(w)),
        told(warnings) == warnings.filter(|o: Option<WarningView>| o is Some).map_values(
            |o: Option<WarningView>| o->0,
        ),
    decreases warnings.len(),
{
    reveal(Seq::filter);
    let f = |o: Option<WarningView>| o is Some;
    let g = |o: Option<WarningView>| o->0;
    if warnings.len() > 0 {
        let init = warnings.drop_last();
        let last = warnings.last();
        law_told_is_every_warning(init, w);
        let x = init.filter(f);
        assert(x.push(last).map_values(g) =~= x.map_values(g).push(last->0));
        assert(warnings =~= init.push(last));
        let a = told(init);
        if a.contains(w) {
            let i = choose|i: int| 0 <= i < a.len() && a[i] == w;
            assert(told(warnings)[i] == w);
            let j = choose|j: int| 0 <= j < init.len() && init[j] == Some(w);
            assert(warnings[j] == Some(w));
        }
        if last == Some(w) {
            assert(told(warnings)[a.len() as int] == w);
            assert(warnings[init.len() as int] == Some(w));
        }
        if told(warnings).contains(w) && !a.contains(w) {
            let i = choose|i: int| 0 <= i < told(warnings).len() && told(warnings)[i] == w;
            if i < a.len() {
                assert(a[i] == w);
            }
        }
        if warnings.contains(Some(w)) && last != Some(w) {
            let j = choose|j: int| 0 <= j < warnings.len() && warnings[j] == Some(w);
            assert(init[j] == Some(w));
        }
    }
    assert(told(warnings) =~= warnings.filter(f).map_values(g));
}

/// The sequences are fatal where a key of an entry spells no chord; what is reported is the
/// first such key of the first such entry.
pub proof fn law_first_bad_key_is_fatal(raws: Seq<(Seq<Seq<char>>, Seq<char>)>, i: int, k: int)
    requires
        0 <= i < raws.len(),
        0 <= k < raws[i].0.len(),
        parsed_chord(raws[i].0[k]) is None,
        forall|j: int| 0 <= j < k ==> parsed_chord(#[trigger] raws[i].0[j]) is Some,
        forall|h: int, j: int|
            0 <= h < i && 0 <= j < raws[h].0.len() ==> parsed_chord(#[trigger] raws[h].0[j]) is Some,
    ensures
        sequences_error(raws) matches Some(ErrorView::KeyParse { key, source }) && key
            == raws[i].0[k] && source.0 == key,
{
    let front = raws.take(i);
    assert forall|h: int, j: int| 0 <= h < front.len() && 0 <= j < front[h].0.len() implies parsed_chord(
        #[trigger] front[h].0[j],
    ) is Some by {
        assert(front[h] == raws[h]);
        assert(parsed_chord(raws[h].0[j]) is Some);
    }
    law_good_sequences_are_not_fatal(front);
    let keys = raws[i].0;
    assert forall|j: int| 0 <= j < k implies parsed_chord(#[trigger] keys.take(k)[j]) is Some by {
        assert(parsed_chord(raws[i].0[j]) is Some);
    }
    lemma_good_keys(keys.take(k));
    assert(keys.take(k + 1).drop_last() =~= keys.take(k));
    assert(keys.take(k + 1).last() == keys[k]);
    lemma_keys_error_front(keys, k + 1);
    assert(raws.take(i + 1).drop_last() =~= front);
    assert(raws.take(i + 1).last() == raws[i]);
    lemma_sequences_error_front(raws, i + 1);
}

/// Keys that all spell chords are not fatal.
proof fn lemma_good_keys(spellings: Seq<Seq<char>>)
    requires
        forall|j: int| 0 <= j < spellings.len() ==> parsed_chord(#[trigger] spellings[j]) is Some,
    ensures
        keys_error(spellings) is None,
    decreases spellings.len(),
{
    if spellings.len() > 0 {
        let init = spellings.drop_last();
        assert forall|j: int| 0 <= j < init.len() implies parsed_chord(#[trigger] init[j]) is Some by {
            assert(init[j] == spellings[j]);
        }
        lemma_good_keys(init);
        assert(spellings.last() == spellings[spellings.len() - 1]);
    }
}

/// Sequences whose keys all spell chords are not fatal.
pub proof fn law_good_sequences_are_not_fatal(raws: Seq<(Seq<Seq<char>>, Seq<char>)>)
    requires
        forall|h: int, j: int|
            0 <= h < raws.len() && 0 <= j < raws[h].0.len() ==> parsed_chord(
                #[trigger] raws[h].0[j],
            ) is Some,
    ensures
        sequences_error(raws) is None,
    decreases raws.len(),
{
    if raws.len() > 0 {
        let init = raws.drop_last();
        assert forall|h: int, j: int| 0 <= h < init.len() && 0 <= j < init[h].0.len() implies parsed_chord(
            #[trigger] init[h].0[j],
        ) is Some by {
            assert(init[h] == raws[h]);
            assert(parsed_chord(raws[h].0[j]) is Some);
        }
        law_good_sequences_are_not_fatal(init);
        let keys = raws.last().0;
        let n = raws.len() - 1;
        assert forall|j: int| 0 <= j < keys.len() implies parsed_chord(#[trigger] keys[j]) is Some by {
            assert(parsed_chord(raws[n].0[j]) is Some);
        }
        lemma_good_keys(keys);
    }
}

} // verus!
