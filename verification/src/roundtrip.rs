//! What reading gives back of what was written.
use crate::config::{all_layer_warnings, all_layers, explicit_global, is_built, is_load, layer_maps,
    layers_error, named_layers, text_error, traces, unbind_lists, BuildOutput, Trace, GLOBAL_LAYER};
use crate::document::{config_of, layer_of, layers_of, parsed_document, raw_of, sequences_of, Node,
    Raw};
use crate::emit::{chords_in, document_of, emits, entry, gives_name, gives_names, global_table,
    is_entry, is_seq_list, is_table, is_written, lemma_document_is_config, lemma_fields_in_order,
    lemma_seq_node, named_tables, names_in, seq_node, seq_nodes, Emission};
use crate::error::BuildError;
use crate::grammar::{chord_text, law_print_then_parse, law_spelling_is_injective, parsed_chord};
use crate::input::{Key, KeyInput};
use crate::layer::{answers, are_lines, binds, chord_warnings, contenders, first_seen, is_line,
    layer_map, layer_warnings, row_error, rows_error, tombstones, unknown_actions, warnings_on,
    winner, Line};
use crate::merge::{bindings_in, unbinds_in};
use crate::names::{ascending, lemma_ascending_distinct, lemma_listing_unique, lists};
use crate::seqbuild::{is_bound, is_seq_line, is_seq_warning, keys_error, seq_state, sequences_error,
    spell, told, SeqLine};
use crate::sequence::{is_shadowed, prefix_free};
use crate::table::{distinct_keys, has_key, lemma_table_dom, lemma_table_row, lemma_table_unique,
    table_map};
use crate::text::{lemma_text_irreflexive, lemma_text_total, text_before};
use crate::warning::{joined, law_joined_chords_are_injective, rendered, warning_views, WarningView};
use vstd::prelude::*;

verus! {

/// Every name that the naming function gives is the one that `name` says.
pub open spec fn is_naming<A, F: Fn(&A) -> Option<&str>>(
    name_of: F,
    name: spec_fn(A) -> Option<Seq<char>>,
) -> bool {
    forall|a: A, n: Option<Seq<char>>| #[trigger] gives_name(name_of, a, n) ==> n == name(a)
}

/// Two tables of one layer are the same.
proof fn lemma_table_determined(
    a: Seq<(Seq<char>, Node)>,
    b: Seq<(Seq<char>, Node)>,
    names: Map<KeyInput, Option<Seq<char>>>,
    unbinds: Seq<KeyInput>,
)
    requires
        is_table(a, names, unbinds),
        is_table(b, names, unbinds),
    ensures
        a == b,
{
    lemma_ascending_distinct(a);
    lemma_ascending_distinct(b);
    lemma_table_dom(a);
    assert forall|i: int| 0 <= i < b.len() implies table_map(a).contains_key((#[trigger] b[i]).0)
        && table_map(a)[b[i].0] == b[i].1 by {
        assert(is_entry(names, unbinds, b[i]));
        let c = choose|c: KeyInput|
            (#[trigger] chord_text(c)) == b[i].0 && entry(names, unbinds, c) == Some(b[i].1);
        assert(entry(names, unbinds, c) is Some);
        assert(a.contains(b[i]));
        let j = choose|j: int| 0 <= j < a.len() && a[j] == b[i];
        lemma_table_row(a, j);
    }
    assert forall|n: Seq<char>| #[trigger] table_map(a).contains_key(n) implies has_key(b, n) by {
        let i = choose|i: int| 0 <= i < a.len() && (#[trigger] a[i]).0 == n;
        assert(is_entry(names, unbinds, a[i]));
        let c = choose|c: KeyInput|
            (#[trigger] chord_text(c)) == a[i].0 && entry(names, unbinds, c) == Some(a[i].1);
        assert(entry(names, unbinds, c) is Some);
        assert(b.contains(a[i]));
        let j = choose|j: int| 0 <= j < b.len() && b[j] == a[i];
        assert(b[j].0 == n);
    }
    lemma_table_unique(b, table_map(a));
    lemma_listing_unique(a, b, table_map(a));
}

/// The rows with the texts that they are sorted by.
spec fn keyed(rows: Seq<(Seq<KeyInput>, Seq<char>)>) -> Seq<(Seq<char>, (Seq<KeyInput>, Seq<char>))> {
    rows.map_values(|r: (Seq<KeyInput>, Seq<char>)| (joined(rendered(r.0)), r))
}

/// The texts that the sequences are sorted by ascend.
proof fn lemma_keyed_ascends(
    rows: Seq<(Seq<KeyInput>, Seq<char>)>,
    names: Map<Seq<KeyInput>, Option<Seq<char>>>,
)
    requires
        is_seq_list(rows, names),
    ensures
        ascending(keyed(rows)),
{
    let k = keyed(rows);
    assert forall|i: int, j: int| 0 <= i < j < k.len() implies text_before(
        (#[trigger] k[i]).0,
        (#[trigger] k[j]).0,
    ) by {
        assert(rows[i].0 != rows[j].0);
        if k[i].0 == k[j].0 {
            law_joined_chords_are_injective(rows[i].0, rows[j].0);
        }
        lemma_text_total(k[i].0, k[j].0);
        assert(!text_before(joined(rendered(rows[j].0)), joined(rendered(rows[i].0))));
    }
}

/// Two listings of the same sequences are the same.
proof fn lemma_seq_list_determined(
    a: Seq<(Seq<KeyInput>, Seq<char>)>,
    b: Seq<(Seq<KeyInput>, Seq<char>)>,
    names: Map<Seq<KeyInput>, Option<Seq<char>>>,
)
    requires
        is_seq_list(a, names),
        is_seq_list(b, names),
    ensures
        a == b,
{
    let ka = keyed(a);
    let kb = keyed(b);
    lemma_keyed_ascends(a, names);
    lemma_keyed_ascends(b, names);
    lemma_ascending_distinct(ka);
    lemma_ascending_distinct(kb);
    lemma_table_dom(ka);
    assert forall|i: int| 0 <= i < kb.len() implies table_map(ka).contains_key((#[trigger] kb[i]).0)
        && table_map(ka)[kb[i].0] == kb[i].1 by {
        assert(names.contains_key(b[i].0));
        let j = choose|j: int| 0 <= j < a.len() && (#[trigger] a[j]).0 == b[i].0;
        assert(a[j] == b[i]);
        lemma_table_row(ka, j);
        assert(ka[j] == kb[i]);
    }
    assert forall|n: Seq<char>| #[trigger] table_map(ka).contains_key(n) implies has_key(kb, n) by {
        let i = choose|i: int| 0 <= i < ka.len() && (#[trigger] ka[i]).0 == n;
        assert(names.contains_key(a[i].0));
        let j = choose|j: int| 0 <= j < b.len() && (#[trigger] b[j]).0 == a[i].0;
        assert(kb[j].0 == n);
    }
    lemma_table_unique(kb, table_map(ka));
    lemma_listing_unique(ka, kb, table_map(ka));
    assert(a =~= b) by {
        assert forall|i: int| 0 <= i < a.len() implies a[i] == b[i] by {
            assert(ka[i].1 == a[i] && kb[i].1 == b[i]);
        }
    }
}

/// The names given to bindings are determined by what the naming function says.
proof fn lemma_names_determined<K, A, F: Fn(&A) -> Option<&str>>(
    name_of: F,
    name: spec_fn(A) -> Option<Seq<char>>,
    bound: Map<K, A>,
    d: Map<K, Option<Seq<char>>>,
    e: Map<K, Option<Seq<char>>>,
)
    requires
        is_naming(name_of, name),
        gives_names(name_of, bound, d),
        gives_names(name_of, bound, e),
    ensures
        d == e,
{
    assert forall|k: K| #[trigger] d.contains_key(k) implies d[k] == e[k] by {
        assert(bound.dom().contains(k));
        assert(bound.contains_key(k));
        assert(gives_name(name_of, bound[k], d[k]));
        assert(gives_name(name_of, bound[k], e[k]));
    }
    assert(d =~= e);
}

/// The output is deterministic: the same maps give the same document, and so the
/// same text, where the naming function is a function of the action.
pub proof fn law_emission_is_determined<A, F: Fn(&A) -> Option<&str>>(
    layers: Map<Seq<char>, Map<KeyInput, A>>,
    sequences: Map<Seq<KeyInput>, A>,
    unbinds: Map<Seq<char>, Seq<KeyInput>>,
    name_of: F,
    name: spec_fn(A) -> Option<Seq<char>>,
    d: Emission,
    e: Emission,
    s: Seq<char>,
    t: Seq<char>,
)
    requires
        is_naming(name_of, name),
        emits(layers, sequences, unbinds, name_of, d),
        emits(layers, sequences, unbinds, name_of, e),
        is_written(document_of(d), s),
        is_written(document_of(e), t),
    ensures
        document_of(d) == document_of(e),
        s == t,
{
    assert forall|n: Seq<char>| #[trigger] d.names.contains_key(n) == e.names.contains_key(n) by {
        assert(d.tables.contains_key(n) == e.tables.contains_key(n));
    }
    assert(d.names =~= e.names) by {
        assert forall|n: Seq<char>| #[trigger] d.names.contains_key(n) implies d.names[n]
            == e.names[n] by {
            assert(e.names.contains_key(n));
            lemma_names_determined(name_of, name, layers[n], d.names[n], e.names[n]);
        }
    }
    assert(d.tables =~= e.tables) by {
        assert forall|n: Seq<char>| #[trigger]
            d.tables.contains_key(n) == e.tables.contains_key(n) by {}
        assert forall|n: Seq<char>| #[trigger] d.tables.contains_key(n) implies d.tables[n]
            == e.tables[n] by {
            assert(e.tables.contains_key(n));
            lemma_table_determined(
                d.tables[n],
                e.tables[n],
                names_in(d.names, n),
                chords_in(unbinds, n),
            );
        }
    }
    lemma_listing_unique(d.layers, e.layers, named_tables(d.tables));
    lemma_names_determined(name_of, name, sequences, d.seq_names, e.seq_names);
    lemma_seq_list_determined(d.sequences, e.sequences, d.seq_names);
}

/// An empty layer emits nothing: without it the document is the same.
pub proof fn law_empty_layer_emits_nothing<A, F: Fn(&A) -> Option<&str>>(
    layers: Map<Seq<char>, Map<KeyInput, A>>,
    sequences: Map<Seq<KeyInput>, A>,
    unbinds: Map<Seq<char>, Seq<KeyInput>>,
    name_of: F,
    e: Emission,
    n0: Seq<char>,
)
    requires
        emits(layers, sequences, unbinds, name_of, e),
        layers.contains_key(n0),
        layers[n0] == Map::<KeyInput, A>::empty(),
        !unbinds.contains_key(n0),
    ensures
        exists|d: Emission| #[trigger]
            emits(layers.remove(n0), sequences, unbinds, name_of, d) && document_of(d)
                == document_of(e),
{
    let d = Emission { names: e.names.remove(n0), tables: e.tables.remove(n0), ..e };
    let rest = layers.remove(n0);
    assert(e.tables.contains_key(n0));
    assert(e.names.contains_key(n0));
    assert(e.tables[n0].len() == 0) by {
        let rows = e.tables[n0];
        let names = names_in(e.names, n0);
        assert(is_table(rows, names, chords_in(unbinds, n0)));
        if rows.len() > 0 {
            assert(is_entry(names, chords_in(unbinds, n0), rows[0]));
        }
    }
    assert(global_table(d.tables) =~= global_table(e.tables));
    assert(named_tables(d.tables) =~= named_tables(e.tables));
    assert forall|n: Seq<char>| #[trigger] d.names.contains_key(n) <==> d.tables.contains_key(n)
        && rest.contains_key(n) by {
        assert(e.names.contains_key(n) <==> e.tables.contains_key(n) && layers.contains_key(n));
    }
    assert forall|n: Seq<char>| #[trigger] d.names.contains_key(n) implies gives_names(
        name_of,
        rest[n],
        d.names[n],
    ) by {
        assert(e.names.contains_key(n));
    }
    assert forall|n: Seq<char>| #[trigger] d.tables.contains_key(n) implies is_table(
        d.tables[n],
        names_in(d.names, n),
        chords_in(unbinds, n),
    ) by {
        assert(e.tables.contains_key(n));
        assert(names_in(d.names, n) == names_in(e.names, n));
    }
    assert forall|n: Seq<char>| #[trigger] d.tables.contains_key(n) <==> rest.contains_key(n)
        || unbinds.contains_key(n) by {
        assert(e.tables.contains_key(n) <==> layers.contains_key(n) || unbinds.contains_key(n));
    }
    assert(emits(rest, sequences, unbinds, name_of, d));
    assert(document_of(d) == document_of(e));
}

/// The press has a spelling that parses back to it: it is normalized, and its
/// function key, if it is one, is from `f1` to `f24`.
pub open spec fn has_spelling(k: KeyInput) -> bool {
    k.is_normalized() && (k.key matches Key::F(n) ==> 1 <= n <= 24)
}

/// The naming function names every action, and the resolver gives the action back.
pub open spec fn are_inverse<A, F: Fn(&A) -> Option<&str>, G: Fn(&str) -> Option<A>>(
    name_of: F,
    resolve: G,
) -> bool {
    forall|a: A, n: Option<Seq<char>>| #[trigger]
        gives_name(name_of, a, n) ==> n is Some && forall|x: Option<A>| #[trigger]
            answers(resolve, n->0, x) ==> x == Some(a)
}

/// The action is bound in one of the layers, or to one of the sequences.
pub open spec fn is_used<A>(
    layers: Map<Seq<char>, Map<KeyInput, A>>,
    sequences: Map<Seq<KeyInput>, A>,
    a: A,
) -> bool {
    ||| exists|n: Seq<char>, c: KeyInput|
        layers.contains_key(n) && #[trigger] layers[n].contains_key(c) && layers[n][c] == a
    ||| exists|s: Seq<KeyInput>| #[trigger] sequences.contains_key(s) && sequences[s] == a
}

/// The naming function names every bound action, and the resolver gives the action back.
/// Nothing is asked of the actions that are not bound.
pub open spec fn are_inverse_on<A, F: Fn(&A) -> Option<&str>, G: Fn(&str) -> Option<A>>(
    layers: Map<Seq<char>, Map<KeyInput, A>>,
    sequences: Map<Seq<KeyInput>, A>,
    name_of: F,
    resolve: G,
) -> bool {
    forall|a: A, n: Option<Seq<char>>| #[trigger]
        gives_name(name_of, a, n) && is_used(layers, sequences, a) ==> n is Some && forall|
            x: Option<A>,
        | #[trigger]
            answers(resolve, n->0, x) ==> x == Some(a)
}

/// The names are total, and the resolver gives the bound actions back.
spec fn resolves_back<K, A, G: Fn(&str) -> Option<A>>(
    resolve: G,
    bound: Map<K, A>,
    names: Map<K, Option<Seq<char>>>,
) -> bool {
    &&& names.dom() == bound.dom()
    &&& forall|k: K| #[trigger]
        bound.contains_key(k) ==> names[k] is Some && forall|x: Option<A>| #[trigger]
            answers(resolve, names[k]->0, x) ==> x == Some(bound[k])
}

/// The last line that binds a chord is one of the lines, and there is one where any
/// line binds it.
proof fn lemma_winner<A>(lines: Seq<Line<A>>, c: KeyInput)
    ensures
        match winner(lines, c) {
            Some(w) => binds(w, c) && lines.contains(w),
            None => forall|i: int| 0 <= i < lines.len() ==> !binds(#[trigger] lines[i], c),
        },
    decreases lines.len(),
{
    if lines.len() > 0 {
        let init = lines.drop_last();
        lemma_winner(init, c);
        if binds(lines.last(), c) {
            assert(lines[lines.len() - 1] == lines.last());
        } else {
            match winner(init, c) {
                Some(w) => {
                    let i = choose|i: int| 0 <= i < init.len() && init[i] == w;
                    assert(lines[i] == w);
                },
                None => {
                    assert forall|i: int| 0 <= i < lines.len() implies !binds(
                        #[trigger] lines[i],
                        c,
                    ) by {
                        if i < init.len() {
                            assert(init[i] == lines[i]);
                        }
                    }
                },
            }
        }
    }
}

/// No two lines have the same chord.
spec fn distinct_chords<A>(lines: Seq<Line<A>>) -> bool {
    forall|i: int, j: int|
        0 <= i < j < lines.len() ==> (#[trigger] lines[i]).chord != (#[trigger] lines[j]).chord
}

/// Where no line binds a chord, it has no contender.
proof fn lemma_no_contender<A>(lines: Seq<Line<A>>, c: KeyInput)
    requires
        forall|i: int| 0 <= i < lines.len() ==> !binds(#[trigger] lines[i], c),
    ensures
        contenders(lines, c).len() == 0,
    decreases lines.len(),
{
    if lines.len() > 0 {
        let init = lines.drop_last();
        assert(!binds(lines[lines.len() - 1], c));
        assert forall|i: int| 0 <= i < init.len() implies !binds(#[trigger] init[i], c) by {
            assert(init[i] == lines[i]);
        }
        lemma_no_contender(init, c);
    }
}

/// Lines of distinct chords with known actions give no warning.
proof fn lemma_no_chord_warning<A>(lines: Seq<Line<A>>, c: KeyInput)
    requires
        distinct_chords(lines),
        forall|i: int|
            0 <= i < lines.len() ==> ((#[trigger] lines[i]).name is Some ==> lines[i].action is Some),
    ensures
        contenders(lines, c).len() <= 1,
        unknown_actions(lines, c).len() == 0,
        chord_warnings(lines, c).len() == 0,
    decreases lines.len(),
{
    if lines.len() > 0 {
        let init = lines.drop_last();
        let n = lines.len() - 1;
        assert(lines[n] == lines.last());
        assert forall|i: int, j: int| 0 <= i < j < init.len() implies (#[trigger] init[i]).chord != (
        #[trigger] init[j]).chord by {
            assert(lines[i].chord != lines[j].chord);
        }
        assert forall|i: int| 0 <= i < init.len() && (#[trigger] init[i]).name is Some implies
            init[i].action is Some by {
            assert(init[i] == lines[i]);
        }
        lemma_no_chord_warning(init, c);
        if binds(lines.last(), c) {
            assert forall|i: int| 0 <= i < init.len() implies !binds(#[trigger] init[i], c) by {
                assert(lines[i].chord != lines[n].chord);
            }
            lemma_no_contender(init, c);
        }
    }
}

/// Lines of distinct chords with known actions give no warnings.
proof fn lemma_no_warnings<A>(lines: Seq<Line<A>>, chords: Seq<KeyInput>)
    requires
        distinct_chords(lines),
        forall|i: int|
            0 <= i < lines.len() ==> ((#[trigger] lines[i]).name is Some ==> lines[i].action is Some),
    ensures
        warnings_on(lines, chords).len() == 0,
    decreases chords.len(),
{
    if chords.len() > 0 {
        lemma_no_warnings(lines, chords.drop_last());
        lemma_no_chord_warning(lines, chords.last());
    }
}

/// The chords declared unbound are those of the lines without a name.
proof fn lemma_tombstones<A>(lines: Seq<Line<A>>, c: KeyInput)
    ensures
        tombstones(lines).contains(c) <==> exists|i: int|
            0 <= i < lines.len() && (#[trigger] lines[i]).name is None && lines[i].chord == c,
    decreases lines.len(),
{
    if lines.len() > 0 {
        let init = lines.drop_last();
        let before = tombstones(init);
        let all = tombstones(lines);
        let last = lines.last();
        lemma_tombstones(init, c);
        lemma_tombstones(init, last.chord);
        assert(lines[lines.len() - 1] == last);
        if before.contains(c) {
            let i = choose|i: int|
                0 <= i < init.len() && (#[trigger] init[i]).name is None && init[i].chord == c;
            assert(lines[i].name is None && lines[i].chord == c);
            let j = choose|j: int| 0 <= j < before.len() && before[j] == c;
            assert(all[j] == c);
        }
        if all.contains(c) && !before.contains(c) {
            let j = choose|j: int| 0 <= j < all.len() && all[j] == c;
            if j < before.len() {
                assert(before[j] == c);
            }
            assert(lines[lines.len() - 1].chord == c);
        }
        if exists|i: int|
            0 <= i < lines.len() && (#[trigger] lines[i]).name is None && lines[i].chord == c {
            let i = choose|i: int|
                0 <= i < lines.len() && (#[trigger] lines[i]).name is None && lines[i].chord == c;
            if i < init.len() {
                assert(init[i].name is None && init[i].chord == c);
            } else if !before.contains(c) {
                assert(all[before.len() as int] == c);
            }
        }
    }
}

/// The rows of a table parse.
proof fn lemma_table_has_no_error(
    rows: Seq<(Seq<char>, Node)>,
    names: Map<KeyInput, Option<Seq<char>>>,
    unbinds: Seq<KeyInput>,
    n: int,
)
    requires
        is_table(rows, names, unbinds),
        forall|c: KeyInput| (#[trigger] entry(names, unbinds, c)) is Some ==> has_spelling(c),
        0 <= n <= rows.len(),
    ensures
        rows_error(layer_of(Node::Table(rows)).take(n)) is None,
    decreases n,
{
    let raw = layer_of(Node::Table(rows));
    if n > 0 {
        lemma_table_has_no_error(rows, names, unbinds, n - 1);
        assert(raw.take(n).drop_last() =~= raw.take(n - 1));
        assert(raw.take(n).last() == raw[n - 1]);
        assert(is_entry(names, unbinds, rows[n - 1]));
        let c = choose|c: KeyInput|
            (#[trigger] chord_text(c)) == rows[n - 1].0 && entry(names, unbinds, c) == Some(
                rows[n - 1].1,
            );
        assert(entry(names, unbinds, c) is Some);
        law_print_then_parse(c);
        assert(raw[n - 1] == (rows[n - 1].0, raw_of(rows[n - 1].1)->0));
        assert(row_error(raw[n - 1]) is None);
    }
}

/// What a line of a written layer is: a declaration, or a binding with its action.
spec fn is_back<A>(bound: Map<KeyInput, A>, unbinds: Seq<KeyInput>, line: Line<A>) -> bool {
    if unbinds.contains(line.chord) {
        line.name is None
    } else {
        bound.contains_key(line.chord) && line.name is Some && line.action == Some(
            bound[line.chord],
        )
    }
}

/// Reading the table of a layer gives its lines back.
proof fn lemma_lines_back<A, G: Fn(&str) -> Option<A>>(
    resolve: G,
    rows: Seq<(Seq<char>, Node)>,
    bound: Map<KeyInput, A>,
    names: Map<KeyInput, Option<Seq<char>>>,
    unbinds: Seq<KeyInput>,
    lines: Seq<Line<A>>,
)
    requires
        is_table(rows, names, unbinds),
        resolves_back(resolve, bound, names),
        forall|c: KeyInput| (#[trigger] entry(names, unbinds, c)) is Some ==> has_spelling(c),
        are_lines(resolve, layer_of(Node::Table(rows)), lines),
    ensures
        distinct_chords(lines),
        forall|i: int| 0 <= i < lines.len() ==> is_back(bound, unbinds, #[trigger] lines[i]),
        forall|c: KeyInput|
            (#[trigger] entry(names, unbinds, c)) is Some ==> exists|i: int|
                0 <= i < lines.len() && (#[trigger] lines[i]).chord == c,
{
    let raw = layer_of(Node::Table(rows));
    lemma_ascending_distinct(rows);
    assert forall|i: int| 0 <= i < lines.len() implies is_back(bound, unbinds, #[trigger] lines[i])
        && chord_text(lines[i].chord) == rows[i].0 by {
        assert(is_line(resolve, raw[i], lines[i]));
        assert(raw[i] == (rows[i].0, raw_of(rows[i].1)->0));
        assert(is_entry(names, unbinds, rows[i]));
        let c = choose|c: KeyInput|
            (#[trigger] chord_text(c)) == rows[i].0 && entry(names, unbinds, c) == Some(rows[i].1);
        assert(entry(names, unbinds, c) is Some);
        law_print_then_parse(c);
        assert(lines[i].chord == c);
        if !unbinds.contains(c) {
            assert(names.dom().contains(c));
            assert(bound.contains_key(c));
            assert(answers(resolve, names[c]->0, lines[i].action));
        }
    }
    assert forall|i: int, j: int| 0 <= i < j < lines.len() implies (#[trigger] lines[i]).chord != (
    #[trigger] lines[j]).chord by {
        assert(rows[i].0 != rows[j].0);
        assert(chord_text(lines[i].chord) == rows[i].0);
        assert(chord_text(lines[j].chord) == rows[j].0);
    }
    assert forall|c: KeyInput| (#[trigger] entry(names, unbinds, c)) is Some implies exists|i: int|
        0 <= i < lines.len() && (#[trigger] lines[i]).chord == c by {
        let row = (chord_text(c), entry(names, unbinds, c)->0);
        assert(rows.contains(row));
        let i = choose|i: int| 0 <= i < rows.len() && rows[i] == row;
        assert(chord_text(lines[i].chord) == rows[i].0);
        law_spelling_is_injective(lines[i].chord, c);
        assert(lines[i].chord == c);
    }
}

/// Reading the table of a layer gives its bindings and declarations back, without a
/// warning.
proof fn lemma_layer_back<A, G: Fn(&str) -> Option<A>>(
    resolve: G,
    rows: Seq<(Seq<char>, Node)>,
    bound: Map<KeyInput, A>,
    names: Map<KeyInput, Option<Seq<char>>>,
    unbinds: Seq<KeyInput>,
    lines: Seq<Line<A>>,
)
    requires
        is_table(rows, names, unbinds),
        resolves_back(resolve, bound, names),
        forall|c: KeyInput| (#[trigger] entry(names, unbinds, c)) is Some ==> has_spelling(c),
        forall|c: KeyInput| #[trigger] bound.contains_key(c) ==> !unbinds.contains(c),
        are_lines(resolve, layer_of(Node::Table(rows)), lines),
    ensures
        layer_map(lines) == bound,
        layer_warnings(lines).len() == 0,
        forall|c: KeyInput| #[trigger] tombstones(lines).contains(c) <==> unbinds.contains(c),
{
    lemma_lines_back(resolve, rows, bound, names, unbinds, lines);
    assert forall|i: int| 0 <= i < lines.len() && (#[trigger] lines[i]).name is Some implies
        lines[i].action is Some by {
        assert(is_back(bound, unbinds, lines[i]));
    }
    lemma_no_warnings(lines, first_seen(lines));
    assert forall|c: KeyInput|
        #![trigger winner(lines, c)]
        (winner(lines, c) is Some <==> bound.contains_key(c)) && (bound.contains_key(c) ==> (
        winner(lines, c)->0).action == Some(bound[c])) by {
        lemma_winner(lines, c);
        match winner(lines, c) {
            Some(w) => {
                let i = choose|i: int| 0 <= i < lines.len() && lines[i] == w;
                assert(is_back(bound, unbinds, lines[i]));
            },
            None => {
                if bound.contains_key(c) {
                    assert(bound.dom().contains(c) && names.dom().contains(c));
                    assert(entry(names, unbinds, c) is Some);
                    let i = choose|i: int| 0 <= i < lines.len() && (#[trigger] lines[i]).chord == c;
                    assert(is_back(bound, unbinds, lines[i]));
                    assert(binds(lines[i], c));
                }
            },
        }
    }
    assert(layer_map(lines) =~= bound);
    assert forall|c: KeyInput| #[trigger] tombstones(lines).contains(c) <==> unbinds.contains(c) by {
        lemma_tombstones(lines, c);
        if unbinds.contains(c) {
            assert(entry(names, unbinds, c) is Some);
            let i = choose|i: int| 0 <= i < lines.len() && (#[trigger] lines[i]).chord == c;
            assert(is_back(bound, unbinds, lines[i]));
        }
        if tombstones(lines).contains(c) {
            let i = choose|i: int|
                0 <= i < lines.len() && (#[trigger] lines[i]).name is None && lines[i].chord == c;
            assert(is_back(bound, unbinds, lines[i]));
        }
    }
}

/// What a written document says.
proof fn lemma_config_back(e: Emission)
    ensures
        config_of(document_of(e)).keys == layer_of(Node::Table(global_table(e.tables))),
        config_of(document_of(e)).layers == layers_of(Node::Table(e.layers)),
        config_of(document_of(e)).sequences == sequences_of(Node::List(seq_nodes(e.sequences))),
{
    let g = global_table(e.tables);
    let keys = if g.len() > 0 {
        seq![("keys"@, Node::Table(g))]
    } else {
        Seq::empty()
    };
    let layers = if e.layers.len() > 0 {
        seq![("layers"@, Node::Table(e.layers))]
    } else {
        Seq::empty()
    };
    let sequences = if e.sequences.len() > 0 {
        seq![("sequences"@, Node::List(seq_nodes(e.sequences)))]
    } else {
        Seq::empty()
    };
    lemma_fields_in_order();
    lemma_text_irreflexive("keys"@);
    lemma_text_irreflexive("layers"@);
    lemma_text_irreflexive("sequences"@);
    assert(layer_of(Node::Table(Seq::empty())) =~= Seq::<(Seq<char>, Raw)>::empty());
    assert(layers_of(Node::Table(Seq::empty())) =~= Seq::empty());
    assert(sequences_of(Node::List(Seq::empty())) =~= Seq::empty());
    let none = Seq::<(Seq<char>, Node)>::empty();
    let c0 = config_of(none);
    let c1 = config_of(keys);
    assert(c1.keys == layer_of(Node::Table(g)) && c1.layers == c0.layers && c1.sequences
        == c0.sequences) by {
        if g.len() > 0 {
            assert(keys.drop_last() =~= none);
        } else {
            assert(g =~= none);
        }
    }
    let c2 = config_of(keys + layers);
    assert(c2.keys == c1.keys && c2.layers == layers_of(Node::Table(e.layers)) && c2.sequences
        == c0.sequences) by {
        if e.layers.len() > 0 {
            assert((keys + layers).drop_last() =~= keys);
        } else {
            assert(e.layers =~= none);
            assert(keys + layers =~= keys);
        }
    }
    let c3 = config_of(keys + layers + sequences);
    assert(c3.keys == c1.keys && c3.layers == c2.layers && c3.sequences == sequences_of(
        Node::List(seq_nodes(e.sequences)),
    )) by {
        if e.sequences.len() > 0 {
            assert((keys + layers + sequences).drop_last() =~= keys + layers);
        } else {
            assert(seq_nodes(e.sequences) =~= Seq::<Node>::empty());
            assert(keys + layers + sequences =~= keys + layers);
        }
    }
}

/// Layers none of which is called global are all named.
proof fn lemma_all_named(layers: Seq<(Seq<char>, Seq<(Seq<char>, Raw)>)>)
    requires
        forall|i: int| 0 <= i < layers.len() ==> (#[trigger] layers[i]).0 != GLOBAL_LAYER@,
    ensures
        named_layers(layers) == layers,
        explicit_global(layers) == Seq::<(Seq<char>, Raw)>::empty(),
    decreases layers.len(),
{
    if layers.len() > 0 {
        let init = layers.drop_last();
        assert(layers[layers.len() - 1].0 != GLOBAL_LAYER@);
        assert forall|i: int| 0 <= i < init.len() implies (#[trigger] init[i]).0 != GLOBAL_LAYER@ by {
            assert(init[i] == layers[i]);
        }
        lemma_all_named(init);
        assert(layers =~= init.push(layers.last()));
    } else {
        assert(layers =~= Seq::empty());
    }
}

/// The tables in the order in which they are read: the global one, then the others.
spec fn read_tables(e: Emission) -> Seq<(Seq<char>, Seq<(Seq<char>, Node)>)> {
    seq![(GLOBAL_LAYER@, global_table(e.tables))] + e.layers.map_values(
        |r: (Seq<char>, Node)| (r.0, r.1->Table_0),
    )
}

/// The layers that a written document has.
proof fn lemma_layers_back(e: Emission)
    requires
        lists(e.layers, named_tables(e.tables)),
    ensures
        ({
            let all = all_layers(config_of(document_of(e)));
            let tables = read_tables(e);
            &&& all.len() == tables.len()
            &&& distinct_keys(all)
            &&& forall|i: int|
                0 <= i < all.len() ==> (#[trigger] all[i]) == (
                    tables[i].0,
                    layer_of(Node::Table(tables[i].1)),
                )
            &&& forall|i: int|
                0 <= i < tables.len() ==> {
                    &&& (#[trigger] tables[i]).0 == GLOBAL_LAYER@ || e.tables.contains_key(
                        tables[i].0,
                    )
                    &&& tables[i].1 == (if e.tables.contains_key(tables[i].0) {
                        e.tables[tables[i].0]
                    } else {
                        Seq::empty()
                    })
                }
            &&& forall|n: Seq<char>| #[trigger]
                e.tables.contains_key(n) && e.tables[n].len() > 0 ==> has_key(all, n)
        }),
{
    let config = config_of(document_of(e));
    let all = all_layers(config);
    let tables = read_tables(e);
    lemma_config_back(e);
    lemma_ascending_distinct(e.layers);
    lemma_table_dom(e.layers);
    assert forall|i: int| 0 <= i < e.layers.len() implies {
        let n = (#[trigger] e.layers[i]).0;
        n != GLOBAL_LAYER@ && e.tables.contains_key(n) && e.layers[i].1 == Node::Table(e.tables[n])
    } by {
        lemma_table_row(e.layers, i);
        assert(named_tables(e.tables).contains_key(e.layers[i].0));
    }
    let raws = layers_of(Node::Table(e.layers));
    assert forall|i: int| 0 <= i < raws.len() implies (#[trigger] raws[i]).0 != GLOBAL_LAYER@ by {
        assert(e.layers[i].0 != GLOBAL_LAYER@);
    }
    lemma_all_named(raws);
    assert(config.keys + explicit_global(config.layers) =~= config.keys);
    assert(all =~= seq![(GLOBAL_LAYER@, config.keys)] + raws);
    assert forall|i: int| 0 <= i < all.len() implies (#[trigger] all[i]) == (
        tables[i].0,
        layer_of(Node::Table(tables[i].1)),
    ) by {
        if i > 0 {
            assert(all[i] == raws[i - 1]);
            assert(e.layers[i - 1].0 != GLOBAL_LAYER@);
            assert(tables[i] == (e.layers[i - 1].0, e.layers[i - 1].1->Table_0));
        }
    }
    assert forall|i: int| 0 <= i < tables.len() implies {
        &&& (#[trigger] tables[i]).0 == GLOBAL_LAYER@ || e.tables.contains_key(tables[i].0)
        &&& tables[i].1 == (if e.tables.contains_key(tables[i].0) {
            e.tables[tables[i].0]
        } else {
            Seq::empty()
        })
    } by {
        if i > 0 {
            assert(e.layers[i - 1].0 != GLOBAL_LAYER@);
            assert(tables[i] == (e.layers[i - 1].0, e.layers[i - 1].1->Table_0));
        }
    }
    assert forall|i: int, j: int| 0 <= i < j < all.len() implies (#[trigger] all[i]).0 != (
    #[trigger] all[j]).0 by {
        assert(all[j].0 == e.layers[j - 1].0);
        if i > 0 {
            assert(all[i].0 == e.layers[i - 1].0);
        }
    }
    assert forall|n: Seq<char>| #[trigger]
        e.tables.contains_key(n) && e.tables[n].len() > 0 implies has_key(all, n) by {
        if n == GLOBAL_LAYER@ {
            assert(all[0].0 == n);
        } else {
            assert(named_tables(e.tables).contains_key(n));
            let i = choose|i: int| 0 <= i < e.layers.len() && (#[trigger] e.layers[i]).0 == n;
            assert(all[i + 1].0 == n);
        }
    }
}

/// Layers of distinct names have their own bindings and declarations.
pub(crate) proof fn lemma_layer_maps<A>(
    layers: Seq<(Seq<char>, Seq<(Seq<char>, Raw)>)>,
    lines: Seq<Seq<Line<A>>>,
    i: int,
)
    requires
        distinct_keys(layers),
        0 <= i < layers.len(),
    ensures
        layer_maps(layers, lines).contains_key(layers[i].0),
        layer_maps(layers, lines)[layers[i].0] == layer_map(lines[i]),
        unbind_lists(layers, lines).contains_key(layers[i].0) <==> tombstones(lines[i]).len() > 0,
        tombstones(lines[i]).len() > 0 ==> unbind_lists(layers, lines)[layers[i].0] == tombstones(
            lines[i],
        ),
    decreases layers.len(),
{
    let init = layers.drop_last();
    let n = layers.len() - 1;
    assert forall|a: int, b: int| 0 <= a < b < init.len() implies (#[trigger] init[a]).0 != (
    #[trigger] init[b]).0 by {
        assert(layers[a].0 != layers[b].0);
    }
    if i < n {
        assert(init[i] == layers[i]);
        lemma_layer_maps(init, lines, i);
        assert(layers[i].0 != layers[n].0);
    } else {
        assert(!unbind_lists(init, lines).contains_key(layers[n].0)) by {
            lemma_layer_names(init, lines, layers[n].0);
            if has_key(init, layers[n].0) {
                let j = choose|j: int| 0 <= j < init.len() && (#[trigger] init[j]).0 == layers[n].0;
                assert(layers[j].0 != layers[n].0);
            }
        }
    }
}

/// Only the layers have bindings and declarations.
pub(crate) proof fn lemma_layer_names<A>(
    layers: Seq<(Seq<char>, Seq<(Seq<char>, Raw)>)>,
    lines: Seq<Seq<Line<A>>>,
    name: Seq<char>,
)
    ensures
        layer_maps(layers, lines).contains_key(name) ==> has_key(layers, name),
        unbind_lists(layers, lines).contains_key(name) ==> has_key(layers, name),
    decreases layers.len(),
{
    if layers.len() > 0 {
        let init = layers.drop_last();
        lemma_layer_names(init, lines, name);
        assert(layers[layers.len() - 1] == layers.last());
        if has_key(init, name) {
            let j = choose|j: int| 0 <= j < init.len() && (#[trigger] init[j]).0 == name;
            assert(layers[j].0 == name);
        }
    }
}

/// Layers without a fatal problem have none together.
pub(crate) proof fn lemma_no_layer_error(layers: Seq<(Seq<char>, Seq<(Seq<char>, Raw)>)>)
    requires
        forall|i: int| 0 <= i < layers.len() ==> rows_error((#[trigger] layers[i]).1) is None,
    ensures
        layers_error(layers) is None,
    decreases layers.len(),
{
    if layers.len() > 0 {
        let init = layers.drop_last();
        assert(layers[layers.len() - 1] == layers.last());
        assert forall|i: int| 0 <= i < init.len() implies rows_error((#[trigger] init[i]).1) is None by {
            assert(init[i] == layers[i]);
        }
        lemma_no_layer_error(init);
    }
}

/// Layers without warnings have none together.
proof fn lemma_no_layer_warnings<A>(lines: Seq<Seq<Line<A>>>)
    requires
        forall|i: int| 0 <= i < lines.len() ==> layer_warnings(#[trigger] lines[i]).len() == 0,
    ensures
        all_layer_warnings(lines) == Seq::<WarningView>::empty(),
    decreases lines.len(),
{
    if lines.len() > 0 {
        let init = lines.drop_last();
        assert(lines[lines.len() - 1] == lines.last());
        assert forall|i: int| 0 <= i < init.len() implies layer_warnings(#[trigger] init[i]).len()
            == 0 by {
            assert(init[i] == lines[i]);
        }
        lemma_no_layer_warnings(init);
        assert(layer_warnings(lines.last()) =~= Seq::<WarningView>::empty());
        assert(all_layer_warnings(lines) =~= Seq::<WarningView>::empty());
    }
}

/// The chords of a written sequence parse.
proof fn lemma_keys_parse(keys: Seq<KeyInput>)
    requires
        forall|i: int| 0 <= i < keys.len() ==> has_spelling(#[trigger] keys[i]),
    ensures
        keys_error(rendered(keys)) is None,
        forall|k: Seq<KeyInput>| #[trigger] spell(rendered(keys), k) ==> k == keys,
    decreases keys.len(),
{
    if keys.len() > 0 {
        let init = keys.drop_last();
        assert(rendered(keys).drop_last() =~= rendered(init));
        assert forall|i: int| 0 <= i < init.len() implies has_spelling(#[trigger] init[i]) by {
            assert(init[i] == keys[i]);
        }
        lemma_keys_parse(init);
        assert(has_spelling(keys[keys.len() - 1]));
        law_print_then_parse(keys.last());
        assert(rendered(keys).last() == chord_text(keys.last()));
    }
    assert forall|k: Seq<KeyInput>| #[trigger] spell(rendered(keys), k) implies k == keys by {
        assert forall|i: int| 0 <= i < keys.len() implies k[i] == keys[i] by {
            assert(has_spelling(keys[i]));
            law_print_then_parse(keys[i]);
            assert(rendered(keys)[i] == chord_text(keys[i]));
            assert(parsed_chord(rendered(keys)[i]) == Some(k[i]));
        }
        assert(k =~= keys);
    }
}

/// The entries of written sequences parse.
proof fn lemma_no_sequence_error(raws: Seq<(Seq<Seq<char>>, Seq<char>)>)
    requires
        forall|i: int| 0 <= i < raws.len() ==> keys_error((#[trigger] raws[i]).0) is None,
    ensures
        sequences_error(raws) is None,
    decreases raws.len(),
{
    if raws.len() > 0 {
        let init = raws.drop_last();
        assert(raws[raws.len() - 1] == raws.last());
        assert forall|i: int| 0 <= i < init.len() implies keys_error((#[trigger] init[i]).0) is None by {
            assert(init[i] == raws[i]);
        }
        lemma_no_sequence_error(init);
    }
}

/// The lines are bindings of a prefix-free table, each once.
spec fn lines_of<A>(sequences: Map<Seq<KeyInput>, A>, lines: Seq<SeqLine<A>>) -> bool {
    &&& prefix_free(sequences)
    &&& forall|i: int|
        0 <= i < lines.len() ==> sequences.contains_key((#[trigger] lines[i]).keys)
            && lines[i].action == Some(sequences[lines[i].keys])
    &&& forall|i: int, j: int|
        0 <= i < j < lines.len() ==> (#[trigger] lines[i]).keys != (#[trigger] lines[j]).keys
}

/// Binding such lines one after the other binds them all.
proof fn lemma_state_of_lines<A>(
    sequences: Map<Seq<KeyInput>, A>,
    lines: Seq<SeqLine<A>>,
    n: int,
)
    requires
        lines_of(sequences, lines),
        0 <= n <= lines.len(),
    ensures
        forall|s: Seq<KeyInput>| #[trigger]
            seq_state(lines.take(n)).map.contains_key(s) <==> exists|i: int|
                0 <= i < n && (#[trigger] lines[i]).keys == s,
        forall|s: Seq<KeyInput>| #[trigger]
            seq_state(lines.take(n)).map.contains_key(s) ==> sequences.contains_key(s)
                && seq_state(lines.take(n)).map[s] == sequences[s],
    decreases n,
{
    if n > 0 {
        lemma_state_of_lines(sequences, lines, n - 1);
        let before = seq_state(lines.take(n - 1));
        let after = seq_state(lines.take(n));
        let line = lines[n - 1];
        assert(lines.take(n).drop_last() =~= lines.take(n - 1));
        assert(lines.take(n).last() == line);
        assert(sequences.contains_key(line.keys));
        lemma_not_shadowed(sequences, before.map, line.keys);
        assert(is_bound(before, line));
        assert forall|s: Seq<KeyInput>| #[trigger] after.map.contains_key(s) <==> exists|i: int|
            0 <= i < n && (#[trigger] lines[i]).keys == s by {
            if before.map.contains_key(s) {
                let i = choose|i: int| 0 <= i < n - 1 && (#[trigger] lines[i]).keys == s;
                assert(lines[i].keys == s);
            }
            if s == line.keys {
                assert(lines[n - 1].keys == s);
            }
        }
    }
}

/// A sequence of a prefix-free table is not shadowed in a part of it, and is not
/// empty.
proof fn lemma_not_shadowed<A>(
    sequences: Map<Seq<KeyInput>, A>,
    part: Map<Seq<KeyInput>, A>,
    keys: Seq<KeyInput>,
)
    requires
        prefix_free(sequences),
        sequences.contains_key(keys),
        forall|s: Seq<KeyInput>| #[trigger] part.contains_key(s) ==> sequences.contains_key(s),
    ensures
        !is_shadowed(part, keys),
        keys.len() > 0,
{
    if keys.len() == 0 {
        assert(keys =~= Seq::<KeyInput>::empty());
    }
}

/// Such lines give no warning.
proof fn lemma_nothing_told<A>(
    sequences: Map<Seq<KeyInput>, A>,
    lines: Seq<SeqLine<A>>,
    warnings: Seq<Option<WarningView>>,
    n: int,
)
    requires
        lines_of(sequences, lines),
        crate::seqbuild::are_seq_warnings(lines, warnings),
        0 <= n <= lines.len(),
    ensures
        told(warnings.take(n)) == Seq::<WarningView>::empty(),
    decreases n,
{
    if n > 0 {
        lemma_nothing_told(sequences, lines, warnings, n - 1);
        assert(warnings.take(n).drop_last() =~= warnings.take(n - 1));
        assert(warnings.take(n).last() == warnings[n - 1]);
        let before = seq_state(lines.take(n - 1));
        let line = lines[n - 1];
        assert(is_seq_warning(before, line, warnings[n - 1]));
        lemma_state_of_lines(sequences, lines, n - 1);
        assert(sequences.contains_key(line.keys));
        lemma_not_shadowed(sequences, before.map, line.keys);
        if before.map.contains_key(line.keys) {
            let i = choose|i: int| 0 <= i < n - 1 && (#[trigger] lines[i]).keys == line.keys;
            assert(lines[i].keys != lines[n - 1].keys);
        }
    }
}

/// What can be written so that reading it gives it back: every chord has a spelling,
/// no chord is both bound and declared unbound in a layer, and the sequences are
/// prefix-free.
pub open spec fn is_writable<A>(
    layers: Map<Seq<char>, Map<KeyInput, A>>,
    sequences: Map<Seq<KeyInput>, A>,
    unbinds: Map<Seq<char>, Seq<KeyInput>>,
) -> bool {
    &&& prefix_free(sequences)
    &&& forall|n: Seq<char>, c: KeyInput|
        layers.contains_key(n) && #[trigger] layers[n].contains_key(c) ==> has_spelling(c)
            && !chords_in(unbinds, n).contains(c)
    &&& forall|n: Seq<char>, c: KeyInput|
        unbinds.contains_key(n) && #[trigger] unbinds[n].contains(c) ==> has_spelling(c)
    &&& forall|s: Seq<KeyInput>, i: int|
        sequences.contains_key(s) && 0 <= i < s.len() ==> has_spelling(#[trigger] s[i])
}

/// The bindings of a layer; none where there is no such layer.
pub open spec fn layer_in<A>(layers: Map<Seq<char>, Map<KeyInput, A>>, name: Seq<char>) -> Map<
    KeyInput,
    A,
> {
    if layers.contains_key(name) {
        layers[name]
    } else {
        Map::empty()
    }
}

/// The chords with an entry in a layer have spellings, and those that are bound are not
/// declared unbound.
proof fn lemma_entries_have_spellings<A, F: Fn(&A) -> Option<&str>>(
    layers: Map<Seq<char>, Map<KeyInput, A>>,
    sequences: Map<Seq<KeyInput>, A>,
    unbinds: Map<Seq<char>, Seq<KeyInput>>,
    name_of: F,
    e: Emission,
    n: Seq<char>,
)
    requires
        emits(layers, sequences, unbinds, name_of, e),
        is_writable(layers, sequences, unbinds),
    ensures
        forall|c: KeyInput|
            (#[trigger] entry(names_in(e.names, n), chords_in(unbinds, n), c)) is Some
                ==> has_spelling(c),
        forall|c: KeyInput| #[trigger]
            layer_in(layers, n).contains_key(c) ==> !chords_in(unbinds, n).contains(c),
{
    let names = names_in(e.names, n);
    let chords = chords_in(unbinds, n);
    assert(e.names.contains_key(n) <==> e.tables.contains_key(n) && layers.contains_key(n));
    assert(e.tables.contains_key(n) <==> layers.contains_key(n) || unbinds.contains_key(n));
    assert forall|c: KeyInput| (#[trigger] entry(names, chords, c)) is Some implies has_spelling(c) by {
        if chords.contains(c) {
            assert(unbinds[n].contains(c));
        } else {
            assert(gives_names(name_of, layers[n], e.names[n]));
            assert(names.dom().contains(c));
            assert(layers[n].contains_key(c));
        }
    }
    assert forall|c: KeyInput| #[trigger]
        layer_in(layers, n).contains_key(c) implies !chords.contains(c) by {
        assert(layers[n].contains_key(c));
    }
}

/// The names of a layer resolve back to its actions.
proof fn lemma_names_resolve_back<A, F: Fn(&A) -> Option<&str>, G: Fn(&str) -> Option<A>>(
    layers: Map<Seq<char>, Map<KeyInput, A>>,
    sequences: Map<Seq<KeyInput>, A>,
    unbinds: Map<Seq<char>, Seq<KeyInput>>,
    name_of: F,
    resolve: G,
    e: Emission,
    n: Seq<char>,
)
    requires
        emits(layers, sequences, unbinds, name_of, e),
        are_inverse_on(layers, sequences, name_of, resolve),
    ensures
        resolves_back(resolve, layer_in(layers, n), names_in(e.names, n)),
{
    let bound = layer_in(layers, n);
    let names = names_in(e.names, n);
    assert(e.names.contains_key(n) <==> e.tables.contains_key(n) && layers.contains_key(n));
    assert(e.tables.contains_key(n) <==> layers.contains_key(n) || unbinds.contains_key(n));
    if layers.contains_key(n) {
        assert(gives_names(name_of, layers[n], e.names[n]));
        assert forall|c: KeyInput| #[trigger] bound.contains_key(c) implies names[c] is Some && forall|
            x: Option<A>,
        | #[trigger]
            answers(resolve, names[c]->0, x) ==> x == Some(bound[c]) by {
            assert(layers[n].contains_key(c));
            assert(is_used(layers, sequences, bound[c]));
            assert(gives_name(name_of, bound[c], names[c]));
        }
    } else {
        assert(names.dom() =~= bound.dom());
    }
}

/// The table of a layer that is read is that of the layer.
proof fn lemma_read_table<A, F: Fn(&A) -> Option<&str>>(
    layers: Map<Seq<char>, Map<KeyInput, A>>,
    sequences: Map<Seq<KeyInput>, A>,
    unbinds: Map<Seq<char>, Seq<KeyInput>>,
    name_of: F,
    e: Emission,
    n: Seq<char>,
)
    requires
        emits(layers, sequences, unbinds, name_of, e),
    ensures
        is_table(
            if e.tables.contains_key(n) {
                e.tables[n]
            } else {
                Seq::empty()
            },
            names_in(e.names, n),
            chords_in(unbinds, n),
        ),
{
    assert(e.names.contains_key(n) <==> e.tables.contains_key(n) && layers.contains_key(n));
    assert(e.tables.contains_key(n) <==> layers.contains_key(n) || unbinds.contains_key(n));
}

/// Reading a text that was written succeeds, whatever the resolver.
pub proof fn law_written_text_is_read<A, F: Fn(&A) -> Option<&str>>(
    layers: Map<Seq<char>, Map<KeyInput, A>>,
    sequences: Map<Seq<KeyInput>, A>,
    unbinds: Map<Seq<char>, Seq<KeyInput>>,
    name_of: F,
    e: Emission,
    text: Seq<char>,
)
    requires
        emits(layers, sequences, unbinds, name_of, e),
        is_writable(layers, sequences, unbinds),
        is_written(document_of(e), text),
    ensures
        parsed_document(text) == Some(document_of(e)),
        text_error(text) is None,
{
    let config = config_of(document_of(e));
    let all = all_layers(config);
    let tables = read_tables(e);
    lemma_document_is_config(layers, sequences, unbinds, name_of, e);
    lemma_layers_back(e);
    assert forall|i: int| 0 <= i < all.len() implies rows_error((#[trigger] all[i]).1) is None by {
        let n = tables[i].0;
        lemma_read_table(layers, sequences, unbinds, name_of, e, n);
        lemma_entries_have_spellings(layers, sequences, unbinds, name_of, e, n);
        lemma_table_has_no_error(
            tables[i].1,
            names_in(e.names, n),
            chords_in(unbinds, n),
            tables[i].1.len() as int,
        );
        assert(layer_of(Node::Table(tables[i].1)).take(tables[i].1.len() as int) =~= all[i].1);
    }
    lemma_no_layer_error(all);
    lemma_config_back(e);
    assert forall|i: int| 0 <= i < config.sequences.len() implies keys_error(
        (#[trigger] config.sequences[i]).0,
    ) is None by {
        lemma_seq_node(e.sequences[i]);
        assert(seq_nodes(e.sequences)[i] == seq_node(e.sequences[i]));
        let s = e.sequences[i].0;
        assert(e.seq_names.dom().contains(s));
        assert(sequences.contains_key(s));
        lemma_keys_parse(s);
    }
    lemma_no_sequence_error(config.sequences);
}

/// The semantic round trip: reading what was written rebuilds the same maps, where
/// the resolver gives every bound action back from its name. A layer without bindings and
/// declarations is not written, and comes back as no layer. Neither the layers nor
/// the sequences give a warning.
pub proof fn law_round_trip<A, F: Fn(&A) -> Option<&str>, G: Fn(&str) -> Option<A>>(
    layers: Map<Seq<char>, Map<KeyInput, A>>,
    sequences: Map<Seq<KeyInput>, A>,
    unbinds: Map<Seq<char>, Seq<KeyInput>>,
    name_of: F,
    resolve: G,
    e: Emission,
    t: Trace<A>,
)
    requires
        emits(layers, sequences, unbinds, name_of, e),
        are_inverse_on(layers, sequences, name_of, resolve),
        is_writable(layers, sequences, unbinds),
        traces(config_of(document_of(e)), resolve, t),
    ensures
        ({
            let all = all_layers(config_of(document_of(e)));
            &&& forall|n: Seq<char>| #[trigger]
                layer_in(layer_maps(all, t.layers), n) == layer_in(layers, n)
            &&& forall|n: Seq<char>| #[trigger]
                layer_maps(all, t.layers).contains_key(n) ==> n == GLOBAL_LAYER@
                    || layers.contains_key(n) || unbinds.contains_key(n)
            &&& forall|n: Seq<char>, c: KeyInput| #[trigger]
                chords_in(unbind_lists(all, t.layers), n).contains(c) <==> chords_in(
                    unbinds,
                    n,
                ).contains(c)
        }),
        seq_state(t.sequences).map == sequences,
        all_layer_warnings(t.layers) == Seq::<WarningView>::empty(),
        told(t.told) == Seq::<WarningView>::empty(),
{
    let config = config_of(document_of(e));
    let all = all_layers(config);
    let tables = read_tables(e);
    lemma_layers_back(e);
    assert forall|i: int| 0 <= i < all.len() implies layer_map(#[trigger] t.layers[i]) == layer_in(
        layers,
        all[i].0,
    ) && layer_warnings(t.layers[i]).len() == 0 && (forall|c: KeyInput| #[trigger]
        tombstones(t.layers[i]).contains(c) <==> chords_in(unbinds, all[i].0).contains(c)) by {
        let n = tables[i].0;
        assert(all[i] == (n, layer_of(Node::Table(tables[i].1))));
        lemma_read_table(layers, sequences, unbinds, name_of, e, n);
        lemma_names_resolve_back(layers, sequences, unbinds, name_of, resolve, e, n);
        lemma_entries_have_spellings(layers, sequences, unbinds, name_of, e, n);
        assert(are_lines(resolve, all[i].1, t.layers[i]));
        lemma_layer_back(
            resolve,
            tables[i].1,
            layer_in(layers, n),
            names_in(e.names, n),
            chords_in(unbinds, n),
            t.layers[i],
        );
    }
    lemma_no_layer_warnings(t.layers);
    assert forall|n: Seq<char>| #[trigger] layer_in(layer_maps(all, t.layers), n) == layer_in(
        layers,
        n,
    ) by {
        lemma_layer_names(all, t.layers, n);
        if has_key(all, n) {
            let i = choose|i: int| 0 <= i < all.len() && (#[trigger] all[i]).0 == n;
            lemma_layer_maps(all, t.layers, i);
            assert(layer_map(t.layers[i]) == layer_in(layers, all[i].0));
        } else {
            lemma_absent_layer(layers, sequences, unbinds, name_of, resolve, e, n);
        }
    }
    assert forall|n: Seq<char>, c: KeyInput| #[trigger]
        chords_in(unbind_lists(all, t.layers), n).contains(c) <==> chords_in(unbinds, n).contains(
            c,
        ) by {
        lemma_layer_names(all, t.layers, n);
        if has_key(all, n) {
            let i = choose|i: int| 0 <= i < all.len() && (#[trigger] all[i]).0 == n;
            lemma_layer_maps(all, t.layers, i);
            assert(layer_map(t.layers[i]) == layer_in(layers, all[i].0));
            assert(tombstones(t.layers[i]).contains(c) <==> chords_in(unbinds, n).contains(c));
        } else {
            lemma_absent_layer(layers, sequences, unbinds, name_of, resolve, e, n);
        }
    }
    assert forall|n: Seq<char>| #[trigger] layer_maps(all, t.layers).contains_key(n) implies n
        == GLOBAL_LAYER@ || layers.contains_key(n) || unbinds.contains_key(n) by {
        lemma_layer_names(all, t.layers, n);
        let i = choose|i: int| 0 <= i < all.len() && (#[trigger] all[i]).0 == n;
        assert(all[i] == (tables[i].0, layer_of(Node::Table(tables[i].1))));
        assert(n == GLOBAL_LAYER@ || e.tables.contains_key(n));
    }
    lemma_sequences_back(layers, sequences, unbinds, name_of, resolve, e, t);
}

/// Reading back a text that was written gives what was written, where the resolver gives
/// every bound action back from its name: the build succeeds, every layer has its bindings
/// and its declarations again, and the sequences are the same. The only warnings are those
/// on chords that a sequence begins with.
pub proof fn law_build_gives_back<A, F: Fn(&A) -> Option<&str>, G: Fn(&str) -> Option<A>>(
    layers: Map<Seq<char>, Map<KeyInput, A>>,
    sequences: Map<Seq<KeyInput>, A>,
    unbinds: Map<Seq<char>, Seq<KeyInput>>,
    name_of: F,
    resolve: G,
    e: Emission,
    text: Seq<char>,
    r: Result<BuildOutput<A>, BuildError>,
)
    requires
        emits(layers, sequences, unbinds, name_of, e),
        are_inverse_on(layers, sequences, name_of, resolve),
        is_writable(layers, sequences, unbinds),
        is_written(document_of(e), text),
        is_load(text, resolve, r),
    ensures
        r matches Ok(out) && {
            &&& forall|n: Seq<char>| #[trigger] bindings_in(out.layers@, n) == layer_in(layers, n)
            &&& forall|n: Seq<char>, c: KeyInput| #[trigger]
                unbinds_in(out.unbinds@, n).contains(c) <==> chords_in(unbinds, n).contains(c)
            &&& out.sequences@ == sequences
            &&& forall|i: int|
                0 <= i < out.warnings.len() ==> (#[trigger] warning_views(
                    out.warnings@,
                )[i]) is SequenceShadow
        },
{
    law_written_text_is_read(layers, sequences, unbinds, name_of, e, text);
    let config = config_of(document_of(e));
    let all = all_layers(config);
    let out = r->Ok_0;
    let t = choose|t: Trace<A>| #[trigger]
        traces(config, resolve, t) && is_built(config, t, out);
    law_round_trip(layers, sequences, unbinds, name_of, resolve, e, t);
    assert forall|n: Seq<char>| #[trigger] bindings_in(out.layers@, n) == layer_in(layers, n) by {
        assert(layer_in(layer_maps(all, t.layers), n) == layer_in(layers, n));
        assert(out.layers@.dom().contains(n) == layer_maps(all, t.layers).dom().contains(n));
    }
    assert forall|n: Seq<char>, c: KeyInput| #[trigger]
        unbinds_in(out.unbinds@, n).contains(c) <==> chords_in(unbinds, n).contains(c) by {
        let lists = unbind_lists(all, t.layers);
        assert(chords_in(lists, n).contains(c) <==> chords_in(unbinds, n).contains(c));
        assert(out.unbinds@.dom().contains(n) == lists.dom().contains(n));
    }
    assert(warning_views(out.warnings@) =~= t.cross);
    assert forall|i: int| 0 <= i < out.warnings.len() implies (#[trigger] warning_views(
        out.warnings@,
    )[i]) is SequenceShadow by {
        assert(t.chords.contains(t.chords[i]));
    }
}

/// A layer that is not written has no bindings and no declarations.
proof fn lemma_absent_layer<A, F: Fn(&A) -> Option<&str>, G: Fn(&str) -> Option<A>>(
    layers: Map<Seq<char>, Map<KeyInput, A>>,
    sequences: Map<Seq<KeyInput>, A>,
    unbinds: Map<Seq<char>, Seq<KeyInput>>,
    name_of: F,
    resolve: G,
    e: Emission,
    n: Seq<char>,
)
    requires
        emits(layers, sequences, unbinds, name_of, e),
        are_inverse_on(layers, sequences, name_of, resolve),
        is_writable(layers, sequences, unbinds),
        !has_key(all_layers(config_of(document_of(e))), n),
    ensures
        layer_in(layers, n) == Map::<KeyInput, A>::empty(),
        chords_in(unbinds, n).len() == 0,
{
    lemma_layers_back(e);
    lemma_read_table(layers, sequences, unbinds, name_of, e, n);
    lemma_names_resolve_back(layers, sequences, unbinds, name_of, resolve, e, n);
    let names = names_in(e.names, n);
    let chords = chords_in(unbinds, n);
    let bound = layer_in(layers, n);
    let rows = if e.tables.contains_key(n) {
        e.tables[n]
    } else {
        Seq::empty()
    };
    assert(rows.len() == 0);
    if chords.len() > 0 {
        assert(chords.contains(chords[0]));
        assert(entry(names, chords, chords[0]) is Some);
    }
    assert forall|c: KeyInput| !#[trigger] bound.contains_key(c) by {
        if bound.contains_key(c) {
            assert(bound.dom().contains(c) && names.dom().contains(c));
            assert(entry(names, chords, c) is Some);
        }
    }
    assert(bound =~= Map::<KeyInput, A>::empty());
}

/// Reading the sequences that were written gives them back, without a warning.
proof fn lemma_sequences_back<A, F: Fn(&A) -> Option<&str>, G: Fn(&str) -> Option<A>>(
    layers: Map<Seq<char>, Map<KeyInput, A>>,
    sequences: Map<Seq<KeyInput>, A>,
    unbinds: Map<Seq<char>, Seq<KeyInput>>,
    name_of: F,
    resolve: G,
    e: Emission,
    t: Trace<A>,
)
    requires
        emits(layers, sequences, unbinds, name_of, e),
        are_inverse_on(layers, sequences, name_of, resolve),
        is_writable(layers, sequences, unbinds),
        traces(config_of(document_of(e)), resolve, t),
    ensures
        seq_state(t.sequences).map == sequences,
        told(t.told) == Seq::<WarningView>::empty(),
{
    let config = config_of(document_of(e));
    let lines = t.sequences;
    let rows = e.sequences;
    lemma_config_back(e);
    assert forall|i: int| 0 <= i < lines.len() implies (#[trigger] lines[i]).keys == rows[i].0
        && sequences.contains_key(lines[i].keys) && lines[i].action == Some(
        sequences[lines[i].keys],
    ) by {
        lemma_seq_node(rows[i]);
        assert(seq_nodes(rows)[i] == seq_node(rows[i]));
        assert(config.sequences[i] == (rendered(rows[i].0), rows[i].1));
        let s = rows[i].0;
        assert(e.seq_names.dom().contains(s));
        assert(sequences.contains_key(s));
        lemma_keys_parse(s);
        assert(is_seq_line(resolve, config.sequences[i], lines[i]));
        assert(spell(rendered(s), lines[i].keys));
        assert(is_used(layers, sequences, sequences[s]));
        assert(gives_name(name_of, sequences[s], e.seq_names[s]));
        assert(e.seq_names[s] == Some(rows[i].1));
        assert(answers(resolve, e.seq_names[s]->0, lines[i].action));
    }
    assert forall|i: int, j: int| 0 <= i < j < lines.len() implies (#[trigger] lines[i]).keys != (
    #[trigger] lines[j]).keys by {
        assert(rows[i].0 != rows[j].0);
        assert(lines[i].keys == rows[i].0);
        assert(lines[j].keys == rows[j].0);
    }
    assert(lines_of(sequences, lines));
    let n = lines.len() as int;
    lemma_state_of_lines(sequences, lines, n);
    lemma_nothing_told(sequences, lines, t.told, n);
    assert(lines.take(n) =~= lines);
    assert(t.told.take(n) =~= t.told);
    let m = seq_state(lines).map;
    assert forall|s: Seq<KeyInput>| #[trigger] m.contains_key(s) <==> sequences.contains_key(s) by {
        if sequences.contains_key(s) {
            assert(is_used(layers, sequences, sequences[s]));
            assert(gives_name(name_of, sequences[s], e.seq_names[s]));
            assert(e.seq_names.dom().contains(s));
            assert(e.seq_names.contains_key(s) && e.seq_names[s] is Some);
            let i = choose|i: int| 0 <= i < rows.len() && (#[trigger] rows[i]).0 == s;
            assert(seq_nodes(rows).len() == rows.len());
            assert(lines[i].keys == s);
        }
    }
    assert(m =~= sequences);
}

} // verus!
