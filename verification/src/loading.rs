//! What loading a configuration comes to, in terms of what the file says.
//!
//! The laws here speak of a text that was loaded: of the rows and entries that stand in
//! it, the resolver's answers, and what is bound, declared and warned of in the end.
use crate::config::{all_layer_warnings, all_layers, explicit_global, is_built, is_load,
    layer_maps, layers_error, named_layers, traces, unbind_lists, BuildOutput, Trace,
    GLOBAL_LAYER};
use crate::cross::law_ambiguous_chords_are_warned_of;
use crate::document::{bad_field, config_of, parsed_document, Config, Raw};
use crate::error::{BuildError, ErrorView};
use crate::grammar::{chord_text, parsed_chord};
use crate::input::KeyInput;
use crate::layer::{answers, are_lines, is_last_known, is_line, law_declared_chords_are_listed_once,
    law_first_bad_row_is_fatal, law_good_rows_are_not_fatal, law_last_known_line_wins,
    law_layer_problems_are_reported, layer_map, layer_names, layer_warnings, lemma_rivals, rivals, rows_error,
    tombstones, Line};
use crate::roundtrip::{lemma_layer_maps, lemma_layer_names, lemma_no_layer_error};
use crate::seqbuild::{cannot_coexist, is_seq_line, keys_error, law_bound_sequence_stays,
    law_built_sequences_can_coexist, law_earlier_sequence_wins, law_good_sequences_are_not_fatal,
    law_last_line_of_a_sequence_wins, law_sequence_problems_are_told, law_told_is_every_warning,
    seq_state, sequences_error, spell, told, SeqLine};
use crate::table::{distinct_keys, has_key};
use crate::warning::{joined, warning_views, WarningView};
use vstd::prelude::*;

verus! {

/// The configuration that a text holds.
pub open spec fn config_in(text: Seq<char>) -> Config {
    config_of(parsed_document(text)->0)
}

/// No two `[layers.<name>]` tables have the same name, as TOML has it.
pub open spec fn layers_differ(config: Config) -> bool {
    forall|i: int, j: int|
        0 <= i < j < config.layers.len() ==> (#[trigger] config.layers[i]).0 != (
        #[trigger] config.layers[j]).0
}

/// The rows are those that the configuration has for a layer: its table, and for the
/// global layer the `[keys]` table, followed by `[layers.global]` where that is there too.
pub open spec fn has_layer(config: Config, name: Seq<char>, rows: Seq<(Seq<char>, Raw)>) -> bool {
    if name == GLOBAL_LAYER@ {
        ||| rows == config.keys && forall|i: int|
            0 <= i < config.layers.len() ==> (#[trigger] config.layers[i]).0 != name
        ||| exists|i: int|
            0 <= i < config.layers.len() && (#[trigger] config.layers[i]).0 == name && rows
                == config.keys + config.layers[i].1
    } else {
        exists|i: int|
            0 <= i < config.layers.len() && #[trigger] config.layers[i] == (name, rows)
    }
}

/// The resolver answers by the name alone.
pub open spec fn resolves_by<A, F: Fn(&str) -> Option<A>>(
    resolve: F,
    action_of: spec_fn(Seq<char>) -> Option<A>,
) -> bool {
    forall|s: &str, a: Option<A>| #[trigger]
        call_ensures(resolve, (s,), a) ==> a == action_of(s@)
}

/// The answers that a build goes by are those of the resolver.
proof fn lemma_answers<A, F: Fn(&str) -> Option<A>>(
    resolve: F,
    action_of: spec_fn(Seq<char>) -> Option<A>,
)
    requires
        resolves_by(resolve, action_of),
    ensures
        forall|n: Seq<char>, a: Option<A>| #[trigger]
            answers(resolve, n, a) ==> a == action_of(n),
{
}

/// The row gives the chord an action that the resolver knows.
pub open spec fn row_binds<A>(
    rows: Seq<(Seq<char>, Raw)>,
    action_of: spec_fn(Seq<char>) -> Option<A>,
    i: int,
    c: KeyInput,
) -> bool {
    &&& 0 <= i < rows.len()
    &&& parsed_chord(rows[i].0) == Some(c)
    &&& rows[i].1 matches Raw::Action(name) && action_of(name) is Some
}

/// The row is the last that gives the chord an action that the resolver knows.
pub open spec fn row_decides<A>(
    rows: Seq<(Seq<char>, Raw)>,
    action_of: spec_fn(Seq<char>) -> Option<A>,
    i: int,
    c: KeyInput,
) -> bool {
    &&& row_binds(rows, action_of, i, c)
    &&& forall|j: int| i < j ==> !#[trigger] row_binds(rows, action_of, j, c)
}

/// The row declares the chord unbound.
pub open spec fn row_unbinds(rows: Seq<(Seq<char>, Raw)>, i: int, c: KeyInput) -> bool {
    &&& 0 <= i < rows.len()
    &&& parsed_chord(rows[i].0) == Some(c)
    &&& rows[i].1 == Raw::Bool(false)
}

/// The layers that are built but the global one are those of the configuration, and the
/// explicit global rows are those of the layer of that name.
proof fn lemma_named_layers(layers: Seq<(Seq<char>, Seq<(Seq<char>, Raw)>)>)
    requires
        distinct_keys(layers),
    ensures
        distinct_keys(named_layers(layers)),
        forall|j: int|
            0 <= j < named_layers(layers).len() ==> layers.contains(
                #[trigger] named_layers(layers)[j],
            ) && named_layers(layers)[j].0 != GLOBAL_LAYER@,
        forall|i: int|
            0 <= i < layers.len() && (#[trigger] layers[i]).0 != GLOBAL_LAYER@ ==> named_layers(
                layers,
            ).contains(layers[i]),
        !has_key(layers, GLOBAL_LAYER@) ==> explicit_global(layers) == Seq::<
            (Seq<char>, Raw),
        >::empty(),
        forall|i: int|
            0 <= i < layers.len() && (#[trigger] layers[i]).0 == GLOBAL_LAYER@ ==> explicit_global(
                layers,
            ) == layers[i].1,
    decreases layers.len(),
{
    if layers.len() > 0 {
        let init = layers.drop_last();
        let last = layers.last();
        let n = layers.len() - 1;
        assert(layers[n] == last);
        assert forall|a: int, b: int| 0 <= a < b < init.len() implies (#[trigger] init[a]).0 != (
        #[trigger] init[b]).0 by {
            assert(layers[a].0 != layers[b].0);
        }
        lemma_named_layers(init);
        let before = named_layers(init);
        let after = named_layers(layers);
        assert forall|j: int| 0 <= j < after.len() implies layers.contains(#[trigger] after[j])
            && after[j].0 != GLOBAL_LAYER@ by {
            if j < before.len() {
                assert(after[j] == before[j]);
                let i = choose|i: int| 0 <= i < init.len() && init[i] == before[j];
                assert(layers[i] == after[j]);
            } else {
                assert(layers[n] == after[j]);
            }
        }
        assert forall|i: int|
            0 <= i < layers.len() && (#[trigger] layers[i]).0 != GLOBAL_LAYER@ implies after.contains(
            layers[i],
        ) by {
            if i < n {
                assert(init[i] == layers[i]);
                let j = choose|j: int| 0 <= j < before.len() && before[j] == init[i];
                assert(after[j] == layers[i]);
            } else {
                assert(after[before.len() as int] == layers[i]);
            }
        }
        assert forall|a: int, b: int| 0 <= a < b < after.len() implies (#[trigger] after[a]).0 != (
        #[trigger] after[b]).0 by {
            assert(after[a] == before[a]);
            if b < before.len() {
                assert(after[b] == before[b]);
            } else {
                let i = choose|i: int| 0 <= i < init.len() && init[i] == before[a];
                assert(layers[i].0 != layers[n].0);
            }
        }
        if has_key(init, GLOBAL_LAYER@) {
            let i = choose|i: int| 0 <= i < init.len() && (#[trigger] init[i]).0 == GLOBAL_LAYER@;
            assert(layers[i].0 == GLOBAL_LAYER@);
            assert(layers[i].0 != layers[n].0);
        }
        assert forall|i: int|
            0 <= i < layers.len() && (#[trigger] layers[i]).0 == GLOBAL_LAYER@ implies explicit_global(
            layers,
        ) == layers[i].1 by {
            if i < n {
                assert(init[i] == layers[i]);
                assert(layers[i].0 != layers[n].0);
            } else {
                assert(!has_key(init, GLOBAL_LAYER@)) by {
                    if has_key(init, GLOBAL_LAYER@) {
                        let k = choose|k: int|
                            0 <= k < init.len() && (#[trigger] init[k]).0 == GLOBAL_LAYER@;
                        assert(layers[k].0 != layers[n].0);
                    }
                }
                assert(explicit_global(layers) =~= layers[i].1);
            }
        }
    }
}

/// The layers that are built have distinct names, and each has the rows that the
/// configuration has for it.
proof fn lemma_all_layers(config: Config)
    requires
        layers_differ(config),
    ensures
        distinct_keys(all_layers(config)),
        all_layers(config).len() > 0,
        all_layers(config)[0].0 == GLOBAL_LAYER@,
        forall|j: int|
            0 <= j < all_layers(config).len() ==> has_layer(
                config,
                (#[trigger] all_layers(config)[j]).0,
                all_layers(config)[j].1,
            ),
{
    let all = all_layers(config);
    let named = named_layers(config.layers);
    lemma_named_layers(config.layers);
    assert forall|a: int, b: int| 0 <= a < b < all.len() implies (#[trigger] all[a]).0 != (
    #[trigger] all[b]).0 by {
        assert(all[b] == named[b - 1]);
        if a > 0 {
            assert(all[a] == named[a - 1]);
        }
    }
    assert forall|j: int| 0 <= j < all.len() implies has_layer(
        config,
        (#[trigger] all[j]).0,
        all[j].1,
    ) by {
        if j == 0 {
            if has_key(config.layers, GLOBAL_LAYER@) {
                let i = choose|i: int|
                    0 <= i < config.layers.len() && (#[trigger] config.layers[i]).0 == GLOBAL_LAYER@;
                assert(all[j].1 == config.keys + config.layers[i].1);
            } else {
                assert(config.keys + explicit_global(config.layers) =~= config.keys);
            }
        } else {
            assert(all[j] == named[j - 1]);
            let i = choose|i: int| 0 <= i < config.layers.len() && config.layers[i] == named[j - 1];
            assert(config.layers[i] == (all[j].0, all[j].1));
        }
    }
}

/// A layer of the configuration is built.
proof fn lemma_layer_is_built(
    config: Config,
    name: Seq<char>,
    rows: Seq<(Seq<char>, Raw)>,
) -> (j: int)
    requires
        layers_differ(config),
        has_layer(config, name, rows),
    ensures
        0 <= j < all_layers(config).len(),
        all_layers(config)[j] == (name, rows),
        j == 0 <==> name == GLOBAL_LAYER@,
{
    let all = all_layers(config);
    let named = named_layers(config.layers);
    lemma_named_layers(config.layers);
    if name == GLOBAL_LAYER@ {
        if has_key(config.layers, name) {
            let i = choose|i: int|
                0 <= i < config.layers.len() && (#[trigger] config.layers[i]).0 == name && rows
                    == config.keys + config.layers[i].1;
            assert(explicit_global(config.layers) == config.layers[i].1);
        } else {
            assert(config.keys + explicit_global(config.layers) =~= config.keys);
        }
        0
    } else {
        let i = choose|i: int|
            0 <= i < config.layers.len() && #[trigger] config.layers[i] == (name, rows);
        assert(named.contains(config.layers[i]));
        let j = choose|j: int| 0 <= j < named.len() && named[j] == config.layers[i];
        assert(all[j + 1] == named[j]);
        j + 1
    }
}

/// What the lines of a layer hold, row by row.
proof fn lemma_lines_of_rows<A, F: Fn(&str) -> Option<A>>(
    resolve: F,
    action_of: spec_fn(Seq<char>) -> Option<A>,
    rows: Seq<(Seq<char>, Raw)>,
    lines: Seq<Line<A>>,
)
    requires
        resolves_by(resolve, action_of),
        are_lines(resolve, rows, lines),
    ensures
        lines.len() == rows.len(),
        forall|i: int, c: KeyInput|
            0 <= i < rows.len() ==> (#[trigger] row_binds(rows, action_of, i, c) <==> lines[i].chord
                == c && lines[i].name is Some && lines[i].action is Some),
        forall|i: int, c: KeyInput|
            0 <= i < rows.len() ==> (#[trigger] row_unbinds(rows, i, c) <==> lines[i].chord == c
                && lines[i].name is None),
        forall|i: int|
            0 <= i < rows.len() ==> (#[trigger] lines[i]).key == rows[i].0 && parsed_chord(
                rows[i].0,
            ) == Some(lines[i].chord) && match rows[i].1 {
                Raw::Action(name) => lines[i].name == Some(name) && lines[i].action == action_of(
                    name,
                ),
                Raw::Bool(b) => !b && lines[i].name is None,
            },
{
    lemma_answers(resolve, action_of);
    assert forall|i: int| 0 <= i < rows.len() implies is_line(resolve, rows[i], #[trigger] lines[i]) by {}
}

/// A loaded layer binds what its rows say: the layer is there; a chord is bound in it where
/// a row spells the chord and names an action that the resolver knows; the last such row
/// decides to what; and the chords declared unbound are those that a row says `false` of.
pub proof fn law_loaded_layer_says_what_its_rows_say<A, F: Fn(&str) -> Option<A>>(
    text: Seq<char>,
    resolve: F,
    action_of: spec_fn(Seq<char>) -> Option<A>,
    out: BuildOutput<A>,
    name: Seq<char>,
    rows: Seq<(Seq<char>, Raw)>,
    c: KeyInput,
)
    requires
        is_load(text, resolve, Ok(out)),
        resolves_by(resolve, action_of),
        layers_differ(config_in(text)),
        has_layer(config_in(text), name, rows),
    ensures
        out.layers@.contains_key(name),
        out.layers@[name]@.contains_key(c) <==> exists|i: int| #[trigger]
            row_binds(rows, action_of, i, c),
        forall|i: int| #[trigger]
            row_decides(rows, action_of, i, c) ==> Some(out.layers@[name]@[c]) == action_of(
                rows[i].1->Action_0,
            ),
        (out.unbinds@.contains_key(name) && out.unbinds@[name]@.contains(c)) <==> exists|i: int|
         #[trigger]
            row_unbinds(rows, i, c),
{
    let config = config_in(text);
    let t = choose|t: Trace<A>| #[trigger]
        traces(config, resolve, t) && is_built(config, t, out);
    let lines = lemma_lines_of_layer(config, resolve, t, out, name, rows);
    lemma_bound_by_rows(resolve, action_of, rows, lines, c);
    lemma_declared_by_rows(resolve, action_of, rows, lines, c);
}

/// What is loaded of a layer is what its lines come to.
proof fn lemma_lines_of_layer<A, F: Fn(&str) -> Option<A>>(
    config: Config,
    resolve: F,
    t: Trace<A>,
    out: BuildOutput<A>,
    name: Seq<char>,
    rows: Seq<(Seq<char>, Raw)>,
) -> (lines: Seq<Line<A>>)
    requires
        traces(config, resolve, t),
        is_built(config, t, out),
        layers_differ(config),
        has_layer(config, name, rows),
    ensures
        are_lines(resolve, rows, lines),
        t.layers.contains(lines),
        name == GLOBAL_LAYER@ ==> lines == t.layers[0],
        out.layers@.contains_key(name),
        out.layers@[name]@ == layer_map(lines),
        out.unbinds@.contains_key(name) <==> tombstones(lines).len() > 0,
        out.unbinds@.contains_key(name) ==> out.unbinds@[name]@ == tombstones(lines),
{
    let all = all_layers(config);
    let j = lemma_layer_is_built(config, name, rows);
    lemma_all_layers(config);
    lemma_layer_maps(all, t.layers, j);
    let lines = t.layers[j];
    assert(are_lines(resolve, all[j].1, lines));
    let maps = layer_maps(all, t.layers);
    let lists = unbind_lists(all, t.layers);
    assert(out.layers@.dom().contains(name) == maps.dom().contains(name));
    assert(out.unbinds@.dom().contains(name) == lists.dom().contains(name));
    lines
}

/// The lines of a layer bind what its rows do.
proof fn lemma_bound_by_rows<A, F: Fn(&str) -> Option<A>>(
    resolve: F,
    action_of: spec_fn(Seq<char>) -> Option<A>,
    rows: Seq<(Seq<char>, Raw)>,
    lines: Seq<Line<A>>,
    c: KeyInput,
)
    requires
        resolves_by(resolve, action_of),
        are_lines(resolve, rows, lines),
    ensures
        layer_map(lines).contains_key(c) <==> exists|i: int| #[trigger]
            row_binds(rows, action_of, i, c),
        forall|i: int| #[trigger]
            row_decides(rows, action_of, i, c) ==> Some(layer_map(lines)[c]) == action_of(
                rows[i].1->Action_0,
            ),
{
    lemma_lines_of_rows(resolve, action_of, rows, lines);
    law_last_known_line_wins(lines, c);
    if layer_map(lines).contains_key(c) {
        let i = choose|i: int|
            0 <= i < lines.len() && (#[trigger] lines[i]).chord == c && lines[i].name is Some
                && lines[i].action is Some;
        assert(row_binds(rows, action_of, i, c));
    }
    assert forall|i: int| #[trigger] row_binds(rows, action_of, i, c) implies layer_map(
        lines,
    ).contains_key(c) by {
        assert(lines[i].chord == c);
    }
    assert forall|i: int| #[trigger] row_decides(rows, action_of, i, c) implies Some(
        layer_map(lines)[c],
    ) == action_of(rows[i].1->Action_0) by {
        assert(row_binds(rows, action_of, i, c));
        assert forall|k: int|
            i < k < lines.len() && (#[trigger] lines[k]).chord == c && lines[k].name is Some implies lines[k].action is None by {
            assert(!row_binds(rows, action_of, k, c));
        }
        assert(is_last_known(lines, i, c));
    }
}

/// The lines of a layer declare unbound what its rows do.
proof fn lemma_declared_by_rows<A, F: Fn(&str) -> Option<A>>(
    resolve: F,
    action_of: spec_fn(Seq<char>) -> Option<A>,
    rows: Seq<(Seq<char>, Raw)>,
    lines: Seq<Line<A>>,
    c: KeyInput,
)
    requires
        resolves_by(resolve, action_of),
        are_lines(resolve, rows, lines),
    ensures
        tombstones(lines).contains(c) <==> exists|i: int| #[trigger] row_unbinds(rows, i, c),
{
    lemma_lines_of_rows(resolve, action_of, rows, lines);
    law_declared_chords_are_listed_once(lines, c);
    if tombstones(lines).contains(c) {
        let i = choose|i: int|
            0 <= i < lines.len() && (#[trigger] lines[i]).chord == c && lines[i].name is None;
        assert(row_unbinds(rows, i, c));
    }
    assert forall|i: int| #[trigger] row_unbinds(rows, i, c) implies tombstones(lines).contains(c) by {
        assert(lines[i].chord == c);
    }
}

/// Loading makes no layer and no declaration up: the layers are the global one and those
/// that the configuration has tables for; and only a layer with declarations is listed among
/// the declarations.
pub proof fn law_loaded_layers_are_those_of_the_file<A, F: Fn(&str) -> Option<A>>(
    text: Seq<char>,
    resolve: F,
    out: BuildOutput<A>,
    name: Seq<char>,
)
    requires
        is_load(text, resolve, Ok(out)),
        layers_differ(config_in(text)),
    ensures
        out.layers@.contains_key(name) <==> name == GLOBAL_LAYER@ || exists|i: int|
            0 <= i < config_in(text).layers.len() && (#[trigger] config_in(text).layers[i]).0
                == name,
        out.unbinds@.contains_key(name) ==> out.layers@.contains_key(name)
            && out.unbinds@[name]@.len() > 0,
{
    let config = config_in(text);
    let t = choose|t: Trace<A>| #[trigger]
        traces(config, resolve, t) && is_built(config, t, out);
    let all = all_layers(config);
    lemma_all_layers(config);
    lemma_layer_names(all, t.layers, name);
    let maps = layer_maps(all, t.layers);
    let lists = unbind_lists(all, t.layers);
    assert(out.layers@.dom().contains(name) == maps.dom().contains(name));
    assert(out.unbinds@.dom().contains(name) == lists.dom().contains(name));
    if has_key(all, name) {
        let j = choose|j: int| 0 <= j < all.len() && (#[trigger] all[j]).0 == name;
        lemma_layer_maps(all, t.layers, j);
        assert(has_layer(config, all[j].0, all[j].1));
    }
    if exists|i: int| 0 <= i < config.layers.len() && (#[trigger] config.layers[i]).0 == name {
        let i = choose|i: int| 0 <= i < config.layers.len() && (#[trigger] config.layers[i]).0 == name;
        if name != GLOBAL_LAYER@ {
            assert(config.layers[i] == (name, config.layers[i].1));
            let j = lemma_layer_is_built(config, name, config.layers[i].1);
            lemma_layer_maps(all, t.layers, j);
        }
    }
    lemma_layer_maps(all, t.layers, 0);
}

/// The rows of a layer hold nothing fatal.
pub open spec fn rows_are_good(rows: Seq<(Seq<char>, Raw)>) -> bool {
    forall|i: int|
        0 <= i < rows.len() ==> parsed_chord((#[trigger] rows[i]).0) is Some && rows[i].1
            != Raw::Bool(true)
}

/// Rows are fatal exactly where one of them is bad.
proof fn lemma_rows_error(rows: Seq<(Seq<char>, Raw)>)
    ensures
        rows_error(rows) is None <==> rows_are_good(rows),
    decreases rows.len(),
{
    if rows_are_good(rows) {
        law_good_rows_are_not_fatal(rows);
    } else {
        let init = rows.drop_last();
        lemma_rows_error(init);
        let n = rows.len() - 1;
        if rows_are_good(init) {
            let i = choose|i: int|
                0 <= i < rows.len() && !(parsed_chord((#[trigger] rows[i]).0) is Some && rows[i].1
                    != Raw::Bool(true));
            if i < n {
                assert(init[i] == rows[i]);
            }
            assert forall|j: int| 0 <= j < n implies parsed_chord((#[trigger] rows[j]).0) is Some
                && rows[j].1 != Raw::Bool(true) by {
                assert(init[j] == rows[j]);
            }
            law_first_bad_row_is_fatal(rows, n);
        }
    }
}

/// Layers are fatal exactly where one of them is.
proof fn lemma_layers_error(layers: Seq<(Seq<char>, Seq<(Seq<char>, Raw)>)>)
    ensures
        layers_error(layers) is None <==> forall|i: int|
            0 <= i < layers.len() ==> rows_error((#[trigger] layers[i]).1) is None,
    decreases layers.len(),
{
    if layers.len() > 0 {
        let init = layers.drop_last();
        let n = layers.len() - 1;
        lemma_layers_error(init);
        assert(layers[n] == layers.last());
        if layers_error(layers) is None {
            assert forall|i: int| 0 <= i < layers.len() implies rows_error((#[trigger] layers[i]).1) is None by {
                if i < n {
                    assert(init[i] == layers[i]);
                }
            }
        }
        if forall|i: int| 0 <= i < layers.len() ==> rows_error((#[trigger] layers[i]).1) is None {
            lemma_no_layer_error(layers);
        }
    }
}

/// Sequences are fatal exactly where a key of one spells no chord.
proof fn lemma_sequences_error(raws: Seq<(Seq<Seq<char>>, Seq<char>)>)
    ensures
        sequences_error(raws) is None <==> forall|h: int, j: int|
            0 <= h < raws.len() && 0 <= j < raws[h].0.len() ==> parsed_chord(
                #[trigger] raws[h].0[j],
            ) is Some,
    decreases raws.len(),
{
    if forall|h: int, j: int|
        0 <= h < raws.len() && 0 <= j < raws[h].0.len() ==> parsed_chord(#[trigger] raws[h].0[j]) is Some {
        law_good_sequences_are_not_fatal(raws);
    } else if raws.len() > 0 {
        let init = raws.drop_last();
        let n = raws.len() - 1;
        lemma_sequences_error(init);
        assert(raws[n] == raws.last());
        let (h, j) = choose|h: int, j: int|
            0 <= h < raws.len() && 0 <= j < raws[h].0.len() && parsed_chord(
                #[trigger] raws[h].0[j],
            ) is None;
        if h < n {
            assert(init[h].0[j] == raws[h].0[j]);
        } else {
            lemma_bad_keys(raws[n].0, j);
        }
    }
}

/// A key that spells no chord is fatal to its entry.
proof fn lemma_bad_keys(spellings: Seq<Seq<char>>, j: int)
    requires
        0 <= j < spellings.len(),
        parsed_chord(spellings[j]) is None,
    ensures
        keys_error(spellings) is Some,
    decreases spellings.len(),
{
    if j < spellings.len() - 1 {
        lemma_bad_keys(spellings.drop_last(), j);
    }
}

/// Loading succeeds exactly where there is nothing fatal in the text: it is TOML of the
/// shape of a configuration, every key in it spells a chord, and no chord is declared
/// `true`. An unknown action, a conflict or a clash is never fatal.
pub proof fn law_load_fails_only_on_fatal_problems<A, F: Fn(&str) -> Option<A>>(
    text: Seq<char>,
    resolve: F,
    r: Result<BuildOutput<A>, BuildError>,
)
    requires
        is_load(text, resolve, r),
        layers_differ(config_in(text)),
    ensures
        r is Ok <==> ({
            let config = config_in(text);
            &&& parsed_document(text) is Some
            &&& bad_field(parsed_document(text)->0) is None
            &&& rows_are_good(config.keys)
            &&& forall|i: int|
                0 <= i < config.layers.len() ==> rows_are_good((#[trigger] config.layers[i]).1)
            &&& forall|h: int, j: int|
                0 <= h < config.sequences.len() && 0 <= j < config.sequences[h].0.len()
                    ==> parsed_chord(#[trigger] config.sequences[h].0[j]) is Some
        }),
{
    let config = config_in(text);
    let all = all_layers(config);
    lemma_all_layers(config);
    lemma_layers_error(all);
    lemma_sequences_error(config.sequences);
    assert forall|j: int| 0 <= j < all.len() implies (rows_error((#[trigger] all[j]).1) is None
        <==> rows_are_good(all[j].1)) by {
        lemma_rows_error(all[j].1);
    }
    if rows_are_good(config.keys) && forall|i: int|
        0 <= i < config.layers.len() ==> rows_are_good((#[trigger] config.layers[i]).1) {
        assert forall|j: int| 0 <= j < all.len() implies rows_error((#[trigger] all[j]).1) is None by {
            let name = all[j].0;
            let rows = all[j].1;
            assert(has_layer(config, name, rows));
            if name == GLOBAL_LAYER@ {
                if rows != config.keys {
                    let i = choose|i: int|
                        0 <= i < config.layers.len() && (#[trigger] config.layers[i]).0 == name
                            && rows == config.keys + config.layers[i].1;
                    assert(rows_are_good(config.layers[i].1));
                    assert forall|k: int| 0 <= k < rows.len() implies parsed_chord(
                        (#[trigger] rows[k]).0,
                    ) is Some && rows[k].1 != Raw::Bool(true) by {
                        if k < config.keys.len() {
                            assert(rows[k] == config.keys[k]);
                        } else {
                            assert(rows[k] == config.layers[i].1[k - config.keys.len()]);
                        }
                    }
                }
            } else {
                let i = choose|i: int|
                    0 <= i < config.layers.len() && #[trigger] config.layers[i] == (name, rows);
                assert(rows_are_good(config.layers[i].1));
            }
        }
    }
    if layers_error(all) is None {
        assert(rows_are_good(all[0].1));
        assert forall|k: int| 0 <= k < config.keys.len() implies parsed_chord(
            (#[trigger] config.keys[k]).0,
        ) is Some && config.keys[k].1 != Raw::Bool(true) by {
            assert(all[0].1[k] == config.keys[k]);
        }
        assert forall|i: int| 0 <= i < config.layers.len() implies rows_are_good(
            (#[trigger] config.layers[i]).1,
        ) by {
            let (name, rows) = config.layers[i];
            if name == GLOBAL_LAYER@ {
                let whole = config.keys + rows;
                let j = lemma_layer_is_built(config, name, whole);
                assert(rows_are_good(all[j].1));
                assert forall|k: int| 0 <= k < rows.len() implies parsed_chord(
                    (#[trigger] rows[k]).0,
                ) is Some && rows[k].1 != Raw::Bool(true) by {
                    assert(whole[config.keys.len() + k] == rows[k]);
                }
            } else {
                let j = lemma_layer_is_built(config, name, rows);
                assert(rows_are_good(all[j].1));
            }
        }
    }
}

/// The entry spells the keys.
pub open spec fn entry_spells(raw: (Seq<Seq<char>>, Seq<char>), s: Seq<KeyInput>) -> bool {
    &&& s.len() == raw.0.len()
    &&& forall|k: int| 0 <= k < s.len() ==> parsed_chord(raw.0[k]) == Some(#[trigger] s[k])
}

/// The entry spells the keys, which are some, and names an action that the resolver knows.
pub open spec fn entry_binds<A>(
    raws: Seq<(Seq<Seq<char>>, Seq<char>)>,
    action_of: spec_fn(Seq<char>) -> Option<A>,
    i: int,
    s: Seq<KeyInput>,
) -> bool {
    &&& 0 <= i < raws.len()
    &&& s.len() > 0
    &&& entry_spells(raws[i], s)
    &&& action_of(raws[i].1) is Some
}

/// The lines of the sequences are what the entries say.
proof fn lemma_lines_of_entries<A, F: Fn(&str) -> Option<A>>(
    config: Config,
    resolve: F,
    action_of: spec_fn(Seq<char>) -> Option<A>,
    t: Trace<A>,
)
    requires
        traces(config, resolve, t),
        resolves_by(resolve, action_of),
    ensures
        t.sequences.len() == config.sequences.len(),
        forall|i: int|
            0 <= i < config.sequences.len() ==> entry_spells(
                config.sequences[i],
                (#[trigger] t.sequences[i]).keys,
            ) && t.sequences[i].name == config.sequences[i].1 && t.sequences[i].action == action_of(
                config.sequences[i].1,
            ),
{
    lemma_answers(resolve, action_of);
    assert forall|i: int| 0 <= i < config.sequences.len() implies entry_spells(
        config.sequences[i],
        (#[trigger] t.sequences[i]).keys,
    ) && t.sequences[i].name == config.sequences[i].1 && t.sequences[i].action == action_of(
        config.sequences[i].1,
    ) by {
        assert(is_seq_line(resolve, config.sequences[i], t.sequences[i]));
        assert(spell(config.sequences[i].0, t.sequences[i].keys));
    }
}

/// What an entry spells is determined.
proof fn lemma_one_spelling(
    raw: (Seq<Seq<char>>, Seq<char>),
    a: Seq<KeyInput>,
    b: Seq<KeyInput>,
)
    requires
        entry_spells(raw, a),
        entry_spells(raw, b),
    ensures
        a == b,
{
    assert forall|k: int| 0 <= k < a.len() implies a[k] == b[k] by {
        assert(parsed_chord(raw.0[k]) == Some(a[k]));
        assert(parsed_chord(raw.0[k]) == Some(b[k]));
    }
    assert(a =~= b);
}

/// The loaded sequences are those of the file: what is bound is spelled by an entry with a
/// known action, and bound to what the last such entry names; an entry with keys and a known
/// action is bound, unless an earlier one that is bound cannot coexist with it; and no two
/// bound sequences are such that one begins with the other.
pub proof fn law_loaded_sequences_say_what_the_file_says<A, F: Fn(&str) -> Option<A>>(
    text: Seq<char>,
    resolve: F,
    action_of: spec_fn(Seq<char>) -> Option<A>,
    out: BuildOutput<A>,
    s: Seq<KeyInput>,
)
    requires
        is_load(text, resolve, Ok(out)),
        resolves_by(resolve, action_of),
    ensures
        out.sequences@.contains_key(s) ==> exists|i: int|
            {
                &&& #[trigger] entry_binds(config_in(text).sequences, action_of, i, s)
                &&& Some(out.sequences@[s]) == action_of(config_in(text).sequences[i].1)
                &&& forall|j: int|
                    i < j ==> !#[trigger] entry_binds(config_in(text).sequences, action_of, j, s)
            },
        forall|j: int| #[trigger]
            entry_binds(config_in(text).sequences, action_of, j, s)
                && !out.sequences@.contains_key(s) ==> exists|i: int, x: Seq<KeyInput>|
                i < j && #[trigger] entry_binds(config_in(text).sequences, action_of, i, x)
                    && cannot_coexist(x, s) && out.sequences@.contains_key(x),
        forall|x: Seq<KeyInput>| #[trigger]
            out.sequences@.contains_key(x) && out.sequences@.contains_key(s) ==> !cannot_coexist(
                x,
                s,
            ),
{
    let config = config_in(text);
    let raws = config.sequences;
    let t = choose|t: Trace<A>| #[trigger]
        traces(config, resolve, t) && is_built(config, t, out);
    let lines = t.sequences;
    lemma_lines_of_entries(config, resolve, action_of, t);
    if out.sequences@.contains_key(s) {
        law_last_line_of_a_sequence_wins(lines, s);
        law_built_sequences_can_coexist(lines, s, s);
        let i = choose|i: int|
            {
                &&& 0 <= i < lines.len()
                &&& (#[trigger] lines[i]).keys == s
                &&& lines[i].action == Some(seq_state(lines).map[s])
                &&& lines[i].name == seq_state(lines).names[s]
                &&& forall|j: int|
                    i < j < lines.len() && (#[trigger] lines[j]).keys == s ==> lines[j].action is None
            };
        assert(entry_binds(raws, action_of, i, s));
        assert forall|j: int| i < j implies !#[trigger] entry_binds(raws, action_of, j, s) by {
            if entry_binds(raws, action_of, j, s) {
                lemma_one_spelling(raws[j], lines[j].keys, s);
                assert(lines[j].keys == s);
            }
        }
    }
    assert forall|j: int| #[trigger]
        entry_binds(raws, action_of, j, s) && !out.sequences@.contains_key(s) implies exists|
        i: int,
        x: Seq<KeyInput>,
    |
        i < j && #[trigger] entry_binds(raws, action_of, i, x) && cannot_coexist(x, s)
            && out.sequences@.contains_key(x) by {
        lemma_one_spelling(raws[j], lines[j].keys, s);
        law_earlier_sequence_wins(lines, j);
        let i = choose|i: int|
            0 <= i < j && #[trigger] cannot_coexist(lines[i].keys, lines[j].keys)
                && lines[i].action is Some && seq_state(lines).map.contains_key(lines[i].keys);
        law_built_sequences_can_coexist(lines, lines[i].keys, lines[i].keys);
        assert(entry_binds(raws, action_of, i, lines[i].keys));
    }
    assert forall|x: Seq<KeyInput>| #[trigger]
        out.sequences@.contains_key(x) && out.sequences@.contains_key(s) implies !cannot_coexist(x, s) by {
        law_built_sequences_can_coexist(lines, x, s);
    }
}

/// The warnings on the layers are those on each of them.
proof fn lemma_all_layer_warnings<A>(lines: Seq<Seq<Line<A>>>, w: WarningView)
    ensures
        all_layer_warnings(lines).contains(w) <==> exists|k: int|
            0 <= k < lines.len() && layer_warnings(#[trigger] lines[k]).contains(w),
    decreases lines.len(),
{
    if lines.len() > 0 {
        let init = lines.drop_last();
        let n = lines.len() - 1;
        lemma_all_layer_warnings(init, w);
        assert(lines[n] == lines.last());
        let a = all_layer_warnings(init);
        let b = layer_warnings(lines.last());
        if a.contains(w) {
            let i = choose|i: int| 0 <= i < a.len() && a[i] == w;
            assert((a + b)[i] == w);
            let k = choose|k: int|
                0 <= k < init.len() && layer_warnings(#[trigger] init[k]).contains(w);
            assert(lines[k] == init[k]);
        }
        if b.contains(w) {
            let i = choose|i: int| 0 <= i < b.len() && b[i] == w;
            assert((a + b)[a.len() + i] == w);
        }
        if (a + b).contains(w) {
            let i = choose|i: int| 0 <= i < (a + b).len() && (a + b)[i] == w;
            if i < a.len() {
                assert(a[i] == w);
                let k = choose|k: int|
                    0 <= k < init.len() && layer_warnings(#[trigger] init[k]).contains(w);
                assert(lines[k] == init[k]);
            } else {
                assert(b[i - a.len()] == w);
            }
        }
        if exists|k: int| 0 <= k < lines.len() && layer_warnings(#[trigger] lines[k]).contains(w) {
            let k = choose|k: int|
                0 <= k < lines.len() && layer_warnings(#[trigger] lines[k]).contains(w);
            if k < n {
                assert(init[k] == lines[k]);
            }
        }
    }
}

/// The warnings of a load are those on the layers, on the sequences and on the chords that
/// sequences begin with.
proof fn lemma_warnings_of_load<A>(config: Config, t: Trace<A>, out: BuildOutput<A>, w: WarningView)
    requires
        is_built(config, t, out),
    ensures
        warning_views(out.warnings@).contains(w) <==> {
            ||| exists|k: int|
                0 <= k < t.layers.len() && layer_warnings(#[trigger] t.layers[k]).contains(w)
            ||| t.told.contains(Some(w))
            ||| t.cross.contains(w)
        },
{
    lemma_all_layer_warnings(t.layers, w);
    law_told_is_every_warning(t.told, w);
    let a = all_layer_warnings(t.layers);
    let b = told(t.told);
    let c = t.cross;
    let all = a + b + c;
    if a.contains(w) {
        let i = choose|i: int| 0 <= i < a.len() && a[i] == w;
        assert(all[i] == w);
    }
    if b.contains(w) {
        let i = choose|i: int| 0 <= i < b.len() && b[i] == w;
        assert(all[a.len() + i] == w);
    }
    if c.contains(w) {
        let i = choose|i: int| 0 <= i < c.len() && c[i] == w;
        assert(all[a.len() + b.len() + i] == w);
    }
    if all.contains(w) {
        let i = choose|i: int| 0 <= i < all.len() && all[i] == w;
        if i < a.len() {
            assert(a[i] == w);
        } else if i < a.len() + b.len() {
            assert(b[i - a.len()] == w);
        } else {
            assert(c[i - a.len() - b.len()] == w);
        }
    }
}

/// An unknown action of a layer is warned of, by the key as it is written and the name.
pub proof fn law_unknown_action_is_warned_of<A, F: Fn(&str) -> Option<A>>(
    text: Seq<char>,
    resolve: F,
    action_of: spec_fn(Seq<char>) -> Option<A>,
    out: BuildOutput<A>,
    name: Seq<char>,
    rows: Seq<(Seq<char>, Raw)>,
    i: int,
)
    requires
        is_load(text, resolve, Ok(out)),
        resolves_by(resolve, action_of),
        layers_differ(config_in(text)),
        has_layer(config_in(text), name, rows),
        0 <= i < rows.len(),
        rows[i].1 matches Raw::Action(action) && action_of(action) is None,
    ensures
        warning_views(out.warnings@).contains(
            WarningView::UnknownAction { key: rows[i].0, action: rows[i].1->Action_0 },
        ),
{
    let config = config_in(text);
    let t = choose|t: Trace<A>| #[trigger]
        traces(config, resolve, t) && is_built(config, t, out);
    let lines = lemma_lines_of_layer(config, resolve, t, out, name, rows);
    let w = WarningView::UnknownAction { key: rows[i].0, action: rows[i].1->Action_0 };
    lemma_lines_of_rows(resolve, action_of, rows, lines);
    law_layer_problems_are_reported(lines, w);
    assert(lines[i].name is Some);
    let k = choose|k: int| 0 <= k < t.layers.len() && t.layers[k] == lines;
    assert(layer_warnings(t.layers[k]).contains(w));
    lemma_warnings_of_load(config, t, out, w);
}

/// Two rows of one layer that bind the same chord are warned of as a conflict, which names
/// the chord and, as the winner, the action of the row that decides.
pub proof fn law_conflict_is_warned_of<A, F: Fn(&str) -> Option<A>>(
    text: Seq<char>,
    resolve: F,
    action_of: spec_fn(Seq<char>) -> Option<A>,
    out: BuildOutput<A>,
    name: Seq<char>,
    rows: Seq<(Seq<char>, Raw)>,
    i: int,
    j: int,
    c: KeyInput,
)
    requires
        is_load(text, resolve, Ok(out)),
        resolves_by(resolve, action_of),
        layers_differ(config_in(text)),
        has_layer(config_in(text), name, rows),
        i < j,
        row_binds(rows, action_of, i, c),
        row_decides(rows, action_of, j, c),
    ensures
        exists|w: WarningView| #[trigger]
            warning_views(out.warnings@).contains(w) && (w matches WarningView::Conflict {
                chord,
                contenders,
                winner,
            } && chord == chord_text(c) && contenders.len() > 1 && winner == rows[j].1->Action_0),
{
    let config = config_in(text);
    let t = choose|t: Trace<A>| #[trigger]
        traces(config, resolve, t) && is_built(config, t, out);
    let lines = lemma_lines_of_layer(config, resolve, t, out, name, rows);
    lemma_lines_of_rows(resolve, action_of, rows, lines);
    assert(row_binds(rows, action_of, j, c));
    assert forall|k: int|
        j < k < lines.len() && (#[trigger] lines[k]).chord == c && lines[k].name is Some implies lines[k].action is None by {
        assert(!row_binds(rows, action_of, k, c));
    }
    assert(is_last_known(lines, j, c));
    law_last_known_line_wins(lines, c);
    lemma_rivals(lines, c, i, j);
    let w = WarningView::Conflict {
        chord: chord_text(c),
        contenders: rivals(lines, c),
        winner: rivals(lines, c).last(),
    };
    assert(rivals(lines, c).len() > 1);
    law_layer_problems_are_reported(lines, w);
    let k = choose|k: int| 0 <= k < t.layers.len() && t.layers[k] == lines;
    assert(layer_warnings(t.layers[k]).contains(w));
    lemma_warnings_of_load(config, t, out, w);
}

/// A chord that the global layer binds and a bound sequence begins with is warned of.
pub proof fn law_ambiguous_chord_is_warned_of<A, F: Fn(&str) -> Option<A>>(
    text: Seq<char>,
    resolve: F,
    out: BuildOutput<A>,
    c: KeyInput,
    s: Seq<KeyInput>,
)
    requires
        is_load(text, resolve, Ok(out)),
        layers_differ(config_in(text)),
        out.layers@[GLOBAL_LAYER@]@.contains_key(c),
        out.sequences@.contains_key(s),
        s[0] == c,
    ensures
        exists|w: WarningView| #[trigger]
            warning_views(out.warnings@).contains(w) && (w matches WarningView::SequenceShadow {
                chord,
                ..
            } && chord == chord_text(c)),
{
    let config = config_in(text);
    let t = choose|t: Trace<A>| #[trigger]
        traces(config, resolve, t) && is_built(config, t, out);
    let all = all_layers(config);
    lemma_all_layers(config);
    lemma_layer_maps(all, t.layers, 0);
    let maps = layer_maps(all, t.layers);
    assert(out.layers@.dom().contains(GLOBAL_LAYER@) == maps.dom().contains(GLOBAL_LAYER@));
    assert(layer_map(t.layers[0]).contains_key(c));
    law_last_known_line_wins(t.layers[0], c);
    let names = seq_state(t.sequences).names;
    law_built_sequences_can_coexist(t.sequences, s, s);
    crate::seqbuild::lemma_state_doms(t.sequences);
    assert(seq_state(t.sequences).map.dom().contains(s));
    assert(names.contains_key(s) && s.len() > 0 && s[0] == c);
    law_ambiguous_chords_are_warned_of(layer_names(t.layers[0]), names, t.chords, t.cross, c);
    let i = choose|i: int|
        0 <= i < t.cross.len() && (#[trigger] t.cross[i] matches WarningView::SequenceShadow {
            chord,
            ..
        } && chord == chord_text(c));
    let w = t.cross[i];
    assert(t.cross.contains(w));
    lemma_warnings_of_load(config, t, out, w);
}

/// Where there are no warnings, all that the file says holds: every row with an action name
/// is bound in its layer to the action of that name, and every entry to its own.
pub proof fn law_no_warnings_means_all_is_bound<A, F: Fn(&str) -> Option<A>>(
    text: Seq<char>,
    resolve: F,
    action_of: spec_fn(Seq<char>) -> Option<A>,
    out: BuildOutput<A>,
)
    requires
        is_load(text, resolve, Ok(out)),
        resolves_by(resolve, action_of),
        layers_differ(config_in(text)),
        out.warnings@.len() == 0,
    ensures
        forall|name: Seq<char>, rows: Seq<(Seq<char>, Raw)>, i: int|
            #![trigger has_layer(config_in(text), name, rows), rows[i]]
            has_layer(config_in(text), name, rows) && 0 <= i < rows.len() && rows[i].1 is Action
                ==> (parsed_chord(rows[i].0) matches Some(c) && out.layers@.contains_key(name)
                && out.layers@[name]@.contains_key(c) && Some(out.layers@[name]@[c]) == action_of(
                rows[i].1->Action_0,
            )),
        forall|i: int|
            0 <= i < config_in(text).sequences.len() ==> exists|s: Seq<KeyInput>|
                {
                    &&& entry_spells(#[trigger] config_in(text).sequences[i], s)
                    &&& #[trigger] out.sequences@.contains_key(s)
                    &&& Some(out.sequences@[s]) == action_of(config_in(text).sequences[i].1)
                },
{
    let config = config_in(text);
    let t = choose|t: Trace<A>| #[trigger]
        traces(config, resolve, t) && is_built(config, t, out);
    let none = warning_views(out.warnings@);
    assert(none.len() == 0);
    assert forall|name: Seq<char>, rows: Seq<(Seq<char>, Raw)>, i: int|
        #![trigger has_layer(config_in(text), name, rows), rows[i]]
        has_layer(config_in(text), name, rows) && 0 <= i < rows.len() && rows[i].1 is Action implies (
    parsed_chord(rows[i].0) matches Some(c) && out.layers@.contains_key(name)
        && out.layers@[name]@.contains_key(c) && Some(out.layers@[name]@[c]) == action_of(
        rows[i].1->Action_0,
    )) by {
        let lines = lemma_lines_of_layer(config, resolve, t, out, name, rows);
        lemma_lines_of_rows(resolve, action_of, rows, lines);
        if action_of(rows[i].1->Action_0) is None {
            law_unknown_action_is_warned_of(text, resolve, action_of, out, name, rows, i);
        }
        let c = lines[i].chord;
        assert(row_binds(rows, action_of, i, c));
        let d = lemma_some_row_decides(rows, action_of, i, c);
        if i < d {
            law_conflict_is_warned_of(text, resolve, action_of, out, name, rows, i, d, c);
        }
        law_loaded_layer_says_what_its_rows_say(text, resolve, action_of, out, name, rows, c);
    }
    let lines = t.sequences;
    lemma_lines_of_entries(config, resolve, action_of, t);
    assert forall|i: int| 0 <= i < lines.len() implies #[trigger] t.told[i] is None by {
        if t.told[i] is Some {
            let w = t.told[i]->0;
            assert(t.told.contains(Some(w)));
            lemma_warnings_of_load(config, t, out, w);
        }
    }
    assert forall|i: int| 0 <= i < config.sequences.len() implies exists|s: Seq<KeyInput>|
        {
            &&& entry_spells(#[trigger] config.sequences[i], s)
            &&& #[trigger] out.sequences@.contains_key(s)
            &&& Some(out.sequences@[s]) == action_of(config.sequences[i].1)
        } by {
        let s = lines[i].keys;
        assert(t.told[i] is None);
        law_sequence_problems_are_told(lines, t.told, i);
        law_earlier_sequence_wins(lines, i);
        assert(lines.take(i + 1).drop_last() =~= lines.take(i));
        assert(lines.take(i + 1).last() == lines[i]);
        lemma_quiet_line_is_bound(lines, t.told, i);
        law_last_line_of_a_sequence_wins(lines, s);
        let k = choose|k: int|
            {
                &&& 0 <= k < lines.len()
                &&& (#[trigger] lines[k]).keys == s
                &&& lines[k].action == Some(seq_state(lines).map[s])
                &&& lines[k].name == seq_state(lines).names[s]
                &&& forall|j: int|
                    k < j < lines.len() && (#[trigger] lines[j]).keys == s ==> lines[j].action is None
            };
        if k < i {
            assert(lines[i].action is None);
        } else if i < k {
            assert(t.told[k] is None);
            law_sequence_problems_are_told(lines, t.told, k);
            assert(lines.take(k).take(i + 1) =~= lines.take(i + 1));
            lemma_quiet_line_is_bound(lines, t.told, i);
            law_bound_sequence_stays(lines.take(k), i + 1, s);
        }
        assert(out.sequences@.contains_key(s));
    }
}

/// A line that nothing is told of is bound when it is read.
proof fn lemma_quiet_line_is_bound<A>(
    lines: Seq<SeqLine<A>>,
    warnings: Seq<Option<WarningView>>,
    i: int,
)
    requires
        crate::seqbuild::are_seq_warnings(lines, warnings),
        0 <= i < lines.len(),
        warnings[i] is None,
    ensures
        lines[i].action is Some,
        seq_state(lines.take(i + 1)).map.contains_key(lines[i].keys),
        seq_state(lines).map.contains_key(lines[i].keys),
{
    assert(lines.take(i + 1).drop_last() =~= lines.take(i));
    assert(lines.take(i + 1).last() == lines[i]);
    assert(crate::seqbuild::is_seq_warning(seq_state(lines.take(i)), lines[i], warnings[i]));
    law_bound_sequence_stays(lines, i + 1, lines[i].keys);
}

/// Where a row binds a chord, one at or behind it decides.
proof fn lemma_some_row_decides<A>(
    rows: Seq<(Seq<char>, Raw)>,
    action_of: spec_fn(Seq<char>) -> Option<A>,
    i: int,
    c: KeyInput,
) -> (d: int)
    requires
        row_binds(rows, action_of, i, c),
    ensures
        i <= d,
        row_decides(rows, action_of, d, c),
    decreases rows.len() - i,
{
    if exists|j: int| i < j && #[trigger] row_binds(rows, action_of, j, c) {
        let j = choose|j: int| i < j && #[trigger] row_binds(rows, action_of, j, c);
        lemma_some_row_decides(rows, action_of, j, c)
    } else {
        i
    }
}

/// A refused load says why: the text is not a TOML configuration, or a key that stands in it
/// spells no chord, or a chord in it is declared `true`; in the last two the key is the one
/// that is written there. A problem of the global layer comes first, and one of any layer
/// before one of the sequences.
pub proof fn law_refused_load_says_why<A, F: Fn(&str) -> Option<A>>(
    text: Seq<char>,
    resolve: F,
    e: BuildError,
)
    requires
        is_load(text, resolve, Result::<BuildOutput<A>, BuildError>::Err(e)),
        layers_differ(config_in(text)),
    ensures
        e@ is Toml <==> parsed_document(text) is None || bad_field(parsed_document(text)->0) is Some,
        e@ matches ErrorView::InvalidTombstone { key } ==> exists|
            name: Seq<char>,
            rows: Seq<(Seq<char>, Raw)>,
            i: int,
        |
            #![trigger has_layer(config_in(text), name, rows), rows[i]]
            has_layer(config_in(text), name, rows) && 0 <= i < rows.len() && rows[i] == (
                key,
                Raw::Bool(true),
            ) && parsed_chord(key) is Some,
        e@ matches ErrorView::KeyParse { key, source } ==> parsed_chord(key) is None && source.0
            == key && ((exists|name: Seq<char>, rows: Seq<(Seq<char>, Raw)>, i: int|
            #![trigger has_layer(config_in(text), name, rows), rows[i]]
            has_layer(config_in(text), name, rows) && 0 <= i < rows.len() && rows[i].0 == key) || (
        exists|h: int, j: int|
            0 <= h < config_in(text).sequences.len() && 0 <= j < config_in(text).sequences[h].0.len()
                && #[trigger] config_in(text).sequences[h].0[j] == key)),
        forall|rows: Seq<(Seq<char>, Raw)>| #[trigger]
            has_layer(config_in(text), GLOBAL_LAYER@, rows) && !rows_are_good(rows)
                && !(e@ is Toml) ==> rows_error(rows) == Some(e@),
        forall|name: Seq<char>, rows: Seq<(Seq<char>, Raw)>| #[trigger]
            has_layer(config_in(text), name, rows) && !rows_are_good(rows) && !(e@ is Toml)
                ==> exists|n: Seq<char>, r: Seq<(Seq<char>, Raw)>| #[trigger]
                has_layer(config_in(text), n, r) && rows_error(r) == Some(e@),
{
    if parsed_document(text) is Some && bad_field(parsed_document(text)->0) is None {
        let config = config_in(text);
        let all = all_layers(config);
        lemma_all_layers(config);
        assert forall|name: Seq<char>, rows: Seq<(Seq<char>, Raw)>| #[trigger]
            has_layer(config, name, rows) && !rows_are_good(rows) implies layers_error(all) is Some by {
            let k = lemma_layer_is_built(config, name, rows);
            lemma_rows_error(rows);
            lemma_layers_error(all);
            assert(rows_error(all[k].1) is Some);
        }
        assert forall|rows: Seq<(Seq<char>, Raw)>| #[trigger]
            has_layer(config, GLOBAL_LAYER@, rows) && !rows_are_good(rows) implies rows_error(rows)
            == Some(e@) by {
            let k = lemma_layer_is_built(config, GLOBAL_LAYER@, rows);
            lemma_rows_error(rows);
            lemma_first_layer_error(all);
        }
        if layers_error(all) is Some {
            let j = lemma_bad_layer(all);
            let i = lemma_bad_row(all[j].1);
            assert(has_layer(config, all[j].0, all[j].1));
            assert(all[j].1[i] == all[j].1[i]);
        } else {
            let (h, j) = lemma_bad_sequence(config.sequences);
            assert(config.sequences[h].0[j] == config.sequences[h].0[j]);
        }
    }
}

/// A fatal problem of the first layer is that of all.
proof fn lemma_first_layer_error(layers: Seq<(Seq<char>, Seq<(Seq<char>, Raw)>)>)
    requires
        layers.len() > 0,
        rows_error(layers[0].1) is Some,
    ensures
        layers_error(layers) == rows_error(layers[0].1),
    decreases layers.len(),
{
    let init = layers.drop_last();
    if layers.len() > 1 {
        assert(init[0] == layers[0]);
        lemma_first_layer_error(init);
    } else {
        assert(layers_error(init) is None);
    }
}

/// The layer that a fatal problem of the layers is of.
proof fn lemma_bad_layer(layers: Seq<(Seq<char>, Seq<(Seq<char>, Raw)>)>) -> (j: int)
    requires
        layers_error(layers) is Some,
    ensures
        0 <= j < layers.len(),
        layers_error(layers) == rows_error(layers[j].1),
    decreases layers.len(),
{
    let init = layers.drop_last();
    if layers_error(init) is Some {
        lemma_bad_layer(init)
    } else {
        layers.len() - 1
    }
}

/// The row that a fatal problem of a layer is of.
proof fn lemma_bad_row(rows: Seq<(Seq<char>, Raw)>) -> (i: int)
    requires
        rows_error(rows) is Some,
    ensures
        0 <= i < rows.len(),
        match rows_error(rows)->0 {
            ErrorView::KeyParse { key, source } => key == rows[i].0 && source.0 == key
                && parsed_chord(key) is None,
            ErrorView::InvalidTombstone { key } => rows[i] == (key, Raw::Bool(true))
                && parsed_chord(key) is Some,
            ErrorView::Toml => false,
        },
    decreases rows.len(),
{
    let init = rows.drop_last();
    if rows_error(init) is Some {
        lemma_bad_row(init)
    } else {
        rows.len() - 1
    }
}

/// The key that a fatal problem of the sequences is of.
proof fn lemma_bad_sequence(raws: Seq<(Seq<Seq<char>>, Seq<char>)>) -> (r: (int, int))
    requires
        sequences_error(raws) is Some,
    ensures
        0 <= r.0 < raws.len(),
        0 <= r.1 < raws[r.0].0.len(),
        sequences_error(raws)->0 matches ErrorView::KeyParse { key, source } && key
            == raws[r.0].0[r.1] && source.0 == key && parsed_chord(key) is None,
    decreases raws.len(),
{
    let init = raws.drop_last();
    if sequences_error(init) is Some {
        lemma_bad_sequence(init)
    } else {
        let j = lemma_bad_key(raws.last().0);
        (raws.len() - 1, j)
    }
}

/// The key that a fatal problem of an entry is of.
proof fn lemma_bad_key(spellings: Seq<Seq<char>>) -> (j: int)
    requires
        keys_error(spellings) is Some,
    ensures
        0 <= j < spellings.len(),
        keys_error(spellings)->0 matches ErrorView::KeyParse { key, source } && key == spellings[j]
            && source.0 == key && parsed_chord(key) is None,
    decreases spellings.len(),
{
    let init = spellings.drop_last();
    if keys_error(init) is Some {
        lemma_bad_key(init)
    } else {
        spellings.len() - 1
    }
}

/// The warnings on chords that sequences begin with come behind all others.
pub proof fn law_ambiguity_is_warned_of_last<A, F: Fn(&str) -> Option<A>>(
    text: Seq<char>,
    resolve: F,
    out: BuildOutput<A>,
    i: int,
    j: int,
)
    requires
        is_load(text, resolve, Ok(out)),
        0 <= i < j < out.warnings@.len(),
        warning_views(out.warnings@)[i] is SequenceShadow,
    ensures
        warning_views(out.warnings@)[j] is SequenceShadow,
{
    let config = config_in(text);
    let t = choose|t: Trace<A>| #[trigger]
        traces(config, resolve, t) && is_built(config, t, out);
    let a = all_layer_warnings(t.layers);
    let b = told(t.told);
    let w = warning_views(out.warnings@);
    if i < a.len() {
        assert(a[i] == w[i]);
        lemma_all_layer_warnings(t.layers, w[i]);
        let k = choose|k: int|
            0 <= k < t.layers.len() && layer_warnings(#[trigger] t.layers[k]).contains(w[i]);
        law_layer_problems_are_reported(t.layers[k], w[i]);
    } else if i < a.len() + b.len() {
        assert(b[i - a.len()] == w[i]);
        law_told_is_every_warning(t.told, w[i]);
        let n = choose|n: int| 0 <= n < t.told.len() && t.told[n] == Some(w[i]);
        law_sequence_problems_are_told(t.sequences, t.told, n);
    } else {
        let n = j - a.len() - b.len();
        assert(w == a + b + t.cross);
        assert(w.len() == out.warnings@.len());
        assert((a + b + t.cross)[j] == t.cross[n]);
        let names = layer_names(t.layers[0]);
        let seqs = seq_state(t.sequences).names;
        law_ambiguous_chords_are_warned_of(names, seqs, t.chords, t.cross, t.chords[n]);
    }
}

/// No entry is passed over in silence: one whose action is unknown, one without keys, and one
/// that is not bound because it clashes, are warned of by what they say; and where two entries
/// have the same keys, the later one, which is bound, is warned of as a conflict.
pub proof fn law_every_entry_is_bound_or_warned_of<A, F: Fn(&str) -> Option<A>>(
    text: Seq<char>,
    resolve: F,
    action_of: spec_fn(Seq<char>) -> Option<A>,
    out: BuildOutput<A>,
    j: int,
    s: Seq<KeyInput>,
)
    requires
        is_load(text, resolve, Ok(out)),
        resolves_by(resolve, action_of),
        0 <= j < config_in(text).sequences.len(),
        entry_spells(config_in(text).sequences[j], s),
    ensures
        ({
            let name = config_in(text).sequences[j].1;
            let known = action_of(name) is Some;
            let keys = s.map_values(|k: KeyInput| chord_text(k));
            let told = warning_views(out.warnings@);
            &&& !known ==> told.contains(
                WarningView::UnknownAction { key: joined(keys), action: name },
            )
            &&& known && s.len() == 0 ==> told.contains(WarningView::EmptySequence { action: name })
            &&& known && s.len() > 0 && !out.sequences@.contains_key(s) ==> exists|w: WarningView|
             #[trigger]
                told.contains(w) && (w matches WarningView::PrefixShadow {
                    prefix,
                    prefix_action,
                    shadowed,
                    shadowed_action,
                } && ((prefix == keys && prefix_action == name) || (shadowed == keys
                    && shadowed_action == name)))
            &&& known && s.len() > 0 && out.sequences@.contains_key(s) && (exists|i: int|
                i < j && #[trigger] entry_binds(config_in(text).sequences, action_of, i, s))
                ==> exists|w: WarningView| #[trigger]
                told.contains(w) && (w matches WarningView::Conflict { chord, winner, .. } && chord
                    == joined(keys) && winner == name)
        }),
{
    let config = config_in(text);
    let t = choose|t: Trace<A>| #[trigger]
        traces(config, resolve, t) && is_built(config, t, out);
    let lines = t.sequences;
    lemma_lines_of_entries(config, resolve, action_of, t);
    lemma_one_spelling(config.sequences[j], lines[j].keys, s);
    law_sequence_problems_are_told(lines, t.told, j);
    let before = seq_state(lines.take(j));
    assert(lines.take(j + 1).drop_last() =~= lines.take(j));
    assert(lines.take(j + 1).last() == lines[j]);
    if t.told[j] is Some {
        assert(t.told.contains(Some(t.told[j]->0)));
        lemma_warnings_of_load(config, t, out, t.told[j]->0);
    }
    if lines[j].action is Some && s.len() > 0 {
        if !out.sequences@.contains_key(s) {
            if t.told[j] is None {
                lemma_quiet_line_is_bound(lines, t.told, j);
            }
            if t.told[j]->0 is Conflict {
                law_bound_sequence_stays(lines, j, s);
            }
        } else if exists|i: int| i < j && #[trigger] entry_binds(config.sequences, action_of, i, s) {
            let i = choose|i: int|
                i < j && #[trigger] entry_binds(config.sequences, action_of, i, s);
            lemma_one_spelling(config.sequences[i], lines[i].keys, s);
            law_earlier_sequence_wins(lines.take(j), i);
            assert(lines.take(j)[i] == lines[i]);
            if !before.map.contains_key(s) {
                let h = choose|h: int|
                    0 <= h < i && #[trigger] cannot_coexist(lines.take(j)[h].keys, s)
                        && lines.take(j)[h].action is Some && before.map.contains_key(
                        lines.take(j)[h].keys,
                    );
                let x = lines.take(j)[h].keys;
                law_bound_sequence_stays(lines, j, x);
                law_built_sequences_can_coexist(lines, x, s);
            }
            if exists|c: Seq<KeyInput>| #[trigger] before.map.contains_key(c) && cannot_coexist(s, c) {
                let c = choose|c: Seq<KeyInput>| #[trigger]
                    before.map.contains_key(c) && cannot_coexist(s, c);
                law_built_sequences_can_coexist(lines.take(j), s, c);
            }
        }
    }
}

} // verus!
