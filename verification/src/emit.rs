//! Writing keymaps back into a TOML configuration, the inverse of reading one.
//!
//! The output is deterministic: chords, layers and sequences come in a fixed order,
//! so the same maps always give the same text. No policy is applied: whatever is
//! bound is written, reserved keys included.
use crate::capture::texts;
use crate::config::GLOBAL_LAYER;
use crate::document::{bad_field, flag_value, is_field, is_layer, is_made_of_tables, is_texts,
    items_hold, lemma_field_names, list_reads, list_value, parsed_document, raw_of, rows_hold, sequence_of,
    sequence_reads, table_value, text_value, texts_of, value_holds, write_document, written_document, Node};
use crate::grammar::{chord_text, law_spelling_is_injective};
use crate::input::KeyInput;
use crate::keymap::Keymap;
use crate::names::{ascending, lemma_ascending_distinct, lists, ref_views, row_views, NameMap};
use crate::table::{distinct_keys, has_key, lemma_table_dom, lemma_table_row, lemma_table_unique,
    table_map};
use crate::text::{copy_text, is_before, lemma_text_asymmetric, lemma_text_irreflexive,
    lemma_text_transitive, same_text, text_before};
use crate::warning::{join_texts, joined, render_sequence, rendered};
use crate::sequence::{path_views, SequenceKeymap};
use vstd::prelude::*;

verus! {

/// The text that an answer is.
pub open spec fn answer_text(r: Option<&str>) -> Option<Seq<char>> {
    match r {
        Some(s) => Some(s@),
        None => None,
    }
}

/// The naming function may give the action this name, or none.
pub open spec fn gives_name<A, F: Fn(&A) -> Option<&str>>(
    name_of: F,
    action: A,
    name: Option<Seq<char>>,
) -> bool {
    exists|r: Option<&str>| #[trigger]
        call_ensures(name_of, (&action,), r) && answer_text(r) == name
}

/// The names are those that the naming function gave the bound actions.
pub open spec fn gives_names<K, A, F: Fn(&A) -> Option<&str>>(
    name_of: F,
    bound: Map<K, A>,
    names: Map<K, Option<Seq<char>>>,
) -> bool {
    &&& names.dom() == bound.dom()
    &&& forall|k: K| #[trigger]
        bound.contains_key(k) ==> gives_name(name_of, bound[k], names[k])
}

/// What a chord is written as: `false` where it is declared unbound, else its action
/// name, if it has one.
pub open spec fn entry(
    names: Map<KeyInput, Option<Seq<char>>>,
    unbinds: Seq<KeyInput>,
    c: KeyInput,
) -> Option<Node> {
    if unbinds.contains(c) {
        Some(Node::Flag(false))
    } else if names.contains_key(c) && names[c] is Some {
        Some(Node::Text(names[c]->0))
    } else {
        None
    }
}

/// The rows are those of a layer: the chords that are written, by their canonical
/// spelling.
pub open spec fn is_table(
    rows: Seq<(Seq<char>, Node)>,
    names: Map<KeyInput, Option<Seq<char>>>,
    unbinds: Seq<KeyInput>,
) -> bool {
    &&& ascending(rows)
    &&& forall|i: int| 0 <= i < rows.len() ==> is_entry(names, unbinds, #[trigger] rows[i])
    &&& forall|c: KeyInput|
        (#[trigger] entry(names, unbinds, c)) is Some ==> rows.contains(
            (chord_text(c), entry(names, unbinds, c)->0),
        )
}

/// The row is that of a chord.
pub open spec fn is_entry(
    names: Map<KeyInput, Option<Seq<char>>>,
    unbinds: Seq<KeyInput>,
    row: (Seq<char>, Node),
) -> bool {
    exists|c: KeyInput|
        (#[trigger] chord_text(c)) == row.0 && entry(names, unbinds, c) == Some(row.1)
}

/// The table holds what the chords are written as.
spec fn spelled(
    table: Map<Seq<char>, toml::Value>,
    names: Map<KeyInput, Option<Seq<char>>>,
    unbinds: Seq<KeyInput>,
) -> bool {
    &&& forall|t: Seq<char>| #[trigger]
        table.contains_key(t) ==> is_entry(names, unbinds, (t, value_holds(table[t])))
    &&& forall|c: KeyInput|
        (#[trigger] entry(names, unbinds, c)) is Some ==> table.contains_key(chord_text(c))
            && value_holds(table[chord_text(c)]) == entry(names, unbinds, c)->0
}

/// One more chord in a table.
proof fn lemma_spelled_insert(
    table: Map<Seq<char>, toml::Value>,
    names: Map<KeyInput, Option<Seq<char>>>,
    unbinds: Seq<KeyInput>,
    names1: Map<KeyInput, Option<Seq<char>>>,
    unbinds1: Seq<KeyInput>,
    c: KeyInput,
    value: toml::Value,
)
    requires
        spelled(table, names, unbinds),
        entry(names1, unbinds1, c) == Some(value_holds(value)),
        forall|d: KeyInput|
            d != c ==> #[trigger] entry(names1, unbinds1, d) == entry(names, unbinds, d),
    ensures
        spelled(table.insert(chord_text(c), value), names1, unbinds1),
{
    let next = table.insert(chord_text(c), value);
    assert forall|t: Seq<char>| #[trigger] next.contains_key(t) implies is_entry(
        names1,
        unbinds1,
        (t, value_holds(next[t])),
    ) by {
        if t == chord_text(c) {
            assert(entry(names1, unbinds1, c) == Some(value_holds(next[t])));
        } else {
            assert(is_entry(names, unbinds, (t, value_holds(table[t]))));
            let d = choose|d: KeyInput|
                (#[trigger] chord_text(d)) == t && entry(names, unbinds, d) == Some(
                    value_holds(table[t]),
                );
            assert(d != c);
            assert(entry(names1, unbinds1, d) == entry(names, unbinds, d));
            assert(chord_text(d) == t);
        }
    }
    assert forall|d: KeyInput| (#[trigger] entry(names1, unbinds1, d)) is Some implies next.contains_key(
        chord_text(d),
    ) && value_holds(next[chord_text(d)]) == entry(names1, unbinds1, d)->0 by {
        if d != c {
            assert(entry(names, unbinds, d) is Some);
            if chord_text(d) == chord_text(c) {
                law_spelling_is_injective(d, c);
            }
        }
    }
}

/// Tables of the same entries are the same.
proof fn lemma_spelled_same(
    table: Map<Seq<char>, toml::Value>,
    names: Map<KeyInput, Option<Seq<char>>>,
    unbinds: Seq<KeyInput>,
    names1: Map<KeyInput, Option<Seq<char>>>,
    unbinds1: Seq<KeyInput>,
)
    requires
        spelled(table, names, unbinds),
        forall|d: KeyInput| #[trigger]
            entry(names1, unbinds1, d) == entry(names, unbinds, d),
    ensures
        spelled(table, names1, unbinds1),
{
    assert forall|t: Seq<char>| #[trigger] table.contains_key(t) implies is_entry(
        names1,
        unbinds1,
        (t, value_holds(table[t])),
    ) by {
        assert(is_entry(names, unbinds, (t, value_holds(table[t]))));
        let d = choose|d: KeyInput|
            (#[trigger] chord_text(d)) == t && entry(names, unbinds, d) == Some(
                value_holds(table[t]),
            );
        assert(entry(names1, unbinds1, d) == entry(names, unbinds, d));
        assert(chord_text(d) == t);
    }
    assert forall|d: KeyInput| (#[trigger] entry(names1, unbinds1, d)) is Some implies table.contains_key(
        chord_text(d),
    ) && value_holds(table[chord_text(d)]) == entry(names1, unbinds1, d)->0 by {
        assert(entry(names, unbinds, d) is Some);
    }
}

/// Renders one keymap as a table of chords and action names; bindings whose action
/// has no config name are omitted.
fn keymap_to_table<A, F: Fn(&A) -> Option<&str>>(keymap: &Keymap<A>, name_of: &F) -> (r: (
    NameMap<toml::Value>,
    Ghost<Map<KeyInput, Option<Seq<char>>>>,
))
    requires
        forall|a: &A| #[trigger] call_requires(*name_of, (a,)),
    ensures
        gives_names(*name_of, keymap@, (r.1)@),
        spelled(r.0@, (r.1)@, Seq::empty()),
{
    let ghost m = keymap@;
    let ghost none: Seq<KeyInput> = Seq::empty();
    let ghost mut names: Map<KeyInput, Option<Seq<char>>> = Map::empty();
    let mut table: NameMap<toml::Value> = NameMap::new();
    let rows = keymap.iter();
    let mut i: usize = 0;
    while i < rows.len()
        invariant
            i <= rows.len(),
            m == keymap@,
            none == Seq::<KeyInput>::empty(),
            forall|a: &A| #[trigger] call_requires(*name_of, (a,)),
            distinct_keys(rows@),
            forall|j: int|
                0 <= j < rows.len() ==> m.contains_key(*(#[trigger] rows@[j]).0) && m[*rows@[j].0]
                    == *rows@[j].1,
            forall|k: KeyInput| #[trigger]
                names.contains_key(k) <==> exists|j: int|
                    0 <= j < i && *(#[trigger] rows@[j]).0 == k,
            forall|k: KeyInput| #[trigger]
                names.contains_key(k) ==> m.contains_key(k) && gives_name(
                    *name_of,
                    m[k],
                    names[k],
                ),
            spelled(table@, names, none),
        decreases rows.len() - i,
    {
        let chord = *rows[i].0;
        let action = rows[i].1;
        let answer = name_of(action);
        let ghost name = answer_text(answer);
        let ghost names0 = names;
        proof {
            assert(gives_name(*name_of, *action, name));
            if names0.contains_key(chord) {
                let j = choose|j: int| 0 <= j < i && *(#[trigger] rows@[j]).0 == chord;
                assert(rows@[j].0 != rows@[i as int].0);
            }
            names = names.insert(chord, name);
            assert forall|d: KeyInput| d != chord implies #[trigger] entry(names, none, d) == entry(
                names0,
                none,
                d,
            ) by {}
            assert forall|k: KeyInput| #[trigger] names.contains_key(k) <==> exists|j: int|
                0 <= j < i + 1 && *(#[trigger] rows@[j]).0 == k by {
                if names0.contains_key(k) {
                    let j = choose|j: int| 0 <= j < i && *(#[trigger] rows@[j]).0 == k;
                    assert(*rows@[j].0 == k);
                }
                if k == chord {
                    assert(*rows@[i as int].0 == k);
                }
            }
        }
        match answer {
            Some(text) => {
                let value = text_value(copy_text(text));
                proof {
                    lemma_spelled_insert(table@, names0, none, names, none, chord, value);
                }
                table.insert(chord.to_string(), value);
            },
            None => {
                proof {
                    lemma_spelled_same(table@, names0, none, names, none);
                }
            },
        }
        i = i + 1;
    }
    assert(names.dom() =~= m.dom());
    (table, Ghost(names))
}

/// Adds the declarations of a layer to its table.
fn add_unbinds(
    table: &mut NameMap<toml::Value>,
    unbinds: &Vec<KeyInput>,
    Ghost(names): Ghost<Map<KeyInput, Option<Seq<char>>>>,
)
    requires
        spelled(old(table)@, names, Seq::empty()),
    ensures
        spelled(final(table)@, names, unbinds@),
{
    let mut i: usize = 0;
    assert(unbinds@.take(0) =~= Seq::<KeyInput>::empty());
    while i < unbinds.len()
        invariant
            i <= unbinds.len(),
            spelled(table@, names, unbinds@.take(i as int)),
        decreases unbinds.len() - i,
    {
        let c = unbinds[i];
        let value = flag_value(false);
        proof {
            let done = unbinds@.take(i as int);
            let next = unbinds@.take(i + 1);
            assert(next =~= done.push(c));
            assert(next[i as int] == c);
            assert forall|d: KeyInput| d != c implies #[trigger] entry(names, next, d) == entry(
                names,
                done,
                d,
            ) by {
                if done.contains(d) {
                    let j = choose|j: int| 0 <= j < done.len() && done[j] == d;
                    assert(next[j] == d);
                }
            }
            lemma_spelled_insert(table@, names, done, names, next, c, value);
        }
        table.insert(c.to_string(), value);
        i = i + 1;
    }
    assert(unbinds@.take(i as int) =~= unbinds@);
}

/// The rows of a table of a layer.
fn table_rows(
    table: NameMap<toml::Value>,
    Ghost(names): Ghost<Map<KeyInput, Option<Seq<char>>>>,
    Ghost(unbinds): Ghost<Seq<KeyInput>>,
) -> (rows: Vec<(String, toml::Value)>)
    requires
        spelled(table@, names, unbinds),
    ensures
        is_table(rows_hold(rows@), names, unbinds),
{
    let ghost m = table@;
    let rows = table.into_rows();
    proof {
        let v = row_views(rows@);
        let h = rows_hold(rows@);
        lemma_ascending_distinct(v);
        lemma_table_dom(v);
        assert forall|i: int, j: int| 0 <= i < j < h.len() implies crate::text::text_before(
            (#[trigger] h[i]).0,
            (#[trigger] h[j]).0,
        ) by {
            assert(crate::text::text_before(v[i].0, v[j].0));
        }
        assert forall|i: int| 0 <= i < h.len() implies is_entry(names, unbinds, #[trigger] h[i]) by {
            lemma_table_row(v, i);
            assert(m.contains_key(v[i].0));
            assert(h[i] == (v[i].0, value_holds(m[v[i].0])));
        }
        assert forall|c: KeyInput| (#[trigger] entry(names, unbinds, c)) is Some implies h.contains(
            (chord_text(c), entry(names, unbinds, c)->0),
        ) by {
            assert(m.contains_key(chord_text(c)));
            let i = choose|i: int| 0 <= i < v.len() && (#[trigger] v[i]).0 == chord_text(c);
            lemma_table_row(v, i);
            assert(h[i] == (chord_text(c), entry(names, unbinds, c)->0));
        }
    }
    rows
}

/// The layers by their bindings.
pub open spec fn layer_views<A>(layers: Map<Seq<char>, Keymap<A>>) -> Map<
    Seq<char>,
    Map<KeyInput, A>,
> {
    layers.map_values(|k: Keymap<A>| k@)
}

/// The declarations by their chords.
pub open spec fn unbind_views(unbinds: Map<Seq<char>, Vec<KeyInput>>) -> Map<
    Seq<char>,
    Seq<KeyInput>,
> {
    unbinds.map_values(|v: Vec<KeyInput>| v@)
}

/// The action names in a layer; none where there is no such layer.
pub open spec fn names_in(
    names: Map<Seq<char>, Map<KeyInput, Option<Seq<char>>>>,
    name: Seq<char>,
) -> Map<KeyInput, Option<Seq<char>>> {
    if names.contains_key(name) {
        names[name]
    } else {
        Map::empty()
    }
}

/// The chords declared unbound in a layer; none where there is no such declaration.
pub open spec fn chords_in(unbinds: Map<Seq<char>, Seq<KeyInput>>, name: Seq<char>) -> Seq<
    KeyInput,
> {
    if unbinds.contains_key(name) {
        unbinds[name]
    } else {
        Seq::empty()
    }
}

/// What was written, and what names the naming function gave.
pub struct Emission {
    /// The names given to the actions of each layer.
    pub names: Map<Seq<char>, Map<KeyInput, Option<Seq<char>>>>,
    /// The table of each layer, and of each layer with declarations only.
    pub tables: Map<Seq<char>, Seq<(Seq<char>, Node)>>,
    /// The rows of `[layers]`.
    pub layers: Seq<(Seq<char>, Node)>,
    /// The names given to the actions of the sequences.
    pub seq_names: Map<Seq<KeyInput>, Option<Seq<char>>>,
    /// The sequences as they are written, with their names.
    pub sequences: Seq<(Seq<KeyInput>, Seq<char>)>,
}

/// The tables of the layers that stand under `[layers]`: all but the global one and
/// the empty ones.
pub open spec fn named_tables(tables: Map<Seq<char>, Seq<(Seq<char>, Node)>>) -> Map<
    Seq<char>,
    Node,
> {
    Map::new(
        |n: Seq<char>| tables.contains_key(n) && n != GLOBAL_LAYER@ && tables[n].len() > 0,
        |n: Seq<char>| Node::Table(tables[n]),
    )
}

/// The rows of `[keys]`.
pub open spec fn global_table(tables: Map<Seq<char>, Seq<(Seq<char>, Node)>>) -> Seq<
    (Seq<char>, Node),
> {
    if tables.contains_key(GLOBAL_LAYER@) {
        tables[GLOBAL_LAYER@]
    } else {
        Seq::empty()
    }
}

/// The tables are those of the layers, given what names the actions have.
pub open spec fn are_tables<A, F: Fn(&A) -> Option<&str>>(
    name_of: F,
    layers: Map<Seq<char>, Map<KeyInput, A>>,
    unbinds: Map<Seq<char>, Seq<KeyInput>>,
    names: Map<Seq<char>, Map<KeyInput, Option<Seq<char>>>>,
    tables: Map<Seq<char>, Seq<(Seq<char>, Node)>>,
) -> bool {
    &&& forall|n: Seq<char>| #[trigger]
        names.contains_key(n) <==> tables.contains_key(n) && layers.contains_key(n)
    &&& forall|n: Seq<char>| #[trigger]
        names.contains_key(n) ==> gives_names(name_of, layers[n], names[n])
    &&& forall|n: Seq<char>| #[trigger]
        tables.contains_key(n) ==> is_table(tables[n], names_in(names, n), chords_in(unbinds, n))
}

/// The sequences are those with a name, in the order of their joined chords.
pub open spec fn is_seq_list(
    rows: Seq<(Seq<KeyInput>, Seq<char>)>,
    names: Map<Seq<KeyInput>, Option<Seq<char>>>,
) -> bool {
    &&& distinct_keys(rows)
    &&& forall|i: int|
        0 <= i < rows.len() ==> names.contains_key((#[trigger] rows[i]).0) && names[rows[i].0]
            == Some(rows[i].1)
    &&& forall|s: Seq<KeyInput>| #[trigger]
        names.contains_key(s) && names[s] is Some ==> has_key(rows, s)
    &&& in_order(rows)
}

/// No sequence comes before an earlier one.
pub open spec fn in_order(rows: Seq<(Seq<KeyInput>, Seq<char>)>) -> bool {
    forall|i: int, j: int|
        0 <= i < j < rows.len() ==> !text_before(
            joined(rendered((#[trigger] rows[j]).0)),
            joined(rendered((#[trigger] rows[i]).0)),
        )
}

/// What a sequence is written as.
pub open spec fn seq_node(row: (Seq<KeyInput>, Seq<char>)) -> Node {
    Node::Table(
        seq![
            ("action"@, Node::Text(row.1)),
            ("keys"@, Node::List(row.0.map_values(|k: KeyInput| Node::Text(chord_text(k))))),
        ],
    )
}

/// What the sequences are written as.
pub open spec fn seq_nodes(rows: Seq<(Seq<KeyInput>, Seq<char>)>) -> Seq<Node> {
    rows.map_values(|r: (Seq<KeyInput>, Seq<char>)| seq_node(r))
}

/// The document that an emission writes: the fields that are not empty.
pub open spec fn document_of(e: Emission) -> Seq<(Seq<char>, Node)> {
    let keys = if global_table(e.tables).len() > 0 {
        seq![("keys"@, Node::Table(global_table(e.tables)))]
    } else {
        Seq::empty()
    };
    let layers = if e.layers.len() > 0 {
        seq![("layers"@, Node::Table(e.layers))]
    } else {
        Seq::empty()
    };
    let sequences = if e.sequences.len() > 0 {
        seq![("sequences"@, Node::List(seq_nodes(e.sequences)))]
    } else {
        Seq::empty()
    };
    keys + layers + sequences
}

/// The emission is one of the layers, the sequences and the declarations.
pub open spec fn emits<A, F: Fn(&A) -> Option<&str>>(
    layers: Map<Seq<char>, Map<KeyInput, A>>,
    sequences: Map<Seq<KeyInput>, A>,
    unbinds: Map<Seq<char>, Seq<KeyInput>>,
    name_of: F,
    e: Emission,
) -> bool {
    &&& forall|n: Seq<char>| #[trigger]
        e.tables.contains_key(n) <==> layers.contains_key(n) || unbinds.contains_key(n)
    &&& are_tables(name_of, layers, unbinds, e.names, e.tables)
    &&& lists(e.layers, named_tables(e.tables))
    &&& gives_names(name_of, sequences, e.seq_names)
    &&& is_seq_list(e.sequences, e.seq_names)
}

/// The text is that of a document.
pub open spec fn is_written(rows: Seq<(Seq<char>, Node)>, text: Seq<char>) -> bool {
    &&& text == written_document(rows)
    &&& parsed_document(text) == Some(rows)
    &&& rows.len() == 0 ==> text.len() == 0
}

/// The rows of `[keys]` and the values of `[layers]` hold the tables.
spec fn hold_tables(
    keys: Seq<(String, toml::Value)>,
    named: Map<Seq<char>, toml::Value>,
    tables: Map<Seq<char>, Seq<(Seq<char>, Node)>>,
) -> bool {
    &&& rows_hold(keys) == global_table(tables)
    &&& forall|n: Seq<char>| #[trigger]
        named.contains_key(n) <==> named_tables(tables).contains_key(n)
    &&& forall|n: Seq<char>| #[trigger]
        named.contains_key(n) ==> value_holds(named[n]) == named_tables(tables)[n]
}

/// Adds the table of one layer.
fn add_layer<A, F: Fn(&A) -> Option<&str>>(
    name: &str,
    keymap: Option<&Keymap<A>>,
    unbinds: Option<&Vec<KeyInput>>,
    name_of: &F,
    keys: &mut Vec<(String, toml::Value)>,
    named: &mut NameMap<toml::Value>,
    Ghost(tables): Ghost<Map<Seq<char>, Seq<(Seq<char>, Node)>>>,
) -> (r: Ghost<(Map<KeyInput, Option<Seq<char>>>, Seq<(Seq<char>, Node)>)>)
    requires
        forall|a: &A| #[trigger] call_requires(*name_of, (a,)),
        hold_tables(old(keys)@, old(named)@, tables),
        !tables.contains_key(name@),
    ensures
        match keymap {
            Some(keymap) => gives_names(*name_of, keymap@, (r@).0),
            None => (r@).0 == Map::<KeyInput, Option<Seq<char>>>::empty(),
        },
        is_table(
            (r@).1,
            (r@).0,
            match unbinds {
                Some(chords) => chords@,
                None => Seq::empty(),
            },
        ),
        hold_tables(final(keys)@, final(named)@, tables.insert(name@, (r@).1)),
{
    let (table, names) = match keymap {
        Some(keymap) => keymap_to_table(keymap, name_of),
        None => {
            let table: NameMap<toml::Value> = NameMap::new();
            (table, Ghost(Map::empty()))
        },
    };
    let ghost names = names@;
    let mut table = table;
    let ghost chords: Seq<KeyInput> = match unbinds {
        Some(chords) => chords@,
        None => Seq::empty(),
    };
    match unbinds {
        Some(chords) => add_unbinds(&mut table, chords, Ghost(names)),
        None => {},
    }
    let rows = table_rows(table, Ghost(names), Ghost(chords));
    let ghost held = rows_hold(rows@);
    let ghost next = tables.insert(name@, held);
    let ghost named0 = named@;
    if rows.len() == 0 {
        proof {
            assert(held =~= Seq::<(Seq<char>, Node)>::empty());
            assert(global_table(next) =~= global_table(tables));
            assert(named_tables(next) =~= named_tables(tables));
        }
    } else if same_text(name, GLOBAL_LAYER) {
        *keys = rows;
        assert(named_tables(next) =~= named_tables(tables));
    } else {
        named.insert(copy_text(name), table_value(rows));
        proof {
            assert(global_table(next) == global_table(tables));
            assert forall|n: Seq<char>| #[trigger] named@.contains_key(n) <==> named_tables(
                next,
            ).contains_key(n) by {
                if n != name@ {
                    assert(named0.contains_key(n) <==> named_tables(tables).contains_key(n));
                }
            }
            assert forall|n: Seq<char>| #[trigger] named@.contains_key(n) implies value_holds(
                named@[n],
            ) == named_tables(next)[n] by {
                if n != name@ {
                    assert(named0.contains_key(n));
                }
            }
        }
    }
    Ghost((names, held))
}

/// The tables of all layers.
fn layer_tables<A, F: Fn(&A) -> Option<&str>>(
    layers: &NameMap<Keymap<A>>,
    unbinds: &NameMap<Vec<KeyInput>>,
    name_of: &F,
    keys: &mut Vec<(String, toml::Value)>,
    named: &mut NameMap<toml::Value>,
) -> (r: Ghost<
    (Map<Seq<char>, Map<KeyInput, Option<Seq<char>>>>, Map<Seq<char>, Seq<(Seq<char>, Node)>>),
>)
    requires
        forall|a: &A| #[trigger] call_requires(*name_of, (a,)),
        old(keys)@.len() == 0,
        old(named)@ == Map::<Seq<char>, toml::Value>::empty(),
    ensures
        forall|n: Seq<char>| #[trigger]
            (r@).1.contains_key(n) <==> layers@.contains_key(n) || unbinds@.contains_key(n),
        are_tables(*name_of, layer_views(layers@), unbind_views(unbinds@), (r@).0, (r@).1),
        hold_tables(final(keys)@, final(named)@, (r@).1),
{
    let ghost lm = layer_views(layers@);
    let ghost um = unbind_views(unbinds@);
    let ghost mut names: Map<Seq<char>, Map<KeyInput, Option<Seq<char>>>> = Map::empty();
    let ghost mut tables: Map<Seq<char>, Seq<(Seq<char>, Node)>> = Map::empty();
    assert(rows_hold(keys@) =~= Seq::<(Seq<char>, Node)>::empty());
    let rows = layers.iter();
    let ghost v = ref_views(rows@);
    proof {
        lemma_ascending_distinct(v);
        lemma_table_dom(v);
    }
    let mut i: usize = 0;
    while i < rows.len()
        invariant
            i <= rows.len(),
            forall|a: &A| #[trigger] call_requires(*name_of, (a,)),
            lm == layer_views(layers@),
            um == unbind_views(unbinds@),
            v == ref_views(rows@),
            distinct_keys(v),
            table_map(v) == layers@,
            forall|n: Seq<char>| #[trigger]
                tables.contains_key(n) <==> exists|j: int| 0 <= j < i && (#[trigger] v[j]).0 == n,
            are_tables(*name_of, lm, um, names, tables),
            hold_tables(keys@, named@, tables),
        decreases rows.len() - i,
    {
        let name = rows[i].0;
        let keymap = rows[i].1;
        let ghost n0 = name@;
        let ghost names0 = names;
        let ghost tables0 = tables;
        proof {
            assert(v[i as int] == (n0, *keymap));
            lemma_table_row(v, i as int);
            if tables.contains_key(n0) {
                let j = choose|j: int| 0 <= j < i && (#[trigger] v[j]).0 == n0;
                assert(v[j].0 != v[i as int].0);
            }
        }
        let got = add_layer(name, Some(keymap), unbinds.get(name), name_of, keys, named, Ghost(tables));
        proof {
            names = names.insert(n0, (got@).0);
            tables = tables.insert(n0, (got@).1);
            lemma_are_tables_insert(*name_of, lm, um, names0, tables0, n0, (got@).0, (got@).1);
            assert forall|n: Seq<char>| #[trigger] tables.contains_key(n) <==> exists|j: int|
                0 <= j < i + 1 && (#[trigger] v[j]).0 == n by {
                if tables0.contains_key(n) {
                    let j = choose|j: int| 0 <= j < i && (#[trigger] v[j]).0 == n;
                    assert(v[j].0 == n);
                }
                if n == n0 {
                    assert(v[i as int].0 == n);
                }
            }
        }
        i = i + 1;
    }
    proof {
        assert forall|n: Seq<char>| #[trigger] tables.contains_key(n) <==> layers@.contains_key(n) by {
            if layers@.contains_key(n) {
                assert(has_key(v, n));
            }
            if tables.contains_key(n) {
                assert(has_key(v, n));
            }
        }
    }
    let more = unbinds.iter();
    let ghost w = ref_views(more@);
    proof {
        lemma_ascending_distinct(w);
        lemma_table_dom(w);
    }
    let mut i: usize = 0;
    while i < more.len()
        invariant
            i <= more.len(),
            forall|a: &A| #[trigger] call_requires(*name_of, (a,)),
            lm == layer_views(layers@),
            um == unbind_views(unbinds@),
            w == ref_views(more@),
            distinct_keys(w),
            table_map(w) == unbinds@,
            forall|n: Seq<char>| #[trigger]
                tables.contains_key(n) <==> layers@.contains_key(n) || exists|j: int|
                    0 <= j < i && (#[trigger] w[j]).0 == n,
            are_tables(*name_of, lm, um, names, tables),
            hold_tables(keys@, named@, tables),
        decreases more.len() - i,
    {
        let name = more[i].0;
        let chords = more[i].1;
        let ghost n0 = name@;
        let ghost names0 = names;
        let ghost tables0 = tables;
        proof {
            assert(w[i as int] == (n0, *chords));
            lemma_table_row(w, i as int);
        }
        if !layers.contains_key(name) {
            proof {
                if tables.contains_key(n0) {
                    let j = choose|j: int| 0 <= j < i && (#[trigger] w[j]).0 == n0;
                    assert(w[j].0 != w[i as int].0);
                }
            }
            let none: Option<&Keymap<A>> = None;
            let got = add_layer(name, none, Some(chords), name_of, keys, named, Ghost(tables));
            proof {
                tables = tables.insert(n0, (got@).1);
                lemma_are_tables_unbinds(*name_of, lm, um, names0, tables0, n0, (got@).1);
            }
        }
        proof {
            assert forall|n: Seq<char>| #[trigger]
                tables.contains_key(n) <==> layers@.contains_key(n) || exists|j: int|
                    0 <= j < i + 1 && (#[trigger] w[j]).0 == n by {
                if tables0.contains_key(n) && !layers@.contains_key(n) {
                    let j = choose|j: int| 0 <= j < i && (#[trigger] w[j]).0 == n;
                    assert(w[j].0 == n);
                }
                if n == n0 {
                    assert(w[i as int].0 == n);
                }
            }
        }
        i = i + 1;
    }
    proof {
        assert forall|n: Seq<char>| #[trigger] (tables).contains_key(n) <==> layers@.contains_key(n)
            || unbinds@.contains_key(n) by {
            if unbinds@.contains_key(n) {
                assert(has_key(w, n));
            }
            if tables.contains_key(n) && !layers@.contains_key(n) {
                assert(has_key(w, n));
            }
        }
    }
    Ghost((names, tables))
}

/// One more layer among the tables.
proof fn lemma_are_tables_insert<A, F: Fn(&A) -> Option<&str>>(
    name_of: F,
    layers: Map<Seq<char>, Map<KeyInput, A>>,
    unbinds: Map<Seq<char>, Seq<KeyInput>>,
    names: Map<Seq<char>, Map<KeyInput, Option<Seq<char>>>>,
    tables: Map<Seq<char>, Seq<(Seq<char>, Node)>>,
    n0: Seq<char>,
    given: Map<KeyInput, Option<Seq<char>>>,
    rows: Seq<(Seq<char>, Node)>,
)
    requires
        are_tables(name_of, layers, unbinds, names, tables),
        layers.contains_key(n0),
        gives_names(name_of, layers[n0], given),
        is_table(rows, given, chords_in(unbinds, n0)),
    ensures
        are_tables(
            name_of,
            layers,
            unbinds,
            names.insert(n0, given),
            tables.insert(n0, rows),
        ),
{
    let names1 = names.insert(n0, given);
    let tables1 = tables.insert(n0, rows);
    assert forall|n: Seq<char>| #[trigger] tables1.contains_key(n) implies is_table(
        tables1[n],
        names_in(names1, n),
        chords_in(unbinds, n),
    ) by {
        if n != n0 {
            assert(tables.contains_key(n));
            assert(names_in(names1, n) == names_in(names, n));
        }
    }
    assert forall|n: Seq<char>| #[trigger] names1.contains_key(n) <==> tables1.contains_key(n)
        && layers.contains_key(n) by {
        if n != n0 {
            assert(names.contains_key(n) <==> tables.contains_key(n) && layers.contains_key(n));
        }
    }
    assert forall|n: Seq<char>| #[trigger] names1.contains_key(n) implies gives_names(
        name_of,
        layers[n],
        names1[n],
    ) by {
        if n != n0 {
            assert(names.contains_key(n));
        }
    }
}

/// One more layer with declarations only among the tables.
proof fn lemma_are_tables_unbinds<A, F: Fn(&A) -> Option<&str>>(
    name_of: F,
    layers: Map<Seq<char>, Map<KeyInput, A>>,
    unbinds: Map<Seq<char>, Seq<KeyInput>>,
    names: Map<Seq<char>, Map<KeyInput, Option<Seq<char>>>>,
    tables: Map<Seq<char>, Seq<(Seq<char>, Node)>>,
    n0: Seq<char>,
    rows: Seq<(Seq<char>, Node)>,
)
    requires
        are_tables(name_of, layers, unbinds, names, tables),
        !layers.contains_key(n0),
        is_table(rows, Map::empty(), chords_in(unbinds, n0)),
    ensures
        are_tables(name_of, layers, unbinds, names, tables.insert(n0, rows)),
{
    let tables1 = tables.insert(n0, rows);
    assert forall|n: Seq<char>| #[trigger] names.contains_key(n) <==> tables1.contains_key(n)
        && layers.contains_key(n) by {
        assert(names.contains_key(n) <==> tables.contains_key(n) && layers.contains_key(n));
    }
    assert forall|n: Seq<char>| #[trigger] tables1.contains_key(n) implies is_table(
        tables1[n],
        names_in(names, n),
        chords_in(unbinds, n),
    ) by {
        if n != n0 {
            assert(tables.contains_key(n));
        } else {
            assert(!names.contains_key(n));
        }
    }
}

/// A sequence to be written.
struct SeqEntry {
    text: String,
    chords: Vec<String>,
    name: String,
}

/// The entries are those of the sequences.
spec fn hold_rows(entries: Seq<SeqEntry>, rows: Seq<(Seq<KeyInput>, Seq<char>)>) -> bool {
    entries.len() == rows.len() && forall|i: int|
        0 <= i < rows.len() ==> holds_row(#[trigger] entries[i], rows[i])
}

/// The entry is that of a sequence.
spec fn holds_row(entry: SeqEntry, row: (Seq<KeyInput>, Seq<char>)) -> bool {
    &&& entry.text@ == joined(rendered(row.0))
    &&& texts(entry.chords@) == rendered(row.0)
    &&& entry.name@ == row.1
}

/// Puts an entry behind those that it does not come before.
fn insert_entry(
    entries: &mut Vec<SeqEntry>,
    entry: SeqEntry,
    Ghost(rows): Ghost<Seq<(Seq<KeyInput>, Seq<char>)>>,
    Ghost(row): Ghost<(Seq<KeyInput>, Seq<char>)>,
) -> (at: Ghost<int>)
    requires
        hold_rows(old(entries)@, rows),
        holds_row(entry, row),
        in_order(rows),
    ensures
        0 <= at@ <= rows.len(),
        hold_rows(final(entries)@, rows.insert(at@, row)),
        in_order(rows.insert(at@, row)),
{
    let mut i: usize = 0;
    while i < entries.len() && !is_before(entry.text.as_str(), entries[i].text.as_str())
        invariant
            i <= entries.len(),
            hold_rows(entries@, rows),
            holds_row(entry, row),
            forall|j: int|
                0 <= j < i ==> !text_before(
                    joined(rendered(row.0)),
                    joined(rendered((#[trigger] rows[j]).0)),
                ),
        decreases entries.len() - i,
    {
        assert(holds_row(entries@[i as int], rows[i as int]));
        i = i + 1;
    }
    let ghost before = entries@;
    entries.insert(i, entry);
    proof {
        let p = i as int;
        let next = rows.insert(p, row);
        assert forall|j: int| 0 <= j < next.len() implies holds_row(#[trigger] entries@[j], next[j]) by {
            if j < p {
                assert(holds_row(before[j], rows[j]));
            } else if j > p {
                assert(holds_row(before[j - 1], rows[j - 1]));
            }
        }
        assert forall|a: int, b: int| 0 <= a < b < next.len() implies !text_before(
            joined(rendered((#[trigger] next[b]).0)),
            joined(rendered((#[trigger] next[a]).0)),
        ) by {
            let oa = if a < p {
                a
            } else {
                a - 1
            };
            let ob = if b < p {
                b
            } else {
                b - 1
            };
            if a != p && b != p {
                assert(next[a] == rows[oa] && next[b] == rows[ob]);
            } else if a == p {
                // The new entry stands before one that it comes before.
                assert(next[b] == rows[ob]);
                assert(holds_row(before[p], rows[p]));
                let x = joined(rendered(row.0));
                let y = joined(rendered(rows[p].0));
                let z = joined(rendered(rows[ob].0));
                assert(text_before(x, y));
                if text_before(z, x) {
                    if ob == p {
                        lemma_text_asymmetric(x, y);
                    } else {
                        lemma_text_transitive(z, x, y);
                        assert(!text_before(
                            joined(rendered(rows[ob].0)),
                            joined(rendered(rows[p].0)),
                        ));
                    }
                }
            } else {
                assert(next[a] == rows[oa]);
            }
        }
    }
    Ghost(i as int)
}

/// The rows with one more are the listing of the names with one more.
proof fn lemma_seq_list_insert(
    rows: Seq<(Seq<KeyInput>, Seq<char>)>,
    names: Map<Seq<KeyInput>, Option<Seq<char>>>,
    at: int,
    s: Seq<KeyInput>,
    name: Seq<char>,
)
    requires
        is_seq_list(rows, names),
        !names.contains_key(s),
        0 <= at <= rows.len(),
        in_order(rows.insert(at, (s, name))),
    ensures
        is_seq_list(rows.insert(at, (s, name)), names.insert(s, Some(name))),
{
    let next = rows.insert(at, (s, name));
    let names1 = names.insert(s, Some(name));
    assert(next[at] == (s, name));
    assert forall|i: int| 0 <= i < next.len() implies names1.contains_key((#[trigger] next[i]).0)
        && names1[next[i].0] == Some(next[i].1) && (i != at ==> next[i].0 != s) by {
        if i < at {
            assert(next[i] == rows[i]);
        } else if i > at {
            assert(next[i] == rows[i - 1]);
        }
    }
    assert forall|t: Seq<KeyInput>| #[trigger] names1.contains_key(t) && names1[t] is Some implies has_key(
        next,
        t,
    ) by {
        if t == s {
            assert(next[at].0 == t);
        } else {
            assert(names.contains_key(t));
            let i = choose|i: int| 0 <= i < rows.len() && (#[trigger] rows[i]).0 == t;
            if i < at {
                assert(next[i].0 == t);
            } else {
                assert(next[i + 1].0 == t);
            }
        }
    }
    assert forall|a: int, b: int| 0 <= a < b < next.len() implies (#[trigger] next[a]).0 != (
    #[trigger] next[b]).0 by {
        let oa = if a < at {
            a
        } else {
            a - 1
        };
        let ob = if b < at {
            b
        } else {
            b - 1
        };
        if a != at && b != at {
            assert(next[a] == rows[oa] && next[b] == rows[ob]);
        }
    }
}

/// The values of chord texts.
fn chord_values(chords: Vec<String>) -> (value: toml::Value)
    ensures
        value_holds(value) == Node::List(texts(chords@).map_values(|t: Seq<char>| Node::Text(t))),
{
    let ghost t = texts(chords@);
    let mut items: Vec<toml::Value> = Vec::new();
    let mut i: usize = 0;
    while i < chords.len()
        invariant
            i <= chords.len(),
            items.len() == i,
            forall|j: int| 0 <= j < i ==> value_holds(#[trigger] items@[j]) == Node::Text(chords@[j]@),
        decreases chords.len() - i,
    {
        items.push(text_value(copy_text(chords[i].as_str())));
        i = i + 1;
    }
    assert(items_hold(items@) =~= t.map_values(|t: Seq<char>| Node::Text(t)));
    list_value(items)
}

/// The value of a sequence.
fn seq_value(entry: SeqEntry, Ghost(row): Ghost<(Seq<KeyInput>, Seq<char>)>) -> (value: toml::Value)
    requires
        holds_row(entry, row),
    ensures
        value_holds(value) == seq_node(row),
{
    let SeqEntry { text: _, chords, name } = entry;
    let ghost parts = texts(chords@);
    let keys = chord_values(chords);
    let mut rows: Vec<(String, toml::Value)> = Vec::new();
    rows.push((copy_text("action"), text_value(name)));
    rows.push((copy_text("keys"), keys));
    proof {
        let want = row.0.map_values(|k: KeyInput| Node::Text(chord_text(k)));
        assert(parts.map_values(|t: Seq<char>| Node::Text(t)) =~= want);
        let h = rows_hold(rows@);
        assert(h =~= seq![("action"@, Node::Text(row.1)), ("keys"@, Node::List(want))]);
        lemma_action_before_keys();
        assert(ascending(h));
    }
    table_value(rows)
}

/// The order of the fields of a sequence.
proof fn lemma_action_before_keys()
    ensures
        text_before("action"@, "keys"@),
{
    reveal_strlit("action");
    reveal_strlit("keys");
    reveal_with_fuel(text_before, 2);
}

/// The order of the fields of a document.
pub proof fn lemma_fields_in_order()
    ensures
        text_before("keys"@, "layers"@),
        text_before("keys"@, "sequences"@),
        text_before("layers"@, "sequences"@),
{
    reveal_strlit("keys");
    reveal_strlit("layers");
    reveal_strlit("sequences");
    reveal_with_fuel(text_before, 2);
}

/// The values of the sequences that have a name, sorted by their joined chords.
fn seq_values<A, F: Fn(&A) -> Option<&str>>(sequences: &SequenceKeymap<A>, name_of: &F) -> (r: (
    Vec<toml::Value>,
    Ghost<(Map<Seq<KeyInput>, Option<Seq<char>>>, Seq<(Seq<KeyInput>, Seq<char>)>)>,
))
    requires
        forall|a: &A| #[trigger] call_requires(*name_of, (a,)),
    ensures
        gives_names(*name_of, sequences@, ((r.1)@).0),
        is_seq_list(((r.1)@).1, ((r.1)@).0),
        items_hold(r.0@) == seq_nodes(((r.1)@).1),
{
    let ghost m = sequences@;
    let bound = sequences.bindings();
    let ghost v = path_views(bound@);
    let ghost mut names: Map<Seq<KeyInput>, Option<Seq<char>>> = Map::empty();
    let ghost mut rows: Seq<(Seq<KeyInput>, Seq<char>)> = Seq::empty();
    let mut entries: Vec<SeqEntry> = Vec::new();
    proof {
        lemma_table_dom(v);
    }
    let mut i: usize = 0;
    while i < bound.len()
        invariant
            i <= bound.len(),
            forall|a: &A| #[trigger] call_requires(*name_of, (a,)),
            v == path_views(bound@),
            distinct_keys(v),
            table_map(v) == m,
            forall|s: Seq<KeyInput>| #[trigger]
                names.contains_key(s) <==> exists|j: int| 0 <= j < i && (#[trigger] v[j]).0 == s,
            forall|s: Seq<KeyInput>| #[trigger]
                names.contains_key(s) ==> m.contains_key(s) && gives_name(*name_of, m[s], names[s]),
            is_seq_list(rows, names),
            hold_rows(entries@, rows),
        decreases bound.len() - i,
    {
        let keys = &bound[i].0;
        let action = bound[i].1;
        let answer = name_of(action);
        let ghost name = answer_text(answer);
        let ghost names0 = names;
        proof {
            assert(v[i as int] == (keys@, *action));
            lemma_table_row(v, i as int);
            assert(gives_name(*name_of, *action, name));
            if names0.contains_key(keys@) {
                let j = choose|j: int| 0 <= j < i && (#[trigger] v[j]).0 == keys@;
                assert(v[j].0 != v[i as int].0);
            }
            names = names.insert(keys@, name);
            assert forall|s: Seq<KeyInput>| #[trigger] names.contains_key(s) <==> exists|j: int|
                0 <= j < i + 1 && (#[trigger] v[j]).0 == s by {
                if names0.contains_key(s) {
                    let j = choose|j: int| 0 <= j < i && (#[trigger] v[j]).0 == s;
                    assert(v[j].0 == s);
                }
                if s == keys@ {
                    assert(v[i as int].0 == s);
                }
            }
        }
        match answer {
            Some(name_text) => {
                let chords = render_sequence(keys.as_slice());
                let text = join_texts(&chords);
                let entry = SeqEntry { text, chords, name: copy_text(name_text) };
                let at = insert_entry(&mut entries, entry, Ghost(rows), Ghost((keys@, name->0)));
                proof {
                    lemma_seq_list_insert(rows, names0, at@, keys@, name->0);
                    rows = rows.insert(at@, (keys@, name->0));
                }
            },
            None => {
                proof {
                    assert forall|s: Seq<KeyInput>| #[trigger]
                        names.contains_key(s) && names[s] is Some implies has_key(rows, s) by {
                        assert(names0.contains_key(s));
                    }
                    assert(is_seq_list(rows, names));
                }
            },
        }
        i = i + 1;
    }
    proof {
        assert forall|s: Seq<KeyInput>| names.dom().contains(s) == m.dom().contains(s) by {
            if m.contains_key(s) {
                assert(has_key(v, s));
            }
        }
        assert(names.dom() =~= m.dom());
    }
    let mut values: Vec<toml::Value> = Vec::new();
    let mut rest = entries;
    assert(rest@ =~= entries@.skip(0));
    while rest.len() > 0
        invariant
            hold_rows(entries@, rows),
            values.len() + rest.len() == entries.len(),
            rest@ == entries@.skip(values.len() as int),
            forall|j: int|
                0 <= j < values.len() ==> value_holds(#[trigger] values@[j]) == seq_node(rows[j]),
        decreases rest.len(),
    {
        let ghost n = values.len() as int;
        let entry = rest.remove(0);
        proof {
            assert(entry == entries@[n]);
            assert(holds_row(entries@[n], rows[n]));
        }
        values.push(seq_value(entry, Ghost(rows[n])));
        assert(rest@ =~= entries@.skip(values.len() as int));
    }
    assert(items_hold(values@) =~= seq_nodes(rows));
    (values, Ghost((names, rows)))
}

/// The rows of a layer's table are chord values.
proof fn lemma_table_is_layer(
    rows: Seq<(Seq<char>, Node)>,
    names: Map<KeyInput, Option<Seq<char>>>,
    unbinds: Seq<KeyInput>,
)
    requires
        is_table(rows, names, unbinds),
    ensures
        is_layer(Node::Table(rows)),
{
    assert forall|i: int| 0 <= i < rows.len() implies raw_of((#[trigger] rows[i]).1) is Some by {
        assert(is_entry(names, unbinds, rows[i]));
    }
}

/// What is written as a sequence reads as that sequence.
pub proof fn lemma_seq_node(row: (Seq<KeyInput>, Seq<char>))
    ensures
        sequence_of(seq_node(row)) == Some((rendered(row.0), row.1)),
{
    let items = row.0.map_values(|k: KeyInput| Node::Text(chord_text(k)));
    assert(is_texts(Node::List(items)));
    assert(texts_of(Node::List(items)) =~= rendered(row.0));
}

/// An emission writes a configuration document.
pub proof fn lemma_document_is_config<A, F: Fn(&A) -> Option<&str>>(
    layers: Map<Seq<char>, Map<KeyInput, A>>,
    sequences: Map<Seq<KeyInput>, A>,
    unbinds: Map<Seq<char>, Seq<KeyInput>>,
    name_of: F,
    e: Emission,
)
    requires
        emits(layers, sequences, unbinds, name_of, e),
    ensures
        ascending(document_of(e)),
        bad_field(document_of(e)) is None,
        forall|i: int| 0 <= i < document_of(e).len() ==> is_field(#[trigger] document_of(e)[i]),
{
    let rows = document_of(e);
    lemma_fields_in_order();
    lemma_text_irreflexive("keys"@);
    lemma_text_irreflexive("layers"@);
    lemma_text_irreflexive("sequences"@);
    assert(ascending(rows));
    assert forall|i: int| 0 <= i < rows.len() implies is_field(#[trigger] rows[i]) by {
        if rows[i].0 == "keys"@ {
            lemma_table_is_layer(
                global_table(e.tables),
                names_in(e.names, GLOBAL_LAYER@),
                chords_in(unbinds, GLOBAL_LAYER@),
            );
        } else if rows[i].0 == "layers"@ {
            lemma_ascending_distinct(e.layers);
            assert forall|j: int| 0 <= j < e.layers.len() implies is_layer((#[trigger] e.layers[j]).1) by {
                lemma_table_row(e.layers, j);
                let n = e.layers[j].0;
                assert(named_tables(e.tables).contains_key(n));
                lemma_table_is_layer(e.tables[n], names_in(e.names, n), chords_in(unbinds, n));
            }
        } else {
            let items = seq_nodes(e.sequences);
            assert forall|j: int| 0 <= j < items.len() implies sequence_of(#[trigger] items[j]) is Some by {
                lemma_seq_node(e.sequences[j]);
            }
        }
    }
    lemma_fields_are_good(rows);
}

/// A document is written in the form of tables.
proof fn lemma_document_is_made_of_tables(e: Emission)
    requires
        lists(e.layers, named_tables(e.tables)),
    ensures
        is_made_of_tables(document_of(e)),
{
    lemma_field_names();
    lemma_ascending_distinct(e.layers);
    assert forall|j: int| 0 <= j < e.layers.len() implies (#[trigger] e.layers[j]).1 is Table by {
        lemma_table_row(e.layers, j);
        assert(named_tables(e.tables).contains_key(e.layers[j].0));
    }
    assert forall|j: int| 0 <= j < e.sequences.len() implies (#[trigger] seq_nodes(
        e.sequences,
    )[j]) is Table by {
        assert(seq_nodes(e.sequences)[j] == seq_node(e.sequences[j]));
    }
}

/// Where every row is a field, none is bad.
proof fn lemma_fields_are_good(rows: Seq<(Seq<char>, Node)>)
    requires
        forall|i: int| 0 <= i < rows.len() ==> is_field(#[trigger] rows[i]),
    ensures
        bad_field(rows) is None,
    decreases rows.len(),
{
    if rows.len() > 0 {
        assert(is_field(rows[rows.len() - 1]));
        assert forall|i: int| 0 <= i < rows.drop_last().len() implies is_field(
            #[trigger] rows.drop_last()[i],
        ) by {
            assert(is_field(rows[i]));
        }
        lemma_fields_are_good(rows.drop_last());
    }
}

/// Writes the document of an emission.
fn write_emission<A, F: Fn(&A) -> Option<&str>>(
    keys: Vec<(String, toml::Value)>,
    named: NameMap<toml::Value>,
    sequences: Vec<toml::Value>,
    Ghost(layers): Ghost<Map<Seq<char>, Map<KeyInput, A>>>,
    Ghost(bound): Ghost<Map<Seq<KeyInput>, A>>,
    Ghost(unbinds): Ghost<Map<Seq<char>, Seq<KeyInput>>>,
    name_of: &F,
    Ghost(e0): Ghost<Emission>,
) -> (text: String)
    requires
        hold_tables(keys@, named@, e0.tables),
        items_hold(sequences@) == seq_nodes(e0.sequences),
        forall|n: Seq<char>| #[trigger]
            e0.tables.contains_key(n) <==> layers.contains_key(n) || unbinds.contains_key(n),
        are_tables(*name_of, layers, unbinds, e0.names, e0.tables),
        gives_names(*name_of, bound, e0.seq_names),
        is_seq_list(e0.sequences, e0.seq_names),
    ensures
        exists|e: Emission| #[trigger]
            emits(layers, bound, unbinds, *name_of, e) && is_written(document_of(e), text@),
{
    let ghost nm = named@;
    let named_rows = named.into_rows();
    let ghost e = Emission { layers: rows_hold(named_rows@), ..e0 };
    let ghost keys_held = rows_hold(keys@);
    let ghost seqs_held = items_hold(sequences@);
    proof {
        lemma_named_rows(named_rows@, nm, e.tables, keys@);
        assert(emits(layers, bound, unbinds, *name_of, e));
        lemma_document_is_config(layers, bound, unbinds, *name_of, e);
    }
    let mut root: Vec<(String, toml::Value)> = Vec::new();
    if keys.len() > 0 {
        proof {
            lemma_table_is_table(e.tables, *name_of, layers, unbinds, e.names);
        }
        root.push((copy_text("keys"), table_value(keys)));
    }
    if named_rows.len() > 0 {
        root.push((copy_text("layers"), table_value(named_rows)));
    }
    if sequences.len() > 0 {
        root.push((copy_text("sequences"), list_value(sequences)));
    }
    proof {
        assert(keys_held.len() == keys@.len());
        assert(seqs_held.len() == e.sequences.len());
        assert(rows_hold(root@) =~= document_of(e));
        lemma_document_is_made_of_tables(e);
    }
    write_document(root)
}

/// The rows of `[keys]` are in ascending order.
proof fn lemma_table_is_table<A, F: Fn(&A) -> Option<&str>>(
    tables: Map<Seq<char>, Seq<(Seq<char>, Node)>>,
    name_of: F,
    layers: Map<Seq<char>, Map<KeyInput, A>>,
    unbinds: Map<Seq<char>, Seq<KeyInput>>,
    names: Map<Seq<char>, Map<KeyInput, Option<Seq<char>>>>,
)
    requires
        are_tables(name_of, layers, unbinds, names, tables),
    ensures
        ascending(global_table(tables)),
{
    if tables.contains_key(GLOBAL_LAYER@) {
        assert(is_table(
            tables[GLOBAL_LAYER@],
            names_in(names, GLOBAL_LAYER@),
            chords_in(unbinds, GLOBAL_LAYER@),
        ));
    }
}

/// The rows of `[layers]` list the tables that stand there.
proof fn lemma_named_rows(
    rows: Seq<(String, toml::Value)>,
    named: Map<Seq<char>, toml::Value>,
    tables: Map<Seq<char>, Seq<(Seq<char>, Node)>>,
    keys: Seq<(String, toml::Value)>,
)
    requires
        lists(row_views(rows), named),
        hold_tables(keys, named, tables),
    ensures
        lists(rows_hold(rows), named_tables(tables)),
{
    let v = row_views(rows);
    let h = rows_hold(rows);
    let m = named_tables(tables);
    lemma_ascending_distinct(v);
    lemma_table_dom(v);
    assert forall|i: int, j: int| 0 <= i < j < h.len() implies text_before(
        (#[trigger] h[i]).0,
        (#[trigger] h[j]).0,
    ) by {
        assert(text_before(v[i].0, v[j].0));
    }
    lemma_ascending_distinct(h);
    assert forall|i: int| 0 <= i < h.len() implies m.contains_key((#[trigger] h[i]).0) && m[h[i].0]
        == h[i].1 by {
        lemma_table_row(v, i);
        assert(named.contains_key(v[i].0));
    }
    assert forall|n: Seq<char>| #[trigger] m.contains_key(n) implies has_key(h, n) by {
        assert(named.contains_key(n));
        let i = choose|i: int| 0 <= i < v.len() && (#[trigger] v[i]).0 == n;
        assert(h[i].0 == n);
    }
    lemma_table_unique(h, m);
}

/// Serializes a [`Keymap`] and [`SequenceKeymap`] back into a TOML config string —
/// the inverse of [`from_str`](crate::config::from_str).
///
/// `name_of` turns each bound action back into the name written in the config,
/// returning `None` for an action that has no config name. A binding whose action
/// returns `None` is **omitted** from the output; pass a total `name_of` for a
/// faithful export.
///
/// The guarantee is a **semantic round-trip**, not byte identity. Names and chords
/// are written as TOML values, so the serializer handles all escaping: a name that
/// contains quotes or TOML metacharacters cannot break out of its string.
///
/// # Trust boundary
///
/// `to_toml` applies **no** policy: it emits whatever is bound, reserved keys
/// included. A caller that writes this output somewhere another process can also
/// write **must** enforce reserved-key rejection at its own load boundary.
pub fn to_toml<A, F: Fn(&A) -> Option<&str>>(
    keymap: &Keymap<A>,
    sequences: &SequenceKeymap<A>,
    name_of: F,
) -> (text: String)
    requires
        forall|a: &A| #[trigger] call_requires(name_of, (a,)),
    ensures
        exists|e: Emission| #[trigger]
            emits(
                map![GLOBAL_LAYER@ => keymap@],
                sequences@,
                Map::empty(),
                name_of,
                e,
            ) && is_written(document_of(e), text@),
{
    let ghost lm: Map<Seq<char>, Map<KeyInput, A>> = map![GLOBAL_LAYER@ => keymap@];
    let ghost um: Map<Seq<char>, Seq<KeyInput>> = Map::empty();
    let mut keys: Vec<(String, toml::Value)> = Vec::new();
    let mut named: NameMap<toml::Value> = NameMap::new();
    let ghost none: Map<Seq<char>, Seq<(Seq<char>, Node)>> = Map::empty();
    assert(rows_hold(keys@) =~= Seq::<(Seq<char>, Node)>::empty());
    let got = add_layer(GLOBAL_LAYER, Some(keymap), None, &name_of, &mut keys, &mut named, Ghost(none));
    let (values, seqs) = seq_values(sequences, &name_of);
    let ghost names0: Map<Seq<char>, Map<KeyInput, Option<Seq<char>>>> = Map::empty();
    proof {
        assert(are_tables(name_of, lm, um, names0, none));
        lemma_are_tables_insert(name_of, lm, um, names0, none, GLOBAL_LAYER@, (got@).0, (got@).1);
    }
    let ghost e0 = Emission {
        names: names0.insert(GLOBAL_LAYER@, (got@).0),
        tables: none.insert(GLOBAL_LAYER@, (got@).1),
        layers: Seq::empty(),
        seq_names: (seqs@).0,
        sequences: (seqs@).1,
    };
    write_emission(
        keys,
        named,
        values,
        Ghost(lm),
        Ghost(sequences@),
        Ghost(um),
        &name_of,
        Ghost(e0),
    )
}

/// Serializes a named-layer set and the global [`SequenceKeymap`] back into a TOML
/// config string — the inverse of [`from_str`](crate::config::from_str) for a
/// multi-layer config.
///
/// The [`GLOBAL_LAYER`] layer is emitted as the top-level `[keys]` table and every
/// other layer as `[layers.<name>]`, with `[[sequences]]` carrying the sequence map.
/// An empty layer emits nothing, and a global-only set produces the same output as
/// [`to_toml`] on that one layer.
///
/// To also emit tombstone entries (`"chord" = false`) for unbind declarations, use
/// [`to_toml_layered_with_unbinds`] instead.
pub fn to_toml_layered<A, F: Fn(&A) -> Option<&str>>(
    layers: &NameMap<Keymap<A>>,
    sequences: &SequenceKeymap<A>,
    name_of: F,
) -> (text: String)
    requires
        forall|a: &A| #[trigger] call_requires(name_of, (a,)),
    ensures
        exists|e: Emission| #[trigger]
            emits(layer_views(layers@), sequences@, Map::empty(), name_of, e) && is_written(
                document_of(e),
                text@,
            ),
{
    let none: NameMap<Vec<KeyInput>> = NameMap::new();
    let text = to_toml_layered_impl(layers, sequences, &none, &name_of);
    assert(unbind_views(none@) =~= Map::<Seq<char>, Seq<KeyInput>>::empty());
    text
}

/// Serializes a named-layer set, the global [`SequenceKeymap`], and any unbind
/// declarations (`"chord" = false`) back into a TOML config string.
///
/// This is the tombstone-aware version of [`to_toml_layered`]: each chord in
/// `unbinds[layer]` is emitted as `"chord" = false` in the table of that layer. When
/// `unbinds` is empty the output is that of [`to_toml_layered`].
pub fn to_toml_layered_with_unbinds<A, F: Fn(&A) -> Option<&str>>(
    layers: &NameMap<Keymap<A>>,
    sequences: &SequenceKeymap<A>,
    unbinds: &NameMap<Vec<KeyInput>>,
    name_of: F,
) -> (text: String)
    requires
        forall|a: &A| #[trigger] call_requires(name_of, (a,)),
    ensures
        exists|e: Emission| #[trigger]
            emits(
                layer_views(layers@),
                sequences@,
                unbind_views(unbinds@),
                name_of,
                e,
            ) && is_written(document_of(e), text@),
{
    to_toml_layered_impl(layers, sequences, unbinds, &name_of)
}

/// Shared implementation of [`to_toml_layered`] and [`to_toml_layered_with_unbinds`].
fn to_toml_layered_impl<A, F: Fn(&A) -> Option<&str>>(
    layers: &NameMap<Keymap<A>>,
    sequences: &SequenceKeymap<A>,
    unbinds: &NameMap<Vec<KeyInput>>,
    name_of: &F,
) -> (text: String)
    requires
        forall|a: &A| #[trigger] call_requires(*name_of, (a,)),
    ensures
        exists|e: Emission| #[trigger]
            emits(
                layer_views(layers@),
                sequences@,
                unbind_views(unbinds@),
                *name_of,
                e,
            ) && is_written(document_of(e), text@),
{
    let mut keys: Vec<(String, toml::Value)> = Vec::new();
    let mut named: NameMap<toml::Value> = NameMap::new();
    let got = layer_tables(layers, unbinds, name_of, &mut keys, &mut named);
    let (values, seqs) = seq_values(sequences, name_of);
    let ghost e0 = Emission {
        names: (got@).0,
        tables: (got@).1,
        layers: Seq::empty(),
        seq_names: (seqs@).0,
        sequences: (seqs@).1,
    };
    write_emission(
        keys,
        named,
        values,
        Ghost(layer_views(layers@)),
        Ghost(sequences@),
        Ghost(unbind_views(unbinds@)),
        name_of,
        Ghost(e0),
    )
}

/// The document has these rows for a layer: under `[keys]` for the global one, and in a
/// table of its name under `[layers]` for another.
pub open spec fn document_has(
    doc: Seq<(Seq<char>, Node)>,
    name: Seq<char>,
    rows: Seq<(Seq<char>, Node)>,
) -> bool {
    if name == GLOBAL_LAYER@ {
        doc.contains(("keys"@, Node::Table(rows)))
    } else {
        exists|inner: Seq<(Seq<char>, Node)>| #[trigger]
            doc.contains(("layers"@, Node::Table(inner))) && inner.contains(
                (name, Node::Table(rows)),
            )
    }
}

/// The naming function goes by the action alone.
pub open spec fn names_by<A, F: Fn(&A) -> Option<&str>>(
    name_of: F,
    name: spec_fn(A) -> Option<Seq<char>>,
) -> bool {
    forall|a: &A, r: Option<&str>| #[trigger]
        call_ensures(name_of, (a,), r) ==> name(*a) == match r {
            Some(s) => Some(s@),
            None => None,
        }
}

/// The names that a document is written by are those of the naming function.
proof fn lemma_names_by<A, F: Fn(&A) -> Option<&str>>(
    name_of: F,
    name: spec_fn(A) -> Option<Seq<char>>,
)
    requires
        names_by(name_of, name),
    ensures
        forall|a: A, n: Option<Seq<char>>| #[trigger] gives_name(name_of, a, n) ==> n == name(a),
{
}

/// The fields of a document are those of the emission.
proof fn lemma_document_fields(e: Emission)
    ensures
        forall|rows: Seq<(Seq<char>, Node)>| #[trigger]
            document_of(e).contains(("keys"@, Node::Table(rows))) <==> rows.len() > 0 && rows
                == global_table(e.tables),
        forall|inner: Seq<(Seq<char>, Node)>| #[trigger]
            document_of(e).contains(("layers"@, Node::Table(inner))) <==> inner.len() > 0 && inner
                == e.layers,
        forall|items: Seq<Node>| #[trigger]
            document_of(e).contains(("sequences"@, Node::List(items))) <==> items.len() > 0 && items
                == seq_nodes(e.sequences),
{
    let doc = document_of(e);
    lemma_field_names();
    let k: int = if global_table(e.tables).len() > 0 {
        1
    } else {
        0
    };
    let l: int = if e.layers.len() > 0 {
        1
    } else {
        0
    };
    assert(doc.len() <= 3);
    if k == 1 {
        assert(doc[0] == ("keys"@, Node::Table(global_table(e.tables))));
    }
    if l == 1 {
        assert(doc[k] == ("layers"@, Node::Table(e.layers)));
    }
    if e.sequences.len() > 0 {
        assert(doc[k + l] == ("sequences"@, Node::List(seq_nodes(e.sequences))));
    }
    assert forall|i: int| 0 <= i < doc.len() implies (#[trigger] doc[i] == (
        "keys"@,
        Node::Table(global_table(e.tables)),
    ) && k == 1) || (doc[i] == ("layers"@, Node::Table(e.layers)) && l == 1) || (doc[i] == (
        "sequences"@,
        Node::List(seq_nodes(e.sequences)),
    ) && e.sequences.len() > 0) by {}
}

/// A table that is not empty stands in the document, and no other does.
proof fn lemma_document_has(e: Emission, name: Seq<char>, rows: Seq<(Seq<char>, Node)>)
    requires
        lists(e.layers, named_tables(e.tables)),
    ensures
        document_has(document_of(e), name, rows) <==> rows.len() > 0 && e.tables.contains_key(name)
            && e.tables[name] == rows,
{
    lemma_document_fields(e);
    let m = named_tables(e.tables);
    lemma_ascending_distinct(e.layers);
    lemma_table_dom(e.layers);
    if name != GLOBAL_LAYER@ {
        if document_has(document_of(e), name, rows) {
            let inner = choose|inner: Seq<(Seq<char>, Node)>| #[trigger]
                document_of(e).contains(("layers"@, Node::Table(inner))) && inner.contains(
                    (name, Node::Table(rows)),
                );
            let i = choose|i: int| 0 <= i < inner.len() && inner[i] == (name, Node::Table(rows));
            lemma_table_row(e.layers, i);
            assert(m.contains_key(name));
        }
        if rows.len() > 0 && e.tables.contains_key(name) && e.tables[name] == rows {
            assert(m.contains_key(name));
            let i = choose|i: int| 0 <= i < e.layers.len() && (#[trigger] e.layers[i]).0 == name;
            lemma_table_row(e.layers, i);
            assert(e.layers[i] == (name, Node::Table(rows)));
            assert(document_of(e).contains(("layers"@, Node::Table(e.layers))));
        }
    }
}

/// What is written says what is bound: in the table of its layer, a chord declared unbound
/// stands as `false`, and any other bound chord with the name of its action, where the
/// action has one; by their canonical spellings; and nothing else stands there.
pub proof fn law_written_layers_say_what_is_bound<A, F: Fn(&A) -> Option<&str>>(
    layers: Map<Seq<char>, Map<KeyInput, A>>,
    sequences: Map<Seq<KeyInput>, A>,
    unbinds: Map<Seq<char>, Seq<KeyInput>>,
    name_of: F,
    action_name: spec_fn(A) -> Option<Seq<char>>,
    e: Emission,
    name: Seq<char>,
    c: KeyInput,
)
    requires
        emits(layers, sequences, unbinds, name_of, e),
        names_by(name_of, action_name),
    ensures
        ({
            let gone = unbinds.contains_key(name) && unbinds[name].contains(c);
            let bound = layers.contains_key(name) && layers[name].contains_key(c);
            &&& gone ==> exists|rows: Seq<(Seq<char>, Node)>| #[trigger]
                document_has(document_of(e), name, rows) && rows.contains(
                    (chord_text(c), Node::Flag(false)),
                )
            &&& bound && !gone && action_name(layers[name][c]) is Some ==> exists|
                rows: Seq<(Seq<char>, Node)>,
            | #[trigger]
                document_has(document_of(e), name, rows) && rows.contains(
                    (chord_text(c), Node::Text(action_name(layers[name][c])->0)),
                )
            &&& forall|rows: Seq<(Seq<char>, Node)>, i: int|
                #![trigger document_has(document_of(e), name, rows), rows[i]]
                document_has(document_of(e), name, rows) && 0 <= i < rows.len() && rows[i].0
                    == chord_text(c) ==> {
                    ||| gone && rows[i].1 == Node::Flag(false)
                    ||| bound && !gone && action_name(layers[name][c]) is Some && rows[i].1
                        == Node::Text(action_name(layers[name][c])->0)
                }
        }),
        forall|rows: Seq<(Seq<char>, Node)>, i: int|
            #![trigger document_has(document_of(e), name, rows), rows[i]]
            document_has(document_of(e), name, rows) && 0 <= i < rows.len() ==> exists|k: KeyInput|
                rows[i].0 == #[trigger] chord_text(k),
{
    let gone = unbinds.contains_key(name) && unbinds[name].contains(c);
    let bound = layers.contains_key(name) && layers[name].contains_key(c);
    let doc = document_of(e);
    lemma_names_by(name_of, action_name);
    assert(e.tables.contains_key(name) <==> layers.contains_key(name) || unbinds.contains_key(name));
    assert(e.names.contains_key(name) <==> e.tables.contains_key(name) && layers.contains_key(name));
    let names = names_in(e.names, name);
    let chords = chords_in(unbinds, name);
    if bound {
        assert(gives_names(name_of, layers[name], e.names[name]));
        assert(gives_name(name_of, layers[name][c], e.names[name][c]));
        assert(e.names[name].dom().contains(c));
    }
    if names.contains_key(c) {
        assert(gives_names(name_of, layers[name], e.names[name]));
        assert(layers[name].dom().contains(c));
    }
    let what = entry(names, chords, c);
    assert(gone ==> what == Some(Node::Flag(false)));
    assert(!gone && bound && action_name(layers[name][c]) is Some ==> what == Some(
        Node::Text(action_name(layers[name][c])->0),
    ));
    if what is Some {
        assert(e.tables.contains_key(name));
        let rows = e.tables[name];
        assert(rows.contains((chord_text(c), what->0)));
        let i = choose|i: int| 0 <= i < rows.len() && rows[i] == (chord_text(c), what->0);
        assert(rows.len() > 0);
        lemma_document_has(e, name, rows);
        assert(document_has(doc, name, rows));
    }
    assert forall|rows: Seq<(Seq<char>, Node)>, i: int|
        #![trigger document_has(document_of(e), name, rows), rows[i]]
        document_has(document_of(e), name, rows) && 0 <= i < rows.len() implies (exists|k: KeyInput|
        rows[i].0 == #[trigger] chord_text(k)) && (rows[i].0 == chord_text(c) ==> {
        ||| gone && rows[i].1 == Node::Flag(false)
        ||| bound && !gone && action_name(layers[name][c]) is Some && rows[i].1 == Node::Text(
            action_name(layers[name][c])->0,
        )
    }) by {
        lemma_document_has(e, name, rows);
        assert(is_entry(names, chords, rows[i]));
        let k = choose|k: KeyInput|
            (#[trigger] chord_text(k)) == rows[i].0 && entry(names, chords, k) == Some(rows[i].1);
        if rows[i].0 == chord_text(c) {
            law_spelling_is_injective(k, c);
        }
    }
}

/// The sequences that are written are those whose action has a name, each once, with its
/// keys by their canonical spellings; in the order of the spellings joined by spaces.
pub proof fn law_written_sequences_say_what_is_bound<A, F: Fn(&A) -> Option<&str>>(
    layers: Map<Seq<char>, Map<KeyInput, A>>,
    sequences: Map<Seq<KeyInput>, A>,
    unbinds: Map<Seq<char>, Seq<KeyInput>>,
    name_of: F,
    action_name: spec_fn(A) -> Option<Seq<char>>,
    e: Emission,
)
    requires
        emits(layers, sequences, unbinds, name_of, e),
        names_by(name_of, action_name),
    ensures
        forall|s: Seq<KeyInput>| #[trigger]
            sequences.contains_key(s) && action_name(sequences[s]) is Some ==> e.sequences.contains(
                (s, action_name(sequences[s])->0),
            ),
        forall|i: int|
            0 <= i < e.sequences.len() ==> sequences.contains_key((#[trigger] e.sequences[i]).0)
                && action_name(sequences[e.sequences[i].0]) == Some(e.sequences[i].1),
        forall|i: int, j: int|
            0 <= i < j < e.sequences.len() ==> (#[trigger] e.sequences[i]).0 != (
            #[trigger] e.sequences[j]).0,
        forall|items: Seq<Node>| #[trigger]
            document_of(e).contains(("sequences"@, Node::List(items))) ==> items.len()
                == e.sequences.len() && forall|i: int|
                0 <= i < items.len() ==> sequence_reads(
                    #[trigger] items[i],
                    e.sequences[i].0.map_values(|k: KeyInput| chord_text(k)),
                    e.sequences[i].1,
                ),
        e.sequences.len() > 0 ==> exists|items: Seq<Node>| #[trigger]
            document_of(e).contains(("sequences"@, Node::List(items))),
        forall|i: int, j: int|
            0 <= i < j < e.sequences.len() ==> text_before(
                joined(rendered((#[trigger] e.sequences[i]).0)),
                joined(rendered((#[trigger] e.sequences[j]).0)),
            ),
{
    assert forall|i: int, j: int| 0 <= i < j < e.sequences.len() implies text_before(
        joined(rendered((#[trigger] e.sequences[i]).0)),
        joined(rendered((#[trigger] e.sequences[j]).0)),
    ) by {
        let a = e.sequences[i].0;
        let b = e.sequences[j].0;
        assert(a != b);
        crate::text::lemma_text_total(joined(rendered(a)), joined(rendered(b)));
        if joined(rendered(a)) == joined(rendered(b)) {
            crate::warning::law_joined_chords_are_injective(a, b);
        }
    }
    lemma_document_fields(e);
    lemma_names_by(name_of, action_name);
    assert forall|s: Seq<KeyInput>| #[trigger]
        sequences.contains_key(s) && action_name(sequences[s]) is Some implies e.sequences.contains(
        (s, action_name(sequences[s])->0),
    ) by {
        assert(gives_name(name_of, sequences[s], e.seq_names[s]));
        assert(e.seq_names.dom().contains(s));
        assert(e.seq_names.contains_key(s) && e.seq_names[s] is Some);
        let i = choose|i: int| 0 <= i < e.sequences.len() && (#[trigger] e.sequences[i]).0 == s;
        assert(e.sequences[i] == (s, action_name(sequences[s])->0));
    }
    assert forall|i: int| 0 <= i < e.sequences.len() implies sequences.contains_key(
        (#[trigger] e.sequences[i]).0,
    ) && action_name(sequences[e.sequences[i].0]) == Some(e.sequences[i].1) by {
        let s = e.sequences[i].0;
        assert(e.seq_names.contains_key(s));
        assert(sequences.dom().contains(s));
        assert(gives_name(name_of, sequences[s], e.seq_names[s]));
    }
    let nodes = seq_nodes(e.sequences);
    assert forall|i: int| 0 <= i < nodes.len() implies sequence_reads(
        #[trigger] nodes[i],
        e.sequences[i].0.map_values(|k: KeyInput| chord_text(k)),
        e.sequences[i].1,
    ) by {
        let row = e.sequences[i];
        assert(nodes[i] == seq_node(row));
        let keys = row.0.map_values(|k: KeyInput| chord_text(k));
        let items = row.0.map_values(|k: KeyInput| Node::Text(chord_text(k)));
        assert forall|k: int| 0 <= k < items.len() implies items[k] == Node::Text(
            #[trigger] keys[k],
        ) by {}
        assert(list_reads(Node::List(items), keys));
    }
    if e.sequences.len() > 0 {
        assert(nodes.len() > 0);
        assert(document_of(e).contains(("sequences"@, Node::List(nodes))));
    }
}

/// What is written is all that is given: every layer with its bindings, and every
/// declaration with its chords.
pub proof fn law_all_that_is_given_is_written<A>(
    layers: Map<Seq<char>, Keymap<A>>,
    unbinds: Map<Seq<char>, Vec<KeyInput>>,
    name: Seq<char>,
)
    ensures
        layer_views(layers).contains_key(name) <==> layers.contains_key(name),
        layers.contains_key(name) ==> layer_views(layers)[name] == layers[name]@,
        unbind_views(unbinds).contains_key(name) <==> unbinds.contains_key(name),
        unbinds.contains_key(name) ==> unbind_views(unbinds)[name] == unbinds[name]@,
{
}

/// The rows of a written layer come in ascending order of their spellings, so that what is
/// written does not depend on the order in which chords were bound.
pub proof fn law_written_rows_are_in_order<A, F: Fn(&A) -> Option<&str>>(
    layers: Map<Seq<char>, Map<KeyInput, A>>,
    sequences: Map<Seq<KeyInput>, A>,
    unbinds: Map<Seq<char>, Seq<KeyInput>>,
    name_of: F,
    e: Emission,
    name: Seq<char>,
    rows: Seq<(Seq<char>, Node)>,
    i: int,
    j: int,
)
    requires
        emits(layers, sequences, unbinds, name_of, e),
        document_has(document_of(e), name, rows),
        0 <= i < j < rows.len(),
    ensures
        text_before(rows[i].0, rows[j].0),
{
    lemma_document_has(e, name, rows);
    assert(is_table(e.tables[name], names_in(e.names, name), chords_in(unbinds, name)));
}

} // verus!
