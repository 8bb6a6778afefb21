//! Configuration documents: what a TOML text holds, and the shape that a
//! configuration has.
//!
//! Reading and writing the TOML syntax is the `toml` crate's work. A
//! [`toml::Value`] is opened one level at a time into plain values, and its model
//! is the tree [`Node`].
use crate::names::ascending;
use crate::text::{copy_text, lemma_text_irreflexive, same_text, text_before};
use vstd::prelude::*;

verus! {

/// What a TOML value holds.
pub enum Node {
    /// A string.
    Text(Seq<char>),
    /// A boolean.
    Flag(bool),
    /// An array.
    List(Seq<Node>),
    /// A table, in ascending order of names.
    Table(Seq<(Seq<char>, Node)>),
    /// A date, a time or both, as it is written.
    Date(Seq<char>),
    /// A value of another type: an integer or a float.
    Other,
}

/// A TOML value, as the `toml` crate reads it.
#[verifier::external_type_specification]
#[verifier::external_body]
pub struct ExDeValue<'i>(toml::de::DeValue<'i>);

/// A TOML value, as the `toml` crate writes it.
#[verifier::external_type_specification]
#[verifier::external_body]
pub struct ExTomlValue(toml::Value);

/// The error of the `toml` crate's reader.
#[verifier::external_type_specification]
#[verifier::external_body]
pub struct ExTomlError(toml::de::Error);

/// What a value that the `toml` crate read holds.
pub uninterp spec fn value_read(value: toml::de::DeValue<'_>) -> Node;

/// What a value that the `toml` crate is to write holds.
pub uninterp spec fn value_holds(value: toml::Value) -> Node;

/// The top-level table of the document that a text is, if it is one.
pub uninterp spec fn parsed_document(text: Seq<char>) -> Option<Seq<(Seq<char>, Node)>>;

/// The text that the top-level table is written as.
pub uninterp spec fn written_document(rows: Seq<(Seq<char>, Node)>) -> Seq<char>;

/// A TOML value opened by one level.
pub enum Opened<'i> {
    /// A string.
    Text(String),
    /// A boolean.
    Flag(bool),
    /// An array.
    List(Vec<toml::de::DeValue<'i>>),
    /// A table.
    Table(Vec<(String, toml::de::DeValue<'i>)>),
    /// A date, a time or both.
    Date(String),
    /// A value of another type.
    Other,
}

/// What the values of an array hold.
pub open spec fn items_read(items: Seq<toml::de::DeValue<'_>>) -> Seq<Node> {
    items.map_values(|v: toml::de::DeValue<'_>| value_read(v))
}

/// What the rows of a table hold.
pub open spec fn rows_read(rows: Seq<(String, toml::de::DeValue<'_>)>) -> Seq<(Seq<char>, Node)> {
    rows.map_values(|r: (String, toml::de::DeValue<'_>)| (r.0@, value_read(r.1)))
}

impl<'i> Opened<'i> {
    /// What the opened value holds.
    pub open spec fn holds(self) -> Node {
        match self {
            Opened::Text(s) => Node::Text(s@),
            Opened::Flag(b) => Node::Flag(b),
            Opened::List(items) => Node::List(items_read(items@)),
            Opened::Table(rows) => Node::Table(rows_read(rows@)),
            Opened::Date(s) => Node::Date(s@),
            Opened::Other => Node::Other,
        }
    }
}

/// Tells the variants of a `toml::de::DeValue` apart and moves their contents out, a
/// date as the text that `toml::value::Datetime` is displayed as. The rows of a `toml::de::DeTable` come in ascending order of names, as its
/// documentation says.
#[verifier::external_body]
fn open_value<'i>(value: toml::de::DeValue<'i>) -> (opened: Opened<'i>)
    ensures
        opened.holds() == value_read(value),
        opened matches Opened::Table(rows) ==> ascending(rows_read(rows@)),
{
    match value {
        toml::de::DeValue::String(s) => Opened::Text(s.into_owned()),
        toml::de::DeValue::Boolean(b) => Opened::Flag(b),
        toml::de::DeValue::Array(items) => Opened::List(
            items.into_iter().map(|item| item.into_inner()).collect(),
        ),
        toml::de::DeValue::Table(table) => Opened::Table(
            table.into_iter().map(|(k, v)| (k.into_inner().into_owned(), v.into_inner())).collect(),
        ),
        toml::de::DeValue::Datetime(date) => Opened::Date(date.to_string()),
        toml::de::DeValue::Integer(_) => Opened::Other,
        toml::de::DeValue::Float(_) => Opened::Other,
    }
}

/// Reads a text with `toml::de::DeTable::parse`, which is what `toml::from_str`
/// reads a document with. The rows come in ascending order of names. Which texts
/// are documents, and what they hold, is named, not described.
#[verifier::external_body]
fn parse_document<'i>(text: &'i str) -> (r: Result<Vec<(String, toml::de::DeValue<'i>)>, toml::de::Error>)
    ensures
        match r {
            Ok(rows) => parsed_document(text@) == Some(rows_read(rows@)) && ascending(
                rows_read(rows@),
            ),
            Err(_) => parsed_document(text@) is None,
        },
{
    toml::de::DeTable::parse(text).map(|table| {
        let rows = table.into_inner().into_iter();
        rows.map(|(k, v)| (k.into_inner().into_owned(), v.into_inner())).collect()
    })
}

/// What the values of an array to be written hold.
pub open spec fn items_hold(items: Seq<toml::Value>) -> Seq<Node> {
    items.map_values(|v: toml::Value| value_holds(v))
}

/// What the rows of a table to be written hold.
pub open spec fn rows_hold(rows: Seq<(String, toml::Value)>) -> Seq<(Seq<char>, Node)> {
    rows.map_values(|r: (String, toml::Value)| (r.0@, value_holds(r.1)))
}

/// `toml::Value::String` holds the string it is made of.
#[verifier::external_body]
pub(crate) fn text_value(text: String) -> (value: toml::Value)
    ensures
        value_holds(value) == Node::Text(text@),
{
    toml::Value::String(text)
}

/// `toml::Value::Boolean` holds the boolean it is made of.
#[verifier::external_body]
pub(crate) fn flag_value(flag: bool) -> (value: toml::Value)
    ensures
        value_holds(value) == Node::Flag(flag),
{
    toml::Value::Boolean(flag)
}

/// `toml::Value::Array` holds the values it is made of, in their order.
#[verifier::external_body]
pub(crate) fn list_value(items: Vec<toml::Value>) -> (value: toml::Value)
    ensures
        value_holds(value) == Node::List(items_hold(items@)),
{
    toml::Value::Array(items)
}

/// `toml::Value::Table` holds the rows it is made of. They are given in ascending
/// order of names, which is the order in which a `toml::Table` keeps them.
#[verifier::external_body]
pub(crate) fn table_value(rows: Vec<(String, toml::Value)>) -> (value: toml::Value)
    requires
        ascending(rows_hold(rows@)),
    ensures
        value_holds(value) == Node::Table(rows_hold(rows@)),
{
    toml::Value::Table(rows.into_iter().collect())
}

/// Writes a top-level table with `toml::to_string`, which does not fail on a
/// configuration whose layers and sequences are tables: it is made of texts, flags, lists and
/// tables only, a few levels deep. The text is named, not described, but for two facts:
/// reading it gives the same rows back, and it is empty where there are no rows.
#[verifier::external_body]
pub(crate) fn write_document(rows: Vec<(String, toml::Value)>) -> (text: String)
    requires
        ascending(rows_hold(rows@)),
        bad_field(rows_hold(rows@)) is None,
        is_made_of_tables(rows_hold(rows@)),
    ensures
        text@ == written_document(rows_hold(rows@)),
        parsed_document(text@) == Some(rows_hold(rows@)),
        rows@.len() == 0 ==> text@.len() == 0,
{
    toml::to_string(&rows.into_iter().collect::<toml::Table>()).expect("a configuration serializes")
}

/// A chord's value in a configuration: an action name, or a flag, of which `false`
/// declares the chord unbound.
pub enum Raw {
    /// An action name.
    Action(Seq<char>),
    /// A flag.
    Bool(bool),
}

/// What a configuration document says.
pub struct Config {
    /// The rows of the `[keys]` table.
    pub keys: Seq<(Seq<char>, Raw)>,
    /// The `[layers.<name>]` tables, in ascending order of names.
    pub layers: Seq<(Seq<char>, Seq<(Seq<char>, Raw)>)>,
    /// The `[[sequences]]`: the spellings of the keys, and the action name.
    pub sequences: Seq<(Seq<Seq<char>>, Seq<char>)>,
}

/// The chord value that a node is: a string or a boolean.
pub open spec fn raw_of(node: Node) -> Option<Raw> {
    match node {
        Node::Text(s) => Some(Raw::Action(s)),
        Node::Flag(b) => Some(Raw::Bool(b)),
        _ => None,
    }
}

/// The name of the one row of the table that a date stands for: the `toml` crate hands
/// a date on as a table of its text under this name.
pub const DATE_FIELD: &'static str = "$__toml_private_datetime";

/// The node is a table of chord values, or a date, which stands for such a table.
pub open spec fn is_layer(node: Node) -> bool {
    match node {
        Node::Table(rows) => forall|i: int|
            0 <= i < rows.len() ==> raw_of((#[trigger] rows[i]).1) is Some,
        Node::Date(_) => true,
        _ => false,
    }
}

/// The rows of a table of chord values.
pub open spec fn layer_of(node: Node) -> Seq<(Seq<char>, Raw)> {
    match node {
        Node::Date(text) => seq![(DATE_FIELD@, Raw::Action(text))],
        _ => node->Table_0.map_values(|r: (Seq<char>, Node)| (r.0, raw_of(r.1)->0)),
    }
}

/// The node is a table of layers.
pub open spec fn is_layers(node: Node) -> bool {
    node matches Node::Table(rows) && forall|i: int|
        0 <= i < rows.len() ==> is_layer((#[trigger] rows[i]).1)
}

/// The layers of a table of layers.
pub open spec fn layers_of(node: Node) -> Seq<(Seq<char>, Seq<(Seq<char>, Raw)>)> {
    node->Table_0.map_values(|r: (Seq<char>, Node)| (r.0, layer_of(r.1)))
}

/// The node is an array of strings.
pub open spec fn is_texts(node: Node) -> bool {
    node matches Node::List(items) && forall|i: int|
        0 <= i < items.len() ==> (#[trigger] items[i]) is Text
}

/// The strings of an array of strings.
pub open spec fn texts_of(node: Node) -> Seq<Seq<char>> {
    node->List_0.map_values(|n: Node| n->Text_0)
}

/// The sequence that a node is: a table of exactly `action`, a string, and `keys`,
/// an array of strings; or an array that begins with the keys and the action.
pub open spec fn sequence_of(node: Node) -> Option<(Seq<Seq<char>>, Seq<char>)> {
    match node {
        Node::Table(rows) => if rows.len() == 2 && rows[0].0 == "action"@ && rows[1].0 == "keys"@
            && rows[0].1 is Text && is_texts(rows[1].1) {
            Some((texts_of(rows[1].1), rows[0].1->Text_0))
        } else {
            None
        },
        Node::List(items) => if items.len() >= 2 && is_texts(items[0]) && items[1] is Text {
            Some((texts_of(items[0]), items[1]->Text_0))
        } else {
            None
        },
        _ => None,
    }
}

/// The node is an array of sequences.
pub open spec fn is_sequences(node: Node) -> bool {
    node matches Node::List(items) && forall|i: int|
        0 <= i < items.len() ==> sequence_of(#[trigger] items[i]) is Some
}

/// The sequences of an array of sequences.
pub open spec fn sequences_of(node: Node) -> Seq<(Seq<Seq<char>>, Seq<char>)> {
    node->List_0.map_values(|n: Node| sequence_of(n)->0)
}

/// A top-level field of a configuration: one of three names, each with its shape.
pub open spec fn is_field(row: (Seq<char>, Node)) -> bool {
    ||| row.0 == "keys"@ && is_layer(row.1)
    ||| row.0 == "layers"@ && is_layers(row.1)
    ||| row.0 == "sequences"@ && is_sequences(row.1)
}

/// The first top-level field that a configuration does not have, if there is one.
pub open spec fn bad_field(rows: Seq<(Seq<char>, Node)>) -> Option<Seq<char>>
    decreases rows.len(),
{
    if rows.len() == 0 {
        None
    } else {
        match bad_field(rows.drop_last()) {
            Some(name) => Some(name),
            None => if is_field(rows.last()) {
                None
            } else {
                Some(rows.last().0)
            },
        }
    }
}

/// The fields are tables and arrays of tables, and so is each layer.
pub open spec fn is_made_of_tables(rows: Seq<(Seq<char>, Node)>) -> bool {
    forall|i: int|
        0 <= i < rows.len() ==> match (#[trigger] rows[i]).1 {
            Node::Table(inner) => rows[i].0 == "layers"@ ==> forall|j: int|
                0 <= j < inner.len() ==> (#[trigger] inner[j]).1 is Table,
            Node::List(items) => forall|j: int|
                0 <= j < items.len() ==> (#[trigger] items[j]) is Table,
            _ => false,
        }
}

/// The configuration that consists of no table.
pub open spec fn empty_config() -> Config {
    Config { keys: Seq::empty(), layers: Seq::empty(), sequences: Seq::empty() }
}

/// The configuration with one more field.
pub open spec fn with_field(config: Config, row: (Seq<char>, Node)) -> Config {
    if row.0 == "keys"@ {
        Config { keys: layer_of(row.1), ..config }
    } else if row.0 == "layers"@ {
        Config { layers: layers_of(row.1), ..config }
    } else {
        Config { sequences: sequences_of(row.1), ..config }
    }
}

/// What the fields of a configuration say.
pub open spec fn config_of(rows: Seq<(Seq<char>, Node)>) -> Config
    decreases rows.len(),
{
    if rows.len() == 0 {
        empty_config()
    } else {
        with_field(config_of(rows.drop_last()), rows.last())
    }
}

/// Why a text is not a configuration document.
#[derive(Debug)]
pub enum TomlError {
    /// The text is not valid TOML.
    Syntax(toml::de::Error),
    /// A top-level field is unknown, or its value has the wrong shape. The field is named;
    /// what in it is wrong, and where it stands in the text, is not.
    Shape {
        /// The name of the field.
        field: String,
    },
}

/// A chord's value as it is read.
#[derive(Debug)]
pub enum RawValue {
    /// An action name.
    Action(String),
    /// A flag.
    Bool(bool),
}

impl View for RawValue {
    type V = Raw;

    open spec fn view(&self) -> Raw {
        match *self {
            RawValue::Action(s) => Raw::Action(s@),
            RawValue::Bool(b) => Raw::Bool(b),
        }
    }
}

/// A sequence as it is read.
#[derive(Debug)]
pub struct RawSequence {
    /// The spellings of the keys.
    pub keys: Vec<String>,
    /// The action name.
    pub action: String,
}

impl View for RawSequence {
    type V = (Seq<Seq<char>>, Seq<char>);

    open spec fn view(&self) -> (Seq<Seq<char>>, Seq<char>) {
        (crate::capture::texts(self.keys@), self.action@)
    }
}

/// A configuration as it is read.
#[derive(Debug)]
pub struct RawConfig {
    /// The rows of the `[keys]` table.
    pub keys: Vec<(String, RawValue)>,
    /// The `[layers.<name>]` tables.
    pub layers: Vec<(String, Vec<(String, RawValue)>)>,
    /// The `[[sequences]]`.
    pub sequences: Vec<RawSequence>,
}

/// What the rows of a layer say.
pub open spec fn raw_rows(rows: Seq<(String, RawValue)>) -> Seq<(Seq<char>, Raw)> {
    rows.map_values(|r: (String, RawValue)| (r.0@, r.1@))
}

/// What the layers say.
pub open spec fn raw_layers(layers: Seq<(String, Vec<(String, RawValue)>)>) -> Seq<
    (Seq<char>, Seq<(Seq<char>, Raw)>),
> {
    layers.map_values(|l: (String, Vec<(String, RawValue)>)| (l.0@, raw_rows(l.1@)))
}

/// What the sequences say.
pub open spec fn raw_sequences(seqs: Seq<RawSequence>) -> Seq<(Seq<Seq<char>>, Seq<char>)> {
    seqs.map_values(|s: RawSequence| s@)
}

impl View for RawConfig {
    type V = Config;

    open spec fn view(&self) -> Config {
        Config {
            keys: raw_rows(self.keys@),
            layers: raw_layers(self.layers@),
            sequences: raw_sequences(self.sequences@),
        }
    }
}

/// Reads a table of chord values.
fn read_layer(value: toml::de::DeValue<'_>) -> (r: Option<Vec<(String, RawValue)>>)
    ensures
        match r {
            Some(rows) => is_layer(value_read(value)) && raw_rows(rows@) == layer_of(
                value_read(value),
            ),
            None => !is_layer(value_read(value)),
        },
{
    let ghost node = value_read(value);
    let rows = match open_value(value) {
        Opened::Table(rows) => rows,
        Opened::Date(text) => {
            let mut out: Vec<(String, RawValue)> = Vec::new();
            out.push((copy_text(DATE_FIELD), RawValue::Action(text)));
            assert(raw_rows(out@) =~= layer_of(node));
            return Some(out);
        },
        _ => {
            return None;
        },
    };
    let ghost held = rows_read(rows@);
    let mut rest = rows;
    let mut out: Vec<(String, RawValue)> = Vec::new();
    assert(rest@ =~= rows@.skip(0));
    while rest.len() > 0
        invariant
            held == rows_read(rows@),
            node == Node::Table(held),
            node == value_read(value),
            out.len() + rest.len() == rows.len(),
            rest@ == rows@.skip(out.len() as int),
            forall|i: int|
                0 <= i < out.len() ==> raw_of((#[trigger] held[i]).1) is Some && raw_rows(out@)[i]
                    == (held[i].0, raw_of(held[i].1)->0),
        decreases rest.len(),
    {
        let ghost n = out.len() as int;
        let (name, item) = rest.remove(0);
        assert(rows@[n] == (name, item));
        assert(held[n] == (name@, value_read(item)));
        let raw = match open_value(item) {
            Opened::Text(s) => RawValue::Action(s),
            Opened::Flag(b) => RawValue::Bool(b),
            _ => {
                assert(raw_of(held[n].1) is None);
                return None;
            },
        };
        let ghost before = out@;
        out.push((name, raw));
        assert(rest@ =~= rows@.skip(out.len() as int));
        assert forall|i: int| 0 <= i < out.len() implies raw_of((#[trigger] held[i]).1) is Some
            && raw_rows(out@)[i] == (held[i].0, raw_of(held[i].1)->0) by {
            if i < n {
                assert(raw_rows(before)[i] == raw_rows(out@)[i]);
            }
        }
    }
    assert(raw_rows(out@) =~= layer_of(node));
    Some(out)
}

/// Reads a table of layers.
fn read_layers(value: toml::de::DeValue<'_>) -> (r: Option<Vec<(String, Vec<(String, RawValue)>)>>)
    ensures
        match r {
            Some(layers) => is_layers(value_read(value)) && raw_layers(layers@) == layers_of(
                value_read(value),
            ),
            None => !is_layers(value_read(value)),
        },
{
    let ghost node = value_read(value);
    let rows = match open_value(value) {
        Opened::Table(rows) => rows,
        _ => {
            return None;
        },
    };
    let ghost held = rows_read(rows@);
    let mut rest = rows;
    let mut out: Vec<(String, Vec<(String, RawValue)>)> = Vec::new();
    assert(rest@ =~= rows@.skip(0));
    while rest.len() > 0
        invariant
            held == rows_read(rows@),
            node == Node::Table(held),
            node == value_read(value),
            out.len() + rest.len() == rows.len(),
            rest@ == rows@.skip(out.len() as int),
            forall|i: int|
                0 <= i < out.len() ==> is_layer((#[trigger] held[i]).1) && raw_layers(out@)[i] == (
                    held[i].0,
                    layer_of(held[i].1),
                ),
        decreases rest.len(),
    {
        let ghost n = out.len() as int;
        let (name, item) = rest.remove(0);
        assert(rows@[n] == (name, item));
        assert(held[n] == (name@, value_read(item)));
        let layer = match read_layer(item) {
            Some(layer) => layer,
            None => {
                proof {
                    if is_layers(node) {
                        let rows = node->Table_0;
                        assert(rows == held);
                        assert(is_layer(rows[n].1));
                    }
                }
                return None;
            },
        };
        let ghost before = out@;
        out.push((name, layer));
        assert(rest@ =~= rows@.skip(out.len() as int));
        assert forall|i: int| 0 <= i < out.len() implies is_layer((#[trigger] held[i]).1)
            && raw_layers(out@)[i] == (held[i].0, layer_of(held[i].1)) by {
            if i < n {
                assert(raw_layers(before)[i] == raw_layers(out@)[i]);
            }
        }
    }
    assert(raw_layers(out@) =~= layers_of(node));
    Some(out)
}

/// Reads an array of strings.
fn read_texts(value: toml::de::DeValue<'_>) -> (r: Option<Vec<String>>)
    ensures
        match r {
            Some(out) => is_texts(value_read(value)) && crate::capture::texts(out@) == texts_of(
                value_read(value),
            ),
            None => !is_texts(value_read(value)),
        },
{
    let ghost node = value_read(value);
    let items = match open_value(value) {
        Opened::List(items) => items,
        _ => {
            return None;
        },
    };
    let ghost held = items_read(items@);
    let mut rest = items;
    let mut out: Vec<String> = Vec::new();
    assert(rest@ =~= items@.skip(0));
    while rest.len() > 0
        invariant
            held == items_read(items@),
            node == Node::List(held),
            node == value_read(value),
            out.len() + rest.len() == items.len(),
            rest@ == items@.skip(out.len() as int),
            forall|i: int| 0 <= i < out.len() ==> (#[trigger] held[i]) == Node::Text(out@[i]@),
        decreases rest.len(),
    {
        let ghost n = out.len() as int;
        let item = rest.remove(0);
        assert(items@[n] == item);
        assert(held[n] == value_read(item));
        match open_value(item) {
            Opened::Text(s) => {
                out.push(s);
            },
            _ => {
                assert(!(held[n] is Text));
                return None;
            },
        }
        assert(rest@ =~= items@.skip(out.len() as int));
    }
    assert(crate::capture::texts(out@) =~= texts_of(node));
    Some(out)
}

/// Reads one sequence.
fn read_sequence(value: toml::de::DeValue<'_>) -> (r: Option<RawSequence>)
    ensures
        match r {
            Some(s) => sequence_of(value_read(value)) == Some(s@),
            None => sequence_of(value_read(value)) is None,
        },
{
    let ghost node = value_read(value);
    let (keys, action) = match open_value(value) {
        Opened::Table(rows) => {
            let ghost held = rows_read(rows@);
            if rows.len() != 2 || !same_text(rows[0].0.as_str(), "action") || !same_text(
                rows[1].0.as_str(),
                "keys",
            ) {
                return None;
            }
            let mut rows = rows;
            let (_, keys) = rows.remove(1);
            let (_, action) = rows.remove(0);
            assert(held[1].1 == value_read(keys) && held[0].1 == value_read(action));
            (keys, action)
        },
        Opened::List(items) => {
            let ghost held = items_read(items@);
            if items.len() < 2 {
                return None;
            }
            let mut items = items;
            let action = items.remove(1);
            let keys = items.remove(0);
            assert(held[0] == value_read(keys) && held[1] == value_read(action));
            (keys, action)
        },
        _ => {
            return None;
        },
    };
    match read_texts(keys) {
        Some(keys) => match open_value(action) {
            Opened::Text(action) => Some(RawSequence { keys, action }),
            _ => None,
        },
        None => None,
    }
}

/// Reads an array of sequences.
fn read_sequences(value: toml::de::DeValue<'_>) -> (r: Option<Vec<RawSequence>>)
    ensures
        match r {
            Some(out) => is_sequences(value_read(value)) && raw_sequences(out@) == sequences_of(
                value_read(value),
            ),
            None => !is_sequences(value_read(value)),
        },
{
    let ghost node = value_read(value);
    let items = match open_value(value) {
        Opened::List(items) => items,
        _ => {
            return None;
        },
    };
    let ghost held = items_read(items@);
    let mut rest = items;
    let mut out: Vec<RawSequence> = Vec::new();
    assert(rest@ =~= items@.skip(0));
    while rest.len() > 0
        invariant
            held == items_read(items@),
            node == Node::List(held),
            node == value_read(value),
            out.len() + rest.len() == items.len(),
            rest@ == items@.skip(out.len() as int),
            forall|i: int|
                0 <= i < out.len() ==> sequence_of(#[trigger] held[i]) == Some(out@[i]@),
        decreases rest.len(),
    {
        let ghost n = out.len() as int;
        let item = rest.remove(0);
        assert(items@[n] == item);
        assert(held[n] == value_read(item));
        match read_sequence(item) {
            Some(s) => {
                out.push(s);
            },
            None => {
                assert(sequence_of(held[n]) is None);
                return None;
            },
        }
        assert(rest@ =~= items@.skip(out.len() as int));
    }
    assert(raw_sequences(out@) =~= sequences_of(node));
    Some(out)
}

/// A bad field before the last rows is that of all the rows.
proof fn lemma_bad_field_front(rows: Seq<(Seq<char>, Node)>, n: int)
    requires
        0 <= n <= rows.len(),
        bad_field(rows.take(n)) is Some,
    ensures
        bad_field(rows) == bad_field(rows.take(n)),
    decreases rows.len(),
{
    if n == rows.len() {
        assert(rows.take(n) =~= rows);
    } else {
        assert(rows.drop_last().take(n) =~= rows.take(n));
        lemma_bad_field_front(rows.drop_last(), n);
    }
}

/// Reads a configuration document.
///
/// # Errors
///
/// [`TomlError::Syntax`] where the text is not valid TOML, and
/// [`TomlError::Shape`], with the first such field in the order of names, where a
/// top-level field is unknown or has the wrong shape.
pub fn read_config(text: &str) -> (r: Result<RawConfig, TomlError>)
    ensures
        match r {
            Ok(raw) => parsed_document(text@) matches Some(rows) && bad_field(rows) is None
                && raw@ == config_of(rows),
            Err(TomlError::Syntax(_)) => parsed_document(text@) is None,
            Err(TomlError::Shape { field }) => parsed_document(text@) matches Some(rows)
                && bad_field(rows) == Some(field@),
        },
{
    let rows = match parse_document(text) {
        Ok(rows) => rows,
        Err(e) => {
            return Err(TomlError::Syntax(e));
        },
    };
    let ghost held = rows_read(rows@);
    let ghost mut done: int = 0;
    let mut rest = rows;
    let mut raw = RawConfig { keys: Vec::new(), layers: Vec::new(), sequences: Vec::new() };
    assert(rest@ =~= rows@.skip(0));
    assert(raw@.keys =~= empty_config().keys);
    assert(raw@.layers =~= empty_config().layers);
    assert(raw@.sequences =~= empty_config().sequences);
    assert(held.take(0) =~= Seq::<(Seq<char>, Node)>::empty());
    while rest.len() > 0
        invariant
            parsed_document(text@) == Some(held),
            held == rows_read(rows@),
            0 <= done <= rows.len(),
            rest@ == rows@.skip(done),
            bad_field(held.take(done)) is None,
            raw@ == config_of(held.take(done)),
        decreases rest.len(),
    {
        let (name, value) = rest.remove(0);
        let ghost next = held.take(done + 1);
        let ghost before = raw@;
        proof {
            assert(rows@[done] == (name, value));
            assert(held[done] == (name@, value_read(value)));
            assert(next.drop_last() =~= held.take(done));
            assert(next.last() == held[done]);
            lemma_field_names();
        }
        let good = if same_text(name.as_str(), "keys") {
            match read_layer(value) {
                Some(keys) => {
                    raw.keys = keys;
                    true
                },
                None => false,
            }
        } else if same_text(name.as_str(), "layers") {
            match read_layers(value) {
                Some(layers) => {
                    raw.layers = layers;
                    true
                },
                None => false,
            }
        } else if same_text(name.as_str(), "sequences") {
            match read_sequences(value) {
                Some(sequences) => {
                    raw.sequences = sequences;
                    true
                },
                None => false,
            }
        } else {
            false
        };
        if !good {
            proof {
                assert(bad_field(next) == Some(name@));
                lemma_bad_field_front(held, done + 1);
            }
            return Err(TomlError::Shape { field: name });
        }
        proof {
            assert(raw@ == with_field(before, held[done]));
            done = done + 1;
        }
        assert(rest@ =~= rows@.skip(done));
    }
    assert(held.take(done) =~= held);
    Ok(raw)
}

/// The three field names differ.
pub(crate) proof fn lemma_field_names()
    ensures
        "keys"@ != "layers"@,
        "keys"@ != "sequences"@,
        "layers"@ != "sequences"@,
{
    reveal_strlit("keys");
    reveal_strlit("layers");
    reveal_strlit("sequences");
    assert("keys"@.len() == 4 && "layers"@.len() == 6 && "sequences"@.len() == 9);
}

/// The rows are what a table of chord values says: name by name, a string is an action name
/// and a boolean a flag. A date is read as a table of its own text.
pub open spec fn table_reads(node: Node, rows: Seq<(Seq<char>, Raw)>) -> bool {
    match node {
        Node::Table(inner) => rows.len() == inner.len() && forall|k: int|
            0 <= k < inner.len() ==> (#[trigger] rows[k]).0 == inner[k].0 && match inner[k].1 {
                Node::Text(s) => rows[k].1 == Raw::Action(s),
                Node::Flag(b) => rows[k].1 == Raw::Bool(b),
                _ => false,
            },
        Node::Date(text) => rows == seq![(DATE_FIELD@, Raw::Action(text))],
        _ => false,
    }
}

/// The layers are what a table of tables says.
pub open spec fn layers_read(
    node: Node,
    layers: Seq<(Seq<char>, Seq<(Seq<char>, Raw)>)>,
) -> bool {
    node matches Node::Table(inner) && layers.len() == inner.len() && forall|k: int|
        0 <= k < inner.len() ==> (#[trigger] layers[k]).0 == inner[k].0 && table_reads(
            inner[k].1,
            layers[k].1,
        )
}

/// The texts are those of an array of strings.
pub open spec fn list_reads(node: Node, texts: Seq<Seq<char>>) -> bool {
    node matches Node::List(items) && texts.len() == items.len() && forall|k: int|
        0 <= k < items.len() ==> items[k] == Node::Text(#[trigger] texts[k])
}

/// The sequence is what a node says: keys and an action, by name in a table that holds
/// nothing else, or in this order at the front of an array.
pub open spec fn sequence_reads(node: Node, keys: Seq<Seq<char>>, action: Seq<char>) -> bool {
    match node {
        Node::Table(rows) => rows.len() == 2 && rows[0] == ("action"@, Node::Text(action))
            && rows[1].0 == "keys"@ && list_reads(rows[1].1, keys),
        Node::List(items) => items.len() >= 2 && list_reads(items[0], keys) && items[1]
            == Node::Text(action),
        _ => false,
    }
}

/// The sequences are what an array says.
pub open spec fn sequences_read(node: Node, seqs: Seq<(Seq<Seq<char>>, Seq<char>)>) -> bool {
    node matches Node::List(items) && seqs.len() == items.len() && forall|k: int|
        0 <= k < items.len() ==> sequence_reads(
            items[k],
            (#[trigger] seqs[k]).0,
            seqs[k].1,
        )
}

/// A layer is read off a table exactly where one can be.
proof fn lemma_layer_reads(node: Node)
    ensures
        is_layer(node) ==> table_reads(node, layer_of(node)),
        forall|rows: Seq<(Seq<char>, Raw)>| #[trigger]
            table_reads(node, rows) ==> is_layer(node) && rows == layer_of(node),
{
    if is_layer(node) {
        if let Node::Table(inner) = node {
            let rows = layer_of(node);
            assert forall|k: int| 0 <= k < inner.len() implies (#[trigger] rows[k]).0 == inner[k].0
                && match inner[k].1 {
                Node::Text(s) => rows[k].1 == Raw::Action(s),
                Node::Flag(b) => rows[k].1 == Raw::Bool(b),
                _ => false,
            } by {
                assert(raw_of(inner[k].1) is Some);
            }
        }
    }
    assert forall|rows: Seq<(Seq<char>, Raw)>| #[trigger] table_reads(node, rows) implies is_layer(
        node,
    ) && rows == layer_of(node) by {
        if let Node::Table(inner) = node {
            assert forall|k: int| 0 <= k < inner.len() implies raw_of((#[trigger] inner[k]).1) is Some
                && rows[k] == layer_of(node)[k] by {
                assert(rows[k].0 == inner[k].0);
            }
            assert(rows =~= layer_of(node));
        }
    }
}

/// Texts are read off an array exactly where they can be.
proof fn lemma_list_reads(node: Node)
    ensures
        is_texts(node) ==> list_reads(node, texts_of(node)),
        forall|texts: Seq<Seq<char>>| #[trigger]
            list_reads(node, texts) ==> is_texts(node) && texts == texts_of(node),
{
    if is_texts(node) {
        let items = node->List_0;
        assert forall|k: int| 0 <= k < items.len() implies items[k] == Node::Text(
            #[trigger] texts_of(node)[k],
        ) by {
            assert(items[k] is Text);
        }
    }
    assert forall|texts: Seq<Seq<char>>| #[trigger] list_reads(node, texts) implies is_texts(node)
        && texts == texts_of(node) by {
        let items = node->List_0;
        assert forall|k: int| 0 <= k < items.len() implies (#[trigger] items[k]) is Text && texts[k]
            == texts_of(node)[k] by {
            assert(items[k] == Node::Text(texts[k]));
        }
        assert(texts =~= texts_of(node));
    }
}

/// A sequence is read off a node exactly where one can be.
proof fn lemma_sequence_reads(node: Node)
    ensures
        sequence_of(node) matches Some(s) ==> sequence_reads(node, s.0, s.1),
        forall|keys: Seq<Seq<char>>, action: Seq<char>| #[trigger]
            sequence_reads(node, keys, action) ==> sequence_of(node) == Some((keys, action)),
{
    match node {
        Node::Table(rows) => {
            if rows.len() == 2 {
                lemma_list_reads(rows[1].1);
            }
        },
        Node::List(items) => {
            if items.len() >= 2 {
                lemma_list_reads(items[0]);
            }
        },
        _ => {},
    }
}

/// A document is a configuration where each of its fields is one of three, of the shape of
/// a table of chords, a table of such tables, or an array of sequences; the first field that
/// is not is the one that is reported.
pub proof fn law_fields_have_their_shapes(row: (Seq<char>, Node))
    ensures
        is_field(row) <==> {
            ||| row.0 == "keys"@ && exists|r: Seq<(Seq<char>, Raw)>| #[trigger]
                table_reads(row.1, r)
            ||| row.0 == "layers"@ && exists|l: Seq<(Seq<char>, Seq<(Seq<char>, Raw)>)>| #[trigger]
                layers_read(row.1, l)
            ||| row.0 == "sequences"@ && exists|s: Seq<(Seq<Seq<char>>, Seq<char>)>| #[trigger]
                sequences_read(row.1, s)
        },
{
    lemma_layer_reads(row.1);
    lemma_layers_read(row.1);
    lemma_sequences_read(row.1);
}

/// Layers are read off a table exactly where they can be.
proof fn lemma_layers_read(node: Node)
    ensures
        is_layers(node) ==> layers_read(node, layers_of(node)),
        forall|l: Seq<(Seq<char>, Seq<(Seq<char>, Raw)>)>| #[trigger]
            layers_read(node, l) ==> is_layers(node) && l == layers_of(node),
{
    if let Node::Table(inner) = node {
        assert forall|k: int| 0 <= k < inner.len() && is_layer((#[trigger] inner[k]).1) implies table_reads(
            inner[k].1,
            layer_of(inner[k].1),
        ) by {
            lemma_layer_reads(inner[k].1);
        }
        assert forall|l: Seq<(Seq<char>, Seq<(Seq<char>, Raw)>)>| #[trigger]
            layers_read(node, l) implies is_layers(node) && l == layers_of(node) by {
            assert forall|k: int| 0 <= k < inner.len() implies is_layer((#[trigger] inner[k]).1)
                && l[k] == layers_of(node)[k] by {
                assert(l[k].0 == inner[k].0 && table_reads(inner[k].1, l[k].1));
                lemma_layer_reads(inner[k].1);
            }
            assert(l =~= layers_of(node));
        }
        if is_layers(node) {
            let l = layers_of(node);
            assert forall|k: int| 0 <= k < inner.len() implies (#[trigger] l[k]).0 == inner[k].0
                && table_reads(inner[k].1, l[k].1) by {
                assert(is_layer(inner[k].1));
            }
        }
    }
}

/// Sequences are read off an array exactly where they can be.
proof fn lemma_sequences_read(node: Node)
    ensures
        is_sequences(node) ==> sequences_read(node, sequences_of(node)),
        forall|s: Seq<(Seq<Seq<char>>, Seq<char>)>| #[trigger]
            sequences_read(node, s) ==> is_sequences(node) && s == sequences_of(node),
{
    if let Node::List(items) = node {
        assert forall|s: Seq<(Seq<Seq<char>>, Seq<char>)>| #[trigger]
            sequences_read(node, s) implies is_sequences(node) && s == sequences_of(node) by {
            assert forall|k: int| 0 <= k < items.len() implies sequence_of(#[trigger] items[k]) == Some(
                s[k],
            ) by {
                assert(sequence_reads(items[k], s[k].0, s[k].1));
                lemma_sequence_reads(items[k]);
            }
            assert(s =~= sequences_of(node));
        }
        if is_sequences(node) {
            let s = sequences_of(node);
            assert forall|k: int| 0 <= k < items.len() implies sequence_reads(
                items[k],
                (#[trigger] s[k]).0,
                s[k].1,
            ) by {
                assert(sequence_of(items[k]) is Some);
                lemma_sequence_reads(items[k]);
            }
        }
    }
}

/// The first field that is none of a configuration is the one that is reported, and only
/// such a field is.
pub proof fn law_first_bad_field_is_reported(rows: Seq<(Seq<char>, Node)>)
    ensures
        bad_field(rows) is None <==> forall|i: int|
            0 <= i < rows.len() ==> is_field(#[trigger] rows[i]),
        forall|i: int|
            0 <= i < rows.len() && !is_field(#[trigger] rows[i]) && bad_field(rows.take(i)) is None
                ==> bad_field(rows) == Some(rows[i].0),
    decreases rows.len(),
{
    if rows.len() > 0 {
        let init = rows.drop_last();
        let n = rows.len() - 1;
        law_first_bad_field_is_reported(init);
        assert(rows[n] == rows.last());
        if bad_field(rows) is None {
            assert forall|i: int| 0 <= i < rows.len() implies is_field(#[trigger] rows[i]) by {
                if i < n {
                    assert(init[i] == rows[i]);
                }
            }
        }
        if forall|i: int| 0 <= i < rows.len() ==> is_field(#[trigger] rows[i]) {
            assert forall|i: int| 0 <= i < init.len() implies is_field(#[trigger] init[i]) by {
                assert(init[i] == rows[i]);
            }
        }
        assert forall|i: int|
            0 <= i < rows.len() && !is_field(#[trigger] rows[i]) && bad_field(rows.take(i)) is None implies bad_field(rows) == Some(rows[i].0) by {
            if i < n {
                assert(init[i] == rows[i]);
                assert(init.take(i) =~= rows.take(i));
            } else {
                assert(rows.take(i) =~= init);
            }
        }
    }
}

/// A configuration says what its fields say, each of them in full, and what has no field
/// is empty.
pub proof fn law_configuration_is_its_fields(rows: Seq<(Seq<char>, Node)>)
    requires
        ascending(rows),
        bad_field(rows) is None,
    ensures
        forall|i: int|
            0 <= i < rows.len() && (#[trigger] rows[i]).0 == "keys"@ ==> table_reads(
                rows[i].1,
                config_of(rows).keys,
            ),
        forall|i: int|
            0 <= i < rows.len() && (#[trigger] rows[i]).0 == "layers"@ ==> layers_read(
                rows[i].1,
                config_of(rows).layers,
            ),
        forall|i: int|
            0 <= i < rows.len() && (#[trigger] rows[i]).0 == "sequences"@ ==> sequences_read(
                rows[i].1,
                config_of(rows).sequences,
            ),
        (forall|i: int| 0 <= i < rows.len() ==> (#[trigger] rows[i]).0 != "keys"@) ==> config_of(
            rows,
        ).keys.len() == 0,
        (forall|i: int| 0 <= i < rows.len() ==> (#[trigger] rows[i]).0 != "layers"@) ==> config_of(
            rows,
        ).layers.len() == 0,
        (forall|i: int| 0 <= i < rows.len() ==> (#[trigger] rows[i]).0 != "sequences"@)
            ==> config_of(rows).sequences.len() == 0,
    decreases rows.len(),
{
    if rows.len() > 0 {
        let init = rows.drop_last();
        let last = rows.last();
        let n = rows.len() - 1;
        assert(rows[n] == last);
        assert forall|i: int, j: int| 0 <= i < j < init.len() implies text_before(
            (#[trigger] init[i]).0,
            (#[trigger] init[j]).0,
        ) by {
            assert(text_before(rows[i].0, rows[j].0));
        }
        law_configuration_is_its_fields(init);
        lemma_field_names();
        lemma_layer_reads(last.1);
        lemma_layers_read(last.1);
        lemma_sequences_read(last.1);
        assert(is_field(last));
        assert forall|i: int| 0 <= i < n implies (#[trigger] rows[i]) == init[i] && rows[i].0 != last.0 by {
            assert(text_before(rows[i].0, rows[n].0));
            lemma_text_irreflexive(last.0);
        }
    }
}

/// What was read says what it holds, one by one: rows, layers and sequences.
pub proof fn law_raw_values_say_what_they_hold(raw: RawConfig, value: RawValue)
    ensures
        value matches RawValue::Action(s) ==> value@ == Raw::Action(s@),
        value matches RawValue::Bool(b) ==> value@ == Raw::Bool(b),
        raw@.keys.len() == raw.keys@.len(),
        forall|i: int|
            0 <= i < raw.keys@.len() ==> #[trigger] raw@.keys[i] == (
                raw.keys@[i].0@,
                raw.keys@[i].1@,
            ),
        raw@.layers.len() == raw.layers@.len(),
        forall|i: int|
            0 <= i < raw.layers@.len() ==> (#[trigger] raw@.layers[i]).0 == raw.layers@[i].0@
                && raw@.layers[i].1.len() == raw.layers@[i].1@.len(),
        forall|i: int, j: int|
            0 <= i < raw.layers@.len() && 0 <= j < raw.layers@[i].1@.len()
                ==> #[trigger] raw@.layers[i].1[j] == (
                raw.layers@[i].1@[j].0@,
                raw.layers@[i].1@[j].1@,
            ),
        raw@.sequences.len() == raw.sequences@.len(),
        forall|i: int|
            0 <= i < raw.sequences@.len() ==> #[trigger] raw@.sequences[i] == (
                crate::capture::texts(raw.sequences@[i].keys@),
                raw.sequences@[i].action@,
            ),
{
}

} // verus!
