//! Builds keymaps from a TOML configuration, resolving action names with a
//! caller-supplied function and reporting problems that should not silently pass.
//!
//! Bindings live in *layers*. The bare top-level `[keys]` table is the
//! [`GLOBAL_LAYER`] layer; additional `[layers.<name>]` tables each build a layer of
//! that name. Which layers are active, and in what order, is the caller's concern:
//! the same chord in two layers is an *override*, not a conflict.
//!
//! Structural problems are [`BuildError`]: there is no usable map to return.
//! Survivable problems are collected into [`BuildOutput::warnings`].
//!
//! An `[[sequences]]` array of tables binds *sequences* of chords.
use crate::cross::{cross_shadows, detect_cross_shadows};
use crate::document::{bad_field, config_of, parsed_document, raw_layers, raw_rows, read_config,
    Config, Raw, RawConfig, RawValue, TomlError};
use crate::error::{BuildError, ErrorView};
use crate::input::KeyInput;
use crate::keymap::Keymap;
use crate::layer::{are_lines, build_layer, layer_map, layer_names, layer_warnings, names_are,
    rows_error, tombstones, Line};
use crate::names::NameMap;
use crate::seqbuild::{are_seq_lines, are_seq_warnings, build_sequences, seq_state, sequences_error,
    told, SeqLine};
use crate::sequence::SequenceKeymap;
use crate::text::{copy_text, same_text};
use crate::warning::{warning_views, Warning, WarningView};
use vstd::prelude::*;

verus! {

/// The name of the layer built from the top-level `[keys]` table.
///
/// The bare `[keys]` table (and an explicit `[layers.global]`, if present) build
/// the layer under this key, which is **always present** in
/// [`BuildOutput::layers`] even when empty. Every other layer name is opaque to the
/// library.
pub const GLOBAL_LAYER: &'static str = "global";

/// The result of a successful build: the named layers plus any non-fatal warnings.
#[derive(Debug)]
pub struct BuildOutput<A> {
    /// The assembled layers, keyed by name. Always contains the [`GLOBAL_LAYER`].
    pub layers: NameMap<Keymap<A>>,
    /// The assembled sequence map; empty when the config has no sequences.
    pub sequences: SequenceKeymap<A>,
    /// Problems that did not prevent building, in the order they were seen.
    pub warnings: Vec<Warning>,
    /// Chords declared as tombstones (`= false`) in the config, grouped by layer
    /// name. Empty when the config has no `= false` declarations.
    pub unbinds: NameMap<Vec<KeyInput>>,
}

/// The layers are the wanted ones.
pub open spec fn layers_are<A>(
    layers: Map<Seq<char>, Keymap<A>>,
    want: Map<Seq<char>, Map<KeyInput, A>>,
) -> bool {
    &&& layers.dom() == want.dom()
    &&& forall|n: Seq<char>| #[trigger] layers.contains_key(n) ==> layers[n]@ == want[n]
}

/// The unbind declarations are the wanted ones.
pub open spec fn unbinds_are(
    unbinds: Map<Seq<char>, Vec<KeyInput>>,
    want: Map<Seq<char>, Seq<KeyInput>>,
) -> bool {
    &&& unbinds.dom() == want.dom()
    &&& forall|n: Seq<char>| #[trigger] unbinds.contains_key(n) ==> unbinds[n]@ == want[n]
}

impl<A> BuildOutput<A> {
    /// The [`GLOBAL_LAYER`] layer (built from the top-level `[keys]` table).
    #[must_use]
    pub fn global(&self) -> (keymap: &Keymap<A>)
        requires
            self.layers@.contains_key(GLOBAL_LAYER@),
        ensures
            *keymap == self.layers@[GLOBAL_LAYER@],
    {
        self.layers.get(GLOBAL_LAYER).unwrap()
    }
}

/// The keymap is a clone of the other.
pub open spec fn keymap_cloned<A: Clone>(a: Map<KeyInput, A>, b: Map<KeyInput, A>) -> bool {
    &&& b.dom() == a.dom()
    &&& forall|k: KeyInput| #[trigger] b.contains_key(k) ==> cloned::<A>(a[k], b[k])
}

impl<A: Clone> Clone for BuildOutput<A> {
    fn clone(&self) -> (out: Self)
        ensures
            out.layers@.dom() == self.layers@.dom(),
            forall|n: Seq<char>| #[trigger]
                out.layers@.contains_key(n) ==> keymap_cloned(self.layers@[n]@, out.layers@[n]@),
            out.sequences@.dom() == self.sequences@.dom(),
            forall|s: Seq<KeyInput>| #[trigger]
                out.sequences@.contains_key(s) ==> cloned::<A>(
                    self.sequences@[s],
                    out.sequences@[s],
                ),
            warning_views(out.warnings@) == warning_views(self.warnings@),
            out.unbinds@.dom() == self.unbinds@.dom(),
            forall|n: Seq<char>| #[trigger]
                out.unbinds@.contains_key(n) ==> out.unbinds@[n]@ == self.unbinds@[n]@,
    {
        let mut warnings: Vec<Warning> = Vec::new();
        let mut i: usize = 0;
        while i < self.warnings.len()
            invariant
                i <= self.warnings.len(),
                warnings.len() == i,
                forall|j: int| 0 <= j < i ==> (#[trigger] warnings@[j])@ == self.warnings@[j]@,
            decreases self.warnings.len() - i,
        {
            warnings.push(self.warnings[i].clone());
            i = i + 1;
        }
        assert(warning_views(warnings@) =~= warning_views(self.warnings@));
        let layers = self.layers.clone();
        let unbinds = self.unbinds.clone();
        proof {
            assert forall|n: Seq<char>| #[trigger] unbinds@.contains_key(n) implies unbinds@[n]@
                == self.unbinds@[n]@ by {
                assert(cloned::<Vec<KeyInput>>(self.unbinds@[n], unbinds@[n]));
                assert(unbinds@[n]@ =~= self.unbinds@[n]@);
            }
        }
        BuildOutput { layers, sequences: self.sequences.clone(), warnings, unbinds }
    }
}

/// The layers but the global one.
pub open spec fn named_layers(
    layers: Seq<(Seq<char>, Seq<(Seq<char>, Raw)>)>,
) -> Seq<(Seq<char>, Seq<(Seq<char>, Raw)>)>
    decreases layers.len(),
{
    if layers.len() == 0 {
        Seq::empty()
    } else if layers.last().0 == GLOBAL_LAYER@ {
        named_layers(layers.drop_last())
    } else {
        named_layers(layers.drop_last()).push(layers.last())
    }
}

/// The rows of an explicit `[layers.global]`, if there is one.
pub open spec fn explicit_global(
    layers: Seq<(Seq<char>, Seq<(Seq<char>, Raw)>)>,
) -> Seq<(Seq<char>, Raw)>
    decreases layers.len(),
{
    if layers.len() == 0 {
        Seq::empty()
    } else if layers.last().0 == GLOBAL_LAYER@ {
        explicit_global(layers.drop_last()) + layers.last().1
    } else {
        explicit_global(layers.drop_last())
    }
}

/// All layers in the order in which they are built: the global one, made of the
/// `[keys]` table and an explicit `[layers.global]`, then the others by name.
pub open spec fn all_layers(config: Config) -> Seq<(Seq<char>, Seq<(Seq<char>, Raw)>)> {
    seq![(GLOBAL_LAYER@, config.keys + explicit_global(config.layers))] + named_layers(
        config.layers,
    )
}

/// The first thing that is fatal about the layers.
pub open spec fn layers_error(layers: Seq<(Seq<char>, Seq<(Seq<char>, Raw)>)>) -> Option<ErrorView>
    decreases layers.len(),
{
    if layers.len() == 0 {
        None
    } else {
        match layers_error(layers.drop_last()) {
            Some(e) => Some(e),
            None => rows_error(layers.last().1),
        }
    }
}

/// What is fatal about a configuration: the first problem of its layers, or else of
/// its sequences.
pub open spec fn config_error(config: Config) -> Option<ErrorView> {
    match layers_error(all_layers(config)) {
        Some(e) => Some(e),
        None => sequences_error(config.sequences),
    }
}

/// What is fatal about a text: that it is no TOML, or not of the shape of a
/// configuration, or what is fatal about the configuration.
pub open spec fn text_error(text: Seq<char>) -> Option<ErrorView> {
    match parsed_document(text) {
        None => Some(ErrorView::Toml),
        Some(rows) => if bad_field(rows) is Some {
            Some(ErrorView::Toml)
        } else {
            config_error(config_of(rows))
        },
    }
}

/// The bindings of the layers, by name.
pub open spec fn layer_maps<A>(
    layers: Seq<(Seq<char>, Seq<(Seq<char>, Raw)>)>,
    lines: Seq<Seq<Line<A>>>,
) -> Map<Seq<char>, Map<KeyInput, A>>
    decreases layers.len(),
{
    if layers.len() == 0 {
        Map::empty()
    } else {
        layer_maps(layers.drop_last(), lines).insert(
            layers.last().0,
            layer_map(lines[layers.len() - 1]),
        )
    }
}

/// The chords that the layers declare unbound, by name; no entry for a layer that
/// declares none.
pub open spec fn unbind_lists<A>(
    layers: Seq<(Seq<char>, Seq<(Seq<char>, Raw)>)>,
    lines: Seq<Seq<Line<A>>>,
) -> Map<Seq<char>, Seq<KeyInput>>
    decreases layers.len(),
{
    if layers.len() == 0 {
        Map::empty()
    } else {
        let chords = tombstones(lines[layers.len() - 1]);
        let before = unbind_lists(layers.drop_last(), lines);
        if chords.len() > 0 {
            before.insert(layers.last().0, chords)
        } else {
            before
        }
    }
}

/// The warnings on the layers, one after the other.
pub open spec fn all_layer_warnings<A>(lines: Seq<Seq<Line<A>>>) -> Seq<WarningView>
    decreases lines.len(),
{
    if lines.len() == 0 {
        Seq::empty()
    } else {
        all_layer_warnings(lines.drop_last()) + layer_warnings(lines.last())
    }
}

/// What a build went through.
pub struct Trace<A> {
    /// The lines of each layer, in the order in which they are built.
    pub layers: Seq<Seq<Line<A>>>,
    /// The lines of the sequences.
    pub sequences: Seq<SeqLine<A>>,
    /// The warnings on the sequences.
    pub told: Seq<Option<WarningView>>,
    /// The chords of the global layer that a sequence begins with.
    pub chords: Seq<KeyInput>,
    /// The warnings on those chords.
    pub cross: Seq<WarningView>,
}

/// The trace is one of building the configuration with the resolver.
pub open spec fn traces<A, F: Fn(&str) -> Option<A>>(
    config: Config,
    resolve: F,
    t: Trace<A>,
) -> bool {
    let layers = all_layers(config);
    &&& t.layers.len() == layers.len()
    &&& forall|i: int|
        0 <= i < layers.len() ==> are_lines(resolve, layers[i].1, #[trigger] t.layers[i])
    &&& are_seq_lines(resolve, config.sequences, t.sequences)
    &&& are_seq_warnings(t.sequences, t.told)
    &&& cross_shadows(
        layer_names(t.layers[0]),
        seq_state(t.sequences).names,
        t.chords,
        t.cross,
    )
}

/// The output is what the build that the trace is of gives.
pub open spec fn is_built<A>(config: Config, t: Trace<A>, out: BuildOutput<A>) -> bool {
    let layers = all_layers(config);
    &&& layers_are(out.layers@, layer_maps(layers, t.layers))
    &&& unbinds_are(out.unbinds@, unbind_lists(layers, t.layers))
    &&& out.sequences@ == seq_state(t.sequences).map
    &&& warning_views(out.warnings@) == all_layer_warnings(t.layers) + told(t.told) + t.cross
}

/// The result is that of building the text.
pub open spec fn is_load<A, F: Fn(&str) -> Option<A>>(
    text: Seq<char>,
    resolve: F,
    r: Result<BuildOutput<A>, BuildError>,
) -> bool {
    match r {
        Ok(out) => {
            &&& text_error(text) is None
            &&& out.layers@.contains_key(GLOBAL_LAYER@)
            &&& exists|t: Trace<A>| #[trigger]
                traces(config_of(parsed_document(text)->0), resolve, t) && is_built(
                    config_of(parsed_document(text)->0),
                    t,
                    out,
                )
        },
        Err(e) => {
            &&& text_error(text) == Some(e@)
            &&& (e is Toml && e->Toml_0 is Syntax) <==> parsed_document(text) is None
            &&& e matches BuildError::Toml(TomlError::Shape { field }) ==> bad_field(
                parsed_document(text)->0,
            ) == Some(field@)
        },
    }
}

/// An error in the first layers is the error of all.
proof fn lemma_layers_error_front(layers: Seq<(Seq<char>, Seq<(Seq<char>, Raw)>)>, n: int)
    requires
        0 <= n <= layers.len(),
        layers_error(layers.take(n)) is Some,
    ensures
        layers_error(layers) == layers_error(layers.take(n)),
    decreases layers.len(),
{
    if n == layers.len() {
        assert(layers.take(n) =~= layers);
    } else {
        assert(layers.drop_last().take(n) =~= layers.take(n));
        lemma_layers_error_front(layers.drop_last(), n);
    }
}

/// The bindings and declarations of the first layers depend on their lines only.
proof fn lemma_maps_of_front<A>(
    layers: Seq<(Seq<char>, Seq<(Seq<char>, Raw)>)>,
    a: Seq<Seq<Line<A>>>,
    b: Seq<Seq<Line<A>>>,
)
    requires
        forall|i: int| 0 <= i < layers.len() ==> #[trigger] a[i] == b[i],
    ensures
        layer_maps(layers, a) == layer_maps(layers, b),
        unbind_lists(layers, a) == unbind_lists(layers, b),
    decreases layers.len(),
{
    if layers.len() > 0 {
        lemma_maps_of_front(layers.drop_last(), a, b);
        assert(a[layers.len() - 1] == b[layers.len() - 1]);
    }
}

/// The global layer is always there.
proof fn lemma_global_is_there<A>(
    layers: Seq<(Seq<char>, Seq<(Seq<char>, Raw)>)>,
    lines: Seq<Seq<Line<A>>>,
)
    requires
        layers.len() > 0,
        layers[0].0 == GLOBAL_LAYER@,
    ensures
        layer_maps(layers, lines).contains_key(GLOBAL_LAYER@),
    decreases layers.len(),
{
    if layers.len() > 1 {
        lemma_global_is_there(layers.drop_last(), lines);
    }
}

/// Arranges the layers in the order in which they are built.
fn arrange_layers(
    keys: Vec<(String, RawValue)>,
    layers: Vec<(String, Vec<(String, RawValue)>)>,
) -> (all: Vec<(String, Vec<(String, RawValue)>)>)
    ensures
        raw_layers(all@) == seq![
            (GLOBAL_LAYER@, raw_rows(keys@) + explicit_global(raw_layers(layers@))),
        ] + named_layers(raw_layers(layers@)),
{
    let ghost given = raw_layers(layers@);
    let ghost keys0 = raw_rows(keys@);
    let mut global = keys;
    let mut named: Vec<(String, Vec<(String, RawValue)>)> = Vec::new();
    let mut rest = layers;
    let ghost mut done: int = 0;
    assert(rest@ =~= layers@.skip(0));
    assert(given.take(0) =~= Seq::<(Seq<char>, Seq<(Seq<char>, Raw)>)>::empty());
    assert(raw_rows(global@) =~= keys0 + explicit_global(given.take(0)));
    assert(raw_layers(named@) =~= named_layers(given.take(0)));
    while rest.len() > 0
        invariant
            given == raw_layers(layers@),
            0 <= done <= layers.len(),
            rest@ == layers@.skip(done),
            raw_rows(global@) == keys0 + explicit_global(given.take(done)),
            raw_layers(named@) == named_layers(given.take(done)),
        decreases rest.len(),
    {
        let ghost named0 = named@;
        let ghost global0 = global@;
        let (name, rows) = rest.remove(0);
        proof {
            assert(layers@[done] == (name, rows));
            assert(given[done] == (name@, raw_rows(rows@)));
            assert(given.take(done + 1).drop_last() =~= given.take(done));
            assert(given.take(done + 1).last() == given[done]);
        }
        if same_text(name.as_str(), GLOBAL_LAYER) {
            let ghost rows0 = rows@;
            let mut rows = rows;
            global.append(&mut rows);
            proof {
                assert(raw_rows(global@) =~= raw_rows(global0) + raw_rows(rows0));
                assert(raw_rows(global@) =~= keys0 + explicit_global(given.take(done + 1)));
            }
        } else {
            named.push((name, rows));
            assert(raw_layers(named@) =~= raw_layers(named0).push((name@, raw_rows(rows@))));
        }
        proof {
            done = done + 1;
        }
        assert(rest@ =~= layers@.skip(done));
    }
    assert(given.take(done) =~= given);
    let mut all: Vec<(String, Vec<(String, RawValue)>)> = Vec::new();
    all.push((copy_text(GLOBAL_LAYER), global));
    let ghost named1 = named@;
    all.append(&mut named);
    assert(raw_layers(all@) =~= seq![(GLOBAL_LAYER@, raw_rows(global@))] + raw_layers(named1));
    all
}

/// Builds the named keymaps and the sequences of a configuration that was read.
///
/// # Errors
///
/// Returns [`BuildError`] if any key string fails to parse, or if a chord is declared
/// `= true`.
pub fn build_config<A, F: Fn(&str) -> Option<A>>(raw: RawConfig, resolve: F) -> (r: Result<
    BuildOutput<A>,
    BuildError,
>)
    requires
        forall|s: &str| #[trigger] call_requires(resolve, (s,)),
    ensures
        match r {
            Ok(out) => {
                &&& config_error(raw@) is None
                &&& out.layers@.contains_key(GLOBAL_LAYER@)
                &&& exists|t: Trace<A>| #[trigger]
                    traces(raw@, resolve, t) && is_built(raw@, t, out)
            },
            Err(e) => config_error(raw@) == Some(e@) && !(e is Toml),
        },
{
    let ghost config = raw@;
    let RawConfig { keys, layers, sequences: raw_sequences } = raw;
    let all = arrange_layers(keys, layers);
    let ghost given = raw_layers(all@);
    assert(given == all_layers(config));
    let mut warnings: Vec<Warning> = Vec::new();
    let mut built: NameMap<Keymap<A>> = NameMap::new();
    let mut unbinds: NameMap<Vec<KeyInput>> = NameMap::new();
    let mut global_names: Keymap<String> = Keymap::new();
    let ghost mut lines: Seq<Seq<Line<A>>> = Seq::empty();
    let mut rest = all;
    let mut first: bool = true;
    assert(rest@ =~= all@.skip(0));
    assert(given.take(0) =~= Seq::<(Seq<char>, Seq<(Seq<char>, Raw)>)>::empty());
    assert(warning_views(warnings@) =~= all_layer_warnings(lines));
    assert(built@.dom() =~= layer_maps(given.take(0), lines).dom());
    assert(unbinds@.dom() =~= unbind_lists(given.take(0), lines).dom());
    while rest.len() > 0
        invariant
            forall|s: &str| #[trigger] call_requires(resolve, (s,)),
            config == raw@,
            given == all_layers(config),
            given == raw_layers(all@),
            lines.len() + rest.len() == all.len(),
            rest@ == all@.skip(lines.len() as int),
            first == (lines.len() == 0),
            layers_error(given.take(lines.len() as int)) is None,
            forall|i: int|
                0 <= i < lines.len() ==> are_lines(resolve, given[i].1, #[trigger] lines[i]),
            lines.len() > 0 ==> names_are(global_names@, layer_names(lines[0])),
            layers_are(built@, layer_maps(given.take(lines.len() as int), lines)),
            unbinds_are(unbinds@, unbind_lists(given.take(lines.len() as int), lines)),
            warning_views(warnings@) == all_layer_warnings(lines),
        decreases rest.len(),
    {
        let ghost n = lines.len() as int;
        let (name, rows) = rest.remove(0);
        let ghost front = given.take(n + 1);
        proof {
            assert(all@[n] == (name, rows));
            assert(given[n] == (name@, raw_rows(rows@)));
            assert(front.drop_last() =~= given.take(n));
            assert(front.last() == given[n]);
        }
        let layer = match build_layer(rows, &resolve, &mut warnings) {
            Ok(layer) => layer,
            Err(e) => {
                proof {
                    lemma_layers_error_front(given, n + 1);
                }
                return Err(e);
            },
        };
        let ghost lines0 = lines;
        let ghost built0 = built@;
        let ghost unbinds0 = unbinds@;
        proof {
            lines = lines.push(layer.lines@);
            assert(lines.drop_last() =~= lines0);
            assert forall|i: int| 0 <= i < lines.len() implies are_lines(
                resolve,
                given[i].1,
                #[trigger] lines[i],
            ) by {
                if i < n {
                    assert(lines0[i] == lines[i]);
                }
            }
            lemma_maps_of_front(given.take(n), lines0, lines);
        }
        if first {
            global_names = layer.names;
            first = false;
        }
        built.insert(name.clone(), layer.keymap);
        proof {
            let want = layer_maps(front, lines);
            assert(built@.dom() =~= want.dom());
            assert forall|k: Seq<char>| #[trigger] built@.contains_key(k) implies built@[k]@ == want[k] by {
                if k != name@ {
                    assert(built0.contains_key(k));
                }
            }
        }
        if layer.unbinds.len() > 0 {
            unbinds.insert(name, layer.unbinds);
        }
        proof {
            let want = unbind_lists(front, lines);
            assert(unbinds@.dom() =~= want.dom());
            assert forall|k: Seq<char>| #[trigger] unbinds@.contains_key(k) implies unbinds@[k]@ == want[k] by {
                if unbinds0.contains_key(k) {
                }
            }
        }
        assert(rest@ =~= all@.skip(lines.len() as int));
    }
    assert(given.take(lines.len() as int) =~= given);
    let ghost warned = warning_views(warnings@);
    let seqs = match build_sequences(raw_sequences, &resolve, &mut warnings) {
        Ok(seqs) => seqs,
        Err(e) => {
            return Err(e);
        },
    };
    let found = detect_cross_shadows(
        &global_names,
        &seqs.names,
        &mut warnings,
        Ghost(layer_names(lines[0])),
        Ghost(seq_state(seqs.lines@).names),
    );
    let out = BuildOutput { layers: built, sequences: seqs.sequences, warnings, unbinds };
    proof {
        let t = Trace {
            layers: lines,
            sequences: seqs.lines@,
            told: seqs.told@,
            chords: found.0@,
            cross: found.1@,
        };
        assert(traces(config, resolve, t));
        assert(warning_views(out.warnings@) =~= all_layer_warnings(t.layers) + told(t.told)
            + t.cross);
        assert(is_built(config, t, out));
        lemma_global_is_there(given, lines);
        assert(out.layers@.dom().contains(GLOBAL_LAYER@));
    }
    Ok(out)
}

/// Builds the named keymaps and the sequences of a configuration from a TOML
/// string.
///
/// The `[keys]` table maps key strings (see [`KeyInput::parse`]) to action names;
/// `resolve` turns each action name into the caller's action type `A`, returning
/// `None` for names it does not recognize.
///
/// # Errors
///
/// Returns [`BuildError`] if the input is not valid TOML or not of the shape of a
/// configuration, if any key string fails to parse, or if a chord is declared
/// `= true`. Unknown action names and chord conflicts are not errors — they are
/// returned in [`BuildOutput::warnings`].
pub fn from_str<A, F: Fn(&str) -> Option<A>>(toml_str: &str, resolve: F) -> (r: Result<
    BuildOutput<A>,
    BuildError,
>)
    requires
        forall|s: &str| #[trigger] call_requires(resolve, (s,)),
    ensures
        is_load(toml_str@, resolve, r),
{
    let raw = match read_config(toml_str) {
        Ok(raw) => raw,
        Err(e) => {
            return Err(BuildError::Toml(e));
        },
    };
    build_config(raw, resolve)
}

/// What a trace gives is determined by the answers of the resolver: where the
/// resolver is a function of the name, two builds of one text give the same layers,
/// the same sequences and the same declarations.
pub proof fn law_build_is_determined<A, F: Fn(&str) -> Option<A>>(
    config: Config,
    resolve: F,
    action_of: spec_fn(Seq<char>) -> Option<A>,
    s: Trace<A>,
    t: Trace<A>,
)
    requires
        forall|n: Seq<char>, a: Option<A>| #[trigger]
            crate::layer::answers(resolve, n, a) ==> a == action_of(n),
        traces(config, resolve, s),
        traces(config, resolve, t),
    ensures
        layer_maps(all_layers(config), s.layers) == layer_maps(all_layers(config), t.layers),
        unbind_lists(all_layers(config), s.layers) == unbind_lists(all_layers(config), t.layers),
        seq_state(s.sequences) == seq_state(t.sequences),
{
    let layers = all_layers(config);
    assert forall|i: int| 0 <= i < layers.len() implies tombstones(#[trigger] s.layers[i])
        == tombstones(t.layers[i]) && layer_map(s.layers[i]) == layer_map(t.layers[i]) by {
        assert(are_lines(resolve, layers[i].1, t.layers[i]));
        lemma_same_lines(resolve, action_of, layers[i].1, s.layers[i], t.layers[i]);
    }
    lemma_same_maps(layers, s.layers, t.layers);
    assert(s.sequences =~= t.sequences) by {
        assert forall|i: int| 0 <= i < s.sequences.len() implies s.sequences[i] == t.sequences[i] by {
            let a = s.sequences[i];
            let b = t.sequences[i];
            assert(a.keys =~= b.keys);
            assert(a.name == b.name);
        }
    }
}

/// Layers with the same bindings and declarations, one by one, have the same ones
/// together.
proof fn lemma_same_maps<A>(
    layers: Seq<(Seq<char>, Seq<(Seq<char>, Raw)>)>,
    a: Seq<Seq<Line<A>>>,
    b: Seq<Seq<Line<A>>>,
)
    requires
        forall|i: int|
            0 <= i < layers.len() ==> tombstones(#[trigger] a[i]) == tombstones(b[i]) && layer_map(
                a[i],
            ) == layer_map(b[i]),
    ensures
        layer_maps(layers, a) == layer_maps(layers, b),
        unbind_lists(layers, a) == unbind_lists(layers, b),
    decreases layers.len(),
{
    if layers.len() > 0 {
        lemma_same_maps(layers.drop_last(), a, b);
        assert(tombstones(a[layers.len() - 1]) == tombstones(b[layers.len() - 1]));
    }
}

/// Lines of the same rows, resolved alike, have the same bindings and declarations.
proof fn lemma_same_lines<A, F: Fn(&str) -> Option<A>>(
    resolve: F,
    action_of: spec_fn(Seq<char>) -> Option<A>,
    rows: Seq<(Seq<char>, Raw)>,
    a: Seq<Line<A>>,
    b: Seq<Line<A>>,
)
    requires
        forall|n: Seq<char>, x: Option<A>| #[trigger]
            crate::layer::answers(resolve, n, x) ==> x == action_of(n),
        are_lines(resolve, rows, a),
        are_lines(resolve, rows, b),
    ensures
        layer_map(a) == layer_map(b),
        tombstones(a) == tombstones(b),
    decreases rows.len(),
{
    assert forall|c: KeyInput| crate::layer::winner(a, c) is Some == crate::layer::winner(b, c) is Some
        && (crate::layer::winner(a, c) is Some ==> (crate::layer::winner(a, c)->0).action == (
    crate::layer::winner(b, c)->0).action) by {
        lemma_same_winner(resolve, action_of, rows, a, b, c);
    }
    assert(layer_map(a) =~= layer_map(b));
    if rows.len() > 0 {
        let n = rows.len() - 1;
        assert(crate::layer::is_line(resolve, rows[n], a[n]));
        assert(crate::layer::is_line(resolve, rows[n], b[n]));
        lemma_front_lines(resolve, rows, a);
        lemma_front_lines(resolve, rows, b);
        lemma_same_lines(resolve, action_of, rows.drop_last(), a.drop_last(), b.drop_last());
    } else {
        assert(a =~= b);
    }
}

/// The first lines are those of the first rows.
proof fn lemma_front_lines<A, F: Fn(&str) -> Option<A>>(
    resolve: F,
    rows: Seq<(Seq<char>, Raw)>,
    lines: Seq<Line<A>>,
)
    requires
        rows.len() > 0,
        are_lines(resolve, rows, lines),
    ensures
        are_lines(resolve, rows.drop_last(), lines.drop_last()),
{
    assert forall|i: int| 0 <= i < rows.len() - 1 implies crate::layer::is_line(
        resolve,
        rows.drop_last()[i],
        #[trigger] lines.drop_last()[i],
    ) by {
        assert(crate::layer::is_line(resolve, rows[i], lines[i]));
    }
}

/// Lines of the same rows, resolved alike, have the same winner.
proof fn lemma_same_winner<A, F: Fn(&str) -> Option<A>>(
    resolve: F,
    action_of: spec_fn(Seq<char>) -> Option<A>,
    rows: Seq<(Seq<char>, Raw)>,
    a: Seq<Line<A>>,
    b: Seq<Line<A>>,
    c: KeyInput,
)
    requires
        forall|n: Seq<char>, x: Option<A>| #[trigger]
            crate::layer::answers(resolve, n, x) ==> x == action_of(n),
        are_lines(resolve, rows, a),
        are_lines(resolve, rows, b),
    ensures
        crate::layer::winner(a, c) is Some == crate::layer::winner(b, c) is Some,
        crate::layer::winner(a, c) is Some ==> (crate::layer::winner(a, c)->0).action == (
        crate::layer::winner(b, c)->0).action,
    decreases rows.len(),
{
    if rows.len() > 0 {
        let n = rows.len() - 1;
        assert(crate::layer::is_line(resolve, rows[n], a[n]));
        assert(crate::layer::is_line(resolve, rows[n], b[n]));
        lemma_front_lines(resolve, rows, a);
        lemma_front_lines(resolve, rows, b);
        lemma_same_winner(resolve, action_of, rows.drop_last(), a.drop_last(), b.drop_last(), c);
    }
}

} // verus!
