//! The reducer of an interactive demonstration: a modal application over a merged
//! keymap.
//!
//! [`AppState`] owns all state and transitions it given a key. There is no clock and
//! no I/O in it: the caller passes the time in, reads and writes the configuration
//! file, and draws.
use crate::capture::texts;
use crate::cmd::{completes, law_completion_lists_what_begins_so, CommandIndex};
use crate::config::{all_layers, is_built, is_load, layer_maps, traces, unbind_lists, BuildOutput,
    Trace, GLOBAL_LAYER};
use crate::decode::{decode, decodes_to, DecodeMode};
use crate::describe::{decoded_shown, show_decoded};
use crate::document::config_of;
use crate::emit::{chords_in, document_of, emits, gives_name, is_written, layer_views,
    to_toml_layered_with_unbinds, unbind_views, Emission};
use crate::error::BuildError;
use crate::event::{reported, KeyCode, KeyEvent, KeyEventKind, UnsupportedKey};
use crate::grammar::{chord_text, law_spelling_is_injective, parsed_chord};
use crate::input::{Key, KeyInput, Modifiers};
use crate::keymap::{layered, Keymap};
use crate::layer::{answers, has_chord};
use crate::legacy::{law_lints_are_the_lossy_chords, legacy_form_of, legacy_lints, lint_views,
    lints_of, LegacyForm, LegacyLint};
use crate::merge::{bindings_in, law_overlay_wins, merge, merged_layers, merged_sequences,
    note_views, notes_trace, unbinds_in, MergeNote, MergeTrace, NoteView};
use crate::names::{ref_views, NameMap};
use crate::progress::Step;
use crate::rebind::{collision, threat, validate_rebind, RebindVerdict};
use crate::roundtrip::{are_inverse, are_inverse_on, is_writable, law_round_trip, layer_in};
use crate::sequence::{copy_keys, law_bound_sequences_do_not_begin_each_other,
    law_keys_open_what_begins_with_them, opens, prefix_free, Match, SequenceKeymap};
use crate::suite::from_toml_str;
use crate::text::{chars_of, copy_text, decimal_text, push_decimal, push_text, same_text, string_of};
use crate::time::{Duration, Instant};
use crate::timed::{has_expired, live_buffer, timed_next, TimedPending};
use crate::warning::{mentions, rendered, warning_views, Warning, WarningView};
use vstd::prelude::*;

verus! {

/// The built-in configuration.
pub const DEFAULTS_TOML: &'static str = "
[keys]
\"ctrl+s\" = \"save\"
\"ctrl+q\" = \"quit\"
\"ctrl+z\" = \"undo\"
\"j\"       = \"move_down\"
\"k\"       = \"move_up\"

[[sequences]]
keys   = [\"ctrl+x\", \"ctrl+s\"]
action = \"save\"

[[sequences]]
keys   = [\"g\", \"g\"]
action = \"move_top\"
";

/// Every action the showcase recognises.
#[derive(Debug, Clone, Copy, PartialEq, Eq, Structural)]
pub enum Action {
    /// Save the current document.
    Save,
    /// Quit the application.
    Quit,
    /// Undo the last change.
    Undo,
    /// Move the cursor down one line.
    MoveDown,
    /// Move the cursor up one line.
    MoveUp,
    /// Jump to the top of the document.
    MoveTop,
}

/// The name of an action in a configuration.
pub open spec fn action_text(action: Action) -> Seq<char> {
    match action {
        Action::Save => "save"@,
        Action::Quit => "quit"@,
        Action::Undo => "undo"@,
        Action::MoveDown => "move_down"@,
        Action::MoveUp => "move_up"@,
        Action::MoveTop => "move_top"@,
    }
}

/// The action of a name, if it has one.
pub open spec fn action_named(name: Seq<char>) -> Option<Action> {
    if name == "save"@ {
        Some(Action::Save)
    } else if name == "quit"@ {
        Some(Action::Quit)
    } else if name == "undo"@ {
        Some(Action::Undo)
    } else if name == "move_down"@ {
        Some(Action::MoveDown)
    } else if name == "move_up"@ {
        Some(Action::MoveUp)
    } else if name == "move_top"@ {
        Some(Action::MoveTop)
    } else {
        None
    }
}

/// What an action is shown as.
pub open spec fn action_shown(action: Action) -> Seq<char> {
    match action {
        Action::Save => "Save"@,
        Action::Quit => "Quit"@,
        Action::Undo => "Undo"@,
        Action::MoveDown => "MoveDown"@,
        Action::MoveUp => "MoveUp"@,
        Action::MoveTop => "MoveTop"@,
    }
}

/// The action of a name in a configuration.
#[must_use]
pub fn resolve_action(name: &str) -> (action: Option<Action>)
    ensures
        action == action_named(name@),
{
    if same_text(name, "save") {
        Some(Action::Save)
    } else if same_text(name, "quit") {
        Some(Action::Quit)
    } else if same_text(name, "undo") {
        Some(Action::Undo)
    } else if same_text(name, "move_down") {
        Some(Action::MoveDown)
    } else if same_text(name, "move_up") {
        Some(Action::MoveUp)
    } else if same_text(name, "move_top") {
        Some(Action::MoveTop)
    } else {
        None
    }
}

/// The name of an action in a configuration.
#[must_use]
pub fn action_name(action: &Action) -> (name: &'static str)
    ensures
        name@ == action_text(*action),
{
    match action {
        Action::Save => "save",
        Action::Quit => "quit",
        Action::Undo => "undo",
        Action::MoveDown => "move_down",
        Action::MoveUp => "move_up",
        Action::MoveTop => "move_top",
    }
}

/// The name that an action is written by: every action has one.
#[must_use]
pub fn written_name(action: &Action) -> (name: Option<&str>)
    ensures
        name matches Some(name) && name@ == action_text(*action),
{
    Some(action_name(action))
}

impl Action {
    /// What the action is shown as.
    #[must_use]
    pub fn shown(self) -> (s: &'static str)
        ensures
            s@ == action_shown(self),
    {
        match self {
            Action::Save => "Save",
            Action::Quit => "Quit",
            Action::Undo => "Undo",
            Action::MoveDown => "MoveDown",
            Action::MoveUp => "MoveUp",
            Action::MoveTop => "MoveTop",
        }
    }
}

/// The names of the actions tell them apart, and each resolves to its action.
pub proof fn law_action_names_resolve(action: Action)
    ensures
        action_named(action_text(action)) == Some(action),
{
    reveal_strlit("save");
    reveal_strlit("quit");
    reveal_strlit("undo");
    reveal_strlit("move_down");
    reveal_strlit("move_up");
    reveal_strlit("move_top");
    assert("quit"@[0] != "save"@[0]);
    assert("undo"@[0] != "save"@[0] && "undo"@[0] != "quit"@[0]);
    assert("move_up"@.len() == 7 && "move_top"@.len() == 8 && "move_down"@.len() == 9);
    assert("save"@.len() == 4 && "quit"@.len() == 4 && "undo"@.len() == 4);
}

/// The commands of the palette.
pub open spec fn is_command_table(commands: Map<Seq<char>, Action>) -> bool {
    &&& forall|n: Seq<char>| #[trigger] commands.contains_key(n) <==> action_named(n) is Some
    &&& forall|n: Seq<char>| #[trigger]
        commands.contains_key(n) ==> action_named(n) == Some(commands[n])
}

/// Builds the command index from the full action vocabulary.
fn build_command_index() -> (index: CommandIndex<Action>)
    ensures
        is_command_table(index@),
{
    let mut index: CommandIndex<Action> = CommandIndex::new();
    index.bind("quit", Action::Quit);
    index.bind("save", Action::Save);
    index.bind("undo", Action::Undo);
    index.bind("move_down", Action::MoveDown);
    index.bind("move_up", Action::MoveUp);
    index.bind("move_top", Action::MoveTop);
    proof {
        law_action_names_resolve(Action::Quit);
        law_action_names_resolve(Action::Save);
        law_action_names_resolve(Action::Undo);
        law_action_names_resolve(Action::MoveDown);
        law_action_names_resolve(Action::MoveUp);
        law_action_names_resolve(Action::MoveTop);
    }
    index
}

/// What the app is currently waiting for from the user.
#[derive(Debug, Clone, PartialEq, Eq)]
pub enum Mode {
    /// Normal key dispatch through layers and sequences.
    Normal,
    /// Waiting to capture the next keypress as a new binding for `chord`.
    CaptureRebind {
        /// The chord being rebound.
        chord: String,
    },
    /// Command-palette input.
    Palette {
        /// Text the user has typed so far.
        text: String,
    },
}

/// What a [`Mode`] is.
pub enum ModeView {
    /// See [`Mode::Normal`].
    Normal,
    /// See [`Mode::CaptureRebind`].
    CaptureRebind { chord: Seq<char> },
    /// See [`Mode::Palette`].
    Palette { text: Seq<char> },
}

impl View for Mode {
    type V = ModeView;

    open spec fn view(&self) -> ModeView {
        match *self {
            Mode::Normal => ModeView::Normal,
            Mode::CaptureRebind { chord } => ModeView::CaptureRebind { chord: chord@ },
            Mode::Palette { text } => ModeView::Palette { text: text@ },
        }
    }
}

/// A single legacy-survivability finding for display.
#[derive(Debug, Clone)]
pub struct LegacyWarning {
    /// The chord in canonical form.
    pub chord: String,
    /// Whether the chord is unrepresentable or collapses to a twin.
    pub detail: String,
}

/// What the findings say.
pub open spec fn legacy_views(warnings: Seq<LegacyWarning>) -> Seq<(Seq<char>, Seq<char>)> {
    warnings.map_values(|w: LegacyWarning| (w.chord@, w.detail@))
}

/// The finding on a lint.
pub open spec fn finding(lint: (Seq<char>, Option<Seq<char>>)) -> (Seq<char>, Seq<char>) {
    (
        lint.0,
        match lint.1 {
            None => "unrepresentable in legacy terminals"@,
            Some(target) => "collapses to "@ + target + " in legacy terminals"@,
        },
    )
}

/// The findings are those on the bound chords.
pub open spec fn are_findings(
    findings: Seq<(Seq<char>, Seq<char>)>,
    global: Map<KeyInput, Action>,
) -> bool {
    exists|lints: Seq<(Seq<char>, Option<Seq<char>>)>| #[trigger]
        lints_of(lints, global) && findings == lints.map_values(
            |l: (Seq<char>, Option<Seq<char>>)| finding(l),
        )
}

/// Runs [`legacy_lints`] over the global layer.
fn compute_legacy_warnings(global: &Keymap<Action>) -> (warnings: Vec<LegacyWarning>)
    ensures
        are_findings(legacy_views(warnings@), global@),
{
    let lints = legacy_lints(global);
    let ghost v = lint_views(lints@);
    let mut warnings: Vec<LegacyWarning> = Vec::new();
    let mut i: usize = 0;
    while i < lints.len()
        invariant
            i <= lints.len(),
            v == lint_views(lints@),
            warnings.len() == i,
            forall|j: int|
                0 <= j < i ==> ((#[trigger] warnings@[j]).chord@, warnings@[j].detail@) == finding(
                    v[j],
                ),
        decreases lints.len() - i,
    {
        assert(v[i as int] == lints@[i as int]@);
        match &lints[i] {
            LegacyLint::Unrepresentable { chord } => {
                warnings.push(
                    LegacyWarning {
                        chord: chord.clone(),
                        detail: copy_text("unrepresentable in legacy terminals"),
                    },
                );
            },
            LegacyLint::CollapsesTo { chord, collapses_to } => {
                let mut detail = copy_text("collapses to ");
                push_text(&mut detail, collapses_to.as_str());
                push_text(&mut detail, " in legacy terminals");
                warnings.push(LegacyWarning { chord: chord.clone(), detail });
            },
        }
        i = i + 1;
    }
    proof {
        assert(legacy_views(warnings@) =~= v.map_values(
            |l: (Seq<char>, Option<Seq<char>>)| finding(l),
        ));
        assert(lints_of(v, global@));
    }
    warnings
}

/// The description of a canned decoding: `ESC [ A`, the Up arrow.
pub open spec fn demo_text() -> Seq<char> {
    "decode(ESC[A) → "@ + decoded_shown(
        decodes_to(seq![0x1bu8, 0x5bu8, 0x41u8], DecodeMode::Baseline),
    )
}

/// Decodes a canned escape sequence and returns a description of it.
fn decode_canned_bytes() -> (s: String)
    ensures
        s@ == demo_text(),
{
    let mut bytes: Vec<u8> = Vec::new();
    bytes.push(0x1b);
    bytes.push(0x5b);
    bytes.push(0x41);
    assert(bytes@ =~= seq![0x1bu8, 0x5bu8, 0x41u8]);
    let result = decode(bytes.as_slice(), DecodeMode::Baseline);
    let mut out = copy_text("decode(ESC[A) → ");
    let shown = show_decoded(result);
    push_text(&mut out, shown.as_str());
    out
}

/// All mutable application state. Transitions take `&mut self` and a key, and return
/// an [`Outcome`].
#[derive(Debug)]
pub struct AppState {
    /// The live global-layer keymap (defaults merged with user overrides).
    pub global: Keymap<Action>,
    /// The sequence map (defaults merged with user sequences).
    pub sequences: SequenceKeymap<Action>,
    /// Unbind declarations accumulated by the user (tombstones for save).
    pub unbinds: Vec<KeyInput>,
    /// Notes of the merge.
    pub merge_notes: Vec<MergeNote>,
    /// Warnings of the load.
    pub warnings: Vec<Warning>,
    /// Legacy-lint findings on the current global layer.
    pub legacy_warnings: Vec<LegacyWarning>,
    /// The decode demonstration.
    pub decode_demo: String,
    /// The pending buffer of a sequence.
    pub pending: TimedPending,
    /// Command index built from the full action vocabulary.
    pub commands: CommandIndex<Action>,
    /// Current interaction mode.
    pub mode: Mode,
    /// Status message.
    pub status: String,
    /// Whether the app should exit.
    pub should_quit: bool,
}

/// What an [`AppState`] is.
pub struct AppView {
    /// The bindings of the global layer.
    pub global: Map<KeyInput, Action>,
    /// The sequences.
    pub sequences: Map<Seq<KeyInput>, Action>,
    /// The chords declared unbound.
    pub unbinds: Seq<KeyInput>,
    /// The notes of the merge.
    pub notes: Seq<NoteView>,
    /// The warnings of the load.
    pub warnings: Seq<WarningView>,
    /// The legacy findings.
    pub findings: Seq<(Seq<char>, Seq<char>)>,
    /// The decode demonstration.
    pub demo: Seq<char>,
    /// The pending keys, and when the last one came.
    pub pending: (Seq<KeyInput>, Option<Instant>),
    /// The commands.
    pub commands: Map<Seq<char>, Action>,
    /// The mode.
    pub mode: ModeView,
    /// The status message.
    pub status: Seq<char>,
    /// Whether the app should exit.
    pub should_quit: bool,
}

impl View for AppState {
    type V = AppView;

    open spec fn view(&self) -> AppView {
        AppView {
            global: self.global@,
            sequences: self.sequences@,
            unbinds: self.unbinds@,
            notes: note_views(self.merge_notes@),
            warnings: warning_views(self.warnings@),
            findings: legacy_views(self.legacy_warnings@),
            demo: self.decode_demo@,
            pending: self.pending@,
            commands: self.commands@,
            mode: self.mode@,
            status: self.status@,
            should_quit: self.should_quit,
        }
    }
}

/// The outcome of processing one key in the reducer.
#[derive(Debug, Clone, Copy, PartialEq, Eq, Structural)]
pub enum Outcome {
    /// The key fired an action.
    Fired(Action),
    /// The key advanced a pending sequence; nothing resolved yet.
    SequencePending,
    /// A pending sequence expired; the buffered keys fell through.
    SequenceExpired,
    /// The key fell through all layers and sequences.
    Passthrough,
    /// The app should quit.
    Quit,
}

/// The configuration that says nothing.
fn empty_output() -> (out: BuildOutput<Action>)
    ensures
        out.layers@ == Map::<Seq<char>, Keymap<Action>>::empty(),
        out.sequences@ == Map::<Seq<KeyInput>, Action>::empty(),
        out.warnings@.len() == 0,
        out.unbinds@ == Map::<Seq<char>, Vec<KeyInput>>::empty(),
{
    BuildOutput {
        layers: NameMap::new(),
        sequences: SequenceKeymap::new(),
        warnings: Vec::new(),
        unbinds: NameMap::new(),
    }
}

/// The state starts from the defaults with the overlay merged in.
pub open spec fn starts_from(
    defaults: BuildOutput<Action>,
    overlay: BuildOutput<Action>,
    s: AppView,
) -> bool {
    let layers = merged_layers(defaults.layers@, overlay.layers@, overlay.unbinds@);
    &&& s.global == (if layers.contains_key(GLOBAL_LAYER@) {
        layers[GLOBAL_LAYER@]
    } else {
        Map::empty()
    })
    &&& s.sequences == merged_sequences(defaults.sequences@, overlay.sequences@)
    &&& s.unbinds == unbinds_in(defaults.unbinds@, GLOBAL_LAYER@)
    &&& exists|t: MergeTrace<Action>| #[trigger] notes_trace(defaults, overlay, t, s.notes)
    &&& s.warnings == warning_views(defaults.warnings@ + overlay.warnings@)
    &&& are_findings(s.findings, s.global)
    &&& s.demo == demo_text()
    &&& s.pending == (Seq::<KeyInput>::empty(), None::<Instant>)
    &&& is_command_table(s.commands)
    &&& s.mode == ModeView::Normal
    &&& s.status.len() == 0
    &&& !s.should_quit
}

/// The overlay is the one that says nothing.
pub open spec fn says_nothing(out: BuildOutput<Action>) -> bool {
    &&& out.layers@ == Map::<Seq<char>, Keymap<Action>>::empty()
    &&& out.sequences@ == Map::<Seq<KeyInput>, Action>::empty()
    &&& out.warnings@.len() == 0
    &&& out.unbinds@ == Map::<Seq<char>, Vec<KeyInput>>::empty()
}

impl AppState {
    /// Creates the state from loaded defaults and a loaded user configuration.
    #[must_use]
    pub fn from_loaded(defaults: BuildOutput<Action>, user: BuildOutput<Action>) -> (app: AppState)
        ensures
            starts_from(defaults, user, app@),
    {
        let merged = merge(defaults, user);
        let ghost t = choose|t: MergeTrace<Action>| #[trigger]
            notes_trace(defaults, user, t, note_views(merged.notes@));
        let notes = merged.notes;
        let BuildOutput { mut layers, sequences, warnings, mut unbinds } = merged.output;
        let ghost lm = layers@;
        let global = match layers.remove(GLOBAL_LAYER) {
            Some(keymap) => keymap,
            None => Keymap::new(),
        };
        let unbinds = match unbinds.remove(GLOBAL_LAYER) {
            Some(chords) => chords,
            None => Vec::new(),
        };
        proof {
            let want = merged_layers(defaults.layers@, user.layers@, user.unbinds@);
            assert(lm.dom().contains(GLOBAL_LAYER@) == want.dom().contains(GLOBAL_LAYER@));
            assert(lm.contains_key(GLOBAL_LAYER@) == want.contains_key(GLOBAL_LAYER@));
        }
        let legacy_warnings = compute_legacy_warnings(&global);
        let app = AppState {
            global,
            sequences,
            unbinds,
            merge_notes: notes,
            warnings,
            legacy_warnings,
            decode_demo: decode_canned_bytes(),
            pending: TimedPending::new(),
            commands: build_command_index(),
            mode: Mode::Normal,
            status: String::new(),
            should_quit: false,
        };
        assert(app@.unbinds =~= unbinds_in(defaults.unbinds@, GLOBAL_LAYER@));
        assert(notes_trace(defaults, user, t, app@.notes));
        app
    }

    /// Creates the state by loading the defaults and the user's configuration, if
    /// there is one, and merging them. A user configuration that does not load is
    /// taken as one that says nothing.
    ///
    /// # Errors
    ///
    /// Returns the error of loading the defaults.
    pub fn new(user: Option<&str>) -> (r: Result<AppState, BuildError>)
        ensures
            match r {
                Err(e) => is_load(
                    DEFAULTS_TOML@,
                    resolve_action,
                    Result::<BuildOutput<Action>, BuildError>::Err(e),
                ),
                Ok(app) => exists|defaults: BuildOutput<Action>, overlay: BuildOutput<Action>|
                    {
                        &&& is_load(DEFAULTS_TOML@, resolve_action, Ok(defaults))
                        &&& #[trigger] starts_from(defaults, overlay, app@)
                        &&& is_overlay(user, overlay)
                    },
            },
    {
        let defaults = match from_toml_str(DEFAULTS_TOML, resolve_action) {
            Ok(out) => out,
            Err(e) => {
                return Err(e);
            },
        };
        let overlay = match user {
            Some(text) => match from_toml_str(text, resolve_action) {
                Ok(out) => out,
                Err(_) => empty_output(),
            },
            None => empty_output(),
        };
        assert(is_overlay(user, overlay));
        let app = AppState::from_loaded(defaults, overlay);
        assert(starts_from(defaults, overlay, app@));
        Ok(app)
    }
}

/// The overlay is what the user's configuration loads to; one that says nothing where
/// there is none, or it does not load.
pub open spec fn is_overlay(user: Option<&str>, overlay: BuildOutput<Action>) -> bool {
    match user {
        Some(text) => {
            ||| is_load(text@, resolve_action, Ok(overlay))
            ||| crate::config::text_error(text@) is Some && says_nothing(overlay)
        },
        None => says_nothing(overlay),
    }
}

/// The texts with a separator between them.
pub open spec fn joined_by(parts: Seq<Seq<char>>, sep: Seq<char>) -> Seq<char>
    decreases parts.len(),
{
    if parts.len() == 0 {
        Seq::empty()
    } else if parts.len() == 1 {
        parts[0]
    } else {
        joined_by(parts.drop_last(), sep) + sep + parts.last()
    }
}

/// Joins texts with a separator between them.
pub(crate) fn join_by(parts: &Vec<String>, sep: &str) -> (out: String)
    ensures
        out@ == joined_by(texts(parts@), sep@),
{
    let mut out = String::new();
    let ghost t = texts(parts@);
    let mut i: usize = 0;
    assert(t.take(0) =~= Seq::<Seq<char>>::empty());
    while i < parts.len()
        invariant
            i <= parts.len(),
            t == texts(parts@),
            out@ == joined_by(t.take(i as int), sep@),
        decreases parts.len() - i,
    {
        let ghost before = out@;
        if i > 0 {
            push_text(&mut out, sep);
        }
        push_text(&mut out, parts[i].as_str());
        proof {
            assert(t.take(i + 1).drop_last() =~= t.take(i as int));
            assert(t.take(i + 1).last() == parts@[i as int]@);
            if i == 0 {
                assert(out@ =~= parts@[0]@);
                assert(t.take(1)[0] == parts@[0]@);
            } else {
                assert(out@ =~= before + sep@ + parts@[i as int]@);
            }
        }
        i = i + 1;
    }
    assert(t.take(i as int) =~= t);
    out
}

/// The texts are those of the keys that go on from the buffer, each once. Their order
/// is not fixed.
pub open spec fn are_next_keys(
    m: Map<Seq<KeyInput>, Action>,
    buffer: Seq<KeyInput>,
    texts: Seq<Seq<char>>,
) -> bool {
    exists|keys: Seq<KeyInput>| #[trigger]
        rendered(keys) == texts && keys.no_duplicates() && forall|k: KeyInput| #[trigger]
            keys.contains(k) <==> m.contains_key(buffer.push(k)) || opens(m, buffer.push(k))
}

/// The texts are what a menu lists while a sequence is in progress: the keys that go
/// on from the buffer, and nothing where no sequence is.
pub open spec fn is_menu(s: AppView, texts: Seq<Seq<char>>) -> bool {
    if s.pending.0.len() > 0 && !s.sequences.contains_key(s.pending.0) && opens(
        s.sequences,
        s.pending.0,
    ) {
        are_next_keys(s.sequences, s.pending.0, texts)
    } else {
        texts.len() == 0
    }
}

/// The rows are the completions of the palette text, and none outside the palette.
pub open spec fn are_candidates(s: AppView, rows: Seq<(Seq<char>, Action)>) -> bool {
    match s.mode {
        ModeView::Palette { text } => completes(rows, s.commands, text),
        _ => rows.len() == 0,
    }
}

/// The status while a sequence is pending.
pub open spec fn pending_text(count: nat, next: Seq<Seq<char>>) -> Seq<char> {
    "sequence pending: "@ + decimal_text(count) + " key(s) — continuations: "@ + joined_by(
        next,
        ", "@,
    )
}

/// What firing an action comes to.
pub open spec fn fired(s: AppView, lead: Seq<char>, action: Action) -> (AppView, Outcome) {
    if action == Action::Quit {
        (AppView { should_quit: true, ..s }, Outcome::Quit)
    } else {
        (AppView { status: lead + action_shown(action), ..s }, Outcome::Fired(action))
    }
}

/// The press that opens the palette.
pub open spec fn palette_key() -> KeyInput {
    KeyInput { key: Key::Char(':'), mods: Modifiers::NONE }
}

/// The result is that of a key in normal mode.
pub open spec fn is_normal_step(
    s: AppView,
    key: KeyInput,
    now: Instant,
    window: Duration,
    r: (AppView, Outcome),
) -> bool {
    let keys = live_buffer(s.pending, now, window).push(key);
    let t = AppView { pending: timed_next(s.sequences, s.pending, key, now, window), ..s };
    if key == palette_key() {
        r == (
            AppView {
                mode: ModeView::Palette { text: Seq::empty() },
                status: "palette: type a command name, Enter to run, Esc to cancel"@,
                ..s
            },
            Outcome::Passthrough,
        )
    } else if s.sequences.contains_key(keys) {
        r == fired(t, "fired: "@, s.sequences[keys])
    } else if opens(s.sequences, keys) {
        &&& r.1 == Outcome::SequencePending
        &&& exists|next: Seq<Seq<char>>| #[trigger]
            are_next_keys(s.sequences, keys, next) && r.0 == (AppView {
                status: pending_text(keys.len(), next),
                ..t
            })
    } else if s.global.contains_key(key) {
        r == fired(t, "fired: "@, s.global[key])
    } else if has_expired(s.pending, now, window) {
        r == (t, Outcome::SequenceExpired)
    } else {
        r == (t, Outcome::Passthrough)
    }
}

/// What a key in palette mode comes to.
pub open spec fn palette_step(s: AppView, text: Seq<char>, key: KeyInput) -> (AppView, Outcome) {
    if key == (KeyInput { key: Key::Esc, mods: Modifiers::NONE }) {
        (
            AppView { mode: ModeView::Normal, status: "palette cancelled"@, ..s },
            Outcome::Passthrough,
        )
    } else if key == (KeyInput { key: Key::Enter, mods: Modifiers::NONE }) {
        let t = AppView { mode: ModeView::Normal, ..s };
        if s.commands.contains_key(text) {
            fired(t, "palette → "@, s.commands[text])
        } else {
            (
                AppView { status: "palette: unknown command '"@ + text + "'"@, ..t },
                Outcome::Passthrough,
            )
        }
    } else if key == (KeyInput { key: Key::Backspace, mods: Modifiers::NONE }) {
        let left = if text.len() > 0 {
            text.drop_last()
        } else {
            text
        };
        (AppView { mode: ModeView::Palette { text: left }, ..s }, Outcome::Passthrough)
    } else if key.key is Char && key.mods == Modifiers::NONE {
        (
            AppView { mode: ModeView::Palette { text: text.push(key.key->Char_0) }, ..s },
            Outcome::Passthrough,
        )
    } else {
        (s, Outcome::Passthrough)
    }
}

/// The presses that can never be rebound.
pub open spec fn reserved() -> Seq<KeyInput> {
    seq![
        KeyInput { key: Key::Char('c'), mods: Modifiers::CTRL },
        KeyInput { key: Key::Esc, mods: Modifiers::NONE },
    ]
}

/// The first reserved press that binding `key` would break, if it would break one.
pub open spec fn broken_by(key: KeyInput) -> Option<KeyInput> {
    if collision(key, reserved()[0]) is Some {
        Some(reserved()[0])
    } else if collision(key, reserved()[1]) is Some {
        Some(reserved()[1])
    } else {
        None
    }
}

/// The state is what a captured key comes to.
pub open spec fn is_rebound(s: AppView, target: Seq<char>, key: KeyInput, r: AppView) -> bool {
    let t = AppView { mode: ModeView::Normal, ..s };
    if key == (KeyInput { key: Key::Esc, mods: Modifiers::NONE }) {
        r == (AppView { status: "rebind cancelled"@, ..t })
    } else if broken_by(key) is Some {
        r == (AppView {
            status: "rebind refused: "@ + chord_text(broken_by(key)->0) + " is reserved"@,
            ..t
        })
    } else {
        match parsed_chord(target) {
            None => r == t,
            Some(chord) => if s.global.contains_key(chord) {
                let lead = "rebound "@ + target + " → "@ + chord_text(key);
                let status = if s.global.contains_key(key) {
                    lead + " (overwrote "@ + action_text(s.global[key]) + ")"@
                } else {
                    lead
                };
                let global = s.global.remove(chord).insert(key, s.global[chord]);
                r == (AppView { global, status, findings: r.findings, ..t }) && are_findings(
                    r.findings,
                    global,
                )
            } else {
                r == (AppView { status: "rebind: "@ + target + " had no binding"@, ..t })
            },
        }
    }
}

/// The state is what deleting a binding comes to.
pub open spec fn is_deleted(s: AppView, chord: KeyInput, r: AppView) -> bool {
    let global = s.global.remove(chord);
    &&& r == (AppView {
        global,
        unbinds: if s.unbinds.contains(chord) {
            s.unbinds
        } else {
            s.unbinds.push(chord)
        },
        status: "deleted binding for "@ + chord_text(chord),
        findings: r.findings,
        ..s
    })
    &&& are_findings(r.findings, global)
}

/// The result is that of a key.
pub open spec fn is_fed(
    s: AppView,
    key: KeyInput,
    now: Instant,
    window: Duration,
    r: (AppView, Outcome),
) -> bool {
    match s.mode {
        ModeView::Normal => is_normal_step(s, key, now, window, r),
        ModeView::Palette { text } => r == palette_step(s, text, key),
        ModeView::CaptureRebind { chord } => is_rebound(s, chord, key, r.0) && r.1
            == Outcome::Passthrough,
    }
}

/// The reserved key set: these chords can never be rebound.
#[must_use]
pub fn reserved_keys() -> (keys: Vec<KeyInput>)
    ensures
        keys@ == reserved(),
{
    let mut keys: Vec<KeyInput> = Vec::new();
    keys.push(KeyInput::new(Key::Char('c'), Modifiers::CTRL));
    keys.push(KeyInput::new(Key::Esc, Modifiers::NONE));
    assert(keys@ =~= reserved());
    keys
}

impl AppState {
    /// The keys that go on from the pending prefix; none when no sequence is in
    /// progress.
    #[must_use]
    pub fn continuations(&self) -> (next: Vec<String>)
        ensures
            is_menu(self@, texts(next@)),
    {
        let buffer = self.pending.pending();
        let mut next: Vec<String> = Vec::new();
        if buffer.len() == 0 {
            return next;
        }
        match self.sequences.lookup(buffer) {
            Match::Prefix => {},
            _ => {
                return next;
            },
        }
        let rows = self.sequences.continuations(buffer);
        let ghost m = self.sequences@;
        let ghost keys = Seq::new(rows@.len(), |i: int| rows@[i].0);
        let mut i: usize = 0;
        while i < rows.len()
            invariant
                i <= rows.len(),
                next.len() == i,
                forall|j: int| 0 <= j < i ==> (#[trigger] next@[j])@ == chord_text(rows@[j].0),
            decreases rows.len() - i,
        {
            next.push(rows[i].0.to_string());
            i = i + 1;
        }
        proof {
            assert(rendered(keys) =~= texts(next@));
            assert forall|k: KeyInput| #[trigger] keys.contains(k) <==> m.contains_key(
                buffer@.push(k),
            ) || opens(m, buffer@.push(k)) by {
                if keys.contains(k) {
                    let j = choose|j: int| 0 <= j < keys.len() && keys[j] == k;
                    assert(crate::sequence::continues(m, buffer@, rows@[j]));
                }
                if m.contains_key(buffer@.push(k)) || opens(m, buffer@.push(k)) {
                    assert(crate::table::has_key(rows@, k));
                    let j = choose|j: int| 0 <= j < rows@.len() && (#[trigger] rows@[j]).0 == k;
                    assert(keys[j] == k);
                }
            }
            assert forall|a: int, b: int| 0 <= a < b < keys.len() implies keys[a] != keys[b] by {
                assert(rows@[a].0 != rows@[b].0);
            }
            assert(keys.no_duplicates());
        }
        next
    }

    /// The prefix-completion candidates for the current palette text.
    #[must_use]
    pub fn palette_candidates(&self) -> (rows: Vec<(&str, &Action)>)
        ensures
            are_candidates(self@, ref_views(rows@)),
    {
        match &self.mode {
            Mode::Palette { text } => self.commands.complete(text.as_str()),
            _ => Vec::new(),
        }
    }

    /// Fires an action: quits, or says so in the status.
    fn fire(&mut self, lead: &str, action: Action) -> (outcome: Outcome)
        ensures
            (final(self)@, outcome) == fired(old(self)@, lead@, action),
    {
        if action == Action::Quit {
            self.should_quit = true;
            return Outcome::Quit;
        }
        let mut status = copy_text(lead);
        push_text(&mut status, action.shown());
        self.status = status;
        Outcome::Fired(action)
    }

    /// Processes one key, advancing state and returning an [`Outcome`]. The caller
    /// supplies `now` and `window`, so the reducer stays clock-free.
    pub fn feed(&mut self, key: KeyInput, now: Instant, window: Duration) -> (outcome: Outcome)
        ensures
            is_fed(old(self)@, key, now, window, (final(self)@, outcome)),
    {
        let capture: Option<String> = match &self.mode {
            Mode::CaptureRebind { chord } => Some(chord.clone()),
            Mode::Palette { .. } => {
                return self.feed_palette(key);
            },
            Mode::Normal => None,
        };
        match capture {
            Some(chord) => {
                self.apply_rebind(chord.as_str(), key);
                Outcome::Passthrough
            },
            None => self.feed_normal(key, now, window),
        }
    }

    fn feed_normal(&mut self, key: KeyInput, now: Instant, window: Duration) -> (outcome: Outcome)
        ensures
            is_normal_step(old(self)@, key, now, window, (final(self)@, outcome)),
    {
        if key == KeyInput::new(Key::Char(':'), Modifiers::NONE) {
            let text = String::new();
            assert(text@ =~= Seq::<char>::empty());
            self.mode = Mode::Palette { text };
            self.status = copy_text("palette: type a command name, Enter to run, Esc to cancel");
            return Outcome::Passthrough;
        }
        let ghost s = self@;
        let ghost keys = live_buffer(s.pending, now, window).push(key);
        let timed = self.pending.feed(&self.sequences, key, now, window);
        let expired = timed.expired.is_some();
        let stepped: Option<Option<Action>> = match timed.step {
            Step::Fired(action) => Some(Some(*action)),
            Step::PassThrough(passed) => {
                let last = passed[passed.len() - 1];
                assert(last == key);
                match self.global.get(&last) {
                    Some(action) => Some(Some(*action)),
                    None => Some(None),
                }
            },
            Step::Pending => None,
        };
        match stepped {
            Some(Some(action)) => self.fire("fired: ", action),
            Some(None) => if expired {
                Outcome::SequenceExpired
            } else {
                Outcome::Passthrough
            },
            None => {
                let next = self.continuations();
                let mut status = copy_text("sequence pending: ");
                push_decimal(&mut status, self.pending.pending().len() as u64);
                push_text(&mut status, " key(s) — continuations: ");
                let list = join_by(&next, ", ");
                push_text(&mut status, list.as_str());
                proof {
                    assert(are_next_keys(s.sequences, keys, texts(next@)));
                }
                self.status = status;
                Outcome::SequencePending
            },
        }
    }

    fn feed_palette(&mut self, key: KeyInput) -> (outcome: Outcome)
        requires
            old(self)@.mode is Palette,
        ensures
            (final(self)@, outcome) == palette_step(
                old(self)@,
                old(self)@.mode->Palette_text,
                key,
            ),
    {
        let text: String = match &self.mode {
            Mode::Palette { text } => text.clone(),
            _ => String::new(),
        };
        if key == KeyInput::new(Key::Esc, Modifiers::NONE) {
            self.mode = Mode::Normal;
            self.status = copy_text("palette cancelled");
            return Outcome::Passthrough;
        }
        if key == KeyInput::new(Key::Enter, Modifiers::NONE) {
            self.mode = Mode::Normal;
            let found: Option<Action> = match self.commands.get(text.as_str()) {
                Some(action) => Some(*action),
                None => None,
            };
            return match found {
                Some(action) => self.fire("palette → ", action),
                None => {
                    let mut status = copy_text("palette: unknown command '");
                    push_text(&mut status, text.as_str());
                    push_text(&mut status, "'");
                    self.status = status;
                    Outcome::Passthrough
                },
            };
        }
        if key == KeyInput::new(Key::Backspace, Modifiers::NONE) {
            let mut chars = chars_of(text.as_str());
            let _ = chars.pop();
            self.mode = Mode::Palette { text: string_of(&chars) };
            return Outcome::Passthrough;
        }
        match key.key() {
            Key::Char(c) => {
                if key.modifiers() == Modifiers::NONE {
                    let mut text = text;
                    text.push(c);
                    self.mode = Mode::Palette { text };
                }
            },
            _ => {},
        }
        Outcome::Passthrough
    }

    /// Begins capturing the next keypress as a rebind target for `chord`.
    pub fn start_rebind(&mut self, chord: String)
        ensures
            final(self)@ == (AppView {
                mode: ModeView::CaptureRebind { chord: chord@ },
                status: "press any key to rebind (Esc = cancel)"@,
                ..old(self)@
            }),
    {
        self.mode = Mode::CaptureRebind { chord };
        self.status = copy_text("press any key to rebind (Esc = cancel)");
    }

    /// Removes the chord from the live map and records it among the unbind
    /// declarations for the next save.
    pub fn delete_binding(&mut self, chord: &KeyInput)
        ensures
            is_deleted(old(self)@, *chord, final(self)@),
    {
        let _ = self.global.unbind(chord);
        if !has_chord(&self.unbinds, *chord) {
            self.unbinds.push(*chord);
        }
        self.legacy_warnings = compute_legacy_warnings(&self.global);
        let mut status = copy_text("deleted binding for ");
        let text = chord.to_string();
        push_text(&mut status, text.as_str());
        self.status = status;
    }

    /// Rebinds what `target_chord_str` is bound to onto `new_key`, unless that would
    /// break a reserved key.
    pub fn apply_rebind(&mut self, target_chord_str: &str, new_key: KeyInput)
        ensures
            is_rebound(old(self)@, target_chord_str@, new_key, final(self)@),
    {
        self.mode = Mode::Normal;
        if new_key == KeyInput::new(Key::Esc, Modifiers::NONE) {
            self.status = copy_text("rebind cancelled");
            return;
        }
        let reserved_set = reserved_keys();
        let layers = vec![&self.global];
        let ghost stack = layers@;
        proof {
            assert forall|r: KeyInput| #[trigger] threat(stack, 0, new_key, r) == collision(
                new_key,
                r,
            ) by {}
            assert(threat(stack, 0, new_key, reserved_set@[0]) == collision(new_key, reserved()[0]));
            assert(threat(stack, 0, new_key, reserved_set@[1]) == collision(new_key, reserved()[1]));
        }
        let checked: Result<Option<Action>, KeyInput> = match validate_rebind(
            layers.as_slice(),
            0,
            new_key,
            reserved_set.as_slice(),
        ) {
            RebindVerdict::BreaksReserved { reserved: r, .. } => Err(r),
            RebindVerdict::Allowed { shadows, .. } => Ok(
                match shadows {
                    Some(action) => Some(*action),
                    None => None,
                },
            ),
        };
        proof {
            reveal_with_fuel(layered, 2);
            match checked {
                Err(r) => {
                    assert(broken_by(new_key) == Some(r));
                },
                Ok(shadowed) => {
                    assert(broken_by(new_key) is None);
                },
            }
        }
        match checked {
            Err(r) => {
                let mut status = copy_text("rebind refused: ");
                let text = r.to_string();
                push_text(&mut status, text.as_str());
                push_text(&mut status, " is reserved");
                self.status = status;
            },
            Ok(shadowed) => {
                match KeyInput::parse(target_chord_str) {
                    Ok(target) => match self.global.unbind(&target) {
                        Some(action) => {
                            let _ = self.global.bind(new_key, action);
                            self.legacy_warnings = compute_legacy_warnings(&self.global);
                            let mut status = copy_text("rebound ");
                            push_text(&mut status, target_chord_str);
                            push_text(&mut status, " → ");
                            let text = new_key.to_string();
                            push_text(&mut status, text.as_str());
                            match shadowed {
                                Some(old_action) => {
                                    push_text(&mut status, " (overwrote ");
                                    push_text(&mut status, action_name(&old_action));
                                    push_text(&mut status, ")");
                                },
                                None => {},
                            }
                            self.status = status;
                        },
                        None => {
                            let mut status = copy_text("rebind: ");
                            push_text(&mut status, target_chord_str);
                            push_text(&mut status, " had no binding");
                            self.status = status;
                            assert(self.global@ =~= old(self)@.global);
                        },
                    },
                    Err(_) => {},
                }
            },
        }
    }
}

/// The layers that a state is written as.
pub open spec fn layers_written(s: AppView) -> Map<Seq<char>, Map<KeyInput, Action>> {
    map![GLOBAL_LAYER@ => s.global]
}

/// The declarations that a state is written with.
pub open spec fn unbinds_written(s: AppView) -> Map<Seq<char>, Seq<KeyInput>> {
    if s.unbinds.len() > 0 {
        map![GLOBAL_LAYER@ => s.unbinds]
    } else {
        Map::empty()
    }
}

/// What an event asks of the caller.
#[derive(Debug, Clone, Copy, PartialEq, Eq, Structural)]
pub enum Request {
    /// Nothing.
    Nothing,
    /// To write [`AppState::config_text`] to the user's configuration file.
    Save,
}

/// The result is that of an event: a few keys control the demonstration itself, and
/// any other press is fed.
pub open spec fn is_handled(
    s: AppView,
    event: KeyEvent,
    now: Instant,
    window: Duration,
    r: (AppView, Request),
) -> bool {
    if event.kind != KeyEventKind::Press {
        r == (s, Request::Nothing)
    } else if event.code == KeyCode::Char('c') && event.modifiers.control {
        r == (AppView { should_quit: true, ..s }, Request::Nothing)
    } else if event.code == KeyCode::F(5) {
        r == (
            AppView {
                mode: ModeView::CaptureRebind { chord: "ctrl+s"@ },
                status: "press any key to rebind (Esc = cancel)"@,
                ..s
            },
            Request::Nothing,
        )
    } else if event.code == KeyCode::F(6) {
        is_deleted(s, KeyInput { key: Key::Char('z'), mods: Modifiers::CTRL }, r.0) && r.1
            == Request::Nothing
    } else if event.code == KeyCode::F(7) {
        r == (s, Request::Save)
    } else {
        match reported(event) {
            Err(_) => r == (s, Request::Nothing),
            Ok(key) => r.1 == Request::Nothing && feeds_to(s, key, now, window, r.0),
        }
    }
}

/// Feeding the key may lead to the state.
pub open spec fn feeds_to(
    s: AppView,
    key: KeyInput,
    now: Instant,
    window: Duration,
    t: AppView,
) -> bool {
    exists|outcome: Outcome| #[trigger] is_fed(s, key, now, window, (t, outcome))
}

/// The most that the caller waits for an event while nothing is pending.
pub open spec fn longest_wait() -> int {
    10_000_000_000
}

impl AppState {
    /// The user's configuration for the current keymap and its unbind declarations.
    #[must_use]
    pub fn config_text(&self) -> (text: String)
        ensures
            exists|e: Emission| #[trigger]
                emits(
                    layers_written(self@),
                    self@.sequences,
                    unbinds_written(self@),
                    written_name,
                    e,
                ) && is_written(document_of(e), text@),
    {
        let mut layers: NameMap<Keymap<Action>> = NameMap::new();
        let global = self.global.clone();
        assert(global@ =~= self.global@);
        layers.insert(copy_text(GLOBAL_LAYER), global);
        let mut unbinds: NameMap<Vec<KeyInput>> = NameMap::new();
        if self.unbinds.len() > 0 {
            let chords = copy_keys(self.unbinds.as_slice(), self.unbinds.len());
            assert(chords@ =~= self.unbinds@);
            unbinds.insert(copy_text(GLOBAL_LAYER), chords);
        }
        let text = to_toml_layered_with_unbinds(&layers, &self.sequences, &unbinds, written_name);
        proof {
            assert(layer_views(layers@) =~= layers_written(self@));
            assert(unbind_views(unbinds@) =~= unbinds_written(self@));
            let e = choose|e: Emission| #[trigger]
                emits(
                    layer_views(layers@),
                    self.sequences@,
                    unbind_views(unbinds@),
                    written_name,
                    e,
                ) && is_written(document_of(e), text@);
            assert(emits(
                layers_written(self@),
                self@.sequences,
                unbinds_written(self@),
                written_name,
                e,
            ));
        }
        text
    }

    /// Processes one event of the terminal.
    pub fn handle_key(&mut self, event: KeyEvent, now: Instant, window: Duration) -> (request:
        Request)
        ensures
            is_handled(old(self)@, event, now, window, (final(self)@, request)),
    {
        if event.kind != KeyEventKind::Press {
            return Request::Nothing;
        }
        if event.code == KeyCode::Char('c') && event.modifiers.control {
            self.should_quit = true;
            return Request::Nothing;
        }
        if event.code == KeyCode::F(5) {
            self.start_rebind(copy_text("ctrl+s"));
            return Request::Nothing;
        }
        if event.code == KeyCode::F(6) {
            let z = KeyInput::new(Key::Char('z'), Modifiers::CTRL);
            self.delete_binding(&z);
            return Request::Nothing;
        }
        if event.code == KeyCode::F(7) {
            return Request::Save;
        }
        match KeyInput::try_from(event) {
            Ok(key) => {
                let ghost s = self@;
                assert(reported(event) == Ok::<KeyInput, UnsupportedKey>(key));
                let outcome = self.feed(key, now, window);
                assert(is_fed(s, key, now, window, (self@, outcome)));
                assert(feeds_to(s, key, now, window, self@));
            },
            Err(_) => {
                assert(reported(event) is Err);
            },
        }
        Request::Nothing
    }

    /// Gives up a pending sequence, since the wait for its next key is over.
    pub fn flush_pending(&mut self)
        ensures
            final(self)@ == (AppView {
                pending: (Seq::empty(), None),
                status: if old(self)@.pending.0.len() > 0 {
                    "sequence timeout, "@ + decimal_text(old(self)@.pending.0.len())
                        + " key(s) flushed"@
                } else {
                    old(self)@.status
                },
                ..old(self)@
            }),
    {
        let flushed = self.pending.flush();
        if flushed.len() > 0 {
            let mut status = copy_text("sequence timeout, ");
            push_decimal(&mut status, flushed.len() as u64);
            push_text(&mut status, " key(s) flushed");
            self.status = status;
        }
    }

    /// How long to wait for the next event: until a pending sequence expires.
    #[must_use]
    pub fn poll_timeout(&self, now: Instant, window: Duration) -> (wait: Duration)
        requires
            self@.pending.1 matches Some(last) ==> last.nanos + window.nanos <= u128::MAX,
        ensures
            wait.nanos == match self@.pending.1 {
                Some(last) => if now.nanos <= last.nanos + window.nanos {
                    last.nanos + window.nanos - now.nanos
                } else {
                    0
                },
                None => longest_wait(),
            },
    {
        match self.pending.deadline(window) {
            Some(deadline) => deadline.duration_since(now),
            None => Duration::from_secs(10),
        }
    }
}

/// The user's configuration file below a home directory.
pub open spec fn save_path(home: Seq<char>) -> Seq<char> {
    let lead = if home.len() == 0 || home.last() == '/' {
        home
    } else {
        home.push('/')
    };
    lead + ".config/keymap-showcase/user.toml"@
}

/// The path of the user's configuration file, or `None` where there is no home
/// directory: the current directory may be one that others can write to, so there is
/// no fallback to it.
#[must_use]
pub fn save_path_from_home(home: Option<&str>) -> (path: Option<String>)
    ensures
        match home {
            Some(home) => path matches Some(path) && path@ == save_path(home@),
            None => path is None,
        },
{
    match home {
        Some(home) => {
            let chars = chars_of(home);
            let mut path = copy_text(home);
            if chars.len() > 0 && chars[chars.len() - 1] != '/' {
                path.push('/');
            }
            push_text(&mut path, ".config/keymap-showcase/user.toml");
            Some(path)
        },
        None => None,
    }
}

/// Capturing a key never binds a reserved press.
pub proof fn law_rebind_keeps_reserved(s: AppView, target: Seq<char>, key: KeyInput, r: AppView)
    requires
        is_rebound(s, target, key, r),
    ensures
        forall|k: KeyInput| #[trigger]
            reserved().contains(k) && r.global.contains_key(k) ==> s.global.contains_key(k)
                && r.global[k] == s.global[k],
{
    assert forall|k: KeyInput| #[trigger]
        reserved().contains(k) && r.global.contains_key(k) implies s.global.contains_key(k)
        && r.global[k] == s.global[k] by {
        assert(k == reserved()[0] || k == reserved()[1]);
    }
}

/// A rebind moves an action: what the old chord was bound to, the new one is, and the
/// old one is bound no more.
pub proof fn law_rebind_moves_the_action(
    s: AppView,
    target: Seq<char>,
    chord: KeyInput,
    key: KeyInput,
    r: AppView,
)
    requires
        is_rebound(s, target, key, r),
        parsed_chord(target) == Some(chord),
        s.global.contains_key(chord),
        broken_by(key) is None,
        key != chord,
    ensures
        r.global.contains_key(key),
        r.global[key] == s.global[chord],
        !r.global.contains_key(chord),
{
    assert(reserved()[1] == (KeyInput { key: Key::Esc, mods: Modifiers::NONE }));
}

/// The names that a state is written by resolve back to the actions.
pub proof fn law_names_and_actions_are_inverse()
    ensures
        are_inverse(written_name, resolve_action),
{
    assert forall|a: Action, n: Option<Seq<char>>| #[trigger]
        gives_name(written_name, a, n) implies n is Some && forall|x: Option<Action>| #[trigger]
        answers(resolve_action, n->0, x) ==> x == Some(a) by {
        law_action_names_resolve(a);
        assert(n == Some(action_text(a)));
    }
}

/// What was saved comes back: over any defaults, what was bound is bound again, and what
/// was deleted stays deleted. A chord that a rebind left is not among the deleted ones,
/// so that the defaults may bind it again.
pub proof fn law_saved_state_is_restored(
    s: AppView,
    e: Emission,
    t: Trace<Action>,
    defaults: BuildOutput<Action>,
    overlay: BuildOutput<Action>,
)
    requires
        is_writable(layers_written(s), s.sequences, unbinds_written(s)),
        emits(layers_written(s), s.sequences, unbinds_written(s), written_name, e),
        traces(config_of(document_of(e)), resolve_action, t),
        is_built(config_of(document_of(e)), t, overlay),
    ensures
        ({
            let layers = merged_layers(defaults.layers@, overlay.layers@, overlay.unbinds@);
            &&& forall|c: KeyInput| #[trigger]
                s.global.contains_key(c) ==> layers.contains_key(GLOBAL_LAYER@)
                    && layers[GLOBAL_LAYER@].contains_key(c) && layers[GLOBAL_LAYER@][c]
                    == s.global[c]
            &&& forall|c: KeyInput| #[trigger]
                s.unbinds.contains(c) && layers.contains_key(GLOBAL_LAYER@)
                    ==> !layers[GLOBAL_LAYER@].contains_key(c)
        }),
        overlay.sequences@ == s.sequences,
{
    let g = GLOBAL_LAYER@;
    let all = all_layers(config_of(document_of(e)));
    let lw = layers_written(s);
    let uw = unbinds_written(s);
    law_names_and_actions_are_inverse();
    assert(are_inverse_on(lw, s.sequences, written_name, resolve_action));
    law_round_trip(lw, s.sequences, uw, written_name, resolve_action, e, t);
    let maps = layer_maps(all, t.layers);
    let lists = unbind_lists(all, t.layers);
    assert(layer_in(maps, g) == layer_in(lw, g));
    assert(overlay.layers@.dom().contains(g) == maps.dom().contains(g));
    assert(bindings_in(overlay.layers@, g) =~= s.global) by {
        if overlay.layers@.contains_key(g) {
            assert(overlay.layers@[g]@ == maps[g]);
        }
    }
    assert forall|c: KeyInput| unbinds_in(overlay.unbinds@, g).contains(c) == #[trigger] s.unbinds.contains(
        c,
    ) by {
        assert(chords_in(lists, g).contains(c) <==> chords_in(uw, g).contains(c));
        assert(overlay.unbinds@.dom().contains(g) == lists.dom().contains(g));
        if overlay.unbinds@.contains_key(g) {
            assert(overlay.unbinds@[g]@ == lists[g]);
        }
    }
    assert forall|c: KeyInput| #[trigger] s.unbinds.contains(c) implies !s.global.contains_key(c) by {
        if s.global.contains_key(c) {
            assert(lw[g].contains_key(c));
            assert(chords_in(uw, g).contains(c));
        }
    }
    let layers = merged_layers(defaults.layers@, overlay.layers@, overlay.unbinds@);
    assert forall|c: KeyInput| #[trigger] s.global.contains_key(c) implies layers.contains_key(g)
        && layers[g].contains_key(c) && layers[g][c] == s.global[c] by {
        assert(bindings_in(overlay.layers@, g).contains_key(c));
        assert(overlay.layers@.contains_key(g));
        law_overlay_wins(defaults.layers@, overlay.layers@, overlay.unbinds@, g, c);
    }
    assert forall|c: KeyInput| #[trigger]
        s.unbinds.contains(c) && layers.contains_key(g) implies !layers[g].contains_key(c) by {
        assert(unbinds_in(overlay.unbinds@, g).contains(c));
        assert(!bindings_in(overlay.layers@, g).contains_key(c));
    }
}

/// What a key does in normal mode: but for the `:` that opens the palette, it is resolved
/// together with the keys that are held, unless they were left waiting for longer than the
/// window. A bound sequence fires first, then a longer one is waited for, then the chord
/// alone fires, and what nothing binds falls through. Only a firing action can quit, and no
/// key changes what is bound.
pub proof fn law_normal_key_resolves(
    s: AppView,
    key: KeyInput,
    now: Instant,
    window: Duration,
    t: AppView,
    outcome: Outcome,
)
    requires
        s.mode is Normal,
        is_fed(s, key, now, window, (t, outcome)),
        key != (KeyInput { key: Key::Char(':'), mods: Modifiers::NONE }),
    ensures
        ({
            let late = s.pending.0.len() > 0 && (s.pending.1 matches Some(last) && now.nanos
                > last.nanos + window.nanos);
            let keys = if late {
                seq![key]
            } else {
                s.pending.0.push(key)
            };
            let longer = exists|x: Seq<KeyInput>| #[trigger]
                s.sequences.contains_key(x) && keys.is_prefix_of(x) && keys.len() < x.len();
            let action = if s.sequences.contains_key(keys) {
                Some(s.sequences[keys])
            } else if !longer && s.global.contains_key(key) {
                Some(s.global[key])
            } else {
                None
            };
            &&& action == Some(Action::Quit) ==> outcome == Outcome::Quit && t.should_quit
            &&& action is Some && action != Some(Action::Quit) ==> outcome == Outcome::Fired(
                action->0,
            ) && t.should_quit == s.should_quit
            &&& action is None && longer ==> outcome == Outcome::SequencePending && t.pending == (
                keys,
                Some(now),
            ) && t.should_quit == s.should_quit
            &&& action is None && !longer ==> outcome == (if late {
                Outcome::SequenceExpired
            } else {
                Outcome::Passthrough
            }) && t.should_quit == s.should_quit && t.status == s.status
            &&& s.sequences.contains_key(keys) || !longer ==> t.pending.0.len() == 0 && t.pending.1 is None
            &&& t.global == s.global && t.sequences == s.sequences && t.unbinds == s.unbinds
                && t.commands == s.commands && t.mode == s.mode && t.notes == s.notes && t.warnings
                == s.warnings && t.findings == s.findings
        }),
{
    let keys = live_buffer(s.pending, now, window).push(key);
    assert(Seq::<KeyInput>::empty().push(key) =~= seq![key]);
    law_keys_open_what_begins_with_them(s.sequences, keys);
}

/// `:` opens an empty palette and does nothing else but say so.
pub proof fn law_colon_opens_the_palette(
    s: AppView,
    now: Instant,
    window: Duration,
    t: AppView,
    outcome: Outcome,
)
    requires
        s.mode is Normal,
        is_fed(
            s,
            KeyInput { key: Key::Char(':'), mods: Modifiers::NONE },
            now,
            window,
            (t, outcome),
        ),
    ensures
        t.mode matches ModeView::Palette { text } && text.len() == 0,
        t == (AppView { mode: t.mode, status: t.status, ..s }),
        outcome == Outcome::Passthrough,
{
}

/// The palette edits a line: a character is added at the end, Backspace takes the last one
/// off again, Escape leaves without doing anything, and Enter runs the command of exactly
/// that name, if there is one. No other key does anything, and none changes what is bound.
pub proof fn law_palette_edits_and_runs(s: AppView, text: Seq<char>, c: char)
    requires
        s.mode == (ModeView::Palette { text }),
    ensures
        ({
            let plain = |key: Key| KeyInput { key, mods: Modifiers::NONE };
            let typed = palette_step(s, text, plain(Key::Char(c))).0;
            let escaped = palette_step(s, text, plain(Key::Esc));
            let entered = palette_step(s, text, plain(Key::Enter));
            &&& typed == (AppView { mode: ModeView::Palette { text: text.push(c) }, ..s })
            &&& palette_step(typed, text.push(c), plain(Key::Backspace)).0 == s
            &&& text.len() == 0 ==> palette_step(s, text, plain(Key::Backspace)).0 == s
            &&& escaped.0 == (AppView { mode: ModeView::Normal, status: escaped.0.status, ..s })
            &&& escaped.1 == Outcome::Passthrough
            &&& entered.0.mode is Normal
            &&& s.commands.contains_key(text) ==> entered.1 == (if s.commands[text] == Action::Quit {
                Outcome::Quit
            } else {
                Outcome::Fired(s.commands[text])
            })
            &&& !s.commands.contains_key(text) ==> entered.1 == Outcome::Passthrough
            &&& entered.0.should_quit <==> s.should_quit || entered.1 == Outcome::Quit
            &&& entered.0.global == s.global && entered.0.sequences == s.sequences
        }),
        forall|key: KeyInput|
            key.mods != Modifiers::NONE || !(key.key is Char || key.key == Key::Esc || key.key
                == Key::Enter || key.key == Key::Backspace) ==> #[trigger] palette_step(s, text, key)
                == (s, Outcome::Passthrough),
{
    assert(text.push(c).drop_last() =~= text);
}

/// Control with `c`, Escape, and whatever a terminal delivers as either, cannot be captured
/// for a binding: what is bound stays as it was.
pub proof fn law_reserved_presses_are_not_captured(
    s: AppView,
    target: Seq<char>,
    key: KeyInput,
    r: AppView,
)
    requires
        is_rebound(s, target, key, r),
        ({
            ||| key == (KeyInput { key: Key::Char('c'), mods: Modifiers::CTRL })
            ||| key == (KeyInput { key: Key::Char('c'), mods: Modifiers::CTRL_SHIFT })
            ||| key == (KeyInput { key: Key::Esc, mods: Modifiers::NONE })
            ||| key == (KeyInput { key: Key::Char('['), mods: Modifiers::CTRL })
            ||| key == (KeyInput { key: Key::Char('['), mods: Modifiers::CTRL_SHIFT })
        }),
    ensures
        r.global == s.global,
        r.sequences == s.sequences,
        r.unbinds == s.unbinds,
        r.mode is Normal,
        r.status.len() > 0,
{
    reveal_strlit("rebind cancelled");
    reveal_strlit("rebind refused: ");
}

/// A captured key changes at most two chords, the one that it replaces and its own: any
/// other stays bound as it was, and nothing else of the state but the findings, the mode and
/// the status changes.
pub proof fn law_rebind_touches_two_chords(
    s: AppView,
    target: Seq<char>,
    key: KeyInput,
    r: AppView,
    k: KeyInput,
)
    requires
        is_rebound(s, target, key, r),
        k != key,
        parsed_chord(target) != Some(k),
    ensures
        r.global.contains_key(k) <==> s.global.contains_key(k),
        s.global.contains_key(k) ==> r.global[k] == s.global[k],
        r == (AppView {
            global: r.global,
            findings: r.findings,
            mode: ModeView::Normal,
            status: r.status,
            ..s
        }),
{
}

/// Deleting a binding unbinds that chord and no other, and notes it among the chords
/// declared unbound, once.
pub proof fn law_delete_unbinds_one_chord(s: AppView, chord: KeyInput, r: AppView, k: KeyInput)
    requires
        is_deleted(s, chord, r),
    ensures
        !r.global.contains_key(chord),
        k != chord ==> (r.global.contains_key(k) <==> s.global.contains_key(k)),
        k != chord && s.global.contains_key(k) ==> r.global[k] == s.global[k],
        r.unbinds.contains(k) <==> s.unbinds.contains(k) || k == chord,
        s.unbinds.no_duplicates() ==> r.unbinds.no_duplicates(),
        r.sequences == s.sequences,
        r.mode == s.mode,
        r.pending == s.pending,
        r.should_quit == s.should_quit,
{
    if !s.unbinds.contains(chord) {
        let after = s.unbinds.push(chord);
        assert(after[s.unbinds.len() as int] == chord);
        if s.unbinds.contains(k) {
            let i = choose|i: int| 0 <= i < s.unbinds.len() && s.unbinds[i] == k;
            assert(after[i] == k);
        }
    }
}

/// What an event of the terminal does: a release or a repeat does nothing; Control with `c`
/// quits in every mode; `F7`, and nothing else, asks for a save.
pub proof fn law_control_keys_come_first(
    s: AppView,
    event: KeyEvent,
    now: Instant,
    window: Duration,
    t: AppView,
    request: Request,
)
    requires
        is_handled(s, event, now, window, (t, request)),
    ensures
        event.kind != KeyEventKind::Press ==> t == s && request == Request::Nothing,
        event.kind == KeyEventKind::Press && event.code == KeyCode::Char('c')
            && event.modifiers.control ==> t == (AppView { should_quit: true, ..s }),
        request == Request::Save <==> event.kind == KeyEventKind::Press && event.code == KeyCode::F(
            7,
        ),
        request == Request::Save ==> t == s,
{
}

/// The demonstration starts from the defaults with the user's configuration over them: a
/// chord of the global layer is bound as the user binds it; else, unless the user declares
/// it unbound, as the defaults do.
pub proof fn law_start_is_the_user_over_the_defaults(
    defaults: BuildOutput<Action>,
    user: BuildOutput<Action>,
    s: AppView,
    c: KeyInput,
)
    requires
        starts_from(defaults, user, s),
    ensures
        ({
            let g = GLOBAL_LAYER@;
            let over = user.layers@.contains_key(g) && user.layers@[g]@.contains_key(c);
            let under = defaults.layers@.contains_key(g) && defaults.layers@[g]@.contains_key(c);
            let gone = user.unbinds@.contains_key(g) && user.unbinds@[g]@.contains(c);
            &&& over ==> s.global.contains_key(c) && s.global[c] == user.layers@[g]@[c]
            &&& under && !over && !gone ==> s.global.contains_key(c) && s.global[c]
                == defaults.layers@[g]@[c]
            &&& gone && !over ==> !s.global.contains_key(c)
            &&& s.global.contains_key(c) ==> over || under
        }),
        s.pending.0.len() == 0,
        s.mode is Normal,
        !s.should_quit,
        forall|a: Action|
            s.commands.contains_key(#[trigger] action_text(a)) && s.commands[action_text(a)] == a,
{
    assert forall|a: Action|
        s.commands.contains_key(#[trigger] action_text(a)) && s.commands[action_text(a)] == a by {
        law_action_names_resolve(a);
    }
}

/// Any other press can be captured: where it is neither reserved nor delivered as a reserved
/// press, what the target chord is bound to moves to it.
pub proof fn law_other_presses_are_captured(
    s: AppView,
    target: Seq<char>,
    chord: KeyInput,
    key: KeyInput,
    r: AppView,
)
    requires
        is_rebound(s, target, key, r),
        parsed_chord(target) == Some(chord),
        s.global.contains_key(chord),
        ({
            let stop = KeyInput { key: Key::Char('c'), mods: Modifiers::CTRL };
            let leave = KeyInput { key: Key::Esc, mods: Modifiers::NONE };
            let form = legacy_form_of(key);
            key != stop && key != leave && form != LegacyForm::CollapsesTo(stop) && form
                != LegacyForm::CollapsesTo(leave)
        }),
    ensures
        r.global.contains_key(key),
        r.global[key] == s.global[chord],
        key != chord ==> !r.global.contains_key(chord),
{
    assert(reserved()[0] == (KeyInput { key: Key::Char('c'), mods: Modifiers::CTRL }));
    assert(reserved()[1] == (KeyInput { key: Key::Esc, mods: Modifiers::NONE }));
    assert(broken_by(key) is None);
}

/// The menu lists each key that goes on from the keys that are held, by its spelling, and
/// nothing else; nothing is held, and the menu is empty, where no sequence is in progress.
pub proof fn law_menu_lists_the_next_keys(s: AppView, menu: Seq<Seq<char>>, k: KeyInput)
    requires
        is_menu(s, menu),
        prefix_free(s.sequences),
        s.pending.0.len() > 0,
    ensures
        menu.contains(chord_text(k)) <==> exists|x: Seq<KeyInput>| #[trigger]
            s.sequences.contains_key(x) && s.pending.0.push(k).is_prefix_of(x),
        forall|i: int|
            #![trigger menu[i]]
            0 <= i < menu.len() ==> exists|o: KeyInput| #[trigger] chord_text(o) == menu[i],
{
    let m = s.sequences;
    let held = s.pending.0;
    let longer = held.push(k);
    law_keys_open_what_begins_with_them(m, held);
    law_keys_open_what_begins_with_them(m, longer);
    let goes_on = m.contains_key(longer) || opens(m, longer);
    assert(goes_on <==> exists|x: Seq<KeyInput>| #[trigger]
        m.contains_key(x) && longer.is_prefix_of(x)) by {
        if m.contains_key(longer) {
            assert(longer.is_prefix_of(longer));
        }
        if exists|x: Seq<KeyInput>| #[trigger] m.contains_key(x) && longer.is_prefix_of(x) {
            let x = choose|x: Seq<KeyInput>| #[trigger] m.contains_key(x) && longer.is_prefix_of(x);
            if x.len() == longer.len() {
                assert(x =~= longer);
            }
        }
    }
    if goes_on {
        let x = choose|x: Seq<KeyInput>| #[trigger] m.contains_key(x) && longer.is_prefix_of(x);
        assert(held.is_prefix_of(x)) by {
            assert(x.subrange(0, held.len() as int) =~= longer.subrange(0, held.len() as int));
            assert(longer.subrange(0, held.len() as int) =~= held);
        }
        assert(opens(m, held));
        law_bound_sequences_do_not_begin_each_other(m, x, x);
        if m.contains_key(held) {
            law_bound_sequences_do_not_begin_each_other(m, held, x);
        }
    }
    if !m.contains_key(held) && opens(m, held) {
        let keys = choose|keys: Seq<KeyInput>| #[trigger]
            rendered(keys) == menu && keys.no_duplicates() && forall|o: KeyInput| #[trigger]
                keys.contains(o) <==> m.contains_key(held.push(o)) || opens(m, held.push(o));
        if goes_on {
            assert(keys.contains(k));
            let i = choose|i: int| 0 <= i < keys.len() && keys[i] == k;
            assert(rendered(keys)[i] == chord_text(keys[i]));
            assert(menu[i] == chord_text(k));
        }
        if menu.contains(chord_text(k)) {
            let i = choose|i: int| 0 <= i < menu.len() && menu[i] == chord_text(k);
            assert(rendered(keys)[i] == chord_text(keys[i]));
            law_spelling_is_injective(keys[i], k);
            assert(keys.contains(k));
        }
        assert forall|i: int|
            #![trigger menu[i]]
            0 <= i < menu.len() implies exists|o: KeyInput| #[trigger] chord_text(o) == menu[i] by {
            assert(rendered(keys)[i] == chord_text(keys[i]));
        }
    }
}

/// A user configuration that loads is the overlay, whatever it says; one that does not load,
/// or is not there, counts as one that says nothing.
pub proof fn law_user_configuration_is_the_overlay(user: Option<&str>, overlay: BuildOutput<Action>)
    requires
        is_overlay(user, overlay),
    ensures
        user matches Some(text) && crate::config::text_error(text@) is None ==> is_load(
            (user->0)@,
            resolve_action,
            Ok(overlay),
        ),
        user is None || crate::config::text_error((user->0)@) is Some ==> overlay.layers@
            == Map::<Seq<char>, Keymap<Action>>::empty() && overlay.sequences@ == Map::<
            Seq<KeyInput>,
            Action,
        >::empty() && overlay.unbinds@ == Map::<Seq<char>, Vec<KeyInput>>::empty(),
{
}

/// The palette offers every command that begins with what was typed, in order, and outside
/// of the palette nothing is offered.
pub proof fn law_palette_offers_completions(s: AppView, rows: Seq<(Seq<char>, Action)>)
    requires
        are_candidates(s, rows),
    ensures
        s.mode matches ModeView::Palette { text } ==> forall|name: Seq<char>| #[trigger]
            s.commands.contains_key(name) && text.is_prefix_of(name) ==> rows.contains(
                (name, s.commands[name]),
            ),
        s.mode is Palette ==> forall|i: int|
            0 <= i < rows.len() ==> s.commands.contains_key((#[trigger] rows[i]).0) && rows[i].1
                == s.commands[rows[i].0],
        !(s.mode is Palette) ==> rows.len() == 0,
{
    if let ModeView::Palette { text } = s.mode {
        law_completion_lists_what_begins_so(rows, s.commands, text);
    }
}

/// Every bound chord that does not survive a legacy terminal has a finding, which names what
/// it collapses to where it does, and no other chord has one.
pub proof fn law_findings_are_the_lossy_chords(
    findings: Seq<(Seq<char>, Seq<char>)>,
    global: Map<KeyInput, Action>,
    k: KeyInput,
)
    requires
        are_findings(findings, global),
    ensures
        global.contains_key(k) && legacy_form_of(k) is Unrepresentable ==> exists|i: int|
            0 <= i < findings.len() && (#[trigger] findings[i]).0 == chord_text(k),
        global.contains_key(k) ==> (legacy_form_of(k) matches LegacyForm::CollapsesTo(twin)
            ==> exists|i: int|
            0 <= i < findings.len() && (#[trigger] findings[i]).0 == chord_text(k)
                && mentions(findings[i].1, chord_text(twin), Seq::empty())),
        !global.contains_key(k) || legacy_form_of(k) is Representable ==> forall|i: int|
            0 <= i < findings.len() ==> (#[trigger] findings[i]).0 != chord_text(k),
{
    let lints = choose|lints: Seq<(Seq<char>, Option<Seq<char>>)>| #[trigger]
        lints_of(lints, global) && findings == lints.map_values(
            |l: (Seq<char>, Option<Seq<char>>)| finding(l),
        );
    law_lints_are_the_lossy_chords(lints, global, k);
    assert forall|i: int| 0 <= i < findings.len() implies (#[trigger] findings[i]).0 == lints[i].0 by {}
    if global.contains_key(k) {
        match legacy_form_of(k) {
            LegacyForm::Unrepresentable => {
                let l = (chord_text(k), None::<Seq<char>>);
                let i = choose|i: int| 0 <= i < lints.len() && lints[i] == l;
                assert(findings[i].0 == chord_text(k));
            },
            LegacyForm::CollapsesTo(twin) => {
                let l = (chord_text(k), Some(chord_text(twin)));
                let i = choose|i: int| 0 <= i < lints.len() && lints[i] == l;
                assert(findings[i].0 == chord_text(k));
                let none = Seq::<char>::empty();
                assert(findings[i].1 =~= "collapses to "@ + chord_text(twin)
                    + " in legacy terminals"@ + none + none);
            },
            LegacyForm::Representable => {},
        }
    }
}

/// The user's configuration stands below the home directory, in a directory of its own, with
/// one separator between the two.
pub proof fn law_configuration_is_below_home(home: Seq<char>)
    ensures
        home.is_prefix_of(save_path(home)),
        ".config/keymap-showcase/user.toml"@.is_suffix_of(save_path(home)),
        home.len() > 0 ==> save_path(home)[save_path(home).len()
            - ".config/keymap-showcase/user.toml"@.len() - 1] == '/',
{
    let p = save_path(home);
    let tail = ".config/keymap-showcase/user.toml"@;
    assert(p.subrange(0, home.len() as int) =~= home);
    assert(p.subrange(p.len() - tail.len(), p.len() as int) =~= tail);
}

/// What actions are shown as tells them apart.
pub proof fn law_shown_actions_differ(a: Action, b: Action)
    requires
        action_shown(a) == action_shown(b),
    ensures
        a == b,
{
    reveal_strlit("Save");
    reveal_strlit("Quit");
    reveal_strlit("Undo");
    reveal_strlit("MoveDown");
    reveal_strlit("MoveUp");
    reveal_strlit("MoveTop");
    assert("Save"@.len() == 4 && "Save"@[0] == 'S');
    assert("Quit"@.len() == 4 && "Quit"@[0] == 'Q');
    assert("Undo"@.len() == 4 && "Undo"@[0] == 'U');
    assert("MoveDown"@.len() == 8 && "MoveDown"@[0] == 'M');
    assert("MoveUp"@.len() == 6 && "MoveUp"@[0] == 'M');
    assert("MoveTop"@.len() == 7 && "MoveTop"@[0] == 'M');
}

/// The status says what was done: which action fired, which chord was bound to what, and
/// which binding was deleted.
pub proof fn law_status_says_what_was_done(
    s: AppView,
    action: Action,
    lead: Seq<char>,
    target: Seq<char>,
    chord: KeyInput,
    key: KeyInput,
    r: AppView,
    d: AppView,
)
    requires
        is_rebound(s, target, key, r),
        is_deleted(s, chord, d),
    ensures
        action != Action::Quit ==> fired(s, lead, action).0.status == lead + action_shown(action),
        chord_text(chord).is_suffix_of(d.status),
        r.global != s.global ==> mentions(r.status, target, chord_text(key)),
{
    let c = chord_text(chord);
    assert(d.status.subrange(d.status.len() - c.len(), d.status.len() as int) =~= c);
    if r.global != s.global {
        let k = chord_text(key);
        let none = Seq::<char>::empty();
        let lead = "rebound "@ + target + " → "@ + k;
        if s.global.contains_key(key) {
            let tail = " (overwrote "@ + action_text(s.global[key]) + ")"@;
            assert(r.status =~= "rebound "@ + target + " → "@ + k + tail);
        } else {
            assert(r.status =~= "rebound "@ + target + " → "@ + k + none);
        }
    }
}

} // verus!
