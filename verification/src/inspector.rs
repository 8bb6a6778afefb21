//! The logic of a live inspector of decoding and layered resolution.
//!
//! Context-dependent bindings are a lexical scope chain: `block → panel → global`,
//! resolved innermost-first, first hit wins, a miss falls outward. Two special
//! positions sit outside the chain: a **reserved** key wins over every layer, and the
//! **sink** receives anything that no layer binds.
use crate::config::{all_layers, is_load, layer_maps, text_error, traces, Trace, GLOBAL_LAYER};
use crate::document::{config_of, parsed_document};
use crate::error::BuildError;
use crate::event::{code_text, reported, KeyCode, KeyEvent, KeyEventKind};
use crate::grammar::{chord_text, text_if};
use crate::input::KeyInput;
use crate::keymap::{layered, Keymap};
use crate::suite::from_toml_str;
use crate::text::{copy_text, push_text, same_text};
use vstd::prelude::*;

verus! {

/// The bindings of the global layer: the rich base.
pub const GLOBAL_TOML: &'static str = "
[keys]
\"ctrl+s\" = \"save\"
\"ctrl+shift+s\" = \"save_as\"
\"ctrl+q\" = \"quit\"
\"ctrl+c\" = \"cancel\"
\"f1\" = \"help\"
\"ctrl+i\" = \"focus_next\"
\"tab\" = \"indent\"
\"shift+tab\" = \"outdent\"
\"up\" = \"move_up\"
\"down\" = \"move_down\"
\"super+1\" = \"first_tab\"
";

/// The bindings of the panel layer.
pub const PANEL_TOML: &'static str = "
[keys]
\"ctrl+s\" = \"split_panel\"
\"ctrl+w\" = \"close_panel\"
";

/// The bindings of the block layer.
pub const BLOCK_TOML: &'static str = "
[keys]
\"ctrl+s\" = \"split_block\"
";

/// Every action that the inspector's layers bind.
#[derive(Debug, Clone, Copy, PartialEq, Eq, Structural)]
pub enum Action {
    /// Save.
    Save,
    /// Save under another name.
    SaveAs,
    /// Quit the inspector.
    Quit,
    /// Cancel.
    Cancel,
    /// Show help.
    Help,
    /// Move the focus on.
    FocusNext,
    /// Indent.
    Indent,
    /// Outdent.
    Outdent,
    /// Move up.
    MoveUp,
    /// Move down.
    MoveDown,
    /// Go to the first tab.
    FirstTab,
    /// Split the panel.
    SplitPanel,
    /// Close the panel.
    ClosePanel,
    /// Split the block.
    SplitBlock,
}

/// The action of a name, if it has one.
pub open spec fn action_named(name: Seq<char>) -> Option<Action> {
    if name == "save"@ {
        Some(Action::Save)
    } else if name == "save_as"@ {
        Some(Action::SaveAs)
    } else if name == "quit"@ {
        Some(Action::Quit)
    } else if name == "cancel"@ {
        Some(Action::Cancel)
    } else if name == "help"@ {
        Some(Action::Help)
    } else if name == "focus_next"@ {
        Some(Action::FocusNext)
    } else if name == "indent"@ {
        Some(Action::Indent)
    } else if name == "outdent"@ {
        Some(Action::Outdent)
    } else if name == "move_up"@ {
        Some(Action::MoveUp)
    } else if name == "move_down"@ {
        Some(Action::MoveDown)
    } else if name == "first_tab"@ {
        Some(Action::FirstTab)
    } else if name == "split_panel"@ {
        Some(Action::SplitPanel)
    } else if name == "close_panel"@ {
        Some(Action::ClosePanel)
    } else if name == "split_block"@ {
        Some(Action::SplitBlock)
    } else {
        None
    }
}

/// What an action is shown as.
pub open spec fn action_shown(action: Action) -> Seq<char> {
    match action {
        Action::Save => "Save"@,
        Action::SaveAs => "SaveAs"@,
        Action::Quit => "Quit"@,
        Action::Cancel => "Cancel"@,
        Action::Help => "Help"@,
        Action::FocusNext => "FocusNext"@,
        Action::Indent => "Indent"@,
        Action::Outdent => "Outdent"@,
        Action::MoveUp => "MoveUp"@,
        Action::MoveDown => "MoveDown"@,
        Action::FirstTab => "FirstTab"@,
        Action::SplitPanel => "SplitPanel"@,
        Action::ClosePanel => "ClosePanel"@,
        Action::SplitBlock => "SplitBlock"@,
    }
}

/// The action of a name in a configuration.
#[must_use]
pub fn resolve_action(name: &str) -> (action: Option<Action>)
    ensures
        action == action_named(name@),
{
    if same_text(name, "save") {
        Some(Action::Save)
    } else if same_text(name, "save_as") {
        Some(Action::SaveAs)
    } else if same_text(name, "quit") {
        Some(Action::Quit)
    } else if same_text(name, "cancel") {
        Some(Action::Cancel)
    } else if same_text(name, "help") {
        Some(Action::Help)
    } else if same_text(name, "focus_next") {
        Some(Action::FocusNext)
    } else if same_text(name, "indent") {
        Some(Action::Indent)
    } else if same_text(name, "outdent") {
        Some(Action::Outdent)
    } else if same_text(name, "move_up") {
        Some(Action::MoveUp)
    } else if same_text(name, "move_down") {
        Some(Action::MoveDown)
    } else if same_text(name, "first_tab") {
        Some(Action::FirstTab)
    } else if same_text(name, "split_panel") {
        Some(Action::SplitPanel)
    } else if same_text(name, "close_panel") {
        Some(Action::ClosePanel)
    } else if same_text(name, "split_block") {
        Some(Action::SplitBlock)
    } else {
        None
    }
}

impl Action {
    /// What the action is shown as.
    #[must_use]
    pub fn shown(self) -> (s: &'static str)
        ensures
            s@ == action_shown(self),
    {
        match self {
            Action::Save => "Save",
            Action::SaveAs => "SaveAs",
            Action::Quit => "Quit",
            Action::Cancel => "Cancel",
            Action::Help => "Help",
            Action::FocusNext => "FocusNext",
            Action::Indent => "Indent",
            Action::Outdent => "Outdent",
            Action::MoveUp => "MoveUp",
            Action::MoveDown => "MoveDown",
            Action::FirstTab => "FirstTab",
            Action::SplitPanel => "SplitPanel",
            Action::ClosePanel => "ClosePanel",
            Action::SplitBlock => "SplitBlock",
        }
    }
}

/// Where in the scope chain the caller currently sits. Each context activates itself
/// and everything more global than it.
#[derive(Debug, Clone, Copy, PartialEq, Eq, Structural)]
pub enum Context {
    /// Only the global layer is active.
    Global,
    /// The panel and the global layer are active.
    Panel,
    /// All three layers are active.
    Block,
}

impl Context {
    /// The name of the context.
    pub open spec fn text(self) -> Seq<char> {
        match self {
            Context::Global => "global"@,
            Context::Panel => "panel"@,
            Context::Block => "block"@,
        }
    }

    /// The context one step inward, or the outermost.
    pub open spec fn inward(self) -> Context {
        match self {
            Context::Global => Context::Panel,
            Context::Panel => Context::Block,
            Context::Block => Context::Global,
        }
    }

    /// The name of the context.
    #[must_use]
    pub fn name(self) -> (s: &'static str)
        ensures
            s@ == self.text(),
    {
        match self {
            Context::Global => "global",
            Context::Panel => "panel",
            Context::Block => "block",
        }
    }

    /// Descends inward (more layers), wrapping back out to `global`.
    #[must_use]
    pub fn descend(self) -> (c: Context)
        ensures
            c == self.inward(),
    {
        match self {
            Context::Global => Context::Panel,
            Context::Panel => Context::Block,
            Context::Block => Context::Global,
        }
    }
}

/// Descending visits every context and comes back.
pub proof fn law_descent_is_a_cycle(c: Context)
    ensures
        c.inward().inward().inward() == c,
        c.inward() != c,
        c.inward().inward() != c,
{
}

/// How a key was dispatched, for display.
#[derive(Debug)]
pub enum Dispatch<'a> {
    /// Resolved by a layer.
    Hit {
        /// The action.
        action: &'a Action,
        /// The name of the layer.
        layer: &'static str,
    },
    /// No active layer bound it: it falls through to the sink.
    Sink,
    /// A reserved key pre-empted the chain entirely.
    Reserved,
    /// A control key of the inspector.
    ToolControl(&'static str),
}

/// What a [`Dispatch`] is.
pub enum DispatchView {
    /// See [`Dispatch::Hit`].
    Hit { action: Action, layer: Seq<char> },
    /// See [`Dispatch::Sink`].
    Sink,
    /// See [`Dispatch::Reserved`].
    Reserved,
    /// See [`Dispatch::ToolControl`].
    ToolControl(Seq<char>),
}

impl<'a> View for Dispatch<'a> {
    type V = DispatchView;

    open spec fn view(&self) -> DispatchView {
        match *self {
            Dispatch::Hit { action, layer } => DispatchView::Hit { action: *action, layer: layer@ },
            Dispatch::Sink => DispatchView::Sink,
            Dispatch::Reserved => DispatchView::Reserved,
            Dispatch::ToolControl(label) => DispatchView::ToolControl(label@),
        }
    }
}

/// What a dispatch is shown as.
pub open spec fn dispatch_text(d: DispatchView) -> Seq<char> {
    match d {
        DispatchView::Hit { action, layer } => action_shown(action) + " @ "@ + layer,
        DispatchView::Sink => "→ PTY sink"@,
        DispatchView::Reserved => "reserved (pre-empts all layers)"@,
        DispatchView::ToolControl(label) => "(tui) "@ + label,
    }
}

impl<'a> Dispatch<'a> {
    /// What the dispatch is shown as.
    #[must_use]
    pub fn render(&self) -> (s: String)
        ensures
            s@ == dispatch_text(self@),
    {
        match self {
            Dispatch::Hit { action, layer } => {
                let mut out = copy_text((**action).shown());
                push_text(&mut out, " @ ");
                push_text(&mut out, layer);
                out
            },
            Dispatch::Sink => copy_text("→ PTY sink"),
            Dispatch::Reserved => copy_text("reserved (pre-empts all layers)"),
            Dispatch::ToolControl(label) => {
                let mut out = copy_text("(tui) ");
                push_text(&mut out, label);
                out
            },
        }
    }
}

/// The keymaps of named layers.
pub open spec fn keymaps_of<'a, A>(layers: Seq<(&'static str, &'a Keymap<A>)>) -> Seq<&'a Keymap<A>> {
    layers.map_values(|l: (&'static str, &'a Keymap<A>)| l.1)
}

/// The layer at the position is the first that binds the press.
pub open spec fn is_first_hit<A>(
    layers: Seq<(&'static str, &Keymap<A>)>,
    input: KeyInput,
    i: int,
) -> bool {
    &&& 0 <= i < layers.len()
    &&& layers[i].1@.contains_key(input)
    &&& forall|j: int| 0 <= j < i ==> !(#[trigger] layers[j]).1@.contains_key(input)
}

/// First hit over the ordered, active layers, returning **which** layer won alongside
/// the action. Both come from the same binding.
pub fn resolve_with_layer<'a, A>(
    layers: &[(&'static str, &'a Keymap<A>)],
    input: &KeyInput,
) -> (r: Option<(&'static str, &'a A)>)
    ensures
        match r {
            Some((name, action)) => exists|i: int| #[trigger]
                is_first_hit(layers@, *input, i) && name@ == layers@[i].0@ && *action
                    == layers@[i].1@[*input],
            None => forall|i: int|
                0 <= i < layers@.len() ==> !(#[trigger] layers@[i]).1@.contains_key(*input),
        },
{
    let mut i: usize = 0;
    while i < layers.len()
        invariant
            i <= layers.len(),
            forall|j: int| 0 <= j < i ==> !(#[trigger] layers@[j]).1@.contains_key(*input),
        decreases layers.len() - i,
    {
        let (name, keymap) = layers[i];
        match keymap.get(input) {
            Some(action) => {
                assert(is_first_hit(layers@, *input, i as int));
                return Some((name, action));
            },
            None => {},
        }
        i = i + 1;
    }
    None
}

/// The provenance agrees with the plain resolver: the first hit is what
/// [`resolve_layered`](crate::keymap::resolve_layered) resolves to, and there is none
/// where that misses.
pub proof fn law_provenance_agrees<A>(layers: Seq<(&'static str, &Keymap<A>)>, input: KeyInput)
    ensures
        forall|i: int| #[trigger]
            is_first_hit(layers, input, i) ==> layered(keymaps_of(layers), input) == Some(
                layers[i].1@[input],
            ),
        (forall|i: int| 0 <= i < layers.len() ==> !(#[trigger] layers[i]).1@.contains_key(input))
            ==> layered(keymaps_of(layers), input) is None,
    decreases layers.len(),
{
    if layers.len() > 0 {
        let rest = layers.drop_first();
        law_provenance_agrees(rest, input);
        assert(keymaps_of(layers).drop_first() =~= keymaps_of(rest));
        assert forall|i: int| #[trigger] is_first_hit(layers, input, i) implies layered(
            keymaps_of(layers),
            input,
        ) == Some(layers[i].1@[input]) by {
            if i > 0 {
                assert(!layers[0].1@.contains_key(input));
                assert forall|j: int| 0 <= j < i - 1 implies !(#[trigger] rest[j]).1@.contains_key(
                    input,
                ) by {
                    assert(rest[j] == layers[j + 1]);
                }
                assert(is_first_hit(rest, input, i - 1));
            }
        }
        if forall|i: int| 0 <= i < layers.len() ==> !(#[trigger] layers[i]).1@.contains_key(input) {
            assert(!layers[0].1@.contains_key(input));
            assert forall|i: int| 0 <= i < rest.len() implies !(#[trigger] rest[i]).1@.contains_key(
                input,
            ) by {
                assert(rest[i] == layers[i + 1]);
            }
        }
    }
}

/// The press is the reserved escape hatch.
pub open spec fn reserved_event(key: KeyEvent) -> bool {
    key.code == KeyCode::Char('c') && key.modifiers.control
}

/// Is this the reserved escape hatch? Checked before resolution, so no binding can
/// shadow it.
#[must_use]
pub fn is_reserved(key: KeyEvent) -> (r: bool)
    ensures
        r == reserved_event(key),
{
    key.code == KeyCode::Char('c') && key.modifiers.control
}

/// What the log shows of an event: the modifiers, each with a `+`, then the key code.
pub open spec fn event_text(key: KeyEvent) -> Seq<char> {
    text_if(key.modifiers.control, "ctrl+"@) + text_if(key.modifiers.alt, "alt+"@) + text_if(
        key.modifiers.shift,
        "shift+"@,
    ) + text_if(key.modifiers.sup, "super+"@) + code_text(key.code)
}

/// The raw view of an event, e.g. `ctrl+Char('i')`.
#[must_use]
pub fn format_event(key: KeyEvent) -> (s: String)
    ensures
        s@ == event_text(key),
{
    let mut out = String::new();
    if key.modifiers.control {
        push_text(&mut out, "ctrl+");
    }
    if key.modifiers.alt {
        push_text(&mut out, "alt+");
    }
    if key.modifiers.shift {
        push_text(&mut out, "shift+");
    }
    if key.modifiers.sup {
        push_text(&mut out, "super+");
    }
    let code = key.code.to_string();
    push_text(&mut out, code.as_str());
    assert(out@ =~= event_text(key));
    out
}

/// A line of the key log.
#[derive(Debug, Clone)]
pub struct LogRow {
    /// The raw event.
    pub event: String,
    /// The press that it is.
    pub decoded: String,
    /// How it was dispatched.
    pub dispatch: String,
}

impl View for LogRow {
    type V = (Seq<char>, Seq<char>, Seq<char>);

    open spec fn view(&self) -> (Seq<char>, Seq<char>, Seq<char>) {
        (self.event@, self.decoded@, self.dispatch@)
    }
}

/// What the lines of a log say.
pub open spec fn log_views(log: Seq<LogRow>) -> Seq<(Seq<char>, Seq<char>, Seq<char>)> {
    log.map_values(|r: LogRow| r@)
}

/// The state of the inspector.
#[derive(Debug)]
pub struct App {
    /// The global layer.
    pub global: Keymap<Action>,
    /// The panel layer.
    pub panel: Keymap<Action>,
    /// The block layer.
    pub block: Keymap<Action>,
    /// Where in the scope chain the caller sits.
    pub context: Context,
    /// The key log, newest first.
    pub log: Vec<LogRow>,
    /// Whether the terminal has the enhanced keyboard protocol.
    pub enhancement_supported: bool,
    /// Whether the enhanced keyboard protocol is on.
    pub enhancement_on: bool,
    /// Whether the inspector should exit.
    pub should_quit: bool,
}

/// What an [`App`] is.
pub struct InspectorView {
    /// The global layer.
    pub global: Map<KeyInput, Action>,
    /// The panel layer.
    pub panel: Map<KeyInput, Action>,
    /// The block layer.
    pub block: Map<KeyInput, Action>,
    /// The context.
    pub context: Context,
    /// The log, newest first.
    pub log: Seq<(Seq<char>, Seq<char>, Seq<char>)>,
    /// Whether the terminal has the enhanced keyboard protocol.
    pub supported: bool,
    /// Whether the enhanced keyboard protocol is on.
    pub on: bool,
    /// Whether the inspector should exit.
    pub should_quit: bool,
}

impl View for App {
    type V = InspectorView;

    open spec fn view(&self) -> InspectorView {
        InspectorView {
            global: self.global@,
            panel: self.panel@,
            block: self.block@,
            context: self.context,
            log: log_views(self.log@),
            supported: self.enhancement_supported,
            on: self.enhancement_on,
            should_quit: self.should_quit,
        }
    }
}

/// What the scope chain resolves a press to: the innermost active layer that binds it.
pub open spec fn chain_hit(s: InspectorView, input: KeyInput) -> DispatchView {
    if s.context == Context::Block && s.block.contains_key(input) {
        DispatchView::Hit { action: s.block[input], layer: "block"@ }
    } else if s.context != Context::Global && s.panel.contains_key(input) {
        DispatchView::Hit { action: s.panel[input], layer: "panel"@ }
    } else if s.global.contains_key(input) {
        DispatchView::Hit { action: s.global[input], layer: "global"@ }
    } else {
        DispatchView::Sink
    }
}

/// The label of a control key of the inspector.
pub open spec fn control_label(s: InspectorView, key: KeyEvent) -> Option<Seq<char>> {
    if key.code == KeyCode::F(2) {
        Some("switch context"@)
    } else if key.code == KeyCode::F(3) {
        if s.supported {
            Some("toggle kitty protocol"@)
        } else {
            Some("kitty protocol unsupported here"@)
        }
    } else {
        None
    }
}

/// How an event is dispatched.
pub open spec fn dispatched(
    s: InspectorView,
    key: KeyEvent,
    decoded: Option<KeyInput>,
) -> DispatchView {
    if reserved_event(key) {
        DispatchView::Reserved
    } else {
        match control_label(s, key) {
            Some(label) => DispatchView::ToolControl(label),
            None => match decoded {
                Some(input) => chain_hit(s, input),
                None => DispatchView::Sink,
            },
        }
    }
}

/// The press that an event is, if its key has a neutral form.
pub open spec fn decoded_event(key: KeyEvent) -> Option<KeyInput> {
    match reported(key) {
        Ok(input) => Some(input),
        Err(_) => None,
    }
}

/// What the log shows of a press.
pub open spec fn decoded_text(decoded: Option<KeyInput>) -> Seq<char> {
    match decoded {
        Some(input) => chord_text(input),
        None => "unsupported"@,
    }
}

/// What an event comes to: the state, and the wish to turn the enhanced keyboard
/// protocol on or off.
pub open spec fn handled(s: InspectorView, key: KeyEvent) -> (InspectorView, Option<bool>) {
    let decoded = decoded_event(key);
    let d = dispatched(s, key, decoded);
    let log = seq![(event_text(key), decoded_text(decoded), dispatch_text(d))] + s.log;
    let quits = match d {
        DispatchView::Reserved => true,
        DispatchView::Hit { action, .. } => action == Action::Quit,
        _ => false,
    };
    let t = InspectorView { log, should_quit: s.should_quit || quits, ..s };
    if key.kind != KeyEventKind::Press {
        (s, None)
    } else if d is Reserved {
        (t, None)
    } else if key.code == KeyCode::F(2) {
        (InspectorView { context: s.context.inward(), ..t }, None)
    } else if key.code == KeyCode::F(3) && s.supported {
        (t, Some(!s.on))
    } else {
        (t, None)
    }
}

/// The layers in chain order, with whether each is active in the context.
pub open spec fn layer_states(context: Context) -> Seq<(&'static str, bool)> {
    seq![
        ("block", context == Context::Block),
        ("panel", context != Context::Global),
        ("global", true),
    ]
}

impl App {
    /// The inspector over three layers, in the innermost context.
    #[must_use]
    pub fn new(
        global: Keymap<Action>,
        panel: Keymap<Action>,
        block: Keymap<Action>,
        enhancement_supported: bool,
    ) -> (app: App)
        ensures
            app@ == (InspectorView {
                global: global@,
                panel: panel@,
                block: block@,
                context: Context::Block,
                log: Seq::empty(),
                supported: enhancement_supported,
                on: false,
                should_quit: false,
            }),
    {
        let app = App {
            global,
            panel,
            block,
            context: Context::Block,
            log: Vec::new(),
            enhancement_supported,
            enhancement_on: false,
            should_quit: false,
        };
        assert(app@.log =~= Seq::empty());
        app
    }

    /// The active layers for the current context, innermost first, each tagged with
    /// its name.
    #[must_use]
    pub fn active_layers(&self) -> (layers: Vec<(&'static str, &Keymap<Action>)>)
        ensures
            layers@ == match self.context {
                Context::Global => seq![("global", &self.global)],
                Context::Panel => seq![("panel", &self.panel), ("global", &self.global)],
                Context::Block => seq![
                    ("block", &self.block),
                    ("panel", &self.panel),
                    ("global", &self.global),
                ],
            },
    {
        let mut layers: Vec<(&'static str, &Keymap<Action>)> = Vec::new();
        match self.context {
            Context::Global => {},
            Context::Panel => {
                layers.push(("panel", &self.panel));
            },
            Context::Block => {
                layers.push(("block", &self.block));
                layers.push(("panel", &self.panel));
            },
        }
        layers.push(("global", &self.global));
        layers
    }

    /// All three layers in chain order with whether each is active in the current
    /// context.
    #[must_use]
    pub fn chain(&self) -> (rows: Vec<(&'static str, bool)>)
        ensures
            rows@ == layer_states(self.context),
    {
        let mut rows: Vec<(&'static str, bool)> = Vec::new();
        rows.push(("block", self.context == Context::Block));
        rows.push(("panel", self.context != Context::Global));
        rows.push(("global", true));
        rows
    }

    /// How an event that decodes to `decoded` is dispatched.
    pub fn dispatch(&self, key: KeyEvent, decoded: Option<KeyInput>) -> (d: Dispatch<'_>)
        ensures
            d@ == dispatched(self@, key, decoded),
    {
        if is_reserved(key) {
            return Dispatch::Reserved;
        }
        match self.tool_control_label(key) {
            Some(label) => {
                return Dispatch::ToolControl(label);
            },
            None => {},
        }
        let input = match decoded {
            Some(input) => input,
            None => {
                return Dispatch::Sink;
            },
        };
        let layers = self.active_layers();
        match resolve_with_layer(layers.as_slice(), &input) {
            Some((layer, action)) => {
                proof {
                    let i = choose|i: int| #[trigger]
                        is_first_hit(layers@, input, i) && layer@ == layers@[i].0@ && *action
                            == layers@[i].1@[input];
                    assert(is_first_hit(layers@, input, i));
                    assert(i == 0 || i == 1 || i == 2);
                    if i > 0 {
                        assert(!layers@[0].1@.contains_key(input));
                    }
                    if i > 1 {
                        assert(!layers@[1].1@.contains_key(input));
                    }
                }
                Dispatch::Hit { action, layer }
            },
            None => {
                proof {
                    assert(!layers@[0].1@.contains_key(input));
                    if layers@.len() > 1 {
                        assert(!layers@[1].1@.contains_key(input));
                    }
                    if layers@.len() > 2 {
                        assert(!layers@[2].1@.contains_key(input));
                    }
                }
                Dispatch::Sink
            },
        }
    }

    /// Labels the inspector's own control keys, so that the log shows what they do.
    /// F3 explains itself when the terminal lacks the enhanced protocol.
    #[must_use]
    pub fn tool_control_label(&self, key: KeyEvent) -> (label: Option<&'static str>)
        ensures
            match label {
                Some(label) => control_label(self@, key) == Some(label@),
                None => control_label(self@, key) is None,
            },
    {
        if key.code == KeyCode::F(2) {
            Some("switch context")
        } else if key.code == KeyCode::F(3) {
            if self.enhancement_supported {
                Some("toggle kitty protocol")
            } else {
                Some("kitty protocol unsupported here")
            }
        } else {
            None
        }
    }

    /// Processes one event. Where the answer is `Some(on)`, the caller turns the
    /// enhanced keyboard protocol on or off, and then says so with
    /// [`App::set_enhancement`].
    pub fn handle_key(&mut self, key: KeyEvent) -> (wish: Option<bool>)
        ensures
            (final(self)@, wish) == handled(old(self)@, key),
    {
        if key.kind != KeyEventKind::Press {
            return None;
        }
        let ghost s = self@;
        let decoded = match KeyInput::try_from(key) {
            Ok(input) => {
                assert(decoded_event(key) == Some(input));
                Some(input)
            },
            Err(_) => {
                assert(decoded_event(key) is None);
                None
            },
        };
        let dispatch = self.dispatch(key, decoded);
        let is_reserved = match &dispatch {
            Dispatch::Reserved => true,
            _ => false,
        };
        let is_quit = match &dispatch {
            Dispatch::Hit { action, .. } => **action == Action::Quit,
            _ => false,
        };
        let text = dispatch.render();
        self.push_log(key, decoded, text);
        if is_reserved {
            self.should_quit = true;
            return None;
        }
        if is_quit {
            self.should_quit = true;
        }
        if key.code == KeyCode::F(2) {
            self.context = self.context.descend();
        } else if key.code == KeyCode::F(3) && self.enhancement_supported {
            return Some(!self.enhancement_on);
        }
        None
    }

    /// Records whether the enhanced keyboard protocol is on.
    pub fn set_enhancement(&mut self, on: bool)
        ensures
            final(self)@ == (InspectorView { on, ..old(self)@ }),
    {
        self.enhancement_on = on;
    }

    fn push_log(&mut self, key: KeyEvent, decoded: Option<KeyInput>, dispatch: String)
        ensures
            final(self)@ == (InspectorView {
                log: seq![(event_text(key), decoded_text(decoded), dispatch@)] + old(self)@.log,
                ..old(self)@
            }),
    {
        let decoded = match decoded {
            Some(input) => input.to_string(),
            None => copy_text("unsupported"),
        };
        let row = LogRow { event: format_event(key), decoded, dispatch };
        let ghost before = self.log@;
        self.log.insert(0, row);
        assert(log_views(self.log@) =~= seq![row@] + log_views(before));
    }
}

/// Reserved pre-empts every layer: whatever is bound, the reserved press quits.
pub proof fn law_reserved_always_quits(s: InspectorView, key: KeyEvent)
    requires
        reserved_event(key),
        key.kind == KeyEventKind::Press,
    ensures
        handled(s, key).0.should_quit,
        dispatched(s, key, decoded_event(key)) is Reserved,
{
}

/// The log only grows: no line is lost or changed.
pub proof fn law_log_only_grows(s: InspectorView, key: KeyEvent)
    requires
        key.kind == KeyEventKind::Press,
    ensures
        handled(s, key).0.log.len() == s.log.len() + 1,
        handled(s, key).0.log.skip(1) == s.log,
{
    assert(handled(s, key).0.log.skip(1) =~= s.log);
}

/// Builds one layer of the inspector from a configuration with one table.
///
/// # Errors
///
/// Returns the error of loading the configuration.
pub fn build_keymap(toml: &str) -> (r: Result<Keymap<Action>, BuildError>)
    ensures
        match r {
            Ok(keymap) => {
                &&& text_error(toml@) is None
                &&& exists|t: Trace<Action>| #[trigger]
                    traces(config_of(parsed_document(toml@)->0), resolve_action, t) && keymap@
                        == layer_maps(
                        all_layers(config_of(parsed_document(toml@)->0)),
                        t.layers,
                    )[GLOBAL_LAYER@]
            },
            Err(e) => is_load(
                toml@,
                resolve_action,
                Result::<crate::config::BuildOutput<Action>, BuildError>::Err(e),
            ),
        },
{
    match from_toml_str(toml, resolve_action) {
        Ok(out) => {
            let ghost layers0 = out.layers@;
            let ghost out0 = out;
            let mut layers = out.layers;
            match layers.remove(GLOBAL_LAYER) {
                Some(keymap) => {
                    proof {
                        let config = config_of(parsed_document(toml@)->0);
                        let t = choose|t: Trace<Action>| #[trigger]
                            traces(config, resolve_action, t) && crate::config::is_built(
                                config,
                                t,
                                out0,
                            );
                        assert(traces(config, resolve_action, t));
                        assert(layers0.contains_key(GLOBAL_LAYER@));
                    }
                    Ok(keymap)
                },
                None => {
                    assert(false);
                    Ok(Keymap::new())
                },
            }
        },
        Err(e) => Err(e),
    }
}

/// The innermost active layer that binds a press decides: the block layer is active in the
/// block context only, the panel layer everywhere but in the global one, and the global
/// layer always; what no active layer binds goes to the sink.
pub proof fn law_innermost_active_layer_decides(s: InspectorView, input: KeyInput)
    ensures
        ({
            let in_block = s.context == Context::Block && s.block.contains_key(input);
            let in_panel = s.context != Context::Global && s.panel.contains_key(input);
            let hit = chain_hit(s, input);
            &&& hit is Sink <==> !in_block && !in_panel && !s.global.contains_key(input)
            &&& in_block ==> hit == (DispatchView::Hit { action: s.block[input], layer: "block"@ })
            &&& !in_block && in_panel ==> hit == (DispatchView::Hit {
                action: s.panel[input],
                layer: "panel"@,
            })
            &&& !in_block && !in_panel && s.global.contains_key(input) ==> hit == (
            DispatchView::Hit { action: s.global[input], layer: "global"@ })
        }),
{
}

/// A layer that is not active does not matter: in two states with the same context and the
/// same active layers, a press is resolved alike.
pub proof fn law_inactive_layers_do_not_matter(s: InspectorView, t: InspectorView, input: KeyInput)
    requires
        s.context == t.context,
        s.global == t.global,
        s.context == Context::Global || s.panel == t.panel,
        s.context == Context::Block ==> s.block == t.block,
    ensures
        chain_hit(s, input) == chain_hit(t, input),
{
}

/// What an event does: a release or a repeat does nothing; Control with `c` quits, before
/// any layer is asked; `F2` moves the context inward, and nothing else moves it; `F3` asks
/// for the other state of the keyboard protocol where the terminal has it, and nothing else
/// asks; any other press quits exactly where it resolves to the quit action. The layers
/// never change.
pub proof fn law_events_do_what_they_say(s: InspectorView, key: KeyEvent)
    ensures
        ({
            let (t, wish) = handled(s, key);
            let escape = key.code == KeyCode::Char('c') && key.modifiers.control;
            let resolved = match decoded_event(key) {
                Some(input) => chain_hit(s, input),
                None => DispatchView::Sink,
            };
            let tool = key.code == KeyCode::F(2) || key.code == KeyCode::F(3);
            &&& key.kind != KeyEventKind::Press ==> t == s && wish is None
            &&& t.global == s.global && t.panel == s.panel && t.block == s.block && t.supported
                == s.supported && t.on == s.on
            &&& key.kind == KeyEventKind::Press ==> {
                &&& escape ==> t.should_quit
                &&& tool ==> t.should_quit == s.should_quit
                &&& !escape && !tool ==> (t.should_quit <==> s.should_quit || (
                resolved matches DispatchView::Hit { action, .. } && action == Action::Quit))
                &&& t.context == (if key.code == KeyCode::F(2) {
                    s.context.inward()
                } else {
                    s.context
                })
                &&& wish == (if key.code == KeyCode::F(3) && s.supported {
                    Some(!s.on)
                } else {
                    None
                })
            }
        }),
        Context::Global.inward() == Context::Panel,
        Context::Panel.inward() == Context::Block,
{
}

/// The log shows each press as it came: the event, the press that it is, and how it was
/// dispatched, in the newest line; and what a log says is what its lines say, one by one.
pub proof fn law_newest_line_is_the_event(s: InspectorView, key: KeyEvent, log: Seq<LogRow>)
    requires
        key.kind == KeyEventKind::Press,
    ensures
        handled(s, key).0.log[0].0 == event_text(key),
        reported(key) matches Ok(input) ==> handled(s, key).0.log[0].1 == chord_text(input),
        handled(s, key).0.log[0].2 == dispatch_text(dispatched(s, key, decoded_event(key))),
        log_views(log).len() == log.len(),
        forall|i: int|
            0 <= i < log.len() ==> #[trigger] log_views(log)[i] == (
                log[i].event@,
                log[i].decoded@,
                log[i].dispatch@,
            ),
{
}

/// No two names name the same action.
pub proof fn law_names_tell_actions_apart(a: Seq<char>, b: Seq<char>)
    requires
        action_named(a) is Some,
        action_named(a) == action_named(b),
    ensures
        a == b,
{
}

/// What actions are shown as tells them apart.
pub proof fn law_shown_actions_differ(a: Action, b: Action)
    requires
        action_shown(a) == action_shown(b),
    ensures
        a == b,
{
    reveal_strlit("Save");
    reveal_strlit("SaveAs");
    reveal_strlit("Quit");
    reveal_strlit("Cancel");
    reveal_strlit("Help");
    reveal_strlit("FocusNext");
    reveal_strlit("Indent");
    reveal_strlit("Outdent");
    reveal_strlit("MoveUp");
    reveal_strlit("MoveDown");
    reveal_strlit("FirstTab");
    reveal_strlit("SplitPanel");
    reveal_strlit("ClosePanel");
    reveal_strlit("SplitBlock");
    assert("Save"@.len() == 4 && "Save"@[0] == 'S');
    assert("SaveAs"@.len() == 6 && "SaveAs"@[0] == 'S');
    assert("Quit"@.len() == 4 && "Quit"@[0] == 'Q');
    assert("Cancel"@.len() == 6 && "Cancel"@[0] == 'C');
    assert("Help"@.len() == 4 && "Help"@[0] == 'H');
    assert("FocusNext"@.len() == 9 && "FocusNext"@[0] == 'F');
    assert("Indent"@.len() == 6 && "Indent"@[0] == 'I');
    assert("Outdent"@.len() == 7 && "Outdent"@[0] == 'O');
    assert("MoveUp"@.len() == 6 && "MoveUp"@[0] == 'M');
    assert("MoveDown"@.len() == 8 && "MoveDown"@[0] == 'M');
    assert("FirstTab"@.len() == 8 && "FirstTab"@[0] == 'F');
    assert("SplitPanel"@.len() == 10 && "SplitPanel"@[0] == 'S');
    assert("ClosePanel"@.len() == 10 && "ClosePanel"@[0] == 'C');
    assert("SplitBlock"@.len() == 10 && "SplitBlock"@[0] == 'S');
    assert("SplitPanel"@[5] == 'P' && "SplitBlock"@[5] == 'B');
}

/// A dispatch by a layer is shown by its action, then its layer; a control key of the
/// inspector by its label; and an event by its key code, behind the modifiers that it holds.
pub proof fn law_log_texts_say_what_happened(action: Action, layer: Seq<char>, key: KeyEvent)
    ensures
        action_shown(action).is_prefix_of(dispatch_text(DispatchView::Hit { action, layer })),
        layer.is_suffix_of(dispatch_text(DispatchView::Hit { action, layer })),
        layer.is_suffix_of(dispatch_text(DispatchView::ToolControl(layer))),
        code_text(key.code).is_suffix_of(event_text(key)),
        ({
            let m = key.modifiers;
            !m.control && !m.alt && !m.shift && !m.sup ==> event_text(key) == code_text(key.code)
        }),
        key.modifiers.control ==> "ctrl+"@.is_prefix_of(event_text(key)),
{
    let t = dispatch_text(DispatchView::Hit { action, layer });
    let u = dispatch_text(DispatchView::ToolControl(layer));
    let e = event_text(key);
    let a = action_shown(action);
    let c = code_text(key.code);
    assert(t.subrange(0, a.len() as int) =~= a);
    assert(t.subrange(t.len() - layer.len(), t.len() as int) =~= layer);
    assert(u.subrange(u.len() - layer.len(), u.len() as int) =~= layer);
    assert(e.subrange(e.len() - c.len(), e.len() as int) =~= c);
    if !key.modifiers.control && !key.modifiers.alt && !key.modifiers.shift && !key.modifiers.sup {
        assert(e =~= c);
    }
    if key.modifiers.control {
        assert(e.subrange(0, "ctrl+"@.len() as int) =~= "ctrl+"@);
    }
}

} // verus!
