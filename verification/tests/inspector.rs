use keymap_suite::event::{KeyCode, KeyEvent, KeyModifiers};
use keymap_suite::inspector::{
    build_keymap, is_reserved, resolve_with_layer, Action, App, Context, BLOCK_TOML, GLOBAL_TOML,
    PANEL_TOML,
};
use keymap_suite::{Key, KeyInput, Keymap, Modifiers};

fn ctrl(c: char) -> KeyInput {
    KeyInput::new(Key::Char(c), Modifiers::CTRL)
}

fn bound(toml: &str) -> Keymap<Action> {
    build_keymap(toml).expect("demo layer parses")
}

// --- resolve_with_layer: pure, first-hit, provenance-carrying ---

#[test]
fn resolve_with_layer_picks_innermost_and_names_it() {
    let block = bound(BLOCK_TOML);
    let panel = bound(PANEL_TOML);
    let global = bound(GLOBAL_TOML);
    let layers = [("block", &block), ("panel", &panel), ("global", &global)];
    // ctrl+s is in all three; innermost (block) wins, and the name matches.
    assert_eq!(
        resolve_with_layer(&layers, &ctrl('s')),
        Some(("block", &Action::SplitBlock))
    );
}

#[test]
fn resolve_with_layer_falls_through_to_panel() {
    let block = bound(BLOCK_TOML);
    let panel = bound(PANEL_TOML);
    let global = bound(GLOBAL_TOML);
    let layers = [("block", &block), ("panel", &panel), ("global", &global)];
    // ctrl+w is panel-only: misses block, hits panel.
    assert_eq!(
        resolve_with_layer(&layers, &ctrl('w')),
        Some(("panel", &Action::ClosePanel))
    );
}

#[test]
fn resolve_with_layer_skips_middle_to_global() {
    let block = bound(BLOCK_TOML);
    let panel = bound(PANEL_TOML);
    let global = bound(GLOBAL_TOML);
    let layers = [("block", &block), ("panel", &panel), ("global", &global)];
    // ctrl+q is global-only: misses block and panel, resolves at global.
    assert_eq!(
        resolve_with_layer(&layers, &ctrl('q')),
        Some(("global", &Action::Quit))
    );
}

#[test]
fn resolve_with_layer_misses_when_unbound_or_empty() {
    let global = bound(GLOBAL_TOML);
    let layers = [("global", &global)];
    assert_eq!(resolve_with_layer(&layers, &ctrl('z')), None);
    // Empty layer list is a miss, not a panic.
    let none: [(&'static str, &Keymap<Action>); 0] = [];
    assert_eq!(resolve_with_layer(&none, &ctrl('s')), None);
}

#[test]
fn resolve_with_layer_skips_empty_layers_without_index_drift() {
    let empty = Keymap::<Action>::new();
    let global = bound(GLOBAL_TOML);
    // An empty inner layer must not steal provenance from the layer that hits.
    let layers = [("block", &empty), ("panel", &empty), ("global", &global)];
    assert_eq!(
        resolve_with_layer(&layers, &ctrl('s')),
        Some(("global", &Action::Save))
    );
}

// --- demo config integrity: the flow can actually exhibit (a)-(e) ---

#[test]
fn demo_layers_can_exhibit_the_whole_checklist() {
    let block = bound(BLOCK_TOML);
    let panel = bound(PANEL_TOML);
    let global = bound(GLOBAL_TOML);

    // (a) override: ctrl+s present in all three with *distinct* actions.
    let s = ctrl('s');
    let (b, p, g) = (block.get(&s), panel.get(&s), global.get(&s));
    assert!(b.is_some() && p.is_some() && g.is_some());
    assert!(
        b != p && p != g && b != g,
        "ctrl+s must differ per layer to show provenance"
    );

    // (b) block-misses-panel-hits: ctrl+w in panel only.
    assert!(block.get(&ctrl('w')).is_none() && panel.get(&ctrl('w')).is_some());

    // (c)/(f) middle-skip: ctrl+q in global only.
    assert!(block.get(&ctrl('q')).is_none() && panel.get(&ctrl('q')).is_none());
    assert!(global.get(&ctrl('q')).is_some());

    // (d) sink: ctrl+z bound nowhere.
    assert!(block.get(&ctrl('z')).is_none());
    assert!(panel.get(&ctrl('z')).is_none());
    assert!(global.get(&ctrl('z')).is_none());

    // (e) reserved pre-emption is observable: ctrl+c IS bound (global), yet
    // `is_reserved` short-circuits before resolution.
    assert!(global.get(&ctrl('c')).is_some());
}

#[test]
fn block_layer_is_not_degenerate() {
    // Guard against a future edit emptying block, which would make the
    // innermost-override demonstration impossible.
    assert!(!bound(BLOCK_TOML).is_empty());
}

#[test]
fn reserved_key_is_detected() {
    let ev = KeyEvent::new(KeyCode::Char('c'), KeyModifiers::control());
    assert!(is_reserved(ev));
    let not = KeyEvent::new(KeyCode::Char('s'), KeyModifiers::control());
    assert!(!is_reserved(not));
}

#[test]
fn tool_control_label_explains_f2_f3_including_unsupported_kitty() {
    let mut app = App {
        global: bound(GLOBAL_TOML),
        panel: bound(PANEL_TOML),
        block: bound(BLOCK_TOML),
        context: Context::Block,
        log: Vec::new(),
        enhancement_supported: false,
        enhancement_on: false,
        should_quit: false,
    };
    let f2 = KeyEvent::new(KeyCode::F(2), KeyModifiers::none());
    let f3 = KeyEvent::new(KeyCode::F(3), KeyModifiers::none());
    assert_eq!(app.tool_control_label(f2), Some("switch context"));
    // Unsupported terminal: F3 explains itself rather than reading as a miss.
    assert_eq!(
        app.tool_control_label(f3),
        Some("kitty protocol unsupported here")
    );
    app.enhancement_supported = true;
    assert_eq!(app.tool_control_label(f3), Some("toggle kitty protocol"));
    // A normal key is not a tool control.
    let s = KeyEvent::new(KeyCode::Char('s'), KeyModifiers::control());
    assert_eq!(app.tool_control_label(s), None);
}

#[test]
fn context_descend_cycles_inward_then_wraps() {
    assert!(matches!(Context::Global.descend(), Context::Panel));
    assert!(matches!(Context::Panel.descend(), Context::Block));
    assert!(matches!(Context::Block.descend(), Context::Global));
}

#[test]
fn chain_activation_tracks_context() {
    let mk = |context| App {
        global: bound(GLOBAL_TOML),
        panel: bound(PANEL_TOML),
        block: bound(BLOCK_TOML),
        context,
        log: Vec::new(),
        enhancement_supported: false,
        enhancement_on: false,
        should_quit: false,
    };
    // global context: only global active.
    assert_eq!(
        mk(Context::Global).chain(),
        [("block", false), ("panel", false), ("global", true)]
    );
    // panel context: panel + global.
    assert_eq!(
        mk(Context::Panel).chain(),
        [("block", false), ("panel", true), ("global", true)]
    );
    // block context: all three.
    assert_eq!(
        mk(Context::Block).chain(),
        [("block", true), ("panel", true), ("global", true)]
    );
}
