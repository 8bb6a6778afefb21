use keymap_suite::chords::{alt, ctrl, key};
use keymap_suite::event::{KeyCode, KeyEvent, KeyModifiers};
use keymap_suite::prelude::{
    resolve_layered, Key, KeyInput, Keymap, Loaded, LoadedExt, Modifiers,
    PendingSequence, TimedPending, WarningKind,
};
use keymap_suite::suite::from_toml_read;
use keymap_suite::time::{Duration, Instant};
use keymap_suite::{
    from_toml_str, keys_for_action, legacy_lints, merge, validate_rebind, BreakReason, CommandIndex,
    LegacyLint, LoadError, MergeNote, RebindVerdict, UnsupportedKey, Warning, GLOBAL_LAYER,
};

#[derive(Clone, Debug, PartialEq)]
enum Action {
    Quit,
    Save,
    SplitPane,
}

fn resolve(name: &str) -> Option<Action> {
    match name {
        "quit" => Some(Action::Quit),
        "save" => Some(Action::Save),
        "split_pane" => Some(Action::SplitPane),
        _ => None,
    }
}

#[test]
fn from_toml_str_returns_layers_and_warnings() {
    let toml = r#"
[keys]
"ctrl+q" = "quit"
"ctrl+s" = "save"
"control+s" = "split_pane"
"ctrl+z" = "undo"

[layers.panel]
"ctrl+s" = "split_pane"
"#;
    let out = from_toml_str(toml, resolve).expect("valid TOML");
    // The global layer is always present.
    assert!(out.layers.contains_key(GLOBAL_LAYER));
    assert!(out.layers.contains_key("panel"));
    // Two warnings: the within-layer conflict on ctrl+s, and the unknown action.
    assert_eq!(out.warnings.len(), 2);
}

#[test]
fn deny_warnings_returns_self_when_clean_and_warnings_otherwise() {
    // Clean: empty config, no warnings.
    let clean: Loaded<Action> = from_toml_str("", |_| None).expect("empty config parses");
    assert!(clean.warnings.is_empty());
    let _kept: Loaded<Action> = clean.deny_warnings().expect("no warnings → Ok");

    // Dirty: an unknown action name yields a Warning::UnknownAction.
    let dirty_toml = r#"
[keys]
"ctrl+q" = "no_such_action"
"#;
    let dirty = from_toml_str(dirty_toml, resolve).expect("valid TOML");
    let returned = dirty.deny_warnings().expect_err("warnings → Err(warnings)");
    assert_eq!(returned.len(), 1);
    assert!(matches!(returned[0], Warning::UnknownAction { .. }));
}

#[test]
fn pending_sequence_method_is_a_discoverability_shortcut_for_new() {
    let loaded: Loaded<Action> = from_toml_str("", |_| None).expect("empty config parses");
    let via_method = loaded.pending_sequence();
    let via_new = PendingSequence::new();
    assert_eq!(via_method.is_empty(), via_new.is_empty());
    assert!(via_method.pending().is_empty());
}

#[test]
fn load_error_distinguishes_io_from_build() {
    // I/O: a path that does not exist, as reading it reports.
    let missing = std::io::Error::new(std::io::ErrorKind::NotFound, "/no/such/keymap.toml");
    let err = from_toml_read::<Action, _>(Err(missing), |_| None)
        .expect_err("missing file → Err");
    assert!(matches!(err, LoadError::Io(_)));
}

#[test]
fn end_to_end_resolve_layered_via_re_exports() {
    // The shape of a minimal "TUI loop": load TOML, pick a layer chain,
    // resolve one key.
    let toml = r#"
[keys]
"ctrl+q" = "quit"

[layers.panel]
"ctrl+s" = "split_pane"
"#;
    let loaded = from_toml_str(toml, resolve).expect("valid TOML");
    let key_q = KeyInput::new(Key::Char('q'), Modifiers::CTRL);

    let chain = [loaded.global()];
    assert_eq!(
        resolve_layered(&chain, &key_q),
        Some(&Action::Quit),
    );

    // Panel layer beats the global on a chord both layers bind.
    let panel = loaded.layers.get("panel").unwrap();
    let key_s = KeyInput::new(Key::Char('s'), Modifiers::CTRL);
    let chain = [panel, loaded.global()];
    assert_eq!(
        resolve_layered(&chain, &key_s),
        Some(&Action::SplitPane),
    );
}

#[test]
fn keys_for_action_returns_every_chord_bound_to_it() {
    let toml = r#"
[keys]
"ctrl+s" = "save"
"ctrl+w" = "save"
"ctrl+q" = "quit"
"#;
    let loaded = from_toml_str(toml, resolve).expect("valid TOML");
    let mut keys: Vec<String> = keys_for_action(loaded.global(), &Action::Save)
        .iter()
        .map(|key| key.to_string())
        .collect();
    keys.sort();
    assert_eq!(keys, ["ctrl+s", "ctrl+w"]);

    // An action bound nowhere in this layer comes back empty.
    assert!(keys_for_action(loaded.global(), &Action::SplitPane).is_empty());
}

#[test]
fn keys_for_action_round_trips_through_get() {
    // Every chord keys_for_action hands back must
    // resolve, via Keymap::get, to the very action we asked about. This is
    // what keeps a help screen honest — no "shown but does nothing" chord.
    let toml = r#"
[keys]
"ctrl+s" = "save"
"ctrl+w" = "save"
"ctrl+q" = "quit"
"g" = "quit"
"#;
    let loaded = from_toml_str(toml, resolve).expect("valid TOML");
    for action in [Action::Quit, Action::Save, Action::SplitPane] {
        for chord in keys_for_action(loaded.global(), &action) {
            assert_eq!(
                loaded.global().get(chord),
                Some(&action),
                "chord {chord:?} listed for {action:?} but resolves elsewhere",
            );
        }
    }
}

#[test]
fn chord_constructors_match_their_parsed_equivalents() {
    // The terse constructor and the canonical-string parse must agree — this
    // is what lets a binding built in code and one loaded from TOML collide.
    assert_eq!(key('q'), "q".parse().unwrap());
    assert_eq!(ctrl('s'), "ctrl+s".parse().unwrap());
    assert_eq!(alt('x'), "alt+x".parse().unwrap());

    // And they match what the explicit constructor produces.
    assert_eq!(ctrl('s'), KeyInput::new(Key::Char('s'), Modifiers::CTRL));
}

#[test]
fn chord_constructors_funnel_through_normalization() {
    // `ctrl+shift+s` keeps Shift (a second modifier is held), so it is a
    // distinct chord — the constructors are not a way to sneak past
    // normalization. `key('a')` is bare, with no Shift to fold.
    assert_eq!(key('a'), KeyInput::new(Key::Char('a'), Modifiers::NONE));
    assert_ne!(ctrl('s'), KeyInput::new(Key::Char('s'), Modifiers::NONE));
}

// --- the whole library through its root and its prelude ---

#[test]
fn command_index_is_reachable_from_suite_root() {
    let mut index: CommandIndex<Action> = CommandIndex::new();
    index.bind("quit", Action::Quit);
    index.bind("save", Action::Save);

    assert_eq!(index.get("quit"), Some(&Action::Quit));
    assert_eq!(index.get("nope"), None);

    let completions: Vec<&str> = index.complete("s").into_iter().map(|(name, _)| name).collect();
    assert_eq!(completions, ["save"]);
}

#[test]
fn timed_pending_is_reachable_from_suite_prelude() {
    let loaded = from_toml_str(
        "[[sequences]]\nkeys = [\"g\", \"g\"]\naction = \"quit\"\n",
        resolve,
    )
    .expect("valid TOML");

    let mut pending = TimedPending::new();
    let now = Instant::from_nanos(0);
    let window = Duration::from_millis(500);
    let g = KeyInput::new(Key::Char('g'), Modifiers::NONE);

    // First `g` press: enters a prefix.
    let step = pending.feed(&loaded.sequences, g, now, window);
    assert!(step.expired.is_none(), "no expiry on first press");
    // (step.step is Prefix or Passthrough depending on map; just checking it doesn't panic)
    let _ = step.step;
}

#[test]
fn validate_rebind_is_reachable_from_suite_root() {
    let mut layer: Keymap<Action> = Keymap::new();
    layer.bind(KeyInput::new(Key::Char('q'), Modifiers::CTRL), Action::Quit);
    let layers = [&layer];
    let proposed = KeyInput::new(Key::Char('s'), Modifiers::CTRL);
    let reserved = [KeyInput::new(Key::Char('q'), Modifiers::CTRL)];

    // `ctrl+s` is not reserved — should be Allowed.
    let answer = validate_rebind(&layers, 0, proposed, &reserved);
    assert!(
        matches!(answer, RebindVerdict::Allowed { .. }),
        "ctrl+s is not reserved: {answer:?}"
    );

    // `ctrl+q` is reserved — should break.
    let answer = validate_rebind(&layers, 0, reserved[0], &reserved);
    assert!(
        matches!(
            answer,
            RebindVerdict::BreaksReserved {
                reason: BreakReason::DirectSteal,
                ..
            }
        ),
        "ctrl+q is reserved: {answer:?}"
    );
}

#[test]
fn merge_is_reachable_from_suite_root() {
    let base = from_toml_str("[keys]\n\"ctrl+s\" = \"save\"\n", resolve).unwrap();
    let overlay = from_toml_str("[keys]\n\"ctrl+s\" = \"quit\"\n", resolve).unwrap();
    let merged = merge(base, overlay);

    let ctrl_s = KeyInput::new(Key::Char('s'), Modifiers::CTRL);
    assert_eq!(merged.output.global().get(&ctrl_s), Some(&Action::Quit));
    assert!(
        merged
            .notes
            .iter()
            .any(|n| matches!(n, MergeNote::Overrode { .. }))
    );
}

#[test]
fn warning_kind_is_reachable_from_suite_prelude() {
    let toml = "[keys]\n\"ctrl+z\" = \"unknown_action\"\n";
    let loaded = from_toml_str(toml, resolve).unwrap();
    assert_eq!(loaded.warnings.len(), 1);
    assert_eq!(loaded.warnings[0].kind(), WarningKind::UnknownAction);
}

#[test]
fn loaded_unbinds_field_is_visible_via_suite() {
    // `Loaded` is `BuildOutput`, so its `unbinds` are there too.
    let toml = "[keys]\n\"ctrl+s\" = false\n";
    let loaded = from_toml_str(toml, resolve).unwrap();
    assert!(
        !loaded.unbinds.is_empty(),
        "unbinds field visible through Loaded alias"
    );
}

#[test]
fn legacy_lints_is_reachable_from_suite_root() {
    let toml = "[keys]\n\"ctrl+s\" = \"save\"\n";
    let loaded = from_toml_str(toml, resolve).unwrap();
    let global = loaded.global();

    // `legacy_lints` returns a Vec<LegacyLint> — verify it does not panic
    // and the result is of the right type.
    let lints: Vec<LegacyLint> = legacy_lints(global);
    // ctrl+s is a safe chord (C0 representable); expect no lints for it.
    assert!(
        lints.is_empty(),
        "ctrl+s alone should produce no legacy lints: {lints:?}"
    );
}

#[test]
fn crossterm_key_event_converts_through_the_facade() {
    // A key with no neutral form fails with `UnsupportedKey`.
    let ev = KeyEvent::new(KeyCode::Char('s'), KeyModifiers::control());
    let input = KeyInput::try_from(ev).expect("ctrl+s converts");
    assert_eq!(input, KeyInput::new(Key::Char('s'), Modifiers::CTRL));

    let unmappable = KeyEvent::new(KeyCode::CapsLock, KeyModifiers::none());
    let err: Result<KeyInput, UnsupportedKey> = KeyInput::try_from(unmappable);
    assert!(err.is_err());
}
