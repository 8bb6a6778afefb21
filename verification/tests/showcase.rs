use keymap_suite::decode::{decode, DecodeMode, Decoded};
use keymap_suite::showcase::{
    reserved_keys, save_path_from_home, Action, AppState, Mode, Outcome,
};
use keymap_suite::time::{Duration, Instant};
use keymap_suite::{
    legacy_lints, validate_rebind, BreakReason, Key, KeyInput, Keymap, LegacyLint, MergeNote,
    Modifiers, RebindVerdict, WarningKind,
};

fn app() -> AppState {
    AppState::new(None).expect("defaults must parse")
}

fn now() -> Instant {
    Instant::from_nanos(3_000_000_000)
}

fn window() -> Duration {
    Duration::from_millis(500)
}

fn ctrl(c: char) -> KeyInput {
    KeyInput::new(Key::Char(c), Modifiers::CTRL)
}

fn plain(c: char) -> KeyInput {
    KeyInput::new(Key::Char(c), Modifiers::NONE)
}

// --- Value 1: merge ---

/// Defaults TOML loads cleanly; the global layer has the built-in bindings.
#[test]
fn value1_defaults_load_and_global_has_builtin_bindings() {
    let app = app();
    assert_eq!(app.global.get(&ctrl('s')), Some(&Action::Save));
    assert_eq!(app.global.get(&ctrl('q')), Some(&Action::Quit));
}

/// A user TOML that overrides `ctrl+s` wins after merge, and the override
/// appears in `merge_notes`.
#[test]
fn value1_user_toml_override_wins_and_note_recorded() {
    let app = AppState::new(Some("[keys]\n\"ctrl+s\" = \"undo\"\n")).expect("valid user toml");

    assert_eq!(
        app.global.get(&ctrl('s')),
        Some(&Action::Undo),
        "user override must win"
    );
    assert!(
        app.merge_notes
            .iter()
            .any(|n| matches!(n, MergeNote::Overrode { chord, .. } if chord == "ctrl+s")),
        "Overrode note expected: {:?}",
        app.merge_notes
    );
}

/// Warnings from load are accessible; `WarningKind` categorises them.
#[test]
fn value1_warnings_accessible_with_warning_kind() {
    let app = AppState::new(Some("[keys]\n\"ctrl+s\" = \"no_such_action\"\n")).expect("valid toml");

    // The merge produces an UnknownAction warning for "no_such_action".
    assert!(
        app.warnings
            .iter()
            .any(|w| w.kind() == WarningKind::UnknownAction),
        "expected UnknownAction warning: {:?}",
        app.warnings
    );
}

// --- Value 2: rebind + tombstone + save ---

/// `validate_rebind` accepts a non-reserved key.
#[test]
fn value2_validate_rebind_allows_non_reserved() {
    let app = app();
    let layers = [&app.global];
    let proposed = KeyInput::new(Key::Char('w'), Modifiers::CTRL);
    let reserved = reserved_keys();
    let answer = validate_rebind(&layers, 0, proposed, &reserved);
    assert!(
        matches!(answer, RebindVerdict::Allowed { .. }),
        "ctrl+w is not reserved: {answer:?}"
    );
}

/// `validate_rebind` refuses a reserved key.
#[test]
fn value2_validate_rebind_refuses_reserved() {
    let app = app();
    let layers = [&app.global];
    let esc = KeyInput::new(Key::Esc, Modifiers::NONE);
    let reserved = reserved_keys();
    let answer = validate_rebind(&layers, 0, esc, &reserved);
    assert!(
        matches!(
            answer,
            RebindVerdict::BreaksReserved {
                reason: BreakReason::DirectSteal,
                ..
            }
        ),
        "Esc is reserved: {answer:?}"
    );
}

/// `delete_binding` removes the chord from the live map and adds it to unbinds.
#[test]
fn value2_delete_binding_removes_from_map_and_adds_to_unbinds() {
    let mut app = app();
    let s = ctrl('s');
    assert!(
        app.global.get(&s).is_some(),
        "ctrl+s must exist before delete"
    );
    app.delete_binding(&s);
    assert!(
        app.global.get(&s).is_none(),
        "ctrl+s must be gone after delete"
    );
    assert!(app.unbinds.contains(&s), "unbinds must record the chord");
}

/// `config_text` gives a text that can be loaded back; tombstones survive
/// the round-trip.
#[test]
fn value2_save_config_round_trips_tombstone() {
    let mut app = AppState::new(None).expect("defaults parse");

    // Delete ctrl+z (value 2 tombstone).
    let z = ctrl('z');
    app.delete_binding(&z);
    let saved = app.config_text();

    // Reload and check the tombstone is in unbinds.
    let reloaded = AppState::new(Some(&saved)).expect("reload parse");
    // After merge, unbinds from the user config are applied to defaults:
    // ctrl+z should no longer be in the global layer.
    assert!(
        reloaded.global.get(&z).is_none(),
        "tombstone must survive save/reload: ctrl+z should be absent"
    );
}

/// When `apply_rebind` assigns a key that already has a different action,
/// the status message surfaces the shadow advisory ("overwrote <action>").
#[test]
fn value2_apply_rebind_surfaces_shadow_in_status() {
    let mut app = app();
    // The default map has ctrl+s → Save. Rebind ctrl+s to something else by
    // starting a capture for "ctrl+q" and pressing ctrl+s as the new key.
    // ctrl+s shadows the existing Save binding.
    app.start_rebind("ctrl+q".to_string());
    let new_key = ctrl('s'); // ctrl+s is already bound to Save (not reserved)
    app.apply_rebind("ctrl+q", new_key);

    // The status must mention the shadow.
    assert!(
        app.status.contains("overwrote"),
        "status must surface shadow advisory: {:?}",
        app.status
    );
    // ctrl+q should now be gone (unbound) and ctrl+s should carry quit.
    assert!(
        app.global.get(&ctrl('q')).is_none(),
        "ctrl+q must be unbound after rebind"
    );
    assert_eq!(
        app.global.get(&ctrl('s')),
        Some(&Action::Quit),
        "ctrl+s now carries quit"
    );
}

// --- Value 3: legacy lints + decode demo ---

/// `legacy_warnings` is computed on init. The default bindings contain no
/// collapsing chords (ctrl+s, ctrl+q, ctrl+z, j, k are all representable),
/// so the default set is empty. Additionally we verify that a known
/// collapsing chord (`ctrl+i` → `tab`) is detected when present.
#[test]
fn value3_legacy_lints_run_on_init() {
    let app = app();
    // Default bindings produce no legacy lints.
    assert!(
        app.legacy_warnings.is_empty(),
        "default bindings should produce no legacy lints: {:?}",
        app.legacy_warnings
    );

    // Adding ctrl+i (which collapses to Tab in legacy C0) must produce a lint.
    let mut km = Keymap::new();
    km.bind(KeyInput::new(Key::Char('i'), Modifiers::CTRL), Action::Save);
    let lints = legacy_lints(&km);
    assert!(
        !lints.is_empty(),
        "ctrl+i should produce at least one legacy lint"
    );
    // The lint must describe the collapse to Tab.
    let has_collapse = lints.iter().any(|lint| {
        matches!(
            lint,
            LegacyLint::CollapsesTo { collapses_to, .. }
                if collapses_to == "tab"
        )
    });
    assert!(
        has_collapse,
        "ctrl+i must collapse to tab in legacy mode: {lints:?}"
    );
}

/// The decode demo decodes `ESC[A` to cursor-up (`Key::Up`).
#[test]
fn value3_decode_demo_is_non_empty() {
    // Verify the canned bytes decode to Up with no modifiers.
    let bytes = b"\x1b[A";
    let result = decode(bytes, DecodeMode::Baseline);
    match result {
        Decoded::Key { input, consumed } => {
            assert_eq!(
                input,
                KeyInput::new(Key::Up, Modifiers::NONE),
                "ESC[A must decode to Key::Up: {input:?}"
            );
            assert_eq!(consumed, 3, "ESC[A is 3 bytes");
        }
        other => panic!("ESC[A should decode to a Key, got {other:?}"),
    }
    // Also verify the AppState decode_demo string reflects this.
    let app = app();
    assert!(
        !app.decode_demo.is_empty(),
        "decode demo must produce output"
    );
    assert!(
        app.decode_demo.contains("Up"),
        "decode demo should mention Up: {}",
        app.decode_demo
    );
}

// --- Value 4: timed sequences ---

/// Pressing `g` advances into a pending prefix; continuations lists `g`.
#[test]
fn value4_first_key_of_sequence_enters_pending() {
    let mut app = app();
    let t = now();
    let outcome = app.feed(plain('g'), t, window());
    assert!(
        matches!(outcome, Outcome::SequencePending),
        "g starts a sequence: {outcome:?}"
    );
    assert!(
        !app.continuations().is_empty(),
        "continuations must be non-empty after first g"
    );
}

/// Pressing `g g` fires the sequence action `move_top`.
#[test]
fn value4_gg_sequence_fires_move_top() {
    let mut app = app();
    let t = now();
    let _first = app.feed(plain('g'), t, window());
    let outcome = app.feed(plain('g'), t, window());
    assert!(
        matches!(outcome, Outcome::Fired(Action::MoveTop)),
        "g g must fire MoveTop: {outcome:?}"
    );
}

// --- Value 5: command palette ---

/// Pressing `:` enters palette mode.
#[test]
fn value5_colon_enters_palette_mode() {
    let mut app = app();
    let t = now();
    let _ = app.feed(plain(':'), t, window());
    assert!(
        matches!(app.mode, Mode::Palette { .. }),
        "colon must enter palette: {:?}",
        app.mode
    );
}

/// `palette_candidates` returns completions for a prefix.
#[test]
fn value5_palette_completions_for_prefix() {
    let mut app = app();
    app.mode = Mode::Palette {
        text: "mo".to_string(),
    };
    let candidates: Vec<&str> = app
        .palette_candidates()
        .iter()
        .map(|(name, _)| *name)
        .collect();
    assert!(
        candidates.iter().any(|n| n.starts_with("mo")),
        "completions for 'mo' expected: {candidates:?}"
    );
}

/// `Enter` in palette mode dispatches the exact-match command.
#[test]
fn value5_palette_enter_dispatches_exact_command() {
    let mut app = app();
    let t = now();
    // Enter palette.
    app.feed(plain(':'), t, window());
    // Type "undo".
    for c in "undo".chars() {
        app.feed(plain(c), t, window());
    }
    // Enter to dispatch.
    let outcome = app.feed(KeyInput::new(Key::Enter, Modifiers::NONE), t, window());
    assert!(
        matches!(outcome, Outcome::Fired(Action::Undo)),
        "palette must dispatch Undo: {outcome:?}"
    );
}

// --- default_save_path ---

/// When $HOME is set, `save_path_from_home` returns a path under ~/.config.
#[test]
fn default_save_path_with_home_returns_path_under_config() {
    let path = save_path_from_home(Some("/home/user"));
    assert!(path.is_some());
    let path = path.unwrap();
    assert!(
        path.starts_with("/home/user/.config"),
        "path must be under ~/.config: {path:?}"
    );
    assert!(
        path.ends_with("user.toml"),
        "path must end in user.toml: {path:?}"
    );
}

/// When $HOME is absent, `save_path_from_home` returns `None` — no fallback
/// to the current working directory, which may be PTY-writable.
#[test]
fn default_save_path_without_home_returns_none() {
    let path = save_path_from_home(None);
    assert!(
        path.is_none(),
        "absent $HOME must return None, not a CWD fallback"
    );
}
