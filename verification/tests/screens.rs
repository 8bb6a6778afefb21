use keymap_suite::event::{KeyCode, KeyEvent, KeyModifiers};
use keymap_suite::inspector::{
    build_keymap, App, Context, BLOCK_TOML, GLOBAL_TOML, PANEL_TOML,
};
use keymap_suite::inspector_screen::{chain_rows, layer_rows, log_rows, report, status_text};
use keymap_suite::screen::{Row, Tone};
use keymap_suite::showcase::{reserved_keys, Action, AppState, Mode, Request};
use keymap_suite::showcase_screen::{
    binding_rows, decode_rows, lint_rows, mode_rows, sequence_rows,
};
use keymap_suite::time::{Duration, Instant};
use keymap_suite::{Key, KeyInput, Keymap, Modifiers};

fn lines(rows: &[Row]) -> Vec<(&str, Tone)> {
    rows.iter().map(|r| (r.text.as_str(), r.tone)).collect()
}

fn press(c: char) -> KeyEvent {
    KeyEvent::new(KeyCode::Char(c), KeyModifiers::none())
}

fn ctrl(c: char) -> KeyEvent {
    KeyEvent::new(KeyCode::Char(c), KeyModifiers::control())
}

fn chord(s: &str) -> KeyInput {
    KeyInput::parse(s).unwrap()
}

fn second() -> Duration {
    Duration::from_secs(1)
}

#[test]
fn the_mode_is_shown_with_the_status() {
    let mut app = AppState::new(None).unwrap();
    app.status = "ready".to_string();
    assert_eq!(
        lines(&mode_rows(&app)),
        [(" mode: NORMAL", Tone::Plain), (" status: ready", Tone::Dim)]
    );
    app.mode = Mode::Palette {
        text: "un".to_string(),
    };
    assert_eq!(mode_rows(&app)[0].text, " mode: PALETTE  :un▌");
    app.start_rebind("ctrl+s".to_string());
    assert_eq!(mode_rows(&app)[0].text, " mode: REBIND ← ctrl+s");
}

#[test]
fn bindings_are_listed_with_the_notes_of_the_merge() {
    let user = "[keys]\n\"ctrl+s\" = \"undo\"\n\"ctrl+k\" = false\n\
                [[sequences]]\nkeys = [\"g\"]\naction = \"move_top\"\n";
    let app = AppState::new(Some(user)).unwrap();
    let rows = binding_rows(&app);
    let shown = lines(&rows);
    assert_eq!(shown[0], ("global layer:", Tone::Bold));
    assert!(shown.contains(&("        ctrl+q  Quit", Tone::Plain)));
    assert!(shown.contains(&("        ctrl+s  Undo", Tone::Plain)));
    let notes = shown.iter().position(|r| r.0 == "\nmerge notes (3)").unwrap();
    assert_eq!(notes, 1 + app.global.len());
    assert_eq!(
        shown[notes + 1..],
        [
            ("  UnbindMiss { layer: \"global\", chord: \"ctrl+k\" }", Tone::Dim),
            ("  Overrode { layer: \"global\", chord: \"ctrl+s\" }", Tone::Dim),
            ("  DroppedSequence { sequence: [\"g\", \"g\"] }", Tone::Dim),
        ]
    );
}

#[test]
fn the_right_pane_shows_what_is_pending() {
    let mut app = AppState::new(Some("[keys]\n\"ctrl+w\" = \"nope\"\n")).unwrap();
    assert_eq!(
        lines(&sequence_rows(&app)),
        [
            ("sequences pending:", Tone::Bold),
            ("  (none)", Tone::Dim),
            ("", Tone::Plain),
            ("palette candidates:", Tone::Bold),
            ("  (enter palette with ':')", Tone::Dim),
            ("", Tone::Plain),
            ("warnings (1):", Tone::Yellow),
            ("  unknown action \"nope\" for key \"ctrl+w\"", Tone::Yellow),
        ]
    );
    app.handle_key(press('g'), Instant::from_nanos(0), second());
    assert_eq!(sequence_rows(&app)[1].text, "  next keys: g");
    app.flush_pending();
    assert_eq!(app.status, "sequence timeout, 1 key(s) flushed");
    app.mode = Mode::Palette {
        text: String::new(),
    };
    // Six of the seven commands are shown.
    app.commands.bind("zoom", Action::Undo);
    assert_eq!(app.palette_candidates().len(), 7);
    assert_eq!(sequence_rows(&app).len(), 4 + 6 + 3);
}

#[test]
fn findings_and_the_demonstration_are_shown() {
    let app = AppState::new(Some("[keys]\n\"ctrl+i\" = \"undo\"\n\"cmd+x\" = \"save\"\n")).unwrap();
    assert_eq!(
        lines(&lint_rows(&app)),
        [
            ("legacy lints (keymap_suite::legacy_lints):", Tone::Bold),
            ("  ctrl+i  collapses to tab in legacy terminals", Tone::Yellow),
            ("  super+x  unrepresentable in legacy terminals", Tone::Yellow),
        ]
    );
    let plain = AppState::new(None).unwrap();
    assert_eq!(
        lines(&lint_rows(&plain))[1],
        ("  all chords survive legacy terminals", Tone::Dim)
    );
    assert_eq!(
        decode_rows(&plain)[1].text,
        "  decode(ESC[A) → Key { input: KeyInput { key: Up, mods: Modifiers(0) }, consumed: 3 }"
    );
}

#[test]
fn control_keys_of_the_showcase_come_first() {
    let mut app = AppState::new(None).unwrap();
    let now = Instant::from_nanos(0);
    let f = |n: u8| KeyEvent::new(KeyCode::F(n), KeyModifiers::none());
    assert_eq!(app.handle_key(f(6), now, second()), Request::Nothing);
    assert!(app.global.get(&chord("ctrl+z")).is_none());
    assert_eq!(app.handle_key(f(7), now, second()), Request::Save);
    app.handle_key(f(5), now, second());
    app.handle_key(ctrl('w'), now, second());
    assert_eq!(app.global.get(&chord("ctrl+w")), Some(&Action::Save));
    assert!(app.global.get(&chord("ctrl+s")).is_none());
    assert!(!app.should_quit);
    app.handle_key(ctrl('c'), now, second());
    assert!(app.should_quit);
}

#[test]
fn a_rebind_keeps_the_reserved_keys_and_a_saved_state_comes_back() {
    let mut app = AppState::new(None).unwrap();
    let esc = KeyInput::new(Key::Esc, Modifiers::NONE);
    app.apply_rebind("ctrl+s", esc);
    for r in reserved_keys() {
        assert_eq!(app.global.get(&r), None);
    }
    assert_eq!(app.global.get(&chord("ctrl+s")), Some(&Action::Save));
    app.apply_rebind("ctrl+s", chord("f2"));
    app.delete_binding(&chord("j"));
    let back = AppState::new(Some(&app.config_text())).unwrap();
    assert_eq!(back.global.get(&chord("f2")), Some(&Action::Save));
    assert_eq!(back.global.get(&chord("j")), None);
    // The chord that the rebind left is bound by the defaults again.
    assert_eq!(back.global.get(&chord("ctrl+s")), Some(&Action::Save));
    assert_eq!(back.global.len(), app.global.len() + 1);
}

#[test]
fn waiting_ends_when_a_sequence_expires() {
    let mut app = AppState::new(None).unwrap();
    let window = Duration::from_millis(500);
    assert_eq!(
        app.poll_timeout(Instant::from_nanos(5), window),
        Duration::from_secs(10)
    );
    app.handle_key(press('g'), Instant::from_nanos(0), window);
    assert_eq!(
        app.poll_timeout(Instant::from_nanos(100_000_000), window),
        Duration::from_millis(400)
    );
    assert_eq!(
        app.poll_timeout(Instant::from_nanos(900_000_000), window),
        Duration::from_millis(0)
    );
}

fn inspector(supported: bool) -> App {
    App::new(
        build_keymap(GLOBAL_TOML).unwrap(),
        build_keymap(PANEL_TOML).unwrap(),
        build_keymap(BLOCK_TOML).unwrap(),
        supported,
    )
}

#[test]
fn the_scope_chain_marks_the_innermost_active_layer() {
    let mut app = inspector(false);
    app.context = Context::Panel;
    assert_eq!(
        lines(&chain_rows(&app))[2..5],
        [
            ("  block    (inactive in this context)", Tone::Dim),
            ("▶ panel    [active]", Tone::Plain),
            ("  global    [active]", Tone::Plain),
        ]
    );
    assert_eq!(chain_rows(&app).len(), 7);
    assert_eq!(chain_rows(&app)[0].tone, Tone::Yellow);
}

#[test]
fn all_layers_are_listed() {
    let mut app = inspector(false);
    app.panel = Keymap::new();
    let rows = layer_rows(&app);
    let shown = lines(&rows);
    assert_eq!(
        shown[..5],
        [
            ("[block]", Tone::Bold),
            ("        ctrl+s  SplitBlock", Tone::Plain),
            ("[panel]", Tone::Bold),
            ("    (no bindings)", Tone::Dim),
            ("[global]", Tone::Bold),
        ]
    );
    assert_eq!(shown[5], ("        ctrl+c  Cancel", Tone::Plain));
    assert_eq!(shown.len(), 5 + app.global.len());
}

#[test]
fn the_log_is_shown_newest_first_and_left_behind_oldest_first() {
    let mut app = inspector(true);
    assert!(report(&app).is_empty());
    assert_eq!(app.handle_key(ctrl('s')), None);
    assert_eq!(
        app.handle_key(KeyEvent::new(KeyCode::F(3), KeyModifiers::none())),
        Some(true)
    );
    app.set_enhancement(true);
    app.handle_key(KeyEvent::new(KeyCode::CapsLock, KeyModifiers::none()));
    assert_eq!(
        lines(&log_rows(&app)),
        [
            ("crossterm event     decoded       dispatch", Tone::Bold),
            ("CapsLock            unsupported   → PTY sink", Tone::Plain),
            ("F(3)                f3            (tui) toggle kitty protocol", Tone::Plain),
            ("ctrl+Char('s')      ctrl+s        SplitBlock @ block", Tone::Plain),
        ]
    );
    assert_eq!(
        report(&app),
        [
            "\nkeymap-tui — 3 key event(s), oldest first:",
            "crossterm event       decoded         dispatch",
            "ctrl+Char('s')        ctrl+s          SplitBlock @ block",
            "F(3)                  f3              (tui) toggle kitty protocol",
            "CapsLock              unsupported     → PTY sink",
        ]
    );
    assert!(!app.should_quit);
    app.handle_key(ctrl('c'));
    assert!(app.should_quit);
    for _ in 0..20 {
        app.handle_key(press('x'));
    }
    assert_eq!(app.log.len(), 24);
    assert_eq!(log_rows(&app).len(), 1 + 14);
}

#[test]
fn the_status_names_the_terminal() {
    let mut app = inspector(false);
    assert_eq!(
        status_text(&app, Some("xterm"), None, true, false),
        "TERM=xterm  TERM_PROGRAM=?  tmux=true  ssh=false   \
         kitty: supported=false  (F3 unavailable on this terminal)"
    );
    app.enhancement_supported = true;
    app.enhancement_on = true;
    assert_eq!(
        status_text(&app, None, Some("kitty"), false, true),
        "TERM=?  TERM_PROGRAM=kitty  tmux=false  ssh=true   \
         kitty: supported=true active=true  (F3 toggles)"
    );
}
