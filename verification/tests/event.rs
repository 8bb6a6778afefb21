use keymap_suite::event::{KeyCode, KeyEvent, KeyModifiers};
use keymap_suite::{Key, KeyInput, Modifiers};

#[test]
fn shift_is_dropped_for_resolved_glyph() {
    // Terminal already resolved the glyph to 'A'; we only clear SHIFT.
    let event = KeyEvent::new(KeyCode::Char('A'), KeyModifiers::shift());
    let input = KeyInput::try_from(event).unwrap();
    assert_eq!(input.key(), Key::Char('A'));
    assert_eq!(input.modifiers(), Modifiers::NONE);
}

#[test]
fn glyph_is_trusted_not_recased() {
    // A base-layout report ('a' + SHIFT) is NOT re-cased to 'A': we cannot
    // know the layout from the glyph. SHIFT is dropped, glyph kept as-is.
    // Documented limitation: this won't match a Char('A') binding.
    let event = KeyEvent::new(KeyCode::Char('a'), KeyModifiers::shift());
    let input = KeyInput::try_from(event).unwrap();
    assert_eq!(input.key(), Key::Char('a'));
    assert_eq!(input.modifiers(), Modifiers::NONE);
}

#[test]
fn ctrl_char_keeps_ctrl() {
    let event = KeyEvent::new(KeyCode::Char('q'), KeyModifiers::control());
    let input = KeyInput::try_from(event).unwrap();
    assert_eq!(input.key(), Key::Char('q'));
    assert_eq!(input.modifiers(), Modifiers::CTRL);
}

#[test]
fn ctrl_shift_char_keeps_shift_as_distinct_chord() {
    // With another modifier present, SHIFT is the only signal separating
    // this chord from Ctrl+s, so it must survive (not be folded away).
    let event = KeyEvent::new(
        KeyCode::Char('s'),
        KeyModifiers::control().union(KeyModifiers::shift()),
    );
    let input = KeyInput::try_from(event).unwrap();
    assert_eq!(input.key(), Key::Char('s'));
    assert_eq!(input.modifiers(), Modifiers::CTRL | Modifiers::SHIFT);

    // Distinct from Ctrl+s.
    let ctrl_s =
        KeyInput::try_from(KeyEvent::new(KeyCode::Char('s'), KeyModifiers::control())).unwrap();
    assert_ne!(input, ctrl_s);
}

#[test]
fn alt_and_super_pass_through_on_char() {
    let alt = KeyInput::try_from(KeyEvent::new(KeyCode::Char('x'), KeyModifiers::alt())).unwrap();
    assert_eq!(alt.modifiers(), Modifiers::ALT);

    // SUPER on a digit key (cmd+1) — the modifier survives the char path.
    let sup =
        KeyInput::try_from(KeyEvent::new(KeyCode::Char('1'), KeyModifiers::sup())).unwrap();
    assert_eq!(sup.key(), Key::Char('1'));
    assert_eq!(sup.modifiers(), Modifiers::SUPER);
}

#[test]
fn non_ascii_char_passes_through_with_shift_dropped() {
    let event = KeyEvent::new(KeyCode::Char('あ'), KeyModifiers::shift());
    let input = KeyInput::try_from(event).unwrap();
    assert_eq!(input.key(), Key::Char('あ'));
    assert_eq!(input.modifiers(), Modifiers::NONE);
}

#[test]
fn backtab_and_shift_tab_converge_to_same_input() {
    // Two distinct encodings of the same logical key must
    // normalize to one KeyInput, or a lookup silently misses.
    let from_backtab =
        KeyInput::try_from(KeyEvent::new(KeyCode::BackTab, KeyModifiers::none())).unwrap();
    let from_shift_tab =
        KeyInput::try_from(KeyEvent::new(KeyCode::Tab, KeyModifiers::shift())).unwrap();
    assert_eq!(from_backtab, from_shift_tab);
}

#[test]
fn backtab_normalizes_to_shift_tab() {
    let event = KeyEvent::new(KeyCode::BackTab, KeyModifiers::none());
    let input = KeyInput::try_from(event).unwrap();
    assert_eq!(input.key(), Key::Tab);
    assert_eq!(input.modifiers(), Modifiers::SHIFT);
}

#[test]
fn shift_kept_for_non_char_keys() {
    let event = KeyEvent::new(KeyCode::Up, KeyModifiers::shift());
    let input = KeyInput::try_from(event).unwrap();
    assert_eq!(input.key(), Key::Up);
    assert_eq!(input.modifiers(), Modifiers::SHIFT);
}

#[test]
fn unsupported_key_is_reported_not_guessed() {
    let event = KeyEvent::new(KeyCode::CapsLock, KeyModifiers::none());
    let err = KeyInput::try_from(event).unwrap_err();
    assert_eq!(err.code(), KeyCode::CapsLock);
}
