use keymap_suite::{Key, KeyInput, Modifiers};

#[test]
fn display_round_trips_through_from_str() {
    // The fixed-point law: parsing a Display'd (already-normalized) value
    // returns it unchanged. A Char carries SHIFT only alongside another
    // modifier (bare Shift on a Char is folded away, so those aren't fixed
    // points and are excluded here).
    let cases = [
        KeyInput::new(Key::Char('a'), Modifiers::NONE),
        KeyInput::new(Key::Char('A'), Modifiers::NONE),
        KeyInput::new(Key::Char('1'), Modifiers::SUPER),
        KeyInput::new(Key::Char('s'), Modifiers::CTRL | Modifiers::SHIFT),
        KeyInput::new(Key::Char('あ'), Modifiers::CTRL),
        KeyInput::new(Key::Char(' '), Modifiers::NONE),
        KeyInput::new(Key::Char('+'), Modifiers::CTRL),
        KeyInput::new(Key::F(1), Modifiers::NONE),
        KeyInput::new(Key::F(12), Modifiers::SHIFT),
        KeyInput::new(Key::Tab, Modifiers::SHIFT),
        KeyInput::new(Key::Esc, Modifiers::NONE),
        KeyInput::new(Key::Up, Modifiers::CTRL | Modifiers::ALT),
        KeyInput::new(
            Key::Enter,
            Modifiers::CTRL | Modifiers::ALT | Modifiers::SHIFT | Modifiers::SUPER,
        ),
    ];
    for k in cases {
        let rendered = k.to_string();
        assert_eq!(
            rendered.parse::<KeyInput>(),
            Ok(k),
            "round trip via {rendered:?}"
        );
    }
}

#[test]
fn display_uses_canonical_modifier_order_and_names() {
    let k = KeyInput::new(Key::Char('a'), Modifiers::SUPER | Modifiers::CTRL);
    assert_eq!(k.to_string(), "ctrl+super+a");
    assert_eq!(KeyInput::new(Key::F(1), Modifiers::NONE).to_string(), "f1");
    assert_eq!(
        KeyInput::new(Key::Tab, Modifiers::SHIFT).to_string(),
        "shift+tab"
    );
}

#[test]
fn from_str_accepts_aliases_case_insensitively() {
    let ctrl_a = KeyInput::new(Key::Char('a'), Modifiers::CTRL);
    assert_eq!("ctrl+a".parse::<KeyInput>().unwrap(), ctrl_a);
    assert_eq!("CTRL+a".parse::<KeyInput>().unwrap(), ctrl_a);
    assert_eq!("control+a".parse::<KeyInput>().unwrap(), ctrl_a);
    assert_eq!(
        "cmd+1".parse::<KeyInput>().unwrap(),
        "super+1".parse::<KeyInput>().unwrap()
    );
}

#[test]
fn from_str_shares_shift_normalization() {
    // Bare Shift on a char is redundant with the glyph, so "shift+a" == "a".
    let a = KeyInput::new(Key::Char('a'), Modifiers::NONE);
    assert_eq!("shift+a".parse::<KeyInput>().unwrap(), a);
    assert_eq!("a".parse::<KeyInput>().unwrap(), a);
}

#[test]
fn from_str_keeps_shift_with_other_modifier() {
    // With another modifier, Shift survives and the chord is distinct —
    // this is what makes cmd+shift+s usable as a binding separate from cmd+s.
    let cmd_shift_s = "cmd+shift+s".parse::<KeyInput>().unwrap();
    assert_eq!(
        cmd_shift_s,
        KeyInput::new(Key::Char('s'), Modifiers::SUPER | Modifiers::SHIFT)
    );
    assert_ne!(cmd_shift_s, "cmd+s".parse::<KeyInput>().unwrap());
    assert_ne!(
        "ctrl+shift+s".parse::<KeyInput>().unwrap(),
        "ctrl+s".parse::<KeyInput>().unwrap()
    );
}

#[test]
fn from_str_handles_literal_plus_as_key() {
    assert_eq!(
        "ctrl++".parse::<KeyInput>().unwrap(),
        KeyInput::new(Key::Char('+'), Modifiers::CTRL)
    );
    assert_eq!(
        "+".parse::<KeyInput>().unwrap(),
        KeyInput::new(Key::Char('+'), Modifiers::NONE)
    );
}

#[test]
fn from_str_parses_named_and_function_keys() {
    assert_eq!("f1".parse::<KeyInput>().unwrap().key(), Key::F(1));
    assert_eq!("up".parse::<KeyInput>().unwrap().key(), Key::Up);
    assert_eq!("esc".parse::<KeyInput>().unwrap().key(), Key::Esc);
    assert_eq!("escape".parse::<KeyInput>().unwrap().key(), Key::Esc);
}

#[test]
fn from_str_rejects_invalid_input() {
    assert!("".parse::<KeyInput>().is_err());
    assert!("ctrl".parse::<KeyInput>().is_err());
    assert!("hyper+a".parse::<KeyInput>().is_err());
    assert!("ctrl+xyz".parse::<KeyInput>().is_err());
}
