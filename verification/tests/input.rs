use keymap_suite::{Key, KeyInput, Modifiers};

#[test]
fn modifiers_union_and_contains() {
    let cs = Modifiers::CTRL | Modifiers::SHIFT;
    assert!(cs.contains(Modifiers::CTRL));
    assert!(cs.contains(Modifiers::SHIFT));
    assert!(!cs.contains(Modifiers::ALT));
    assert!(cs.contains(Modifiers::CTRL | Modifiers::SHIFT));
}

#[test]
fn modifiers_empty_contains_only_empty() {
    assert!(Modifiers::NONE.is_empty());
    assert!(Modifiers::NONE.contains(Modifiers::NONE));
    assert!(!Modifiers::NONE.contains(Modifiers::CTRL));
    assert!(Modifiers::CTRL.contains(Modifiers::NONE));
}

#[test]
fn modifiers_difference_clears_bits() {
    let cs = Modifiers::CTRL | Modifiers::SHIFT;
    assert_eq!(cs.difference(Modifiers::SHIFT), Modifiers::CTRL);
    assert_eq!(cs.difference(Modifiers::ALT), cs);
}

#[test]
fn key_input_is_hash_eq_by_value() {
    let a = KeyInput::new(Key::Char('q'), Modifiers::CTRL);
    let b = KeyInput::new(Key::Char('q'), Modifiers::CTRL);
    let c = KeyInput::new(Key::Char('q'), Modifiers::NONE);
    assert_eq!(a, b);
    assert_ne!(a, c);
}
