use keymap_suite::{resolve_layered, Key, KeyInput, Keymap, Modifiers};

#[derive(Debug, Clone, PartialEq)]
enum Action {
    Quit,
    Save,
    Split,
}

fn ctrl(c: char) -> KeyInput {
    KeyInput::new(Key::Char(c), Modifiers::CTRL)
}

#[test]
fn bind_then_get() {
    let mut map = Keymap::new();
    assert!(map.is_empty());
    assert_eq!(map.bind(ctrl('q'), Action::Quit), None);
    assert_eq!(map.get(&ctrl('q')), Some(&Action::Quit));
    assert_eq!(map.len(), 1);
}

#[test]
fn miss_is_none_not_error() {
    let map: Keymap<Action> = Keymap::new();
    assert_eq!(map.get(&ctrl('q')), None);
    assert!(!map.contains(&ctrl('q')));
}

#[test]
fn rebinding_returns_previous_action() {
    let mut map = Keymap::new();
    map.bind(ctrl('s'), Action::Save);
    let previous = map.bind(ctrl('s'), Action::Quit);
    assert_eq!(previous, Some(Action::Save));
    assert_eq!(map.get(&ctrl('s')), Some(&Action::Quit));
}

#[test]
fn unbind_removes() {
    let mut map = Keymap::new();
    map.bind(ctrl('q'), Action::Quit);
    assert_eq!(map.unbind(&ctrl('q')), Some(Action::Quit));
    assert_eq!(map.get(&ctrl('q')), None);
}

#[test]
fn modifiers_are_part_of_the_key() {
    let mut map = Keymap::new();
    map.bind(ctrl('q'), Action::Quit);
    // Same character, no modifier -> different binding slot.
    let plain = KeyInput::new(Key::Char('q'), Modifiers::NONE);
    assert_eq!(map.get(&plain), None);
}

#[test]
fn layered_resolution_prefers_earlier_layers_and_falls_through() {
    let mut base = Keymap::new();
    base.bind(ctrl('s'), Action::Save);
    base.bind(ctrl('q'), Action::Quit);
    let mut overlay = Keymap::new();
    overlay.bind(ctrl('s'), Action::Split);

    // Overlay wins for ctrl+s …
    assert_eq!(
        resolve_layered(&[&overlay, &base], &ctrl('s')),
        Some(&Action::Split)
    );
    // … ctrl+q falls through to base …
    assert_eq!(
        resolve_layered(&[&overlay, &base], &ctrl('q')),
        Some(&Action::Quit)
    );
    // … and without the overlay, base resolves ctrl+s.
    assert_eq!(resolve_layered(&[&base], &ctrl('s')), Some(&Action::Save));
}

#[test]
fn layered_resolution_misses_when_no_layer_binds() {
    let base: Keymap<Action> = Keymap::new();
    assert_eq!(resolve_layered(&[&base], &ctrl('x')), None);
    // No layers at all is a miss, not a panic.
    assert_eq!(
        resolve_layered(&[] as &[&Keymap<Action>], &ctrl('x')),
        None
    );
}
