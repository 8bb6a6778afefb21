use keymap_suite::passthrough::{resolve_passthrough, RawInput, Resolution};
use keymap_suite::{Key, KeyInput, Keymap, Modifiers};

#[derive(Debug, Clone, PartialEq)]
enum Action {
    Quit,
    Save,
    Split,
}

fn ctrl(c: char) -> KeyInput {
    KeyInput::new(Key::Char(c), Modifiers::CTRL)
}

#[test]
fn raw_input_round_trips_its_bytes() {
    let raw = RawInput::from_bytes(&[0x1b, 0x5b, b'A']);
    assert_eq!(raw.as_bytes(), &[0x1b, 0x5b, b'A']);
}

#[test]
fn hit_resolves_to_action() {
    let mut base = Keymap::new();
    base.bind(ctrl('q'), Action::Quit);
    let raw = RawInput::from_bytes(&[0x11]);
    assert_eq!(
        resolve_passthrough(&[&base], &ctrl('q'), raw),
        Resolution::Action(&Action::Quit),
    );
}

#[test]
fn miss_carries_the_raw_bytes_for_passthrough() {
    let base: Keymap<Action> = Keymap::new();
    let raw = RawInput::from_bytes(b"a");
    match resolve_passthrough(
        &[&base],
        &KeyInput::new(Key::Char('a'), Modifiers::NONE),
        raw,
    ) {
        Resolution::Passthrough(bytes) => assert_eq!(bytes.as_bytes(), b"a"),
        other => panic!("expected passthrough, got {other:?}"),
    }
}

#[test]
fn empty_raw_passes_through_as_empty() {
    // A zero-length span (decoder reporting consumed == 0, or a caller's
    // empty slice) must still preserve "bytes unchanged on miss": forwarding
    // zero bytes is a legitimate no-op, not a bug.
    let base: Keymap<Action> = Keymap::new();
    let raw = RawInput::from_bytes(&[]);
    match resolve_passthrough(
        &[&base],
        &KeyInput::new(Key::Char('a'), Modifiers::NONE),
        raw,
    ) {
        Resolution::Passthrough(bytes) => assert_eq!(bytes.as_bytes(), b""),
        other => panic!("expected passthrough, got {other:?}"),
    }
}

#[test]
fn miss_preserves_multibyte_sequence_verbatim() {
    // The module's reason to exist: an unbound escape sequence (here the Up
    // arrow, ESC [ A) must reach the sink byte-identical. Round-trip through
    // RawInput and the resolver-miss path are otherwise tested separately.
    let base: Keymap<Action> = Keymap::new();
    let csi_up: &[u8] = &[0x1b, 0x5b, b'A'];
    let raw = RawInput::from_bytes(csi_up);
    match resolve_passthrough(&[&base], &KeyInput::new(Key::Up, Modifiers::NONE), raw) {
        Resolution::Passthrough(bytes) => assert_eq!(bytes.as_bytes(), csi_up),
        other => panic!("expected passthrough, got {other:?}"),
    }
}

#[test]
fn first_hit_wins_across_layers_just_like_resolve_layered() {
    let mut base = Keymap::new();
    base.bind(ctrl('s'), Action::Save);
    let mut overlay = Keymap::new();
    overlay.bind(ctrl('s'), Action::Split);
    let raw = RawInput::from_bytes(&[0x13]);
    // The overlay wins, exactly as resolve_layered would.
    assert_eq!(
        resolve_passthrough(&[&overlay, &base], &ctrl('s'), raw),
        Resolution::Action(&Action::Split),
    );
}

#[test]
fn earlier_miss_falls_through_to_a_later_layer_hit() {
    // An empty outer layer must not steal the hit from an inner layer that
    // binds the key — the result is the action, not a passthrough.
    let overlay: Keymap<Action> = Keymap::new(); // binds nothing
    let mut base = Keymap::new();
    base.bind(ctrl('q'), Action::Quit);
    let raw = RawInput::from_bytes(&[0x11]);
    assert_eq!(
        resolve_passthrough(&[&overlay, &base], &ctrl('q'), raw),
        Resolution::Action(&Action::Quit),
    );
}

#[test]
fn hit_ignores_raw_bytes_entirely() {
    // On a hit, a bound key must NOT also reach the PTY (or the app's reserved
    // keys would leak through the sink). The Action variant structurally has
    // no bytes; deliberately mismatched raw bytes prove they are dropped.
    let mut base = Keymap::new();
    base.bind(ctrl('q'), Action::Quit);
    let raw = RawInput::from_bytes(b"\xff\xff\xff");
    assert_eq!(
        resolve_passthrough(&[&base], &ctrl('q'), raw),
        Resolution::Action(&Action::Quit),
    );
}

#[test]
fn no_layers_is_a_passthrough_not_a_panic() {
    let raw = RawInput::from_bytes(b"z");
    match resolve_passthrough(
        &[] as &[&Keymap<Action>],
        &KeyInput::new(Key::Char('z'), Modifiers::NONE),
        raw,
    ) {
        Resolution::Passthrough(bytes) => assert_eq!(bytes.as_bytes(), b"z"),
        other => panic!("expected passthrough, got {other:?}"),
    }
}

#[test]
fn resolver_never_returns_consume() {
    // Verifies the runtime fact: a miss yields Passthrough, never Consume.
    // It also demonstrates the grab-mode mapping a caller performs to assign
    // Consume itself.
    let base: Keymap<Action> = Keymap::new();
    let raw = RawInput::from_bytes(b"a");
    let grabbing = true;
    let disposition = match resolve_passthrough(
        &[&base],
        &KeyInput::new(Key::Char('a'), Modifiers::NONE),
        raw,
    ) {
        Resolution::Action(a) => Resolution::Action(a),
        // A grabbing caller swallows an otherwise-passed-through key.
        Resolution::Passthrough(_) if grabbing => Resolution::Consume,
        Resolution::Passthrough(bytes) => Resolution::Passthrough(bytes),
        Resolution::Consume => Resolution::Consume,
    };
    assert_eq!(disposition, Resolution::<Action>::Consume);
}
