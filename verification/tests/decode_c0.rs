use keymap_suite::decode::{decode, DecodeMode, Decoded};
use keymap_suite::{Key, KeyInput, LegacyForm, Modifiers};

#[test]
fn empty_input_is_incomplete() {
    assert_eq!(decode(&[], DecodeMode::Baseline), Decoded::Incomplete);
}

#[test]
fn c0_decode_agrees_with_legacy_form() {
    // For every ctrl+<letter>, the byte it sends must decode to whatever
    // `legacy_form` says it collapses to (or to itself when representable). This
    // keeps the empirical decoder and the static lower bound from drifting apart.
    for c in 'a'..='z' {
        let chord = KeyInput::new(Key::Char(c), Modifiers::CTRL);
        let byte = (c as u8) & 0x1f;
        let want = match chord.legacy_form() {
            LegacyForm::Representable => chord,
            LegacyForm::CollapsesTo(x) => x,
            LegacyForm::Unrepresentable => unreachable!("ctrl+{c} is C0-representable"),
        };
        assert_eq!(
            decode(&[byte], DecodeMode::Baseline),
            Decoded::Key {
                input: want,
                consumed: 1,
            },
            "ctrl+{c} (byte {byte:#04x}) disagrees with legacy_form",
        );
    }
}

#[test]
fn enhanced_recovers_what_c0_collapses_for_ctrl_i() {
    // The mirror of `c0_decode_agrees_with_legacy_form`: where baseline C0 *loses*
    // a distinction (ctrl+i collapses onto Tab), the kitty-enhanced encoding
    // *recovers* it. ctrl+i is the one collapsing chord with a captured enhanced
    // byte form (`ESC[105;5u`); ctrl+m / ctrl+[ also collapse statically, but
    // their enhanced bytes are unmeasured.
    let ctrl_i = KeyInput::new(Key::Char('i'), Modifiers::CTRL);
    // The static lower bound still says ctrl+i is lost under legacy C0 …
    let LegacyForm::CollapsesTo(collapsed) = ctrl_i.legacy_form() else {
        panic!("ctrl+i should collapse onto Tab under legacy C0");
    };
    assert_eq!(collapsed, KeyInput::new(Key::Tab, Modifiers::NONE));
    // … yet the enhanced decoder returns the original chord, not the collapse.
    let enhanced = decode(
        &[0x1b, 0x5b, 0x31, 0x30, 0x35, 0x3b, 0x35, 0x75],
        DecodeMode::KittyEnhanced,
    );
    assert_eq!(
        enhanced,
        Decoded::Key {
            input: ctrl_i,
            consumed: 8,
        },
    );
    assert_ne!(
        enhanced,
        Decoded::Key {
            input: collapsed,
            consumed: 8,
        },
        "enhanced ctrl+i must not collapse onto Tab",
    );
}
