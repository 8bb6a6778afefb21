use keymap_suite::capture::{to_hex, Capture, KeyPress, Meta};
use keymap_suite::decode::Decoded;
use keymap_suite::reachability::{reachability, Reachability};
use keymap_suite::{Key, KeyInput, Modifiers};

fn meta() -> Meta {
    Meta {
        captured_at: "2026-05-26T00:00:00Z".to_string(),
        harness_version: "test".to_string(),
        term: None,
        term_program: None,
        term_program_version: None,
        tmux: false,
        ssh: false,
    }
}

/// A capture with the given `(intended, mode, raw_bytes)` keypresses.
fn capture(presses: &[(&str, &str, &[u8])]) -> Capture {
    Capture {
        meta: meta(),
        capability: vec![],
        keypress: presses
            .iter()
            .map(|&(intended, mode, bytes)| KeyPress {
                intended: intended.to_string(),
                mode: mode.to_string(),
                raw_bytes: to_hex(bytes),
                read_chunks: vec![],
                expected_key: None,
                expected_mods: None,
            })
            .collect(),
    }
}

fn verdict(capture: &Capture, chord: &str) -> Option<Reachability> {
    let target: KeyInput = chord.parse().unwrap();
    reachability(capture)
        .into_iter()
        .find(|(k, _)| *k == target)
        .map(|(_, v)| v)
}

#[test]
fn round_tripping_bytes_are_reachable() {
    // `ctrl+a` -> 0x01 -> decodes back to ctrl+a.
    let cap = capture(&[("ctrl+a", "baseline", &[0x01])]);
    assert_eq!(verdict(&cap, "ctrl+a"), Some(Reachability::Reachable));
}

#[test]
fn bytes_decoding_to_a_different_key_are_unreachable() {
    // On a terminal that composes Option+a into `å`, `alt+a` arrives as the
    // glyph, not as alt+a.
    let cap = capture(&[("alt+a", "baseline", &[0xc3, 0xa5])]);
    let expected = Decoded::Key {
        input: KeyInput::normalized(Key::Char('å'), Modifiers::NONE),
        consumed: 2,
    };
    assert_eq!(
        verdict(&cap, "alt+a"),
        Some(Reachability::Unreachable { decoded: expected })
    );
}

#[test]
fn an_eaten_press_is_unreachable_with_incomplete_evidence() {
    // Empty bytes = the OS/mux swallowed the press (e.g. cmd+1, ctrl+a in
    // tmux). It is unreachable, and the evidence is Incomplete — distinct
    // from "no evidence", which is absence from the result entirely.
    let cap = capture(&[("cmd+1", "baseline", &[])]);
    assert_eq!(
        verdict(&cap, "cmd+1"),
        Some(Reachability::Unreachable {
            decoded: Decoded::Incomplete
        })
    );
}

#[test]
fn the_reachability_law_holds_in_both_directions() {
    // Same intended chord, two byte forms -> opposite verdicts (proves
    // Reachable implies decode==intended): `alt+a` as Meta vs as composed å.
    let meta_camp = capture(&[("alt+a", "baseline", &[0x1b, 0x61])]);
    let glyph_camp = capture(&[("alt+a", "baseline", &[0xc3, 0xa5])]);
    assert_eq!(verdict(&meta_camp, "alt+a"), Some(Reachability::Reachable));
    assert!(matches!(
        verdict(&glyph_camp, "alt+a"),
        Some(Reachability::Unreachable { .. })
    ));

    // Same bytes, two different intended chords -> opposite verdicts (proves
    // decode==intended implies Reachable, i.e. it compares, not pattern-matches
    // the bytes): c3a5 is reachable-as-`å` but unreachable-as-`alt+a`.
    let bytes: &[u8] = &[0xc3, 0xa5];
    let as_glyph = capture(&[("å", "baseline", bytes)]);
    let as_alt = capture(&[("alt+a", "baseline", bytes)]);
    assert_eq!(verdict(&as_glyph, "å"), Some(Reachability::Reachable));
    assert!(matches!(
        verdict(&as_alt, "alt+a"),
        Some(Reachability::Unreachable { .. })
    ));
}

#[test]
fn an_unrecorded_chord_has_no_entry_not_a_reachable_verdict() {
    // The capture knows only ctrl+a; asking after `esc` yields no entry,
    // which must NOT be confused with Reachable.
    let cap = capture(&[("ctrl+a", "baseline", &[0x01])]);
    assert_eq!(verdict(&cap, "esc"), None);
    assert_eq!(reachability(&cap).len(), 1);
}

#[test]
fn unusable_rows_are_skipped() {
    let cap = capture(&[
        ("ctrl+a", "baseline", &[0x01]),          // good
        ("not a key", "baseline", &[0x01]),       // unparseable intended
        ("ctrl+i", "kitty-enhanced-v9", &[0x09]), // unknown mode
    ]);
    // Only the good row contributes; the two unusable rows are dropped.
    assert_eq!(reachability(&cap).len(), 1);
    assert_eq!(verdict(&cap, "ctrl+a"), Some(Reachability::Reachable));
}

#[test]
fn result_is_sorted_by_canonical_chord() {
    let cap = capture(&[
        ("esc", "baseline", &[0x1b]),
        ("ctrl+a", "baseline", &[0x01]),
    ]);
    let chords: Vec<String> = reachability(&cap)
        .iter()
        .map(|(k, _)| k.to_string())
        .collect();
    assert_eq!(chords, vec!["ctrl+a".to_string(), "esc".to_string()]);
}
