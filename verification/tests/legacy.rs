use keymap_suite::{legacy_lints, Key, KeyInput, Keymap, LegacyForm, LegacyLint, Modifiers};

fn ctrl(c: char) -> KeyInput {
    KeyInput::new(Key::Char(c), Modifiers::CTRL)
}

fn ctrl_shift(c: char) -> KeyInput {
    KeyInput::new(Key::Char(c), Modifiers::CTRL | Modifiers::SHIFT)
}

#[test]
fn super_chords_are_unrepresentable() {
    let cmd_s = KeyInput::new(Key::Char('s'), Modifiers::SUPER);
    assert_eq!(cmd_s.legacy_form(), LegacyForm::Unrepresentable);
    // Super dominates even when the rest would otherwise collapse.
    let cmd_shift_s = KeyInput::new(Key::Char('s'), Modifiers::SUPER | Modifiers::SHIFT);
    assert_eq!(cmd_shift_s.legacy_form(), LegacyForm::Unrepresentable);
}

#[test]
fn ctrl_shift_letter_collapses_to_ctrl_letter() {
    assert_eq!(
        ctrl_shift('s').legacy_form(),
        LegacyForm::CollapsesTo(ctrl('s'))
    );
}

#[test]
fn ctrl_i_m_bracket_alias_named_keys() {
    assert_eq!(
        ctrl('i').legacy_form(),
        LegacyForm::CollapsesTo(KeyInput::new(Key::Tab, Modifiers::NONE))
    );
    assert_eq!(
        ctrl('m').legacy_form(),
        LegacyForm::CollapsesTo(KeyInput::new(Key::Enter, Modifiers::NONE))
    );
    assert_eq!(
        ctrl('[').legacy_form(),
        LegacyForm::CollapsesTo(KeyInput::new(Key::Esc, Modifiers::NONE))
    );
    // ctrl+shift+i still lands on Tab (shift and ctrl both absorbed).
    assert_eq!(
        ctrl_shift('i').legacy_form(),
        LegacyForm::CollapsesTo(KeyInput::new(Key::Tab, Modifiers::NONE))
    );
}

#[test]
fn plain_and_ctrl_letter_are_representable() {
    assert_eq!(
        KeyInput::new(Key::Char('a'), Modifiers::NONE).legacy_form(),
        LegacyForm::Representable
    );
    // ctrl+s (no shift) is the canonical C0 byte itself.
    assert_eq!(ctrl('s').legacy_form(), LegacyForm::Representable);
}

#[test]
fn named_function_and_arrow_keys_are_representable() {
    for key in [
        Key::Tab,
        Key::Enter,
        Key::Esc,
        Key::Up,
        Key::F(1),
        Key::Home,
    ] {
        assert_eq!(
            KeyInput::new(key, Modifiers::NONE).legacy_form(),
            LegacyForm::Representable,
            "{key:?} should be representable"
        );
    }
    // shift+tab is a distinct legacy sequence (BackTab), still representable.
    assert_eq!(
        KeyInput::new(Key::Tab, Modifiers::SHIFT).legacy_form(),
        LegacyForm::Representable
    );
}

fn lint_map(chords: &[KeyInput]) -> Keymap<u8> {
    let mut map = Keymap::new();
    for (i, &c) in chords.iter().enumerate() {
        map.bind(c, u8::try_from(i).unwrap());
    }
    map
}

#[test]
fn legacy_lints_empty_map_is_empty() {
    assert_eq!(legacy_lints(&Keymap::<u8>::new()), vec![]);
}

#[test]
fn legacy_lints_classify_each_arm_with_canonical_strings() {
    // ctrl+s = Representable (no lint); cmd+s = Unrepresentable;
    // ctrl+shift+s = CollapsesTo ctrl+s; ctrl+i = CollapsesTo tab.
    let map = lint_map(&[
        KeyInput::new(Key::Char('s'), Modifiers::CTRL),
        KeyInput::new(Key::Char('s'), Modifiers::SUPER),
        KeyInput::new(Key::Char('s'), Modifiers::CTRL | Modifiers::SHIFT),
        ctrl('i'),
    ]);
    // Sorted by chord: "ctrl+i", "ctrl+shift+s", "super+s" ("ctrl+s" omitted).
    assert_eq!(
        legacy_lints(&map),
        vec![
            LegacyLint::CollapsesTo {
                chord: "ctrl+i".to_string(),
                collapses_to: "tab".to_string(),
            },
            LegacyLint::CollapsesTo {
                chord: "ctrl+shift+s".to_string(),
                collapses_to: "ctrl+s".to_string(),
            },
            LegacyLint::Unrepresentable {
                chord: "super+s".to_string(),
            },
        ]
    );
}

#[test]
fn legacy_lints_super_dominates_over_shift_collapse() {
    // cmd+shift+s holds super, so it is Unrepresentable, not a CollapsesTo —
    // the precedence must survive the lint mapping.
    let map = lint_map(&[KeyInput::new(
        Key::Char('s'),
        Modifiers::SUPER | Modifiers::SHIFT,
    )]);
    assert_eq!(
        legacy_lints(&map),
        vec![LegacyLint::Unrepresentable {
            chord: "shift+super+s".to_string(),
        }]
    );
}

#[test]
fn legacy_lints_omit_representable_and_count_matches() {
    // Three representable + two not: only the two are reported (no-drop,
    // no-spurious count, independent of legacy_form's per-chord rule).
    let map = lint_map(&[
        KeyInput::new(Key::Char('a'), Modifiers::CTRL), // representable
        KeyInput::new(Key::Up, Modifiers::NONE),        // representable
        KeyInput::new(Key::F(1), Modifiers::NONE),      // representable
        KeyInput::new(Key::Char('1'), Modifiers::SUPER), // unrepresentable
        ctrl('m'),                                      // collapses to enter
    ]);
    assert_eq!(legacy_lints(&map).len(), 2);
}

#[test]
fn legacy_lints_collapses_to_target_is_canonical_and_representable() {
    // Every reported collapse target must parse back and itself be
    // Representable — guards the string rendering of renamed targets.
    let map = lint_map(&[ctrl('i'), ctrl('m'), ctrl('['), ctrl_shift('s')]);
    for lint in legacy_lints(&map) {
        if let LegacyLint::CollapsesTo { collapses_to, .. } = lint {
            let parsed: KeyInput = collapses_to.parse().expect("target parses");
            assert_eq!(parsed.legacy_form(), LegacyForm::Representable);
        }
    }
}

#[test]
fn collapse_target_is_itself_a_stable_legacy_form() {
    // The law: whatever a chord collapses to must itself be Representable
    // (the collapsed form is what the terminal actually delivers).
    for chord in [
        ctrl_shift('s'),
        ctrl('i'),
        ctrl('m'),
        ctrl('['),
        ctrl_shift('i'),
    ] {
        if let LegacyForm::CollapsesTo(target) = chord.legacy_form() {
            assert_eq!(
                target.legacy_form(),
                LegacyForm::Representable,
                "{chord:?} collapsed to a non-stable form {target:?}"
            );
        } else {
            panic!("{chord:?} expected to collapse");
        }
    }
}
