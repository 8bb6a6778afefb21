use keymap_suite::{
    validate_rebind, BreakReason, Key, KeyInput, Keymap, LegacyForm, Modifiers, RebindVerdict,
};

fn ctrl(c: char) -> KeyInput {
    KeyInput::new(Key::Char(c), Modifiers::CTRL)
}

fn plain(c: char) -> KeyInput {
    KeyInput::new(Key::Char(c), Modifiers::NONE)
}

fn esc() -> KeyInput {
    KeyInput::new(Key::Esc, Modifiers::NONE)
}

fn tab() -> KeyInput {
    KeyInput::new(Key::Tab, Modifiers::NONE)
}

// --- Direct steal: proposed == reserved ---

#[test]
fn direct_steal_of_reserved_is_refused() {
    let global: Keymap<&str> = Keymap::new();
    let layers = [&global];
    let v = validate_rebind(&layers, 0, esc(), &[esc()]);
    assert!(
        matches!(
            v,
            RebindVerdict::BreaksReserved {
                reserved,
                reason: BreakReason::DirectSteal
            } if reserved == esc()
        ),
        "expected DirectSteal for esc"
    );
}

#[test]
fn direct_steal_is_refused_regardless_of_which_reserved_matches() {
    let global: Keymap<&str> = Keymap::new();
    let layers = [&global];
    let reserved = [esc(), ctrl('c')];
    // Trying to bind ctrl+c (the second reserved key).
    let v = validate_rebind(&layers, 0, ctrl('c'), &reserved);
    assert!(
        matches!(
            v,
            RebindVerdict::BreaksReserved {
                reason: BreakReason::DirectSteal,
                ..
            }
        ),
        "ctrl+c is reserved, expected DirectSteal"
    );
}

// --- Upper layer already steals reserved → proposed is harmless ---

#[test]
fn upper_layer_already_steals_reserved_proposed_is_harmless() {
    // `esc` is reserved. The overlay (layer 0) binds esc already, so
    // putting anything onto layer 1 (global) cannot change how `esc`
    // resolves — allowed.
    let mut overlay: Keymap<&str> = Keymap::new();
    overlay.bind(esc(), "overlay_escape_handler");
    let mut global: Keymap<&str> = Keymap::new();
    global.bind(plain('j'), "cursor_down");

    let layers = [&overlay, &global];
    // Bind esc into layer 1 (global). Layer 0 (overlay) already claims it.
    let v = validate_rebind(&layers, 1, esc(), &[esc()]);
    assert!(
        matches!(v, RebindVerdict::Allowed { .. }),
        "upper layer shadows esc already; target bind is harmless"
    );
}

#[test]
fn upper_layer_shadow_does_not_apply_to_target_zero() {
    // When target is 0 there are no layers before it, so no existing
    // layer can shadow `r` — the steal is always direct.
    let mut overlay: Keymap<&str> = Keymap::new();
    overlay.bind(ctrl('c'), "existing");
    let global: Keymap<&str> = Keymap::new();
    let layers = [&overlay, &global];

    // Bind ctrl+c into layer 0 (which already has it). No prior layer
    // can shadow it — refused.
    let v = validate_rebind(&layers, 0, ctrl('c'), &[ctrl('c')]);
    assert!(
        matches!(
            v,
            RebindVerdict::BreaksReserved {
                reason: BreakReason::DirectSteal,
                ..
            }
        ),
        "target=0 means no prior layer can shield reserved"
    );
}

// --- Harmless bind to lower layer, with shadows advisory ---

#[test]
fn bind_onto_unbound_chord_is_allowed_no_shadow() {
    let global: Keymap<&str> = Keymap::new();
    let layers = [&global];
    let v = validate_rebind(&layers, 0, ctrl('s'), &[esc()]);
    assert!(
        matches!(v, RebindVerdict::Allowed { shadows: None, .. }),
        "ctrl+s is not reserved and not yet bound"
    );
}

#[test]
fn bind_onto_existing_chord_reports_shadow() {
    let mut global: Keymap<&str> = Keymap::new();
    global.bind(plain('j'), "cursor_down");
    let layers = [&global];
    let v = validate_rebind(&layers, 0, plain('j'), &[esc()]);
    assert!(
        matches!(
            v,
            RebindVerdict::Allowed {
                shadows: Some(&"cursor_down"),
                ..
            }
        ),
        "j has an existing binding that would be shadowed"
    );
}

#[test]
fn shadow_is_read_from_any_layer_not_just_target() {
    // `ctrl+s` is bound in the inner layer (index 1), not in the overlay.
    // validate_rebind should still see it as a shadow when we bind onto
    // the overlay (index 0), because the shadow lookup walks the whole stack.
    let overlay: Keymap<&str> = Keymap::new();
    let mut global: Keymap<&str> = Keymap::new();
    global.bind(ctrl('s'), "save");
    let layers = [&overlay, &global];
    let v = validate_rebind(&layers, 0, ctrl('s'), &[esc()]);
    assert!(
        matches!(
            v,
            RebindVerdict::Allowed {
                shadows: Some(&"save"),
                ..
            }
        ),
        "shadow comes from inner layer"
    );
}

// --- Legacy collapse: ctrl+i collapses to tab ---

#[test]
fn legacy_collapse_onto_reserved_is_refused() {
    // `tab` is reserved. `ctrl+i` collapses to `tab` on legacy terminals.
    let global: Keymap<&str> = Keymap::new();
    let layers = [&global];
    let ctrl_i = KeyInput::new(Key::Char('i'), Modifiers::CTRL);
    let v = validate_rebind(&layers, 0, ctrl_i, &[tab()]);
    assert!(
        matches!(
            v,
            RebindVerdict::BreaksReserved {
                reserved,
                reason: BreakReason::LegacyCollapse,
            } if reserved == tab()
        ),
        "ctrl+i collapses to tab on legacy terminals — must be refused"
    );
}

#[test]
fn legacy_collapse_is_harmless_when_twin_is_not_reserved() {
    // `ctrl+i` collapses to `tab`, but `tab` is not in our reserved set.
    let global: Keymap<&str> = Keymap::new();
    let layers = [&global];
    let ctrl_i = KeyInput::new(Key::Char('i'), Modifiers::CTRL);
    let v = validate_rebind(&layers, 0, ctrl_i, &[esc()]);
    assert!(
        matches!(v, RebindVerdict::Allowed { .. }),
        "collapse target not in reserved set → allowed"
    );
}

#[test]
fn legacy_collapse_shielded_by_upper_layer_is_harmless() {
    // Tab is reserved but the overlay already claims it, so binding
    // ctrl+i into the global layer cannot change tab's resolution.
    let mut overlay: Keymap<&str> = Keymap::new();
    overlay.bind(tab(), "tab_handler");
    let global: Keymap<&str> = Keymap::new();
    let layers = [&overlay, &global];
    let ctrl_i = KeyInput::new(Key::Char('i'), Modifiers::CTRL);
    let v = validate_rebind(&layers, 1, ctrl_i, &[tab()]);
    assert!(
        matches!(v, RebindVerdict::Allowed { .. }),
        "upper layer shields tab from legacy collapse in lower layer"
    );
}

// --- Same-action rebind is STILL refused ---

#[test]
fn same_action_rebind_onto_reserved_is_refused() {
    // The strict contract: even a "no-op" rebind of esc → same action is
    // refused because validate_rebind has no A: PartialEq bound and
    // intentionally does not compare actions.
    let mut global: Keymap<&str> = Keymap::new();
    global.bind(esc(), "quit");
    let layers = [&global];
    let v = validate_rebind(&layers, 0, esc(), &[esc()]);
    assert!(
        matches!(
            v,
            RebindVerdict::BreaksReserved {
                reason: BreakReason::DirectSteal,
                ..
            }
        ),
        "same-action rebind onto reserved is still refused (strict contract)"
    );
}

// --- Additional edge cases ---

#[test]
fn empty_reserved_set_is_always_allowed() {
    let global: Keymap<&str> = Keymap::new();
    let layers = [&global];
    let v = validate_rebind(&layers, 0, esc(), &[]);
    assert!(
        matches!(v, RebindVerdict::Allowed { .. }),
        "no reserved keys means everything is allowed"
    );
}

#[test]
fn allowed_carries_correct_legacy_form_for_proposed() {
    let global: Keymap<&str> = Keymap::new();
    let layers = [&global];
    // ctrl+s is representable.
    let v = validate_rebind(&layers, 0, ctrl('s'), &[esc()]);
    assert!(
        matches!(
            v,
            RebindVerdict::Allowed {
                legacy: LegacyForm::Representable,
                ..
            }
        ),
        "ctrl+s is representable on legacy terminals"
    );
}

#[test]
fn allowed_carries_collapses_to_legacy_form_when_not_reserved() {
    let global: Keymap<&str> = Keymap::new();
    let layers = [&global];
    // ctrl+shift+s collapses to ctrl+s; tab is not reserved.
    let ctrl_shift_s = KeyInput::new(Key::Char('s'), Modifiers::CTRL | Modifiers::SHIFT);
    let v = validate_rebind(&layers, 0, ctrl_shift_s, &[esc()]);
    assert!(
        matches!(
            v,
            RebindVerdict::Allowed {
                legacy: LegacyForm::CollapsesTo(twin),
                ..
            } if twin == ctrl('s')
        ),
        "ctrl+shift+s collapses to ctrl+s and should be reflected in Allowed"
    );
}

#[test]
fn multi_layer_three_layers_target_middle() {
    // Three layers: [overlay(idx 0), mid(idx 1), global(idx 2)].
    // esc is reserved. Binding esc into mid (idx 1) is refused because
    // no layer before index 1 (only overlay) claims esc, so esc would
    // reach target=1.
    let overlay: Keymap<&str> = Keymap::new();
    let mid: Keymap<&str> = Keymap::new();
    let global: Keymap<&str> = Keymap::new();
    let layers = [&overlay, &mid, &global];
    let v = validate_rebind(&layers, 1, esc(), &[esc()]);
    assert!(
        matches!(
            v,
            RebindVerdict::BreaksReserved {
                reason: BreakReason::DirectSteal,
                ..
            }
        ),
        "no prior layer shields esc; mid target is refused"
    );
}

#[test]
fn multi_layer_overlay_shields_for_target_two() {
    // Same setup, but overlay (idx 0) now binds esc.
    // Binding esc into global (idx 2) is harmless.
    let mut overlay: Keymap<&str> = Keymap::new();
    overlay.bind(esc(), "overlay_esc");
    let mid: Keymap<&str> = Keymap::new();
    let global: Keymap<&str> = Keymap::new();
    let layers = [&overlay, &mid, &global];
    let v = validate_rebind(&layers, 2, esc(), &[esc()]);
    assert!(
        matches!(v, RebindVerdict::Allowed { .. }),
        "overlay at idx 0 shields esc from target idx 2"
    );
}
