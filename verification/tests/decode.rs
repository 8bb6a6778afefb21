use keymap_suite::decode::{decode, DecodeMode, Decoded};
use keymap_suite::{Key, KeyInput, Modifiers};

/// Convenience: the `Decoded::Key` for `(key, mods)` consuming `n` bytes.
fn key(key: Key, mods: Modifiers, n: usize) -> Decoded {
    Decoded::Key {
        input: KeyInput::normalized(key, mods),
        consumed: n,
    }
}

fn base(bytes: &[u8]) -> Decoded {
    decode(bytes, DecodeMode::Baseline)
}

fn enh(bytes: &[u8]) -> Decoded {
    decode(bytes, DecodeMode::KittyEnhanced)
}

// --- What the recorded terminals send in baseline mode. ---

#[test]
fn ctrl_letter_c0_byte() {
    assert_eq!(base(&[0x01]), key(Key::Char('a'), Modifiers::CTRL, 1));
}

#[test]
fn ctrl_i_decodes_to_tab_in_baseline() {
    // The documented ambiguity: ctrl+i is indistinguishable from Tab here.
    assert_eq!(base(&[0x09]), key(Key::Tab, Modifiers::NONE, 1));
}

#[test]
fn ctrl_m_decodes_to_enter() {
    assert_eq!(base(&[0x0d]), key(Key::Enter, Modifiers::NONE, 1));
}

#[test]
fn lone_esc_is_a_complete_escape_press() {
    assert_eq!(base(&[0x1b]), key(Key::Esc, Modifiers::NONE, 1));
}

#[test]
fn csi_arrows() {
    assert_eq!(base(&[0x1b, 0x5b, b'A']), key(Key::Up, Modifiers::NONE, 3));
    assert_eq!(
        base(&[0x1b, 0x5b, b'B']),
        key(Key::Down, Modifiers::NONE, 3)
    );
    assert_eq!(
        base(&[0x1b, 0x5b, b'C']),
        key(Key::Right, Modifiers::NONE, 3)
    );
    assert_eq!(
        base(&[0x1b, 0x5b, b'D']),
        key(Key::Left, Modifiers::NONE, 3)
    );
}

#[test]
fn csi_z_is_backtab() {
    assert_eq!(
        base(&[0x1b, 0x5b, 0x5a]),
        key(Key::Tab, Modifiers::SHIFT, 3)
    );
}

#[test]
fn ss3_function_keys() {
    assert_eq!(
        base(&[0x1b, 0x4f, b'P']),
        key(Key::F(1), Modifiers::NONE, 3)
    );
    assert_eq!(
        base(&[0x1b, 0x4f, b'S']),
        key(Key::F(4), Modifiers::NONE, 3)
    );
}

#[test]
fn esc_prefix_is_alt() {
    // Alt-as-Meta camp: ESC + 'a' => alt+a.
    assert_eq!(base(&[0x1b, 0x61]), key(Key::Char('a'), Modifiers::ALT, 2));
}

#[test]
fn option_composed_glyph_loses_the_modifier() {
    // Option-composes camp: alt+a arrives as UTF-8 'å' with NO modifier —
    // the empirical proof that alt+a is not reachable as alt+a here.
    assert_eq!(base(&[0xc3, 0xa5]), key(Key::Char('å'), Modifiers::NONE, 2));
}

#[test]
fn ascii_printable() {
    assert_eq!(base(b"a"), key(Key::Char('a'), Modifiers::NONE, 1));
    assert_eq!(base(b"1"), key(Key::Char('1'), Modifiers::NONE, 1));
}

// --- Boundary / abnormal inputs no terminal sends. ---

#[test]
fn empty_is_incomplete() {
    assert_eq!(base(&[]), Decoded::Incomplete);
}

#[test]
fn truncated_csi_is_incomplete() {
    assert_eq!(base(&[0x1b, 0x5b]), Decoded::Incomplete); // ESC [ <no final>
    assert_eq!(base(&[0x1b, 0x5b, b'1']), Decoded::Incomplete); // ESC [ 1 <no final>
}

#[test]
fn truncated_ss3_is_incomplete() {
    assert_eq!(base(&[0x1b, 0x4f]), Decoded::Incomplete);
}

#[test]
fn parameterised_csi_is_unrecognized_in_baseline() {
    // ESC [ 1 ; 2 A (shift+up) is the enhanced-layer shape; baseline can't.
    assert_eq!(
        base(&[0x1b, 0x5b, b'1', b';', b'2', b'A']),
        Decoded::Unrecognized
    );
}

#[test]
fn unknown_csi_final_is_unrecognized() {
    assert_eq!(base(&[0x1b, 0x5b, b'q']), Decoded::Unrecognized);
}

#[test]
fn truncated_utf8_is_incomplete() {
    assert_eq!(base(&[0xc3]), Decoded::Incomplete); // lead of 'å' without its tail
}

#[test]
fn invalid_utf8_is_unrecognized() {
    assert_eq!(base(&[0xff]), Decoded::Unrecognized); // not a valid lead byte
    assert_eq!(base(&[0xa5]), Decoded::Unrecognized); // a stray continuation byte
    assert_eq!(base(&[0xc3, 0x28]), Decoded::Unrecognized); // bad continuation
}

#[test]
fn truncated_utf8_with_invalid_continuation_is_unrecognized() {
    // `e0` leads a 3-byte sequence but `28` is not a continuation byte, so no
    // future byte can complete it — `Unrecognized`, not `Incomplete`.
    assert_eq!(base(&[0xe0, 0x28]), Decoded::Unrecognized);
    // A genuinely truncated valid prefix is still `Incomplete`.
    assert_eq!(base(&[0xf0, 0x9f, 0x98]), Decoded::Incomplete);
}

#[test]
fn bytes_that_no_utf8_sequence_begins_with_are_unrecognized() {
    // Leads of overlong forms, and of code points past the last one.
    for lead in [0xc0, 0xc1, 0xf5, 0xf6, 0xf7, 0xf8] {
        assert_eq!(base(&[lead]), Decoded::Unrecognized);
        assert_eq!(enh(&[lead]), Decoded::Unrecognized);
        assert_eq!(base(&[0x1b, lead]), Decoded::Unrecognized);
    }
    assert_eq!(base(&[0xe0, 0x80]), Decoded::Unrecognized); // overlong
    assert_eq!(base(&[0xe0, 0x9f]), Decoded::Unrecognized);
    assert_eq!(base(&[0xed, 0xa0]), Decoded::Unrecognized); // a surrogate
    assert_eq!(base(&[0xed, 0xbf]), Decoded::Unrecognized);
    assert_eq!(base(&[0xf0, 0x80]), Decoded::Unrecognized); // overlong
    assert_eq!(base(&[0xf0, 0x8f, 0x80]), Decoded::Unrecognized);
    assert_eq!(base(&[0xf4, 0x90]), Decoded::Unrecognized); // past U+10FFFF
    assert_eq!(base(&[0x1b, 0xe0, 0x80]), Decoded::Unrecognized);
}

#[test]
fn bytes_that_a_utf8_sequence_begins_with_are_incomplete() {
    for lead in [0xc2, 0xdf, 0xe0, 0xed, 0xef, 0xf0, 0xf4] {
        assert_eq!(base(&[lead]), Decoded::Incomplete);
        assert_eq!(base(&[0x1b, lead]), Decoded::Incomplete);
    }
    assert_eq!(base(&[0xe0, 0xa0]), Decoded::Incomplete);
    assert_eq!(base(&[0xed, 0x9f]), Decoded::Incomplete);
    assert_eq!(base(&[0xf0, 0x90]), Decoded::Incomplete);
    assert_eq!(base(&[0xf4, 0x8f, 0xbf]), Decoded::Incomplete);
}

#[test]
fn csi_aborted_by_illegal_body_byte_is_unrecognized() {
    // An embedded ESC starts a fresh sequence; scanning past it would merge
    // two presses into one wrong key.
    assert_eq!(base(&[0x1b, 0x5b, 0x1b, 0x5b, b'A']), Decoded::Unrecognized);
    // A C0 control byte is not a legal CSI body byte.
    assert_eq!(base(&[0x1b, 0x5b, 0x09, b'A']), Decoded::Unrecognized);
    // A byte above the GL range can never be a final byte; do not promise
    // "read more" forever.
    assert_eq!(base(&[0x1b, 0x5b, 0x80]), Decoded::Unrecognized);
}

#[test]
fn nul_and_separator_controls_are_unrecognized() {
    // NUL (ctrl+@/ctrl+space) and FS/GS/RS/US have no unambiguous baseline
    // key; they are explicit misses rather than guesses.
    for b in [0x00, 0x1c, 0x1d, 0x1e, 0x1f] {
        assert_eq!(base(&[b]), Decoded::Unrecognized, "byte {b:#04x}");
    }
}

#[test]
fn bs_and_del_are_split_deliberately() {
    // `0x7f` (DEL) is the Backspace key; `0x08` (BS) stays ctrl+h, matching
    // what `legacy_form` predicts for ctrl+h (Representable, not Backspace).
    // This pins the asymmetry so a future "fix" of 0x08 fails loudly.
    assert_eq!(base(&[0x08]), key(Key::Char('h'), Modifiers::CTRL, 1));
    assert_eq!(base(&[0x7f]), key(Key::Backspace, Modifiers::NONE, 1));
}

#[test]
fn esc_flood_does_not_recurse_unboundedly() {
    // A run of ESC bytes must not drive `decode_alt` recursion: the second
    // ESC is a control byte, caught before any recursive descent.
    assert_eq!(base(&[0x1b; 1000]), Decoded::Unrecognized);
}

#[test]
fn trailing_bytes_are_left_for_the_caller() {
    // One Up arrow then a stray 'a': decode the arrow, report consumed=3.
    assert_eq!(
        base(&[0x1b, 0x5b, b'A', b'a']),
        key(Key::Up, Modifiers::NONE, 3)
    );
}

#[test]
fn chunk_boundaries_do_not_affect_the_concatenated_decode() {
    // read_chunks is recorder provenance, not a decoder input: the decoder
    // sees only the concatenated bytes.
    let whole = [0x1b, 0x5b, b'A'];
    assert_eq!(base(&whole), key(Key::Up, Modifiers::NONE, 3));
}

#[test]
fn capture_modes_map_to_typed_decode_modes() {
    assert_eq!(
        DecodeMode::from_capture_mode("baseline"),
        Some(DecodeMode::Baseline)
    );
    assert_eq!(
        DecodeMode::from_capture_mode("kitty-enhanced"),
        Some(DecodeMode::KittyEnhanced)
    );
    // An unrecorded mode is an explicit miss, never a silent mis-decode.
    assert_eq!(DecodeMode::from_capture_mode("kitty-future"), None);
}

// --- What the recorded terminals send in kitty-enhanced mode. ---

#[test]
fn enh_ctrl_letter_is_csi_u_not_c0() {
    // ctrl+a arrives as `ESC [ 97 ; 5 u` (codepoint 97 = 'a', mod 5 = 1+ctrl),
    // *not* the baseline C0 byte 0x01.
    assert_eq!(
        enh(&[0x1b, 0x5b, 0x39, 0x37, 0x3b, 0x35, 0x75]),
        key(Key::Char('a'), Modifiers::CTRL, 7)
    );
}

#[test]
fn enh_ctrl_i_is_distinct_from_tab() {
    // The whole point of enhancement: ctrl+i = `ESC [ 105 ; 5 u` decodes to
    // Char('i')+CTRL, no longer colliding with Tab (0x09) as in baseline.
    assert_eq!(
        enh(&[0x1b, 0x5b, 0x31, 0x30, 0x35, 0x3b, 0x35, 0x75]),
        key(Key::Char('i'), Modifiers::CTRL, 8)
    );
}

#[test]
fn enh_shift_tab_is_functional_codepoint_9() {
    // `ESC [ 9 ; 2 u`: codepoint 9 → Tab, mod 2 = 1+shift.
    assert_eq!(
        enh(&[0x1b, 0x5b, 0x39, 0x3b, 0x32, 0x75]),
        key(Key::Tab, Modifiers::SHIFT, 6)
    );
}

#[test]
fn enh_esc_is_csi_u_codepoint_27_no_modifier() {
    // `ESC [ 27 u`: a CSI-u with no `;mods` field is an unmodified press.
    assert_eq!(
        enh(&[0x1b, 0x5b, 0x32, 0x37, 0x75]),
        key(Key::Esc, Modifiers::NONE, 5)
    );
}

#[test]
fn enh_explicit_modifier_one_is_no_modifiers() {
    // kitty encodes modifiers as 1 + bitfield, so a literal `;1` (bitfield 0)
    // means no modifiers — the same as omitting the field.
    assert_eq!(
        enh(&[0x1b, 0x5b, 0x39, 0x37, 0x3b, 0x31, 0x75]),
        key(Key::Char('a'), Modifiers::NONE, 7)
    );
}

#[test]
fn enh_function_keys_arrive_as_csi_letters() {
    // kitty sends F1–F4 as `ESC [ P … S`, not the baseline SS3 `ESC O P`.
    assert_eq!(enh(&[0x1b, 0x5b, b'P']), key(Key::F(1), Modifiers::NONE, 3));
    assert_eq!(enh(&[0x1b, 0x5b, b'Q']), key(Key::F(2), Modifiers::NONE, 3));
    assert_eq!(enh(&[0x1b, 0x5b, b'R']), key(Key::F(3), Modifiers::NONE, 3));
    assert_eq!(enh(&[0x1b, 0x5b, b'S']), key(Key::F(4), Modifiers::NONE, 3));
    // `ESC [ T` is the near-neighbour that is *not* an F-key.
    assert_eq!(enh(&[0x1b, 0x5b, b'T']), Decoded::Unrecognized);
}

#[test]
fn enh_arrows_are_still_the_baseline_csi_form() {
    // Unparameterised arrows are byte-identical to baseline in enhanced mode.
    assert_eq!(enh(&[0x1b, 0x5b, b'A']), key(Key::Up, Modifiers::NONE, 3));
    assert_eq!(enh(&[0x1b, 0x5b, b'D']), key(Key::Left, Modifiers::NONE, 3));
}

#[test]
fn enh_alt_a_diverges_by_terminal_just_like_baseline() {
    // kitty composes alt+a to the glyph 'å' (no modifier) — decoded by the
    // shared UTF-8 path, unchanged from baseline.
    assert_eq!(enh(&[0xc3, 0xa5]), key(Key::Char('å'), Modifiers::NONE, 2));
    // Alacritty sends alt+a as `ESC [ 97 ; 3 u` (mod 3 = 1+alt) — a real
    // alt+a. The two-camp split persists into enhanced mode.
    assert_eq!(
        enh(&[0x1b, 0x5b, 0x39, 0x37, 0x3b, 0x33, 0x75]),
        key(Key::Char('a'), Modifiers::ALT, 7)
    );
}

// --- Boundary / abnormal CSI-u inputs no terminal sends.
//     These pin decoder-internal robustness against untrusted bytes, not
//     terminal behaviour. ---

#[test]
fn enh_malformed_csi_u_is_unrecognized() {
    assert_eq!(enh(&[0x1b, 0x5b, b'u']), Decoded::Unrecognized); // no codepoint
    assert_eq!(enh(&[0x1b, 0x5b, b';', b'5', b'u']), Decoded::Unrecognized); // empty codepoint
    assert_eq!(
        enh(&[0x1b, 0x5b, b'9', b'7', b';', b'u']),
        Decoded::Unrecognized
    ); // empty mods
    assert_eq!(enh(&[0x1b, 0x5b, b'9', b'x', b'u']), Decoded::Unrecognized); // non-digit
    // A third `;`-separated field is an unmeasured richer CSI-u sub-grammar.
    assert_eq!(
        enh(&[0x1b, 0x5b, b'9', b'7', b';', b'5', b';', b'1', b'u']),
        Decoded::Unrecognized
    );
}

#[test]
fn enh_csi_u_modifier_zero_is_rejected_not_underflowed() {
    // The modifier is 1 + bitfield, so 0 is illegal; it must not underflow.
    assert_eq!(
        enh(&[0x1b, 0x5b, 0x39, 0x37, 0x3b, 0x30, 0x75]),
        Decoded::Unrecognized
    );
}

#[test]
fn enh_csi_u_codepoint_must_be_a_unicode_scalar() {
    // 0x110000 (one past char::MAX) and a surrogate 0xD800 are not scalars.
    assert_eq!(
        enh(b"\x1b[1114112u"), // 0x110000
        Decoded::Unrecognized
    );
    assert_eq!(
        enh(b"\x1b[55296u"), // 0xD800, a surrogate
        Decoded::Unrecognized
    );
}

#[test]
fn enh_csi_u_huge_digit_run_overflows_to_unrecognized_without_panic() {
    assert_eq!(enh(b"\x1b[99999999999999999999;5u"), Decoded::Unrecognized);
}

#[test]
fn enh_unknown_high_modifier_bits_are_ignored_not_rejected() {
    // mod value 21 = 1 + 0b10100 → ctrl (4) + an unmodelled bit (16, hyper).
    // The unknown bit is dropped; the chord we can represent survives.
    assert_eq!(
        enh(&[0x1b, 0x5b, 0x39, 0x37, 0x3b, 0x32, 0x31, 0x75]),
        key(Key::Char('a'), Modifiers::CTRL, 8)
    );
}

#[test]
fn enh_truncated_csi_u_is_incomplete() {
    // A legal param run with no final `u` yet: read more.
    assert_eq!(
        enh(&[0x1b, 0x5b, 0x39, 0x37, 0x3b, 0x35]),
        Decoded::Incomplete
    );
}

#[test]
fn enh_csi_u_with_intermediate_byte_is_unrecognized() {
    // 0x20 is a legal CSI intermediate, so `scan_csi` accepts it into the
    // params; the CSI-u decimal parser then rejects it (not a digit/`;`).
    assert_eq!(
        enh(&[0x1b, 0x5b, b'9', b'7', 0x20, b'u']),
        Decoded::Unrecognized
    );
}

// --- Cross-mode: the reason `DecodeMode` exists. ---

#[test]
fn same_bytes_decode_differently_per_mode() {
    // The enhanced ctrl+a sequence is a parameterised CSI: baseline rejects
    // it, enhanced reads it. Holding the bytes constant and varying only the
    // mode flips the verdict — the whole point of DecodeMode.
    let csi_u = &[0x1b, 0x5b, 0x39, 0x37, 0x3b, 0x35, 0x75];
    assert_eq!(base(csi_u), Decoded::Unrecognized);
    assert_eq!(enh(csi_u), key(Key::Char('a'), Modifiers::CTRL, 7));
    // A shape both modes share decodes identically.
    let up = &[0x1b, 0x5b, b'A'];
    assert_eq!(base(up), enh(up));
    // `0x09` still means Tab in BOTH modes (enhanced ctrl+i moved to CSI-u).
    assert_eq!(base(&[0x09]), enh(&[0x09]));
}

#[test]
fn enh_never_panics_on_pathological_csi_u() {
    // Crafted shapes the recorded bytes never cover; assert only that the
    // decoder returns (never panics) on untrusted numeric garbage.
    let mut flood = vec![0x1b, 0x5b];
    flood.extend(std::iter::repeat_n(b'9', 500));
    flood.push(b'u');
    let _ = enh(&flood);
    let _ = enh(&[0x1b, 0x5b, b';', b';', b';', b'u']);
    let _ = enh(&[0x1b; 1000]);
}
