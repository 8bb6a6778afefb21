//! Capability-aware decoding of raw terminal bytes into a [`KeyInput`].
//!
//! The decoder owns no state and no clock. It is a pure function of the bytes and
//! the mode: it decodes the *first* complete key press at the front of the bytes
//! and reports how many bytes that press consumed. A lone `ESC` decodes to
//! [`Key::Esc`]: the slice is treated as settled. When the slice is a genuine
//! *prefix* of a longer encoding it is [`Decoded::Incomplete`].
//!
//! Decoded keys are **untrusted**: any chord can be forged by whoever writes the
//! bytes. A decoded [`Key::Char`] carries the literal code point with no
//! case-folding.
use crate::grammar::{chord_text, law_print_then_parse, parsed_chord};
use crate::input::{normalized_mods, Flags, Key, KeyInput, Modifiers};
use crate::legacy::{legacy_form_of, LegacyForm};
use crate::text::{is_scalar_value, same_text};
use vstd::prelude::*;

verus! {

/// Which terminal key-encoding mode produced the bytes being decoded.
///
/// Progressive enhancement *adds new byte shapes*; the shapes that the two modes
/// share keep their baseline meaning.
#[derive(Debug, Clone, Copy, PartialEq, Eq, Structural)]
pub enum DecodeMode {
    /// Legacy 7-bit C0 / xterm encoding.
    Baseline,
    /// The kitty keyboard protocol pushed with `DISAMBIGUATE_ESCAPE_CODES`: on top
    /// of every baseline shape, the CSI-u form (`ESC [ <codepoint> [; <mods>] u`)
    /// and function keys sent as CSI letters (`ESC [ P` … `ESC [ S`).
    KittyEnhanced,
}

/// The mode that a capture's mode string names.
pub open spec fn mode_named(mode: Seq<char>) -> Option<DecodeMode> {
    if mode == "baseline"@ {
        Some(DecodeMode::Baseline)
    } else if mode == "kitty-enhanced"@ {
        Some(DecodeMode::KittyEnhanced)
    } else {
        None
    }
}

impl DecodeMode {
    /// Maps a capture's mode string onto the typed decode mode, returning `None`
    /// for a mode this decoder cannot read.
    #[must_use]
    pub fn from_capture_mode(mode: &str) -> (m: Option<DecodeMode>)
        ensures
            m == mode_named(mode@),
    {
        if same_text(mode, "baseline") {
            Some(DecodeMode::Baseline)
        } else if same_text(mode, "kitty-enhanced") {
            Some(DecodeMode::KittyEnhanced)
        } else {
            None
        }
    }
}

/// The outcome of decoding the front of a byte slice.
#[derive(Debug, Clone, Copy, PartialEq, Eq, Structural)]
#[must_use]
pub enum Decoded {
    /// A complete key press was decoded from the first `consumed` bytes of the
    /// input.
    Key {
        /// The normalized key press.
        input: KeyInput,
        /// How many leading bytes this press consumed (`>= 1`).
        consumed: usize,
    },
    /// The bytes are a valid *prefix* of one or more known encodings but do not
    /// yet form a complete press. The caller should read more bytes.
    Incomplete,
    /// The bytes match no encoding this mode knows.
    Unrecognized,
}

/// The press of `key` with `mods`, normalized, from the first `consumed` bytes.
pub open spec fn press(key: Key, mods: Modifiers, consumed: int) -> Decoded {
    Decoded::Key {
        input: KeyInput { key, mods: normalized_mods(key, mods) },
        consumed: consumed as usize,
    }
}

/// A single C0 control byte other than `ESC`.
pub open spec fn c0_press(b: u8) -> Decoded {
    if b == 0x09 {
        press(Key::Tab, Modifiers::NONE, 1)
    } else if b == 0x0d {
        press(Key::Enter, Modifiers::NONE, 1)
    } else if 0x01 <= b <= 0x1a {
        press(Key::Char((b + 0x60) as char), Modifiers::CTRL, 1)
    } else {
        Decoded::Unrecognized
    }
}

/// The length of a UTF-8 sequence by its leading byte; none for a byte that leads no
/// sequence.
pub open spec fn glyph_len(first: u8) -> Option<int> {
    if first <= 0x7f {
        Some(1)
    } else if 0xc2 <= first <= 0xdf {
        Some(2)
    } else if 0xe0 <= first <= 0xef {
        Some(3)
    } else if 0xf0 <= first <= 0xf4 {
        Some(4)
    } else {
        None
    }
}

/// The byte continues a UTF-8 sequence.
pub open spec fn continues_glyph(b: u8) -> bool {
    0x80 <= b <= 0xbf
}

/// The second byte may follow the leading one: some leading bytes leave out a part of
/// the range, which would encode a number that needs fewer bytes, or no scalar value.
pub open spec fn may_follow(first: u8, second: u8) -> bool {
    &&& continues_glyph(second)
    &&& first == 0xe0 ==> second >= 0xa0
    &&& first == 0xed ==> second <= 0x9f
    &&& first == 0xf0 ==> second >= 0x90
    &&& first == 0xf4 ==> second <= 0x8f
}

/// The bytes, of which the first leads a longer sequence, are the front of one.
pub open spec fn begins_glyph(bytes: Seq<u8>) -> bool {
    &&& bytes.len() >= 2 ==> may_follow(bytes[0], bytes[1])
    &&& forall|i: int| 2 <= i < bytes.len() ==> continues_glyph(#[trigger] bytes[i])
}

/// The code point that a UTF-8 sequence of the given length encodes: at least the
/// smallest number that needs that length, and a Unicode scalar value.
pub open spec fn glyph_code(bytes: Seq<u8>, len: int) -> Option<u32> {
    let n = if len == 1 {
        bytes[0] as int
    } else if len == 2 {
        (bytes[0] - 0xc0) * 64 + (bytes[1] - 0x80)
    } else if len == 3 {
        (bytes[0] - 0xe0) * 4096 + (bytes[1] - 0x80) * 64 + (bytes[2] - 0x80)
    } else {
        (bytes[0] - 0xf0) * 262144 + (bytes[1] - 0x80) * 4096 + (bytes[2] - 0x80) * 64 + (bytes[3]
            - 0x80)
    };
    let least: int = if len == 1 {
        0
    } else if len == 2 {
        0x80
    } else if len == 3 {
        0x800
    } else {
        0x10000
    };
    if (forall|i: int| 1 <= i < len ==> continues_glyph(#[trigger] bytes[i])) && least <= n
        && is_scalar_value(n as u32) {
        Some(n as u32)
    } else {
        None
    }
}

/// A leading printable or UTF-8 sequence.
pub open spec fn glyph_press(bytes: Seq<u8>) -> Decoded {
    match glyph_len(bytes[0]) {
        None => Decoded::Unrecognized,
        Some(len) => if bytes.len() < len {
            if begins_glyph(bytes) {
                Decoded::Incomplete
            } else {
                Decoded::Unrecognized
            }
        } else {
            match glyph_code(bytes, len) {
                Some(code) => press(Key::Char(code as char), Modifiers::NONE, len),
                None => Decoded::Unrecognized,
            }
        },
    }
}

/// A press that does not begin with `ESC`.
pub open spec fn plain_press(bytes: Seq<u8>) -> Decoded {
    if bytes[0] == 0x7f {
        press(Key::Backspace, Modifiers::NONE, 1)
    } else if bytes[0] < 0x20 {
        c0_press(bytes[0])
    } else {
        glyph_press(bytes)
    }
}

/// The number of leading parameter and intermediate bytes of a CSI body.
pub open spec fn csi_run(body: Seq<u8>) -> nat
    decreases body.len(),
{
    if body.len() > 0 && 0x20 <= body[0] <= 0x3f {
        1 + csi_run(body.drop_first())
    } else {
        0
    }
}

/// An unparameterised arrow or BackTab.
pub open spec fn baseline_csi(params: Seq<u8>, last: u8, consumed: int) -> Decoded {
    if params.len() > 0 {
        Decoded::Unrecognized
    } else if last == 0x41 {
        press(Key::Up, Modifiers::NONE, consumed)
    } else if last == 0x42 {
        press(Key::Down, Modifiers::NONE, consumed)
    } else if last == 0x43 {
        press(Key::Right, Modifiers::NONE, consumed)
    } else if last == 0x44 {
        press(Key::Left, Modifiers::NONE, consumed)
    } else if last == 0x5a {
        press(Key::Tab, Modifiers::SHIFT, consumed)
    } else {
        Decoded::Unrecognized
    }
}

/// The number that a run of ASCII decimal digits spells.
pub open spec fn digit_run(bytes: Seq<u8>) -> Option<nat>
    decreases bytes.len(),
{
    if bytes.len() == 0 {
        Some(0)
    } else {
        match digit_run(bytes.drop_last()) {
            Some(v) => if 0x30 <= bytes.last() <= 0x39 {
                Some((v * 10 + (bytes.last() - 0x30)) as nat)
            } else {
                None
            },
            None => None,
        }
    }
}

/// A non-empty run of digits that spells a number of 32 bits.
pub open spec fn decimal_field(bytes: Seq<u8>) -> Option<nat> {
    match digit_run(bytes) {
        Some(v) => if bytes.len() > 0 && v <= u32::MAX {
            Some(v)
        } else {
            None
        },
        None => None,
    }
}

/// The key of a kitty code point: the functional code points keep their ASCII
/// control values, any other scalar value is its glyph.
pub open spec fn kitty_key(code: nat) -> Option<Key> {
    if code == 9 {
        Some(Key::Tab)
    } else if code == 13 {
        Some(Key::Enter)
    } else if code == 27 {
        Some(Key::Esc)
    } else if code == 127 {
        Some(Key::Backspace)
    } else if is_scalar_value(code as u32) {
        Some(Key::Char(code as u32 as char))
    } else {
        None
    }
}

/// The modifiers of a kitty modifier value, which is one more than a bit field of
/// shift, alt, ctrl and super; higher bits are ignored.
pub open spec fn kitty_mods(value: nat) -> Option<Modifiers> {
    if value == 0 {
        None
    } else {
        let bits = value - 1;
        Some(
            Modifiers::spec_from_flags(
                Flags {
                    shift: bits % 2 == 1,
                    alt: (bits / 2) % 2 == 1,
                    ctrl: (bits / 4) % 2 == 1,
                    sup: (bits / 8) % 2 == 1,
                },
            ),
        )
    }
}

/// The position of the first `;`, or the length where there is none.
pub open spec fn semicolon_at(bytes: Seq<u8>) -> nat
    decreases bytes.len(),
{
    if bytes.len() == 0 || bytes[0] == 0x3b {
        0
    } else {
        1 + semicolon_at(bytes.drop_first())
    }
}

/// The key and modifiers of a kitty CSI-u body: a code point, and at most one
/// more field, which is the modifier value.
pub open spec fn csi_u(params: Seq<u8>) -> Option<(Key, Modifiers)> {
    let i = semicolon_at(params) as int;
    let rest = params.skip(i + 1);
    match decimal_field(params.take(i)) {
        None => None,
        Some(code) => match kitty_key(code) {
            None => None,
            Some(key) => if i == params.len() {
                Some((key, Modifiers::NONE))
            } else if semicolon_at(rest) < rest.len() {
                None
            } else {
                match decimal_field(rest) {
                    None => None,
                    Some(value) => match kitty_mods(value) {
                        None => None,
                        Some(mods) => Some((key, mods)),
                    },
                }
            },
        },
    }
}

/// The baseline forms, the CSI-u sequence, and `F1` to `F4` as CSI letters.
pub open spec fn enhanced_csi(params: Seq<u8>, last: u8, consumed: int) -> Decoded {
    if last == 0x75 {
        match csi_u(params) {
            Some((key, mods)) => press(key, mods, consumed),
            None => Decoded::Unrecognized,
        }
    } else if 0x50 <= last <= 0x53 && params.len() == 0 {
        press(Key::F((last - 0x4f) as u8), Modifiers::NONE, consumed)
    } else {
        baseline_csi(params, last, consumed)
    }
}

/// A CSI sequence (`ESC [ …`): parameter and intermediate bytes, then a final
/// byte. An illegal byte aborts it; running out of bytes leaves it incomplete.
pub open spec fn csi_press(bytes: Seq<u8>, mode: DecodeMode) -> Decoded {
    let body = bytes.skip(2);
    let n = csi_run(body) as int;
    if n == body.len() {
        Decoded::Incomplete
    } else if 0x40 <= body[n] <= 0x7e {
        match mode {
            DecodeMode::Baseline => baseline_csi(body.take(n), body[n], n + 3),
            DecodeMode::KittyEnhanced => enhanced_csi(body.take(n), body[n], n + 3),
        }
    } else {
        Decoded::Unrecognized
    }
}

/// An SS3 sequence (`ESC O x`): `F1` to `F4`.
pub open spec fn ss3_press(bytes: Seq<u8>) -> Decoded {
    if bytes.len() < 3 {
        Decoded::Incomplete
    } else if 0x50 <= bytes[2] <= 0x53 {
        press(Key::F((bytes[2] - 0x4f) as u8), Modifiers::NONE, 3)
    } else {
        Decoded::Unrecognized
    }
}

/// `ESC` before a press is that press with Alt.
pub open spec fn alt_press(payload: Decoded) -> Decoded {
    match payload {
        Decoded::Key { input, consumed } => press(
            input.key,
            input.mods.spec_union(Modifiers::ALT),
            consumed + 1,
        ),
        other => other,
    }
}

/// A byte group introduced by `ESC`.
pub open spec fn escape_press(bytes: Seq<u8>, mode: DecodeMode) -> Decoded {
    if bytes.len() == 1 {
        press(Key::Esc, Modifiers::NONE, 1)
    } else if bytes[1] == 0x5b {
        csi_press(bytes, mode)
    } else if bytes[1] == 0x4f {
        ss3_press(bytes)
    } else if bytes[1] < 0x20 {
        Decoded::Unrecognized
    } else {
        alt_press(plain_press(bytes.skip(1)))
    }
}

/// What the front of the bytes decodes to.
pub open spec fn decodes_to(bytes: Seq<u8>, mode: DecodeMode) -> Decoded {
    if bytes.len() == 0 {
        Decoded::Incomplete
    } else if bytes[0] == 0x1b {
        escape_press(bytes, mode)
    } else {
        plain_press(bytes)
    }
}

/// Builds a [`Decoded::Key`] with the shared normalization rule applied.
fn decoded(key: Key, mods: Modifiers, consumed: usize) -> (d: Decoded)
    ensures
        d == press(key, mods, consumed as int),
{
    Decoded::Key { input: KeyInput::normalized(key, mods), consumed }
}

/// Decodes a single C0 control byte.
fn decode_c0(b: u8) -> (d: Decoded)
    ensures
        d == c0_press(b),
{
    if b == 0x09 {
        decoded(Key::Tab, Modifiers::NONE, 1)
    } else if b == 0x0d {
        decoded(Key::Enter, Modifiers::NONE, 1)
    } else if 0x01 <= b && b <= 0x1a {
        decoded(Key::Char((b + 0x60) as char), Modifiers::CTRL, 1)
    } else {
        Decoded::Unrecognized
    }
}

/// The length of a UTF-8 sequence from its leading byte.
fn utf8_len(first: u8) -> (len: Option<usize>)
    ensures
        match len {
            Some(n) => glyph_len(first) == Some(n as int) && 1 <= n <= 4,
            None => glyph_len(first) is None,
        },
{
    if first <= 0x7f {
        Some(1)
    } else if 0xc2 <= first && first <= 0xdf {
        Some(2)
    } else if 0xe0 <= first && first <= 0xef {
        Some(3)
    } else if 0xf0 <= first && first <= 0xf4 {
        Some(4)
    } else {
        None
    }
}

/// Whether the bytes from `from + 1` up to `to` all continue a UTF-8 sequence.
fn all_continue(bytes: &[u8], from: usize, to: usize) -> (r: bool)
    requires
        from < to <= bytes.len(),
    ensures
        r == forall|i: int|
            1 <= i < to - from ==> continues_glyph(#[trigger] bytes@.skip(from as int)[i]),
{
    let ghost s = bytes@.skip(from as int);
    let mut i: usize = from + 1;
    while i < to
        invariant
            from < i <= to <= bytes.len(),
            s == bytes@.skip(from as int),
            forall|j: int| 1 <= j < i - from ==> continues_glyph(#[trigger] s[j]),
        decreases to - i,
    {
        if !(0x80 <= bytes[i] && bytes[i] <= 0xbf) {
            assert(s[i - from] == bytes@[i as int]);
            return false;
        }
        assert(s[i - from] == bytes@[i as int]);
        i = i + 1;
    }
    true
}

/// Whether the second byte may follow the leading one.
fn fits_after(first: u8, second: u8) -> (r: bool)
    ensures
        r == may_follow(first, second),
{
    0x80 <= second && second <= 0xbf && !(first == 0xe0 && second < 0xa0) && !(first == 0xed
        && second > 0x9f) && !(first == 0xf0 && second < 0x90) && !(first == 0xf4 && second > 0x8f)
}

/// Decodes a leading printable or UTF-8 sequence at `from`.
fn decode_utf8(bytes: &[u8], from: usize) -> (d: Decoded)
    requires
        from < bytes.len(),
    ensures
        d == glyph_press(bytes@.skip(from as int)),
{
    let ghost s = bytes@.skip(from as int);
    let len: usize = match utf8_len(bytes[from]) {
        Some(len) => len,
        None => {
            return Decoded::Unrecognized;
        },
    };
    let there: usize = bytes.len() - from;
    if there < len {
        // Only a front that could still be completed asks for more bytes.
        let fits = there < 2 || fits_after(bytes[from], bytes[from + 1]);
        return if fits && all_continue(bytes, from, bytes.len()) {
            Decoded::Incomplete
        } else {
            Decoded::Unrecognized
        };
    }
    if !all_continue(bytes, from, from + len) {
        return Decoded::Unrecognized;
    }
    let b0 = bytes[from] as u32;
    let (code, least): (u32, u32) = if len == 1 {
        (b0, 0)
    } else if len == 2 {
        assert(continues_glyph(s[1]));
        ((b0 - 0xc0) * 64 + (bytes[from + 1] as u32 - 0x80), 0x80)
    } else if len == 3 {
        assert(continues_glyph(s[1]) && continues_glyph(s[2]));
        (
            (b0 - 0xe0) * 4096 + (bytes[from + 1] as u32 - 0x80) * 64 + (bytes[from + 2] as u32
                - 0x80),
            0x800,
        )
    } else {
        assert(continues_glyph(s[1]) && continues_glyph(s[2]) && continues_glyph(s[3]));
        (
            (b0 - 0xf0) * 262144 + (bytes[from + 1] as u32 - 0x80) * 4096 + (bytes[from
                + 2] as u32 - 0x80) * 64 + (bytes[from + 3] as u32 - 0x80),
            0x10000,
        )
    };
    if code < least {
        return Decoded::Unrecognized;
    }
    match char::from_u32(code) {
        Some(c) => {
            proof {
                vstd::utf8::char_is_scalar(c);
                vstd::utf8::char_u32_cast(c, code);
            }
            decoded(Key::Char(c), Modifiers::NONE, len)
        },
        None => Decoded::Unrecognized,
    }
}

/// Decodes a press at `from` that does not begin with `ESC`.
fn decode_plain(bytes: &[u8], from: usize) -> (d: Decoded)
    requires
        from < bytes.len(),
    ensures
        d == plain_press(bytes@.skip(from as int)),
{
    let first = bytes[from];
    if first == 0x7f {
        decoded(Key::Backspace, Modifiers::NONE, 1)
    } else if first < 0x20 {
        decode_c0(first)
    } else {
        decode_utf8(bytes, from)
    }
}

/// Baseline CSI: only the unparameterised arrow/BackTab forms.
fn interpret_csi_baseline(bytes: &[u8], last: usize) -> (d: Decoded)
    requires
        2 <= last < bytes.len(),
    ensures
        d == baseline_csi(bytes@.subrange(2, last as int), bytes@[last as int], last + 1),
{
    if last > 2 {
        return Decoded::Unrecognized;
    }
    let b = bytes[last];
    if b == 0x41 {
        decoded(Key::Up, Modifiers::NONE, last + 1)
    } else if b == 0x42 {
        decoded(Key::Down, Modifiers::NONE, last + 1)
    } else if b == 0x43 {
        decoded(Key::Right, Modifiers::NONE, last + 1)
    } else if b == 0x44 {
        decoded(Key::Left, Modifiers::NONE, last + 1)
    } else if b == 0x5a {
        decoded(Key::Tab, Modifiers::SHIFT, last + 1)
    } else {
        Decoded::Unrecognized
    }
}

/// Parses the ASCII decimal run from `from` up to `to`. `None` on an empty run, a
/// non-digit byte, or overflow.
fn parse_u32_decimal(bytes: &[u8], from: usize, to: usize) -> (n: Option<u32>)
    requires
        from <= to <= bytes.len(),
    ensures
        match n {
            Some(v) => decimal_field(bytes@.subrange(from as int, to as int)) == Some(v as nat),
            None => decimal_field(bytes@.subrange(from as int, to as int)) is None,
        },
{
    let ghost s = bytes@.subrange(from as int, to as int);
    if from == to {
        return None;
    }
    let mut big: bool = false;
    let mut acc: u32 = 0;
    let mut i: usize = from;
    while i < to
        invariant
            from <= i <= to <= bytes.len(),
            s == bytes@.subrange(from as int, to as int),
            match digit_run(s.take(i - from)) {
                Some(v) => if big {
                    v > u32::MAX
                } else {
                    acc == v
                },
                None => false,
            },
        decreases to - i,
    {
        let b = bytes[i];
        assert(s.take(i + 1 - from).drop_last() =~= s.take(i - from));
        assert(s.take(i + 1 - from).last() == b);
        if !(0x30 <= b && b <= 0x39) {
            proof {
                lemma_bad_digit(s, i - from);
            }
            return None;
        }
        if !big {
            let next: u64 = acc as u64 * 10 + (b as u64 - 0x30);
            if next > u32::MAX as u64 {
                big = true;
            } else {
                acc = next as u32;
            }
        }
        i = i + 1;
    }
    assert(s.take(i - from) =~= s);
    if big {
        None
    } else {
        Some(acc)
    }
}

/// A run with a byte that is no digit spells no number.
proof fn lemma_bad_digit(s: Seq<u8>, i: int)
    requires
        0 <= i < s.len(),
        !(0x30 <= s[i] <= 0x39),
    ensures
        digit_run(s) is None,
    decreases s.len(),
{
    if i < s.len() - 1 {
        lemma_bad_digit(s.drop_last(), i);
    }
}

/// Maps a kitty CSI-u code point to a [`Key`].
fn kitty_key_from_codepoint(codepoint: u32) -> (key: Option<Key>)
    ensures
        key == kitty_key(codepoint as nat),
{
    if codepoint == 9 {
        Some(Key::Tab)
    } else if codepoint == 13 {
        Some(Key::Enter)
    } else if codepoint == 27 {
        Some(Key::Esc)
    } else if codepoint == 127 {
        Some(Key::Backspace)
    } else {
        match char::from_u32(codepoint) {
            Some(c) => {
                proof {
                    vstd::utf8::char_is_scalar(c);
                    vstd::utf8::char_u32_cast(c, codepoint);
                }
                Some(Key::Char(c))
            },
            None => None,
        }
    }
}

/// Decodes a kitty modifier value into [`Modifiers`].
fn kitty_modifiers(value: u32) -> (mods: Option<Modifiers>)
    ensures
        mods == kitty_mods(value as nat),
{
    if value == 0 {
        return None;
    }
    let bits = value - 1;
    Some(
        Modifiers::from_flags(
            Flags {
                shift: bits % 2 == 1,
                alt: (bits / 2) % 2 == 1,
                ctrl: (bits / 4) % 2 == 1,
                sup: (bits / 8) % 2 == 1,
            },
        ),
    )
}

/// The position of the first `;` from `from` up to `to`, or `to`.
fn find_semicolon(bytes: &[u8], from: usize, to: usize) -> (i: usize)
    requires
        from <= to <= bytes.len(),
    ensures
        from <= i <= to,
        i - from == semicolon_at(bytes@.subrange(from as int, to as int)),
{
    let mut i: usize = from;
    while i < to && bytes[i] != 0x3b
        invariant
            from <= i <= to <= bytes.len(),
            semicolon_at(bytes@.subrange(from as int, to as int)) == i - from + semicolon_at(
                bytes@.subrange(i as int, to as int),
            ),
        decreases to - i,
    {
        assert(bytes@.subrange(i as int, to as int).drop_first() =~= bytes@.subrange(
            i + 1,
            to as int,
        ));
        i = i + 1;
    }
    i
}

/// Parses the kitty CSI-u parameter body from `from` up to `to`.
fn parse_csi_u(bytes: &[u8], from: usize, to: usize) -> (r: Option<(Key, Modifiers)>)
    requires
        from <= to < bytes.len(),
    ensures
        r == csi_u(bytes@.subrange(from as int, to as int)),
{
    let ghost params = bytes@.subrange(from as int, to as int);
    let i = find_semicolon(bytes, from, to);
    assert(params.take(i - from) =~= bytes@.subrange(from as int, i as int));
    let code = match parse_u32_decimal(bytes, from, i) {
        Some(code) => code,
        None => {
            return None;
        },
    };
    let key = match kitty_key_from_codepoint(code) {
        Some(key) => key,
        None => {
            return None;
        },
    };
    if i == to {
        return Some((key, Modifiers::NONE));
    }
    assert(params.skip(i - from + 1) =~= bytes@.subrange(i + 1, to as int));
    let j = find_semicolon(bytes, i + 1, to);
    if j < to {
        return None;
    }
    match parse_u32_decimal(bytes, i + 1, to) {
        Some(value) => match kitty_modifiers(value) {
            Some(mods) => Some((key, mods)),
            None => None,
        },
        None => None,
    }
}

/// Decodes a kitty CSI-u body.
fn decode_csi_u(bytes: &[u8], last: usize) -> (d: Decoded)
    requires
        2 <= last < bytes.len(),
    ensures
        d == (match csi_u(bytes@.subrange(2, last as int)) {
            Some((key, mods)) => press(key, mods, last + 1),
            None => Decoded::Unrecognized,
        }),
{
    match parse_csi_u(bytes, 2, last) {
        Some((key, mods)) => decoded(key, mods, last + 1),
        None => Decoded::Unrecognized,
    }
}

/// Enhanced CSI: the baseline forms *plus* the CSI-u sequence and function keys
/// sent as CSI letters.
fn interpret_csi_enhanced(bytes: &[u8], last: usize) -> (d: Decoded)
    requires
        2 <= last < bytes.len(),
    ensures
        d == enhanced_csi(bytes@.subrange(2, last as int), bytes@[last as int], last + 1),
{
    let b = bytes[last];
    if b == 0x75 {
        decode_csi_u(bytes, last)
    } else if 0x50 <= b && b <= 0x53 && last == 2 {
        decoded(Key::F(b - 0x4f), Modifiers::NONE, last + 1)
    } else {
        interpret_csi_baseline(bytes, last)
    }
}

/// The position of the first byte of a CSI that is no parameter or intermediate
/// byte, or the length.
fn scan_csi(bytes: &[u8]) -> (i: usize)
    requires
        2 <= bytes.len(),
    ensures
        2 <= i <= bytes.len(),
        i - 2 == csi_run(bytes@.skip(2)),
{
    let mut i: usize = 2;
    while i < bytes.len() && 0x20 <= bytes[i] && bytes[i] <= 0x3f
        invariant
            2 <= i <= bytes.len(),
            csi_run(bytes@.skip(2)) == i - 2 + csi_run(bytes@.skip(i as int)),
        decreases bytes.len() - i,
    {
        assert(bytes@.skip(i as int).drop_first() =~= bytes@.skip(i + 1));
        i = i + 1;
    }
    i
}

/// Decodes a CSI sequence (`ESC [ …`) per [`DecodeMode`].
fn decode_csi(bytes: &[u8], mode: DecodeMode) -> (d: Decoded)
    requires
        2 <= bytes.len(),
    ensures
        d == csi_press(bytes@, mode),
{
    let i = scan_csi(bytes);
    if i == bytes.len() {
        return Decoded::Incomplete;
    }
    assert(bytes@.skip(2).take(i - 2) =~= bytes@.subrange(2, i as int));
    if 0x40 <= bytes[i] && bytes[i] <= 0x7e {
        match mode {
            DecodeMode::Baseline => interpret_csi_baseline(bytes, i),
            DecodeMode::KittyEnhanced => interpret_csi_enhanced(bytes, i),
        }
    } else {
        Decoded::Unrecognized
    }
}

/// Decodes an SS3 sequence (`ESC O x`).
fn decode_ss3(bytes: &[u8]) -> (d: Decoded)
    ensures
        d == ss3_press(bytes@),
{
    if bytes.len() < 3 {
        return Decoded::Incomplete;
    }
    let b = bytes[2];
    if 0x50 <= b && b <= 0x53 {
        decoded(Key::F(b - 0x4f), Modifiers::NONE, 3)
    } else {
        Decoded::Unrecognized
    }
}

/// Decodes an `ESC`+key Meta prefix: the payload as a standalone press, with
/// [`Modifiers::ALT`] added.
fn decode_alt(bytes: &[u8]) -> (d: Decoded)
    requires
        2 <= bytes.len(),
        bytes@[1] >= 0x20,
    ensures
        d == alt_press(plain_press(bytes@.skip(1))),
{
    match decode_plain(bytes, 1) {
        Decoded::Key { input, consumed } => {
            proof {
                lemma_plain_consumed(bytes@.skip(1));
            }
            decoded(input.key, input.mods.union(Modifiers::ALT), consumed + 1)
        },
        other => other,
    }
}

/// A plain press consumes at most four bytes.
proof fn lemma_plain_consumed(bytes: Seq<u8>)
    requires
        bytes.len() > 0,
    ensures
        plain_press(bytes) matches Decoded::Key { input, consumed } ==> 1 <= consumed <= bytes.len()
            && consumed <= 4 && input.is_normalized(),
{
}

/// Decodes an `ESC`-introduced byte group.
fn decode_escape(bytes: &[u8], mode: DecodeMode) -> (d: Decoded)
    requires
        1 <= bytes.len(),
    ensures
        d == escape_press(bytes@, mode),
{
    if bytes.len() == 1 {
        return decoded(Key::Esc, Modifiers::NONE, 1);
    }
    let b = bytes[1];
    if b == 0x5b {
        decode_csi(bytes, mode)
    } else if b == 0x4f {
        decode_ss3(bytes)
    } else if b < 0x20 {
        Decoded::Unrecognized
    } else {
        decode_alt(bytes)
    }
}

/// Decodes the first complete key press at the front of `bytes`, read under the
/// given [`DecodeMode`].
pub fn decode(bytes: &[u8], mode: DecodeMode) -> (d: Decoded)
    ensures
        d == decodes_to(bytes@, mode),
        d matches Decoded::Key { input, consumed } ==> 1 <= consumed <= bytes.len()
            && input.is_normalized(),
{
    proof {
        law_consumed_is_a_front(bytes@, mode);
    }
    if bytes.len() == 0 {
        return Decoded::Incomplete;
    }
    if bytes[0] == 0x1b {
        decode_escape(bytes, mode)
    } else {
        assert(bytes@.skip(0) =~= bytes@);
        decode_plain(bytes, 0)
    }
}

/// The run of a CSI body stays inside it.
proof fn lemma_csi_run_len(body: Seq<u8>)
    ensures
        csi_run(body) <= body.len(),
    decreases body.len(),
{
    if body.len() > 0 {
        lemma_csi_run_len(body.drop_first());
    }
}

/// A decoded press consumes at least one byte and no more than there are, and is
/// normalized.
pub proof fn law_consumed_is_a_front(bytes: Seq<u8>, mode: DecodeMode)
    requires
        bytes.len() <= usize::MAX,
    ensures
        decodes_to(bytes, mode) matches Decoded::Key { input, consumed } ==> 1 <= consumed
            <= bytes.len() && input.is_normalized(),
{
    if bytes.len() > 0 {
        if bytes[0] == 0x1b {
            if bytes.len() > 1 {
                lemma_csi_run_len(bytes.skip(2));
                lemma_plain_consumed(bytes.skip(1));
            }
        } else {
            lemma_plain_consumed(bytes);
        }
    }
}

/// The enhanced mode recognises a superset: it reads whatever the baseline mode
/// recognises, or holds incomplete, in the same way.
pub proof fn law_enhanced_extends_baseline(bytes: Seq<u8>)
    requires
        decodes_to(bytes, DecodeMode::Baseline) != Decoded::Unrecognized,
    ensures
        decodes_to(bytes, DecodeMode::KittyEnhanced) == decodes_to(bytes, DecodeMode::Baseline),
{
}

/// The run of a CSI body that ends inside it is not changed by what follows its
/// end.
proof fn lemma_csi_run_front(body: Seq<u8>, other: Seq<u8>)
    requires
        csi_run(body) < body.len(),
        body.len() <= other.len(),
        other.take(body.len() as int) == body,
    ensures
        csi_run(other) == csi_run(body),
    decreases body.len(),
{
    assert(other[0] == other.take(body.len() as int)[0]);
    if 0x20 <= body[0] <= 0x3f {
        assert(other.drop_first().take(body.len() - 1) =~= body.drop_first());
        lemma_csi_run_front(body.drop_first(), other.drop_first());
    }
}

/// The run of a CSI body cut off behind its end is the same run.
proof fn lemma_csi_run_cut(body: Seq<u8>)
    requires
        csi_run(body) < body.len(),
    ensures
        csi_run(body.take(csi_run(body) as int + 1)) == csi_run(body),
    decreases body.len(),
{
    let n = csi_run(body) as int;
    if 0x20 <= body[0] <= 0x3f {
        lemma_csi_run_cut(body.drop_first());
        assert(body.take(n + 1).drop_first() =~= body.drop_first().take(n));
    }
}

/// A plain press is not changed by what follows it.
proof fn lemma_plain_front(bytes: Seq<u8>, more: Seq<u8>)
    requires
        bytes.len() > 0,
        plain_press(bytes) is Key,
    ensures
        plain_press(bytes + more) == plain_press(bytes),
{
    let all = bytes + more;
    assert(all[0] == bytes[0]);
    if bytes[0] >= 0x20 && bytes[0] != 0x7f {
        let len = glyph_len(bytes[0])->0;
        assert forall|i: int| 0 <= i < len implies all[i] == #[trigger] bytes[i] by {}
        assert(glyph_code(bytes, len) is Some);
        assert forall|i: int| 1 <= i < len implies continues_glyph(#[trigger] all[i]) by {
            assert(continues_glyph(bytes[i]));
        }
        assert(glyph_code(all, len) == glyph_code(bytes, len));
    }
}

/// A press is not changed by the bytes that follow it, except for a lone `ESC`,
/// which may turn out to begin a longer sequence.
pub proof fn law_later_bytes_do_not_matter(bytes: Seq<u8>, more: Seq<u8>, mode: DecodeMode)
    requires
        decodes_to(bytes, mode) is Key,
        bytes != seq![0x1bu8],
    ensures
        decodes_to(bytes + more, mode) == decodes_to(bytes, mode),
{
    let all = bytes + more;
    assert(all[0] == bytes[0]);
    if bytes[0] == 0x1b {
        if bytes.len() == 1 {
            assert(bytes =~= seq![0x1bu8]);
        }
        assert(all[1] == bytes[1]);
        if bytes[1] == 0x5b {
            let body = bytes.skip(2);
            let rest = all.skip(2);
            assert(rest.take(body.len() as int) =~= body);
            lemma_csi_run_len(body);
            lemma_csi_run_front(body, rest);
            let n = csi_run(body) as int;
            assert(rest.take(n) =~= body.take(n));
            assert(rest[n] == body[n]);
        } else if bytes[1] == 0x4f {
            assert(all[2] == bytes[2]);
        } else if bytes[1] >= 0x20 {
            assert(all.skip(1) =~= bytes.skip(1) + more);
            lemma_plain_front(bytes.skip(1), more);
        }
    } else {
        lemma_plain_front(bytes, more);
    }
}

/// A plain press is read from the bytes it consumed alone.
proof fn lemma_plain_cut(bytes: Seq<u8>)
    requires
        bytes.len() > 0,
        plain_press(bytes) is Key,
    ensures
        plain_press(bytes.take(plain_press(bytes)->consumed as int)) == plain_press(bytes),
{
    let cut = bytes.take(plain_press(bytes)->consumed as int);
    assert(cut[0] == bytes[0]);
    if bytes[0] >= 0x20 && bytes[0] != 0x7f {
        let len = glyph_len(bytes[0])->0;
        assert(cut.len() == len);
        assert forall|i: int| 1 <= i < len implies continues_glyph(#[trigger] cut[i]) by {
            assert(continues_glyph(bytes[i]));
        }
        assert(glyph_code(cut, len) == glyph_code(bytes, len));
    }
}

/// The consumed bytes are the exact span of the press: on their own they decode
/// to the same press.
pub proof fn law_consumed_is_the_span(bytes: Seq<u8>, mode: DecodeMode)
    requires
        bytes.len() <= usize::MAX,
        decodes_to(bytes, mode) is Key,
    ensures
        decodes_to(bytes.take(decodes_to(bytes, mode)->consumed as int), mode) == decodes_to(
            bytes,
            mode,
        ),
{
    let n = decodes_to(bytes, mode)->consumed as int;
    let cut = bytes.take(n);
    law_consumed_is_a_front(bytes, mode);
    assert(cut[0] == bytes[0]);
    if bytes[0] == 0x1b {
        if bytes.len() > 1 {
            if bytes[1] == 0x5b {
                let body = bytes.skip(2);
                lemma_csi_run_len(body);
                let r = csi_run(body) as int;
                assert(n == r + 3);
                assert(cut[1] == bytes[1]);
                assert(cut.skip(2) =~= body.take(r + 1));
                lemma_csi_run_cut(body);
                assert(body.take(r + 1).take(r) =~= body.take(r));
                assert(body.take(r + 1)[r] == body[r]);
            } else if bytes[1] == 0x4f {
                assert(cut[1] == bytes[1]);
                assert(cut[2] == bytes[2]);
            } else {
                let p = bytes.skip(1);
                lemma_plain_consumed(p);
                lemma_plain_cut(p);
                let c = plain_press(p)->consumed as int;
                assert(n == c + 1);
                assert(cut[1] == bytes[1]);
                assert(cut.skip(1) =~= p.take(c));
            }
        }
    } else {
        lemma_plain_cut(bytes);
    }
}

/// The bytes that complete the front of a UTF-8 sequence: each the least that may
/// stand there.
spec fn completion(bytes: Seq<u8>) -> Seq<u8> {
    let len = glyph_len(bytes[0])->0;
    Seq::new(
        (len - bytes.len()) as nat,
        |i: int|
            if bytes.len() + i == 1 && bytes[0] == 0xe0 {
                0xa0u8
            } else if bytes.len() + i == 1 && bytes[0] == 0xf0 {
                0x90u8
            } else {
                0x80u8
            },
    )
}

/// The front of a UTF-8 sequence becomes a press when it is completed.
proof fn lemma_glyph_completes(bytes: Seq<u8>)
    requires
        bytes.len() > 0,
        glyph_press(bytes) == Decoded::Incomplete,
    ensures
        glyph_press(bytes + completion(bytes)) is Key,
{
    let all = bytes + completion(bytes);
    let len = glyph_len(bytes[0])->0;
    assert(all.len() == len);
    assert(all[0] == bytes[0]);
    assert forall|i: int| 1 <= i < len implies continues_glyph(#[trigger] all[i]) by {
        if i < bytes.len() {
            assert(all[i] == bytes[i]);
        }
    }
    assert(may_follow(all[0], all[1])) by {
        if bytes.len() >= 2 {
            assert(all[1] == bytes[1]);
        }
    }
    assert(len >= 3 ==> continues_glyph(all[2]));
    assert(len >= 4 ==> continues_glyph(all[3]));
    assert(glyph_code(all, len) is Some);
}

/// Of the front of a run of digits the number is no greater than that of the run.
proof fn lemma_digit_front(front: Seq<u8>, tail: Seq<u8>)
    requires
        digit_run(front + tail) is Some,
    ensures
        digit_run(front) is Some,
        digit_run(front)->0 <= digit_run(front + tail)->0,
    decreases tail.len(),
{
    if tail.len() == 0 {
        assert(front + tail =~= front);
    } else {
        assert((front + tail).drop_last() =~= front + tail.drop_last());
        lemma_digit_front(front, tail.drop_last());
    }
}

/// The first `;` of bytes that hold one is where it was when more bytes follow;
/// otherwise it is in what follows.
proof fn lemma_semicolon_front(front: Seq<u8>, tail: Seq<u8>)
    ensures
        semicolon_at(front) <= front.len(),
        semicolon_at(front) < front.len() ==> semicolon_at(front + tail) == semicolon_at(front),
        semicolon_at(front) == front.len() ==> semicolon_at(front + tail) == front.len()
            + semicolon_at(tail),
    decreases front.len(),
{
    if front.len() == 0 {
        assert(front + tail =~= tail);
    } else {
        assert((front + tail).drop_first() =~= front.drop_first() + tail);
        assert((front + tail)[0] == front[0]);
        lemma_semicolon_front(front.drop_first(), tail);
    }
}

/// The run of a CSI body that is parameters throughout goes on into what follows.
proof fn lemma_csi_run_on(body: Seq<u8>, more: Seq<u8>)
    requires
        csi_run(body) == body.len(),
    ensures
        csi_run(body + more) == body.len() + csi_run(more),
    decreases body.len(),
{
    if body.len() == 0 {
        assert(body + more =~= more);
    } else {
        assert((body + more).drop_first() =~= body.drop_first() + more);
        assert((body + more)[0] == body[0]);
        lemma_csi_run_on(body.drop_first(), more);
    }
}

/// The bytes are the front of a kitty CSI-u body: of a code point that is not too
/// large, or of a complete one and a modifier value that is not too large.
pub open spec fn begins_csi_u(params: Seq<u8>) -> bool {
    let i = semicolon_at(params) as int;
    let rest = params.skip(i + 1);
    &&& digit_run(params.take(i)) matches Some(code) && code <= 0x10ffff
    &&& i < params.len() ==> {
        &&& decimal_field(params.take(i)) matches Some(code) && kitty_key(code) is Some
        &&& semicolon_at(rest) == rest.len()
        &&& digit_run(rest) matches Some(value) && value <= u32::MAX
    }
}

/// The front of a kitty CSI-u body becomes one when parameters are added.
proof fn lemma_csi_u_completes(params: Seq<u8>) -> (added: Seq<u8>)
    requires
        params.len() > 0,
        begins_csi_u(params),
    ensures
        csi_run(added) == added.len(),
        csi_u(params + added) is Some,
{
    let i = semicolon_at(params) as int;
    let rest = params.skip(i + 1);
    let code = digit_run(params.take(i))->0;
    let none = Seq::<u8>::empty();
    let zero = seq![0x30u8];
    let one = seq![0x31u8];
    lemma_semicolon_front(params, none);
    assert(zero.drop_first() =~= none && one.drop_first() =~= none);
    assert(csi_run(none) == 0 && semicolon_at(none) == 0);
    assert(csi_run(zero) == 1 && csi_run(one) == 1);
    assert(semicolon_at(zero) == 1 && semicolon_at(one) == 1);
    assert(params + none =~= params);
    if i == params.len() {
        assert(params.take(i) =~= params);
        if kitty_key(code) is Some {
            none
        } else {
            let all = params + zero;
            lemma_semicolon_front(params, zero);
            assert(all.take(all.len() as int) =~= all);
            assert(all.drop_last() =~= params);
            assert(digit_run(all) == Some(code * 10));
            zero
        }
    } else {
        let value = digit_run(rest)->0;
        lemma_semicolon_front(params, none);
        if rest.len() > 0 && value > 0 {
            none
        } else {
            let all = params + one;
            lemma_semicolon_front(params, one);
            lemma_semicolon_front(rest, one);
            assert(all.take(i) =~= params.take(i));
            assert(all.skip(i + 1) =~= rest + one);
            assert((rest + one).drop_last() =~= rest);
            assert(digit_run(rest + one) == Some(1nat));
            one
        }
    }
}

/// What can become a kitty CSI-u body is the front of one.
proof fn lemma_csi_u_front(params: Seq<u8>, added: Seq<u8>)
    requires
        csi_u(params + added) is Some,
    ensures
        begins_csi_u(params),
{
    let all = params + added;
    let i = semicolon_at(params) as int;
    let j = semicolon_at(all) as int;
    lemma_semicolon_front(params, added);
    lemma_semicolon_front(added, Seq::empty());
    let code = decimal_field(all.take(j))->0;
    assert(code <= 0x10ffff) by {
        assert(kitty_key(code) is Some);
    }
    if i == params.len() {
        assert(params.take(i) =~= params);
        assert(all.take(j) =~= params + added.take(j - i));
        lemma_digit_front(params, added.take(j - i));
    } else {
        let rest = params.skip(i + 1);
        assert(all.take(j) =~= params.take(i));
        assert(all.skip(j + 1) =~= rest + added);
        lemma_digit_front(rest, added);
        lemma_semicolon_front(rest, added);
    }
}

/// The bytes have begun the parameters of a CSI sequence.
pub open spec fn has_params(bytes: Seq<u8>) -> bool {
    bytes.len() > 2 && bytes[0] == 0x1b && bytes[1] == 0x5b
}

/// Incomplete bytes with parameters become a press exactly where the enhanced mode can
/// make a CSI-u sequence of them.
proof fn lemma_params_complete(bytes: Seq<u8>, mode: DecodeMode)
    requires
        decodes_to(bytes, mode) == Decoded::Incomplete,
        has_params(bytes),
    ensures
        (exists|more: Seq<u8>| #[trigger] decodes_to(bytes + more, mode) is Key) <==> mode
            == DecodeMode::KittyEnhanced && begins_csi_u(bytes.skip(2)),
{
    let p = bytes.skip(2);
    lemma_csi_run_len(p);
    if mode == DecodeMode::KittyEnhanced && begins_csi_u(p) {
        let added = lemma_csi_u_completes(p);
        let last = seq![0x75u8];
        let more = added + last;
        let all = bytes + more;
        let body = all.skip(2);
        assert(body =~= p + more);
        assert(csi_run(last) == 0);
        lemma_csi_run_on(added, last);
        lemma_csi_run_on(p, more);
        let n = csi_run(body) as int;
        assert(n == p.len() + added.len());
        assert(body[n] == 0x75);
        assert(body.take(n) =~= p + added);
        assert(all[0] == bytes[0] && all[1] == bytes[1]);
        assert(decodes_to(bytes + more, mode) is Key);
    }
    if exists|more: Seq<u8>| #[trigger] decodes_to(bytes + more, mode) is Key {
        let more = choose|more: Seq<u8>| #[trigger] decodes_to(bytes + more, mode) is Key;
        let all = bytes + more;
        let body = all.skip(2);
        assert(all[0] == bytes[0] && all[1] == bytes[1]);
        assert(body =~= p + more);
        lemma_csi_run_on(p, more);
        lemma_csi_run_len(more);
        let n = csi_run(body) as int;
        let added = more.take(n - p.len());
        assert(body.take(n) =~= p + added);
        assert(body.take(n).len() > 0);
        lemma_csi_u_front(p, added);
    }
}

/// Asking for more bytes is honest: incomplete bytes can be completed to a press. The
/// one exception is the parameters of a CSI sequence, which are read to their end before
/// they are judged: they can be completed exactly where the enhanced mode can make a
/// CSI-u sequence of them.
pub proof fn law_incomplete_can_be_completed(bytes: Seq<u8>, mode: DecodeMode)
    requires
        decodes_to(bytes, mode) == Decoded::Incomplete,
    ensures
        (exists|more: Seq<u8>| #[trigger] decodes_to(bytes + more, mode) is Key) <==> (has_params(
            bytes,
        ) ==> mode == DecodeMode::KittyEnhanced && begins_csi_u(bytes.skip(2))),
{
    if has_params(bytes) {
        lemma_params_complete(bytes, mode);
    } else {
        lemma_others_complete(bytes, mode);
    }
}

/// Incomplete bytes without parameters become a press when they are completed.
proof fn lemma_others_complete(bytes: Seq<u8>, mode: DecodeMode)
    requires
        decodes_to(bytes, mode) == Decoded::Incomplete,
        !has_params(bytes),
    ensures
        exists|more: Seq<u8>| #[trigger] decodes_to(bytes + more, mode) is Key,
{
    let more = if bytes.len() == 0 {
        seq![0x09u8]
    } else if bytes[0] == 0x1b {
        if bytes[1] == 0x5b {
            seq![0x41u8]
        } else if bytes[1] == 0x4f {
            seq![0x50u8]
        } else {
            completion(bytes.skip(1))
        }
    } else {
        completion(bytes)
    };
    let all = bytes + more;
    if bytes.len() > 0 {
        assert(all[0] == bytes[0]);
        if bytes[0] == 0x1b {
            assert(all[1] == bytes[1]);
            if bytes[1] == 0x5b {
                let body = all.skip(2);
                assert(body =~= seq![0x41u8]);
                assert(csi_run(body) == 0);
                assert(body.take(0) =~= Seq::<u8>::empty());
            } else if bytes[1] != 0x4f {
                lemma_glyph_completes(bytes.skip(1));
                assert(all.skip(1) =~= bytes.skip(1) + more);
            }
        } else {
            lemma_glyph_completes(bytes);
        }
    }
    assert(decodes_to(bytes + more, mode) is Key);
}

/// A plain press that is refused stays refused, whatever follows.
proof fn lemma_plain_refused(bytes: Seq<u8>, more: Seq<u8>)
    requires
        bytes.len() > 0,
        plain_press(bytes) == Decoded::Unrecognized,
    ensures
        plain_press(bytes + more) == Decoded::Unrecognized,
{
    let all = bytes + more;
    assert(all[0] == bytes[0]);
    if bytes[0] >= 0x20 && bytes[0] != 0x7f && glyph_len(bytes[0]) is Some {
        let len = glyph_len(bytes[0])->0;
        assert forall|i: int| 0 <= i < bytes.len() implies all[i] == #[trigger] bytes[i] by {}
        if bytes.len() < len {
            if may_follow(bytes[0], bytes[1]) || bytes.len() < 2 {
                let i = choose|i: int|
                    2 <= i < bytes.len() && !continues_glyph(#[trigger] bytes[i]);
                assert(!continues_glyph(all[i]));
            } else {
                assert(!may_follow(all[0], all[1]));
                if glyph_code(all, len) is Some {
                    assert(continues_glyph(all[1]));
                    assert(len >= 3 ==> continues_glyph(all[2]));
                    assert(len >= 4 ==> continues_glyph(all[3]));
                }
            }
        } else {
            assert(glyph_code(bytes, len) is None);
            if forall|i: int| 1 <= i < len ==> continues_glyph(#[trigger] bytes[i]) {
                assert(glyph_code(all, len) == glyph_code(bytes, len));
            } else {
                let i = choose|i: int| 1 <= i < len && !continues_glyph(#[trigger] bytes[i]);
                assert(!continues_glyph(all[i]));
            }
        }
    }
}

/// No later byte rescues bytes that are refused.
pub proof fn law_refused_stays_refused(bytes: Seq<u8>, more: Seq<u8>, mode: DecodeMode)
    requires
        decodes_to(bytes, mode) == Decoded::Unrecognized,
    ensures
        decodes_to(bytes + more, mode) == Decoded::Unrecognized,
{
    let all = bytes + more;
    assert(all[0] == bytes[0]);
    if bytes[0] == 0x1b {
        assert(all[1] == bytes[1]);
        if bytes[1] == 0x5b {
            let body = bytes.skip(2);
            let rest = all.skip(2);
            assert(rest.take(body.len() as int) =~= body);
            lemma_csi_run_len(body);
            lemma_csi_run_front(body, rest);
            let n = csi_run(body) as int;
            assert(rest.take(n) =~= body.take(n));
            assert(rest[n] == body[n]);
        } else if bytes[1] == 0x4f {
            assert(all[2] == bytes[2]);
        } else if bytes[1] >= 0x20 {
            assert(all.skip(1) =~= bytes.skip(1) + more);
            lemma_plain_refused(bytes.skip(1), more);
        }
    } else {
        lemma_plain_refused(bytes, more);
    }
}

/// The bytes of a UTF-8 sequence, as arithmetic.
pub(crate) proof fn lemma_utf8_bits(v: u32)
    by (bit_vector)
    requires
        v <= 0x10ffff,
    ensures
        v <= 0x7f ==> (v & 0x7f) as u8 == v,
        v <= 0x7ff ==> 0xc0u8 | ((v >> 6) & 0x1f) as u8 == 0xc0 + v / 64,
        v <= 0xffff ==> 0xe0u8 | ((v >> 12) & 0x0f) as u8 == 0xe0 + v / 4096,
        0xf0u8 | ((v >> 18) & 0x7) as u8 == 0xf0 + v / 262144,
        0x80u8 | (v & 0x3f) as u8 == 0x80 + v % 64,
        0x80u8 | ((v >> 6) & 0x3f) as u8 == 0x80 + (v / 64) % 64,
        0x80u8 | ((v >> 12) & 0x3f) as u8 == 0x80 + (v / 4096) % 64,
{
}

/// A number is made of its groups of six bits.
proof fn lemma_utf8_groups(v: int)
    requires
        0 <= v,
    ensures
        (v / 64) * 64 + v % 64 == v,
        (v / 4096) * 4096 + ((v / 64) % 64) * 64 + v % 64 == v,
        (v / 262144) * 262144 + ((v / 4096) % 64) * 4096 + ((v / 64) % 64) * 64 + v % 64 == v,
{
}

/// The encoding of a scalar value is a sequence of the length that its first byte
/// says, and encodes that value.
proof fn lemma_encoding_is_glyph(v: u32)
    requires
        vstd::utf8::is_scalar(v),
    ensures
        ({
            let e = vstd::utf8::encode_scalar(v);
            &&& 1 <= e.len() <= 4
            &&& glyph_len(e[0]) == Some(e.len() as int)
            &&& glyph_code(e, e.len() as int) == Some(v)
            &&& e.len() == 1 ==> e[0] == v
            &&& e.len() > 1 ==> e[0] >= 0x80
        }),
{
    let e = vstd::utf8::encode_scalar(v);
    lemma_utf8_bits(v);
    lemma_utf8_groups(v as int);
    assert forall|i: int| 1 <= i < e.len() implies continues_glyph(#[trigger] e[i]) by {}
    if vstd::utf8::has_width_1_encoding(v) {
        assert(e[0] == v);
    } else if vstd::utf8::has_width_2_encoding(v) {
        assert(e[0] == 0xc0 + v / 64);
        assert(e[1] == 0x80 + v % 64);
    } else if vstd::utf8::has_width_3_encoding(v) {
        assert(e[0] == 0xe0 + v / 4096);
        assert(e[1] == 0x80 + (v / 64) % 64);
        assert(e[2] == 0x80 + v % 64);
    } else {
        assert(e[0] == 0xf0 + v / 262144);
        assert(e[1] == 0x80 + (v / 4096) % 64);
        assert(e[2] == 0x80 + (v / 64) % 64);
        assert(e[3] == 0x80 + v % 64);
    }
}

/// Every printable character arrives as itself: its UTF-8 encoding decodes, in
/// either mode, to that very character with no modifiers.
pub proof fn law_glyph_decodes_to_itself(c: char, mode: DecodeMode)
    requires
        c as u32 >= 0x20,
        c as u32 != 0x7f,
    ensures
        decodes_to(vstd::utf8::encode_utf8(seq![c]), mode) == press(
            Key::Char(c),
            Modifiers::NONE,
            vstd::utf8::encode_utf8(seq![c]).len() as int,
        ),
{
    let s = seq![c];
    let v = c as u32;
    vstd::utf8::char_is_scalar(c);
    vstd::utf8::char_u32_cast(c, v);
    let e = vstd::utf8::encode_scalar(v);
    lemma_encoding_is_glyph(v);
    assert(s.drop_first() =~= Seq::<char>::empty());
    assert(vstd::utf8::encode_utf8(s.drop_first()) =~= Seq::<u8>::empty());
    assert(vstd::utf8::encode_utf8(s) =~= e);
}

/// The decoder and the static rule agree: the byte that Control with a letter sends
/// decodes to the chord itself where it is representable, and to what it collapses to
/// where it is not.
pub proof fn law_c0_agrees_with_legacy_form(c: char, byte: u8, mode: DecodeMode)
    requires
        'a' <= c <= 'z',
        byte as int == c as int - 0x60,
    ensures
        ({
            let chord = KeyInput { key: Key::Char(c), mods: Modifiers::CTRL };
            decodes_to(seq![byte], mode) == match legacy_form_of(chord) {
                LegacyForm::CollapsesTo(twin) => Decoded::Key { input: twin, consumed: 1 },
                _ => Decoded::Key { input: chord, consumed: 1 },
            }
        }),
        !(legacy_form_of(KeyInput { key: Key::Char(c), mods: Modifiers::CTRL }) is Unrepresentable),
{
}

/// The decimal digits of a number, as ASCII bytes, without leading zeros.
pub open spec fn decimal_bytes(n: nat) -> Seq<u8>
    decreases n,
{
    if n < 10 {
        seq![(0x30 + n) as u8]
    } else {
        decimal_bytes(n / 10).push((0x30 + n % 10) as u8)
    }
}

/// Zeros in front of a number.
pub open spec fn zero_bytes(n: nat) -> Seq<u8> {
    Seq::new(n, |i: int| 0x30u8)
}

/// The modifier value that the kitty protocol sends: one, and what each held modifier
/// weighs.
pub open spec fn kitty_value(shift: bool, alt: bool, ctrl: bool, sup: bool) -> nat {
    1 + (if shift {
        1nat
    } else {
        0
    }) + (if alt {
        2nat
    } else {
        0
    }) + (if ctrl {
        4nat
    } else {
        0
    }) + (if sup {
        8nat
    } else {
        0
    })
}

/// The code point that the kitty protocol sends for a key: a character's own, and the
/// control code of the four functional keys that have one.
pub open spec fn kitty_code(key: Key) -> Option<nat> {
    match key {
        Key::Tab => Some(0x09),
        Key::Enter => Some(0x0d),
        Key::Esc => Some(0x1b),
        Key::Backspace => Some(0x7f),
        Key::Char(c) => if c as u32 == 0x09 || c as u32 == 0x0d || c as u32 == 0x1b || c as u32
            == 0x7f {
            None
        } else {
            Some(c as u32 as nat)
        },
        _ => None,
    }
}

/// The CSI-u sequence of a key with modifiers: the code point of the key, and the modifier
/// value, of which the higher bits stand for locks and the like.
pub open spec fn csi_u_bytes(
    key: Key,
    shift: bool,
    alt: bool,
    ctrl: bool,
    sup: bool,
    higher: nat,
) -> Seq<u8> {
    let value = kitty_value(shift, alt, ctrl, sup) + 16 * higher;
    seq![0x1bu8, 0x5bu8] + (decimal_bytes(kitty_code(key)->0) + seq![0x3bu8] + decimal_bytes(value))
        + seq![0x75u8]
}

/// The press is that of the key with the modifiers, but for a Shift that a character
/// holds alone.
pub open spec fn is_press_of(
    k: KeyInput,
    key: Key,
    shift: bool,
    alt: bool,
    ctrl: bool,
    sup: bool,
) -> bool {
    &&& k.key == key
    &&& k.mods.spec_contains(Modifiers::ALT) <==> alt
    &&& k.mods.spec_contains(Modifiers::CTRL) <==> ctrl
    &&& k.mods.spec_contains(Modifiers::SUPER) <==> sup
    &&& k.mods.spec_contains(Modifiers::SHIFT) <==> shift && (key is Char ==> alt || ctrl || sup)
}

/// The digits of a number are digits, and spell the number.
proof fn lemma_decimal_bytes(n: nat)
    ensures
        1 <= decimal_bytes(n).len() <= n / 10 + 1,
        digit_run(decimal_bytes(n)) == Some(n),
        forall|i: int|
            0 <= i < decimal_bytes(n).len() ==> 0x30 <= #[trigger] decimal_bytes(n)[i] <= 0x39,
    decreases n,
{
    let d = decimal_bytes(n);
    if n < 10 {
        assert(d.drop_last() =~= Seq::<u8>::empty());
        assert(digit_run(d.drop_last()) == Some(0nat));
    } else {
        lemma_decimal_bytes(n / 10);
        assert(d.drop_last() =~= decimal_bytes(n / 10));
    }
}

/// Digits and semicolons are parameters of a CSI sequence.
proof fn lemma_params_run(body: Seq<u8>)
    requires
        forall|i: int| 0 <= i < body.len() ==> 0x30 <= #[trigger] body[i] <= 0x3b,
    ensures
        csi_run(body) == body.len(),
    decreases body.len(),
{
    if body.len() > 0 {
        assert(body[0] == body[0]);
        lemma_params_run(body.drop_first());
    }
}

/// There is no semicolon among digits.
proof fn lemma_digits_have_no_semicolon(body: Seq<u8>)
    requires
        forall|i: int| 0 <= i < body.len() ==> 0x30 <= #[trigger] body[i] <= 0x39,
    ensures
        semicolon_at(body) == body.len(),
    decreases body.len(),
{
    if body.len() > 0 {
        assert(body[0] == body[0]);
        lemma_digits_have_no_semicolon(body.drop_first());
    }
}

/// A CSI sequence with the final byte `u` is read as its parameters say.
proof fn lemma_csi_u_decodes(params: Seq<u8>)
    requires
        forall|i: int| 0 <= i < params.len() ==> 0x30 <= #[trigger] params[i] <= 0x3b,
    ensures
        decodes_to(
            seq![0x1bu8, 0x5bu8] + params + seq![0x75u8],
            DecodeMode::KittyEnhanced,
        ) == (match csi_u(params) {
            Some((key, mods)) => press(key, mods, params.len() as int + 3),
            None => Decoded::Unrecognized,
        }),
{
    let bytes = seq![0x1bu8, 0x5bu8] + params + seq![0x75u8];
    let body = bytes.skip(2);
    let last = seq![0x75u8];
    assert(body =~= params + last);
    lemma_params_run(params);
    assert(csi_run(last) == 0);
    lemma_csi_run_on(params, last);
    let n = csi_run(body) as int;
    assert(body.take(n) =~= params);
    assert(body[n] == 0x75);
    assert(bytes[0] == 0x1b && bytes[1] == 0x5b);
}

/// The kitty protocol is read back: for every key that it has a code point for and every
/// set of modifiers, the CSI-u sequence of the two decodes to that key with exactly those
/// modifiers. Higher bits of the modifier value, which stand for locks and the like, change
/// nothing.
pub proof fn law_csi_u_round_trip(
    key: Key,
    shift: bool,
    alt: bool,
    ctrl: bool,
    sup: bool,
    higher: nat,
)
    requires
        kitty_code(key) is Some,
        kitty_value(shift, alt, ctrl, sup) + 16 * higher <= u32::MAX,
    ensures
        ({
            let bytes = csi_u_bytes(key, shift, alt, ctrl, sup, higher);
            decodes_to(bytes, DecodeMode::KittyEnhanced) matches Decoded::Key { input, consumed }
                && consumed == bytes.len() && is_press_of(input, key, shift, alt, ctrl, sup)
        }),
{
    let code = kitty_code(key)->0;
    let value = kitty_value(shift, alt, ctrl, sup) + 16 * higher;
    lemma_kitty_code(key);
    lemma_decimal_bytes(code);
    lemma_decimal_bytes(value);
    lemma_csi_u_fields(code, value, 0, 0);
    assert(numeral(code, 0) =~= decimal_bytes(code));
    assert(numeral(value, 0) =~= decimal_bytes(value));
    lemma_kitty_bits(shift, alt, ctrl, sup, higher);
}

/// The key of the code point of a key is that key.
proof fn lemma_kitty_code(key: Key)
    requires
        kitty_code(key) is Some,
    ensures
        kitty_key(kitty_code(key)->0) == Some(key),
        kitty_code(key)->0 <= 0x10ffff,
{
    if let Key::Char(c) = key {
        vstd::utf8::char_is_scalar(c);
        vstd::utf8::char_u32_cast(c, c as u32);
    }
}

/// The modifiers of a modifier value are those that it was made of.
proof fn lemma_kitty_bits(shift: bool, alt: bool, ctrl: bool, sup: bool, higher: nat)
    ensures
        ({
            let m = kitty_mods(kitty_value(shift, alt, ctrl, sup) + 16 * higher);
            m == Some(Modifiers::spec_from_flags(Flags { ctrl, alt, shift, sup }))
        }),
{
    let (s, a, c, u) = (
        if shift {
            1int
        } else {
            0
        },
        if alt {
            1int
        } else {
            0
        },
        if ctrl {
            1int
        } else {
            0
        },
        if sup {
            1int
        } else {
            0
        },
    );
    let bits = kitty_value(shift, alt, ctrl, sup) + 16 * higher - 1;
    assert(bits == (a + 2 * c + 4 * u + 8 * higher) * 2 + s);
    assert(bits == (c + 2 * u + 4 * higher) * 4 + (s + 2 * a));
    assert(bits == (u + 2 * higher) * 8 + (s + 2 * a + 4 * c));
    lemma_parts(a + 2 * c + 4 * u + 8 * higher, 2, s);
    lemma_parts(c + 2 * u + 4 * higher, 4, s + 2 * a);
    lemma_parts(u + 2 * higher, 8, s + 2 * a + 4 * c);
    assert(a + 2 * c + 4 * u + 8 * higher == (c + 2 * u + 4 * higher) * 2 + a);
    assert(c + 2 * u + 4 * higher == (u + 2 * higher) * 2 + c);
    assert(u + 2 * higher == higher * 2 + u);
    lemma_parts(c + 2 * u + 4 * higher, 2, a);
    lemma_parts(u + 2 * higher, 2, c);
    lemma_parts(higher as int, 2, u);
}

/// A CSI-u sequence without a modifier value is a press with no modifiers, as is one with
/// the value one.
pub proof fn law_csi_u_without_modifiers(key: Key)
    requires
        kitty_code(key) is Some,
    ensures
        ({
            let bytes = seq![0x1bu8, 0x5bu8] + decimal_bytes(kitty_code(key)->0) + seq![0x75u8];
            decodes_to(bytes, DecodeMode::KittyEnhanced) == (Decoded::Key {
                input: KeyInput { key, mods: Modifiers::NONE },
                consumed: bytes.len() as usize,
            })
        }),
{
    let code = kitty_code(key)->0;
    let a = decimal_bytes(code);
    lemma_kitty_code(key);
    lemma_decimal_bytes(code);
    lemma_digits_have_no_semicolon(a);
    assert(a.take(a.len() as int) =~= a);
    lemma_csi_u_decodes(a);
}

/// The bytes that a terminal in the legacy encoding sends for a press; none for a press
/// that has no bytes of its own there.
pub open spec fn legacy_bytes(k: KeyInput) -> Option<Seq<u8>> {
    match k.key {
        Key::Char(c) => if c as u32 >= 0x20 && c as u32 != 0x7f && k.mods == Modifiers::NONE {
            Some(vstd::utf8::encode_scalar(c as u32))
        } else if c as u32 >= 0x20 && c as u32 != 0x7f && c != '[' && c != 'O' && k.mods
            == Modifiers::ALT {
            Some(seq![0x1bu8] + vstd::utf8::encode_scalar(c as u32))
        } else if 'a' <= c <= 'z' && c != 'i' && c != 'm' && k.mods == Modifiers::CTRL {
            Some(seq![(c as u32 - 0x60) as u8])
        } else {
            None
        },
        Key::Tab => if k.mods == Modifiers::NONE {
            Some(seq![0x09u8])
        } else if k.mods == Modifiers::SHIFT {
            Some(seq![0x1bu8, 0x5bu8, 0x5au8])
        } else {
            None
        },
        Key::Backspace => if k.mods == Modifiers::NONE {
            Some(seq![0x7fu8])
        } else if k.mods == Modifiers::ALT {
            Some(seq![0x1bu8, 0x7fu8])
        } else {
            None
        },
        _ => if k.mods != Modifiers::NONE {
            None
        } else {
            match k.key {
                Key::Enter => Some(seq![0x0du8]),
                Key::Esc => Some(seq![0x1bu8]),
                Key::Up => Some(seq![0x1bu8, 0x5bu8, 0x41u8]),
                Key::Down => Some(seq![0x1bu8, 0x5bu8, 0x42u8]),
                Key::Right => Some(seq![0x1bu8, 0x5bu8, 0x43u8]),
                Key::Left => Some(seq![0x1bu8, 0x5bu8, 0x44u8]),
                Key::F(1) => Some(seq![0x1bu8, 0x4fu8, 0x50u8]),
                Key::F(2) => Some(seq![0x1bu8, 0x4fu8, 0x51u8]),
                Key::F(3) => Some(seq![0x1bu8, 0x4fu8, 0x52u8]),
                Key::F(4) => Some(seq![0x1bu8, 0x4fu8, 0x53u8]),
                _ => None,
            }
        },
    }
}

/// A character's own bytes are a plain press of it.
proof fn lemma_glyph_press(c: char)
    requires
        c as u32 >= 0x20,
        c as u32 != 0x7f,
    ensures
        ({
            let e = vstd::utf8::encode_scalar(c as u32);
            &&& 1 <= e.len() <= 4
            &&& plain_press(e) == press(Key::Char(c), Modifiers::NONE, e.len() as int)
            &&& e[0] >= 0x20
            &&& e[0] == 0x5b ==> c == '['
            &&& e[0] == 0x4f ==> c == 'O'
        }),
{
    let v = c as u32;
    vstd::utf8::char_is_scalar(c);
    vstd::utf8::char_u32_cast(c, v);
    lemma_encoding_is_glyph(v);
}

/// The legacy encoding is read back: in either mode, the bytes that a terminal sends for
/// a press decode to that press, and are consumed to the last.
pub proof fn law_legacy_bytes_round_trip(k: KeyInput, mode: DecodeMode)
    requires
        legacy_bytes(k) is Some,
    ensures
        decodes_to(legacy_bytes(k)->0, mode) == (Decoded::Key {
            input: k,
            consumed: (legacy_bytes(k)->0).len() as usize,
        }),
{
    let bytes = legacy_bytes(k)->0;
    if let Key::Char(c) = k.key {
        if c as u32 >= 0x20 && c as u32 != 0x7f {
            lemma_glyph_press(c);
            let e = vstd::utf8::encode_scalar(c as u32);
            if k.mods == Modifiers::ALT {
                assert(bytes.skip(1) =~= e);
                assert(bytes[1] == e[0]);
            }
        }
    } else if bytes.len() == 3 && bytes[1] == 0x5b {
        let body = bytes.skip(2);
        assert(body =~= seq![bytes[2]]);
        assert(csi_run(body) == 0);
        assert(body.take(0) =~= Seq::<u8>::empty());
    } else if k.key == Key::Backspace && k.mods == Modifiers::ALT {
        assert(bytes.skip(1) =~= seq![0x7fu8]);
    }
}

/// A number that is made of a multiple of `n` and a rest below `n` is parted again.
proof fn lemma_parts(q: int, n: int, r: int)
    requires
        0 <= r < n,
    ensures
        (q * n + r) / n == q,
        (q * n + r) % n == r,
{
    vstd::arithmetic::div_mod::lemma_fundamental_div_mod_converse(q * n + r, n, q, r);
}

/// The groups of six bits of a number that is made of two, three or four of them.
proof fn lemma_groups_back(a: int, b: int, c: int, d: int)
    requires
        0 <= b < 64,
        0 <= c < 64,
        0 <= d < 64,
    ensures
        (a * 64 + d) / 64 == a,
        (a * 64 + d) % 64 == d,
        (a * 4096 + c * 64 + d) / 4096 == a,
        ((a * 4096 + c * 64 + d) / 64) % 64 == c,
        (a * 4096 + c * 64 + d) % 64 == d,
        (a * 262144 + b * 4096 + c * 64 + d) / 262144 == a,
        ((a * 262144 + b * 4096 + c * 64 + d) / 4096) % 64 == b,
        ((a * 262144 + b * 4096 + c * 64 + d) / 64) % 64 == c,
        (a * 262144 + b * 4096 + c * 64 + d) % 64 == d,
{
    lemma_parts(a, 64, d);
    let x = a * 4096 + c * 64 + d;
    assert(x == (a * 64 + c) * 64 + d);
    assert(x == a * 4096 + (c * 64 + d));
    lemma_parts(a * 64 + c, 64, d);
    lemma_parts(a, 64, c);
    lemma_parts(a, 4096, c * 64 + d);
    let y = a * 262144 + b * 4096 + c * 64 + d;
    assert(y == (a * 4096 + b * 64 + c) * 64 + d);
    assert(y == (a * 64 + b) * 4096 + (c * 64 + d));
    assert(y == a * 262144 + (b * 4096 + c * 64 + d));
    assert(a * 4096 + b * 64 + c == (a * 64 + b) * 64 + c);
    lemma_parts(a * 4096 + b * 64 + c, 64, d);
    lemma_parts(a * 64 + b, 64, c);
    lemma_parts(a * 64 + b, 4096, c * 64 + d);
    lemma_parts(a, 64, b);
    lemma_parts(a, 262144, b * 4096 + c * 64 + d);
}

/// A UTF-8 sequence is the encoding of the number that it encodes.
#[verifier::spinoff_prover]
proof fn lemma_glyph_is_encoding(bytes: Seq<u8>, len: int, v: u32)
    requires
        bytes.len() >= len,
        bytes.len() > 0,
        glyph_len(bytes[0]) == Some(len),
        glyph_code(bytes, len) == Some(v),
    ensures
        vstd::utf8::is_scalar(v),
        bytes.take(len) == vstd::utf8::encode_scalar(v),
{
    let e = vstd::utf8::encode_scalar(v);
    let cut = bytes.take(len);
    lemma_utf8_bits(v);
    if len == 1 {
        assert(v == bytes[0]);
        assert(cut =~= e);
    } else if len == 2 {
        assert(continues_glyph(bytes[1]));
        lemma_groups_back(bytes[0] - 0xc0, 0, 0, bytes[1] - 0x80);
        assert(e.len() == 2);
        assert(e[0] == bytes[0] && e[1] == bytes[1]);
        assert(cut =~= e);
    } else if len == 3 {
        assert(continues_glyph(bytes[1]) && continues_glyph(bytes[2]));
        lemma_groups_back(bytes[0] - 0xe0, 0, bytes[1] - 0x80, bytes[2] - 0x80);
        assert(e.len() == 3);
        assert(e[0] == bytes[0] && e[1] == bytes[1] && e[2] == bytes[2]);
        assert(cut =~= e);
    } else {
        assert(continues_glyph(bytes[1]) && continues_glyph(bytes[2]) && continues_glyph(bytes[3]));
        lemma_groups_back(bytes[0] - 0xf0, bytes[1] - 0x80, bytes[2] - 0x80, bytes[3] - 0x80);
        assert(e.len() == 4);
        assert(e[0] == bytes[0] && e[1] == bytes[1] && e[2] == bytes[2] && e[3] == bytes[3]);
        assert(cut =~= e);
    }
}

/// A plain press comes from the bytes that a terminal sends for it, and is a press that
/// Alt can be added to in front.
proof fn lemma_plain_is_legacy(bytes: Seq<u8>)
    requires
        bytes.len() > 0,
        bytes[0] != 0x1b,
        plain_press(bytes) is Key,
    ensures
        ({
            let d = plain_press(bytes);
            &&& 1 <= d->consumed <= bytes.len()
            &&& legacy_bytes(d->input) == Some(bytes.take(d->consumed as int))
            &&& bytes[0] >= 0x20 ==> d->input.mods == Modifiers::NONE && (d->input.key
                == Key::Backspace || d->input.key is Char && d->input.key->Char_0 as u32 >= 0x20
                && d->input.key->Char_0 as u32 != 0x7f)
        }),
{
    let d = plain_press(bytes);
    let cut = bytes.take(d->consumed as int);
    if bytes[0] == 0x7f {
        assert(cut =~= seq![0x7fu8]);
    } else if bytes[0] < 0x20 {
        assert(cut =~= seq![bytes[0]]);
    } else {
        let len = glyph_len(bytes[0])->0;
        let v = glyph_code(bytes, len)->0;
        lemma_glyph_is_encoding(bytes, len, v);
        let c = v as char;
        assert(c as u32 == v);
        if len > 1 {
            assert(continues_glyph(bytes[1]));
        }
        assert(v >= 0x20 && v != 0x7f);
    }
}

/// The baseline mode reads the legacy encoding and nothing else: whatever it decodes, the
/// bytes that it consumed are those that a terminal sends for that press.
pub proof fn law_baseline_reads_legacy_bytes_only(bytes: Seq<u8>)
    requires
        bytes.len() <= usize::MAX,
        decodes_to(bytes, DecodeMode::Baseline) is Key,
    ensures
        ({
            let d = decodes_to(bytes, DecodeMode::Baseline);
            legacy_bytes(d->input) == Some(bytes.take(d->consumed as int))
        }),
{
    let d = decodes_to(bytes, DecodeMode::Baseline);
    let cut = bytes.take(d->consumed as int);
    law_consumed_is_a_front(bytes, DecodeMode::Baseline);
    if bytes[0] != 0x1b {
        lemma_plain_is_legacy(bytes);
    } else if bytes.len() == 1 {
        assert(cut =~= seq![0x1bu8]);
    } else if bytes[1] == 0x5b {
        let body = bytes.skip(2);
        lemma_csi_run_len(body);
        assert(csi_run(body) == 0);
        assert(cut =~= seq![0x1bu8, 0x5bu8, body[0]]);
    } else if bytes[1] == 0x4f {
        assert(cut =~= seq![0x1bu8, 0x4fu8, bytes[2]]);
    } else {
        let rest = bytes.skip(1);
        lemma_plain_is_legacy(rest);
        let p = plain_press(rest);
        assert(cut =~= seq![0x1bu8] + rest.take(p->consumed as int));
        if let Key::Char(c) = p->input.key {
            lemma_glyph_press(c);
            let e = vstd::utf8::encode_scalar(c as u32);
            assert(rest.take(p->consumed as int)[0] == bytes[1]);
            if c == '[' {
                lemma_utf8_bits(0x5b);
            }
            if c == 'O' {
                lemma_utf8_bits(0x4f);
            }
        } else {
            assert(cut =~= seq![0x1bu8, 0x7fu8]);
        }
    }
}

/// A number with zeros in front of it.
pub open spec fn numeral(n: nat, zeros: nat) -> Seq<u8> {
    zero_bytes(zeros) + decimal_bytes(n)
}

/// A run of digits is the number that it spells, with zeros in front.
proof fn lemma_digits_are_numeral(bytes: Seq<u8>, n: nat) -> (zeros: nat)
    requires
        bytes.len() > 0,
        digit_run(bytes) == Some(n),
    ensures
        bytes == numeral(n, zeros),
    decreases bytes.len(),
{
    let init = bytes.drop_last();
    let v = digit_run(init)->0;
    let d = bytes.last() - 0x30;
    assert(n == v * 10 + d);
    if init.len() == 0 {
        assert(v == 0);
        assert(bytes =~= numeral(n, 0));
        0
    } else {
        let zeros = lemma_digits_are_numeral(init, v);
        assert(bytes =~= init.push(bytes.last()));
        if n < 10 {
            assert(v == 0);
            assert(bytes =~= numeral(n, zeros + 1));
            zeros + 1
        } else {
            assert(n / 10 == v && n % 10 == d);
            assert(bytes =~= numeral(n, zeros));
            zeros
        }
    }
}

/// The parameters are the code point of the press's key, and where a modifier value
/// follows, one that is made of its modifiers.
pub open spec fn csi_u_spells(
    params: Seq<u8>,
    k: KeyInput,
    zeros: nat,
    shift: bool,
    higher: nat,
    more_zeros: nat,
) -> bool {
    let alt = k.mods.spec_contains(Modifiers::ALT);
    let ctrl = k.mods.spec_contains(Modifiers::CTRL);
    let sup = k.mods.spec_contains(Modifiers::SUPER);
    let code = numeral(kitty_code(k.key)->0, zeros);
    let value = numeral(kitty_value(shift, alt, ctrl, sup) + 16 * higher, more_zeros);
    &&& kitty_code(k.key) is Some
    &&& is_press_of(k, k.key, shift, alt, ctrl, sup)
    &&& params == code + seq![0x3bu8] + value || (params == code && k.mods == Modifiers::NONE)
}

/// A number is made of its four lowest bits and the rest.
proof fn lemma_lowest_bits(n: nat)
    ensures
        n == n % 2 + 2 * ((n / 2) % 2) + 4 * ((n / 4) % 2) + 8 * ((n / 8) % 2) + 16 * (n / 16),
{
    let n = n as int;
    vstd::arithmetic::div_mod::lemma_div_denominator(n, 2, 2);
    vstd::arithmetic::div_mod::lemma_div_denominator(n, 4, 2);
    vstd::arithmetic::div_mod::lemma_div_denominator(n, 8, 2);
    let (a, b, c, d) = (n / 2, n / 4, n / 8, n / 16);
    assert(n == 2 * a + n % 2);
    assert(a == 2 * b + a % 2);
    assert(b == 2 * c + b % 2);
    assert(c == 2 * d + c % 2);
}

/// A modifier value is made of its modifiers and higher bits.
proof fn lemma_value_is_made_of(value: nat, mods: Modifiers) -> (higher: nat)
    requires
        kitty_mods(value) == Some(mods),
    ensures
        ({
            let f = mods.spec_flags();
            value == kitty_value(f.shift, f.alt, f.ctrl, f.sup) + 16 * higher
        }),
{
    let bits = (value - 1) as nat;
    let f = Flags {
        shift: bits % 2 == 1,
        alt: (bits / 2) % 2 == 1,
        ctrl: (bits / 4) % 2 == 1,
        sup: (bits / 8) % 2 == 1,
    };
    Modifiers::law_sets_are_their_flags(mods, f);
    lemma_lowest_bits(bits);
    bits / 16
}

/// Whatever a CSI-u body is read as, it spells.
proof fn lemma_csi_u_spells(params: Seq<u8>, key: Key, mods: Modifiers)
    requires
        csi_u(params) == Some((key, mods)),
    ensures
        exists|zeros: nat, shift: bool, higher: nat, more_zeros: nat| #[trigger]
            csi_u_spells(
                params,
                KeyInput { key, mods: normalized_mods(key, mods) },
                zeros,
                shift,
                higher,
                more_zeros,
            ),
{
    let k = KeyInput { key, mods: normalized_mods(key, mods) };
    let i = semicolon_at(params) as int;
    lemma_semicolon_front(params, Seq::empty());
    let front = params.take(i);
    let code = decimal_field(front)->0;
    let zeros = lemma_digits_are_numeral(front, code);
    lemma_code_of_key(code, key);
    if i == params.len() {
        assert(front =~= params);
        assert(csi_u_spells(params, k, zeros, false, 0, 0));
    } else {
        let rest = params.skip(i + 1);
        let value = decimal_field(rest)->0;
        let more_zeros = lemma_digits_are_numeral(rest, value);
        lemma_semicolon_is_there(params);
        assert(params =~= front + seq![0x3bu8] + rest);
        let f = mods.spec_flags();
        let shift = f.shift;
        let higher = lemma_value_is_made_of(value, mods);
        assert(csi_u_spells(params, k, zeros, shift, higher, more_zeros));
    }
}

/// The first semicolon is one.
proof fn lemma_semicolon_is_there(bytes: Seq<u8>)
    requires
        semicolon_at(bytes) < bytes.len(),
    ensures
        bytes[semicolon_at(bytes) as int] == 0x3b,
    decreases bytes.len(),
{
    if bytes[0] != 0x3b {
        lemma_semicolon_is_there(bytes.drop_first());
    }
}

/// The code point of the key of a code point is that code point.
proof fn lemma_code_of_key(code: nat, key: Key)
    requires
        code <= u32::MAX,
        kitty_key(code) == Some(key),
    ensures
        kitty_code(key) == Some(code),
{
    if key is Char {
        let c = code as u32 as char;
        assert(c as u32 == code as u32);
    }
}

/// The enhanced mode adds two forms to the legacy encoding and no more: `F1` to `F4` as
/// CSI letters, and the CSI-u sequence of a press.
pub proof fn law_enhanced_adds_two_forms(bytes: Seq<u8>)
    requires
        bytes.len() <= usize::MAX,
        decodes_to(bytes, DecodeMode::KittyEnhanced) is Key,
    ensures
        ({
            let d = decodes_to(bytes, DecodeMode::KittyEnhanced);
            let cut = bytes.take(d->consumed as int);
            ||| legacy_bytes(d->input) == Some(cut)
            ||| d->input.mods == Modifiers::NONE && (d->input.key matches Key::F(n) && 1 <= n <= 4
                && cut == seq![0x1bu8, 0x5bu8, (0x4f + n) as u8])
            ||| exists|params: Seq<u8>, zeros: nat, shift: bool, higher: nat, more_zeros: nat|
                cut == seq![0x1bu8, 0x5bu8] + params + seq![0x75u8] && #[trigger] csi_u_spells(
                    params,
                    d->input,
                    zeros,
                    shift,
                    higher,
                    more_zeros,
                )
        }),
{
    let mode = DecodeMode::KittyEnhanced;
    let d = decodes_to(bytes, mode);
    let cut = bytes.take(d->consumed as int);
    law_consumed_is_a_front(bytes, mode);
    if decodes_to(bytes, DecodeMode::Baseline) != Decoded::Unrecognized {
        law_enhanced_extends_baseline(bytes);
        law_baseline_reads_legacy_bytes_only(bytes);
    } else {
        let body = bytes.skip(2);
        lemma_csi_run_len(body);
        let n = csi_run(body) as int;
        let params = body.take(n);
        if body[n] == 0x75 {
            let (key, mods) = csi_u(params)->0;
            lemma_csi_u_spells(params, key, mods);
            assert(cut =~= seq![0x1bu8, 0x5bu8] + params + seq![0x75u8]);
        } else {
            assert(n == 0);
            assert(cut =~= seq![0x1bu8, 0x5bu8, body[0]]);
        }
    }
}

/// `F1` to `F4` come as CSI letters in the enhanced mode too.
pub proof fn law_function_keys_as_csi_letters(n: u8)
    requires
        1 <= n <= 4,
    ensures
        decodes_to(seq![0x1bu8, 0x5bu8, (0x4f + n) as u8], DecodeMode::KittyEnhanced) == (
        Decoded::Key { input: KeyInput { key: Key::F(n), mods: Modifiers::NONE }, consumed: 3 }),
{
    let bytes = seq![0x1bu8, 0x5bu8, (0x4f + n) as u8];
    let body = bytes.skip(2);
    assert(body =~= seq![(0x4f + n) as u8]);
    assert(csi_run(body) == 0);
    assert(body.take(0) =~= Seq::<u8>::empty());
}

/// A CSI sequence is read to its end before it is judged: its introducer and parameters alone
/// ask for more bytes, in either mode; a final byte settles it; and any other byte refuses it.
pub proof fn law_csi_is_read_to_its_end(params: Seq<u8>, b: u8, mode: DecodeMode)
    requires
        forall|i: int| 0 <= i < params.len() ==> 0x20 <= #[trigger] params[i] <= 0x3f,
        !(0x20 <= b <= 0x3f),
    ensures
        decodes_to(seq![0x1bu8, 0x5bu8] + params, mode) == Decoded::Incomplete,
        decodes_to(seq![0x1bu8, 0x5bu8] + params + seq![b], mode) != Decoded::Incomplete,
        !(0x40 <= b <= 0x7e) ==> decodes_to(seq![0x1bu8, 0x5bu8] + params + seq![b], mode)
            == Decoded::Unrecognized,
{
    let open = seq![0x1bu8, 0x5bu8] + params;
    let shut = open + seq![b];
    lemma_intermediates_run(params);
    assert(open.skip(2) =~= params);
    assert(open[0] == 0x1b && open[1] == 0x5b);
    assert(shut[0] == 0x1b && shut[1] == 0x5b);
    assert(shut.skip(2) =~= params + seq![b]);
    assert(csi_run(seq![b]) == 0);
    lemma_csi_run_on(params, seq![b]);
    assert((params + seq![b])[params.len() as int] == b);
}

/// Parameter and intermediate bytes run on.
proof fn lemma_intermediates_run(body: Seq<u8>)
    requires
        forall|i: int| 0 <= i < body.len() ==> 0x20 <= #[trigger] body[i] <= 0x3f,
    ensures
        csi_run(body) == body.len(),
    decreases body.len(),
{
    if body.len() > 0 {
        assert(body[0] == body[0]);
        lemma_intermediates_run(body.drop_first());
    }
}

/// Zeros in front of a number do not change it.
proof fn lemma_numeral(n: nat, zeros: nat)
    ensures
        digit_run(numeral(n, zeros)) == Some(n),
        numeral(n, zeros).len() > 0,
        forall|i: int|
            0 <= i < numeral(n, zeros).len() ==> 0x30 <= #[trigger] numeral(n, zeros)[i] <= 0x39,
    decreases n,
{
    let s = numeral(n, zeros);
    lemma_decimal_bytes(n);
    if n < 10 {
        lemma_zeros(zeros);
        assert(s.drop_last() =~= zero_bytes(zeros));
        assert(s.last() == 0x30 + n);
    } else {
        lemma_numeral(n / 10, zeros);
        assert(s.drop_last() =~= numeral(n / 10, zeros));
        assert(s.last() == 0x30 + n % 10);
    }
    assert forall|i: int| 0 <= i < s.len() implies 0x30 <= #[trigger] s[i] <= 0x39 by {
        if i >= zeros {
            assert(s[i] == decimal_bytes(n)[i - zeros]);
        }
    }
}

/// Zeros are zero.
proof fn lemma_zeros(n: nat)
    ensures
        digit_run(zero_bytes(n)) == Some(0nat),
    decreases n,
{
    if n > 0 {
        let m = (n - 1) as nat;
        lemma_zeros(m);
        assert(zero_bytes(n).drop_last() =~= zero_bytes(m));
    }
}

/// A CSI-u sequence is read the same with zeros in front of its numbers.
pub proof fn law_leading_zeros_do_not_matter(
    key: Key,
    value: nat,
    zeros: nat,
    more_zeros: nat,
)
    requires
        kitty_code(key) is Some,
        value <= u32::MAX,
    ensures
        ({
            let code = kitty_code(key)->0;
            let mode = DecodeMode::KittyEnhanced;
            let bare = decimal_bytes(code) + seq![0x3bu8] + decimal_bytes(value);
            let long = numeral(code, zeros) + seq![0x3bu8] + numeral(value, more_zeros);
            let a = decodes_to(seq![0x1bu8, 0x5bu8] + bare + seq![0x75u8], mode);
            let b = decodes_to(seq![0x1bu8, 0x5bu8] + long + seq![0x75u8], mode);
            &&& a is Key <==> b is Key
            &&& a is Key ==> a->input == b->input
            &&& value == 0 ==> b == Decoded::Unrecognized
        }),
{
    let code = kitty_code(key)->0;
    lemma_kitty_code(key);
    lemma_csi_u_fields(code, value, 0, 0);
    lemma_csi_u_fields(code, value, zeros, more_zeros);
    assert(numeral(code, 0) =~= decimal_bytes(code));
    assert(numeral(value, 0) =~= decimal_bytes(value));
}

/// The fields of a CSI-u sequence are its numbers.
proof fn lemma_csi_u_fields(code: nat, value: nat, zeros: nat, more_zeros: nat)
    requires
        code <= u32::MAX,
        value <= u32::MAX,
        kitty_key(code) is Some,
    ensures
        ({
            let params = numeral(code, zeros) + seq![0x3bu8] + numeral(value, more_zeros);
            decodes_to(
                seq![0x1bu8, 0x5bu8] + params + seq![0x75u8],
                DecodeMode::KittyEnhanced,
            ) == (match kitty_mods(value) {
                Some(mods) => press(kitty_key(code)->0, mods, params.len() as int + 3),
                None => Decoded::Unrecognized,
            })
        }),
{
    let a = numeral(code, zeros);
    let b = numeral(value, more_zeros);
    let semi = seq![0x3bu8];
    let params = a + semi + b;
    lemma_numeral(code, zeros);
    lemma_numeral(value, more_zeros);
    lemma_digits_have_no_semicolon(a);
    lemma_digits_have_no_semicolon(b);
    assert(params =~= a + (semi + b));
    lemma_semicolon_front(a, semi + b);
    assert((semi + b)[0] == 0x3b);
    assert(semicolon_at(params) == a.len());
    assert(params.take(a.len() as int) =~= a);
    assert(params.skip(a.len() as int + 1) =~= b);
    assert forall|i: int| 0 <= i < params.len() implies 0x30 <= #[trigger] params[i] <= 0x3b by {
        if i < a.len() {
            assert(params[i] == a[i]);
        } else if i > a.len() {
            assert(params[i] == b[i - a.len() - 1]);
        }
    }
    lemma_csi_u_decodes(params);
}

/// The CSI-u form tells presses apart: two presses with the same bytes have the same key and
/// the same modifiers, but for a Shift that a character holds alone.
pub proof fn law_csi_u_tells_presses_apart(
    a: Key,
    f: Flags,
    b: Key,
    g: Flags,
)
    requires
        kitty_code(a) is Some,
        kitty_code(b) is Some,
        csi_u_bytes(a, f.shift, f.alt, f.ctrl, f.sup, 0) == csi_u_bytes(
            b,
            g.shift,
            g.alt,
            g.ctrl,
            g.sup,
            0,
        ),
    ensures
        a == b,
        f.alt == g.alt,
        f.ctrl == g.ctrl,
        f.sup == g.sup,
        f.shift == g.shift || (a is Char && !f.alt && !f.ctrl && !f.sup),
{
    law_csi_u_round_trip(a, f.shift, f.alt, f.ctrl, f.sup, 0);
    law_csi_u_round_trip(b, g.shift, g.alt, g.ctrl, g.sup, 0);
}

/// A decoded press finds the binding that a configuration spells for it: the canonical
/// spelling of the press parses to that very press.
pub proof fn law_decoded_press_finds_its_spelling(bytes: Seq<u8>, mode: DecodeMode)
    requires
        bytes.len() <= usize::MAX,
        decodes_to(bytes, mode) is Key,
    ensures
        ({
            let k = decodes_to(bytes, mode)->input;
            parsed_chord(chord_text(k)) == Some(k)
        }),
{
    let k = decodes_to(bytes, mode)->input;
    law_consumed_is_a_front(bytes, mode);
    if mode == DecodeMode::Baseline {
        law_baseline_reads_legacy_bytes_only(bytes);
    } else {
        law_enhanced_adds_two_forms(bytes);
    }
    law_print_then_parse(k);
}

} // verus!
