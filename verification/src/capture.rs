//! Recorded key presses of a terminal, and the hex form of their bytes.
//!
//! Raw terminal bytes include control characters and non-UTF-8 sequences, so a
//! capture stores them as hex, which keeps it lossless and human-diffable.
use crate::grammar::{quote, quoted_text};
use crate::text::{chars_of, copy_text, lower_char, lower_text, push_text};
use vstd::prelude::*;

verus! {

/// A single recording session against one terminal environment.
#[derive(Debug, Clone)]
pub struct Capture {
    /// Environment metadata describing where and when this was recorded.
    pub meta: Meta,
    /// Capability values observed (e.g. kitty keyboard protocol support).
    pub capability: Vec<Capability>,
    /// The keypresses recorded, with the raw bytes each produced.
    pub keypress: Vec<KeyPress>,
}

/// Where and when a [`Capture`] was taken.
#[derive(Debug, Clone)]
pub struct Meta {
    /// RFC 3339 timestamp of when the capture was taken (freshness signal).
    pub captured_at: String,
    /// Version of the recorder that produced this file (format-migration hook).
    pub harness_version: String,
    /// The `$TERM` value, if set.
    pub term: Option<String>,
    /// The `$TERM_PROGRAM` value, if set.
    pub term_program: Option<String>,
    /// The `$TERM_PROGRAM_VERSION` value, if set.
    pub term_program_version: Option<String>,
    /// Whether a tmux/screen multiplexer was in the path (changes encodings).
    pub tmux: bool,
    /// Whether the session was over SSH (the far terminal's identity is hidden).
    pub ssh: bool,
}

/// How a capability value was learned.
#[derive(Debug, Clone, Copy, PartialEq, Eq, Structural)]
pub enum Provenance {
    /// Learned from the terminal's reply to an active query (most reliable).
    QueryResponse,
    /// Inferred from an environment variable (a hint, not a contract).
    EnvVar,
    /// Entered by a human operator.
    Manual,
}

/// One observed terminal capability.
#[derive(Debug, Clone)]
pub struct Capability {
    /// Capability name, e.g. `"kitty_keyboard_protocol"`.
    pub name: String,
    /// The observed value, e.g. `"supported"` / `"unsupported"`.
    pub value: String,
    /// How `value` was learned.
    pub provenance: Provenance,
    /// The raw response bytes (hex), when learned from a query.
    pub raw_response: Vec<String>,
}

/// One recorded keypress: what the operator intended versus what arrived.
#[derive(Debug, Clone)]
pub struct KeyPress {
    /// Human label of the key the operator was asked to press, e.g. `"cmd+1"`.
    pub intended: String,
    /// The capability mode the terminal was in, e.g. `"baseline"`.
    pub mode: String,
    /// Raw bytes received on the wire (hex), the primary datum.
    pub raw_bytes: Vec<String>,
    /// Sizes of each `read()` chunk, preserving where reads split a sequence.
    pub read_chunks: Vec<usize>,
    /// Key the `intended` label parsed to, e.g. `"Char('1')"`.
    pub expected_key: Option<String>,
    /// Modifiers the `intended` label parsed to, e.g. `["SUPER"]`.
    pub expected_mods: Option<Vec<String>>,
}

/// The lowercase hex digit of a number below sixteen.
pub open spec fn hex_char(d: int) -> char {
    if d < 10 {
        (48 + d) as char
    } else {
        (87 + d) as char
    }
}

/// The number that a hex digit, of either case, stands for.
pub open spec fn hex_value(c: char) -> Option<int> {
    if '0' <= c <= '9' {
        Some(c as u32 - 48)
    } else if 'a' <= c <= 'f' {
        Some(c as u32 - 87)
    } else if 'A' <= c <= 'F' {
        Some(c as u32 - 55)
    } else {
        None
    }
}

/// The two lowercase hex digits of a byte.
pub open spec fn hex_text(b: u8) -> Seq<char> {
    seq![hex_char(b as int / 16), hex_char(b as int % 16)]
}

/// The byte that a token of exactly two hex digits stands for.
pub open spec fn hex_byte(token: Seq<char>) -> Option<u8> {
    if token.len() != 2 {
        None
    } else {
        match (hex_value(token[0]), hex_value(token[1])) {
            (Some(hi), Some(lo)) => Some((hi * 16 + lo) as u8),
            _ => None,
        }
    }
}

/// The texts of a list of strings.
pub open spec fn texts(v: Seq<String>) -> Seq<Seq<char>> {
    v.map_values(|s: String| s@)
}

/// The bytes that a list of tokens stands for, if each stands for one.
pub open spec fn hex_bytes(tokens: Seq<Seq<char>>) -> Option<Seq<u8>>
    decreases tokens.len(),
{
    if tokens.len() == 0 {
        Some(Seq::empty())
    } else {
        match (hex_bytes(tokens.drop_last()), hex_byte(tokens.last())) {
            (Some(bytes), Some(b)) => Some(bytes.push(b)),
            _ => None,
        }
    }
}

/// The hex form of bytes.
pub open spec fn hex_texts(bytes: Seq<u8>) -> Seq<Seq<char>> {
    bytes.map_values(|b: u8| hex_text(b))
}

/// Encodes bytes as lowercase two-digit hex strings (`0x1b` -> `"1b"`).
#[must_use]
pub fn to_hex(bytes: &[u8]) -> (out: Vec<String>)
    ensures
        texts(out@) == hex_texts(bytes@),
{
    let mut out: Vec<String> = Vec::new();
    let mut i: usize = 0;
    while i < bytes.len()
        invariant
            i <= bytes.len(),
            out.len() == i,
            forall|j: int| 0 <= j < i ==> (#[trigger] out@[j])@ == hex_text(bytes@[j]),
        decreases bytes.len() - i,
    {
        let b = bytes[i];
        let mut s = String::new();
        s.push(hex_digit(b / 16));
        s.push(hex_digit(b % 16));
        assert(s@ =~= hex_text(b));
        out.push(s);
        i = i + 1;
    }
    assert(texts(out@) =~= hex_texts(bytes@));
    out
}

/// The hex digit of a number below sixteen.
fn hex_digit(d: u8) -> (c: char)
    requires
        d < 16,
    ensures
        c == hex_char(d as int),
{
    if d < 10 {
        (48 + d) as char
    } else {
        (87 + d) as char
    }
}

/// Error returned when a hex string in a capture cannot be decoded.
#[derive(Debug, Clone, PartialEq, Eq)]
pub struct ParseHexError {
    token: String,
}

impl View for ParseHexError {
    /// The token that is no hex byte.
    type V = Seq<char>;

    closed spec fn view(&self) -> Seq<char> {
        self.token@
    }
}

impl ParseHexError {
    /// The message of the error.
    #[must_use]
    pub fn to_string(&self) -> (s: String)
        ensures
            s@ == "invalid hex byte token: "@ + quoted_text(self@),
    {
        let mut s = copy_text("invalid hex byte token: ");
        let q = quote(self.token.as_str());
        push_text(&mut s, q.as_str());
        s
    }
}

/// The number that a hex digit stands for.
fn digit_of(c: char) -> (d: Option<u8>)
    ensures
        match d {
            Some(v) => hex_value(c) == Some(v as int) && v < 16,
            None => hex_value(c) is None,
        },
{
    if '0' <= c && c <= '9' {
        Some((c as u32 - 48) as u8)
    } else if 'a' <= c && c <= 'f' {
        Some((c as u32 - 87) as u8)
    } else if 'A' <= c && c <= 'F' {
        Some((c as u32 - 55) as u8)
    } else {
        None
    }
}

/// The byte that a token stands for.
fn byte_of(token: &str) -> (b: Option<u8>)
    ensures
        b == hex_byte(token@),
{
    let chars = chars_of(token);
    if chars.len() != 2 {
        return None;
    }
    match (digit_of(chars[0]), digit_of(chars[1])) {
        (Some(hi), Some(lo)) => Some(hi * 16 + lo),
        _ => None,
    }
}

/// Decodes hex strings produced by [`to_hex`] back into bytes.
///
/// # Errors
///
/// Returns [`ParseHexError`], with the first such token, if any token is not
/// exactly two hex digits.
pub fn from_hex(hex: &[String]) -> (r: Result<Vec<u8>, ParseHexError>)
    ensures
        match r {
            Ok(bytes) => hex_bytes(texts(hex@)) == Some(bytes@),
            Err(e) => {
                &&& hex_bytes(texts(hex@)) is None
                &&& exists|i: int|
                    {
                        &&& 0 <= i < hex.len()
                        &&& (#[trigger] hex@[i])@ == e@
                        &&& hex_byte(hex@[i]@) is None
                        &&& forall|j: int|
                            0 <= j < i ==> hex_byte((#[trigger] hex@[j])@) is Some
                    }
            },
        },
{
    let ghost tokens = texts(hex@);
    let mut bytes: Vec<u8> = Vec::new();
    let mut i: usize = 0;
    assert(tokens.take(0) =~= Seq::<Seq<char>>::empty());
    while i < hex.len()
        invariant
            i <= hex.len(),
            tokens == texts(hex@),
            hex_bytes(tokens.take(i as int)) == Some(bytes@),
            forall|j: int| 0 <= j < i ==> hex_byte((#[trigger] hex@[j])@) is Some,
        decreases hex.len() - i,
    {
        assert(tokens.take(i + 1).drop_last() =~= tokens.take(i as int));
        assert(tokens.take(i + 1).last() == hex@[i as int]@);
        match byte_of(hex[i].as_str()) {
            Some(b) => {
                bytes.push(b);
            },
            None => {
                proof {
                    lemma_bad_token(tokens, i as int);
                    assert(hex_byte(hex@[i as int]@) is None);
                }
                return Err(ParseHexError { token: copy_text(hex[i].as_str()) });
            },
        }
        i = i + 1;
    }
    assert(tokens.take(i as int) =~= tokens);
    Ok(bytes)
}

/// Tokens with one that is no hex byte stand for no bytes.
proof fn lemma_bad_token(tokens: Seq<Seq<char>>, i: int)
    requires
        0 <= i < tokens.len(),
        hex_byte(tokens[i]) is None,
    ensures
        hex_bytes(tokens) is None,
    decreases tokens.len(),
{
    if i < tokens.len() - 1 {
        lemma_bad_token(tokens.drop_last(), i);
    }
}

/// Decoding what [`to_hex`] encoded gives the bytes back.
pub proof fn law_hex_round_trip(bytes: Seq<u8>)
    ensures
        hex_bytes(hex_texts(bytes)) == Some(bytes),
    decreases bytes.len(),
{
    if bytes.len() > 0 {
        law_hex_round_trip(bytes.drop_last());
        assert(hex_texts(bytes).drop_last() =~= hex_texts(bytes.drop_last()));
        assert(hex_byte(hex_text(bytes.last())) == Some(bytes.last()));
        assert(bytes =~= bytes.drop_last().push(bytes.last()));
    } else {
        assert(bytes =~= Seq::<u8>::empty());
    }
}

/// Bytes are written as two hex digits each: the digits of the high half, then those of the
/// low half, in the order `0` to `9`, `a` to `f`.
pub proof fn law_hex_digits_are_in_order(d: int)
    requires
        0 <= d < 16,
    ensures
        d < 10 ==> hex_char(d) as int == '0' as int + d,
        d >= 10 ==> hex_char(d) as int == 'a' as int + d - 10,
        hex_value(hex_char(d)) == Some(d),
{
}

/// A token stands for a byte exactly where it is the byte's two hex digits, in any case.
pub proof fn law_hex_token_is_the_digits_of_its_byte(token: Seq<char>, b: u8)
    ensures
        hex_byte(token) == Some(b) <==> lower_text(token) == hex_text(b),
{
    let t = lower_text(token);
    if hex_byte(token) == Some(b) {
        let hi = hex_value(token[0])->0;
        let lo = hex_value(token[1])->0;
        assert(b as int == hi * 16 + lo);
        assert(b as int / 16 == hi && b as int % 16 == lo);
        assert(t =~= hex_text(b));
    }
    if t == hex_text(b) {
        assert(t.len() == 2);
        assert(t[0] == hex_char(b as int / 16));
        assert(t[1] == hex_char(b as int % 16));
        assert(t[0] == lower_char(token[0]));
        assert(t[1] == lower_char(token[1]));
    }
}

/// Tokens stand for bytes one by one, in order, and for none where one of them stands for
/// none.
pub proof fn law_hex_goes_token_by_token(tokens: Seq<Seq<char>>)
    ensures
        hex_bytes(tokens) is Some <==> forall|i: int|
            0 <= i < tokens.len() ==> hex_byte(#[trigger] tokens[i]) is Some,
        hex_bytes(tokens) matches Some(bytes) ==> bytes.len() == tokens.len() && forall|i: int|
            0 <= i < tokens.len() ==> hex_byte(#[trigger] tokens[i]) == Some(bytes[i]),
    decreases tokens.len(),
{
    if tokens.len() > 0 {
        let init = tokens.drop_last();
        let n = tokens.len() - 1;
        law_hex_goes_token_by_token(init);
        assert(tokens[n] == tokens.last());
        if let Some(bytes) = hex_bytes(tokens) {
            assert forall|i: int| 0 <= i < tokens.len() implies hex_byte(#[trigger] tokens[i]) == Some(
                bytes[i],
            ) by {
                if i < n {
                    assert(init[i] == tokens[i]);
                }
            }
        }
        if forall|i: int| 0 <= i < tokens.len() ==> hex_byte(#[trigger] tokens[i]) is Some {
            assert forall|i: int| 0 <= i < init.len() implies hex_byte(#[trigger] init[i]) is Some by {
                assert(init[i] == tokens[i]);
            }
        }
    }
}

/// The texts of a list of strings are theirs, one by one.
pub proof fn law_texts_are_those_of_the_strings(v: Seq<String>)
    ensures
        texts(v).len() == v.len(),
        forall|i: int| 0 <= i < v.len() ==> #[trigger] texts(v)[i] == v[i]@,
{
}

} // verus!
