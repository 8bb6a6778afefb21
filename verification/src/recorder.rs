//! The logic of an interactive recorder of what a terminal sends.
//!
//! The recorder asks for a fixed list of keys and records the raw bytes that each one
//! produced. It never claims a value it did not observe: a key that produces no bytes
//! within the timeout is recorded as empty. Reading and writing are the caller's.
use crate::capture::{hex_texts, texts, to_hex, Capability, KeyPress, Meta, Provenance};
use crate::describe::{key_shown, show_key};
use crate::grammar::{parsed_chord, text_if};
use crate::input::{KeyInput, Modifiers};
use crate::screen::{flag_text, flag_word};
use crate::text::{chars_of, copy_text, push_text, same_text};
use crate::warning::{join_texts, joined};
use time::format_description::well_known::Rfc3339;
use time::OffsetDateTime;
use vstd::prelude::*;

verus! {

/// The recorded `mode` of a baseline capture.
pub const MODE_BASELINE: &'static str = "baseline";

/// The recorded `mode` of a capture taken with the enhanced keyboard protocol on.
pub const MODE_KITTY_ENHANCED: &'static str = "kitty-enhanced";

/// How long to wait for the first byte of a keypress (milliseconds).
pub const FIRST_BYTE_TIMEOUT_MS: i32 = 6_000;

/// Idle gap that marks the end of one escape sequence (milliseconds).
pub const IDLE_GAP_MS: i32 = 80;

/// The keys to record, as human labels. They hold the painful cases: one that is
/// often swallowed (`cmd+1`), one that collides in legacy encodings (`ctrl+i`), and
/// one with two encodings (`shift+tab`).
pub open spec fn labels() -> Seq<Seq<char>> {
    seq![
        "ctrl+a"@,
        "cmd+1"@,
        "alt+a"@,
        "ctrl+i"@,
        "shift+tab"@,
        "f1"@,
        "up"@,
        "down"@,
        "left"@,
        "right"@,
        "esc"@,
    ]
}

/// The texts of string slices.
pub open spec fn slices(v: Seq<&'static str>) -> Seq<Seq<char>> {
    v.map_values(|s: &'static str| s@)
}

/// The keys to record, as human labels.
#[must_use]
pub fn keys_to_record() -> (keys: Vec<&'static str>)
    ensures
        slices(keys@) == labels(),
{
    let keys = vec![
        "ctrl+a",
        "cmd+1",
        "alt+a",
        "ctrl+i",
        "shift+tab",
        "f1",
        "up",
        "down",
        "left",
        "right",
        "esc",
    ];
    assert(slices(keys@) =~= labels());
    keys
}

/// An `ESC [ ?` stands at the position.
pub open spec fn reply_at(response: Seq<u8>, i: int) -> bool {
    &&& 0 <= i
    &&& i + 2 < response.len()
    &&& response[i] == 0x1b
    &&& response[i + 1] == 0x5b
    &&& response[i + 2] == 0x3f
}

/// The first byte that ends a control sequence: parameters come before it.
pub open spec fn final_byte(bytes: Seq<u8>) -> Option<u8>
    decreases bytes.len(),
{
    if bytes.len() == 0 {
        None
    } else if 0x40 <= bytes[0] <= 0x7e {
        Some(bytes[0])
    } else {
        final_byte(bytes.drop_first())
    }
}

/// The first `ESC [ ?` reply ends in `u`, as a reply to the keyboard-protocol query
/// does.
pub open spec fn supports_kitty(response: Seq<u8>) -> bool {
    exists|i: int| #[trigger]
        reply_at(response, i) && (forall|j: int| 0 <= j < i ==> !#[trigger] reply_at(response, j))
            && final_byte(response.skip(i + 3)) == Some(0x75u8)
}

/// True if the first `ESC [ ?` reply ends in `u` (a keyboard-protocol reply) rather
/// than `c` (which would be the device-attributes reply, meaning that the
/// keyboard-protocol query was ignored).
#[must_use]
pub fn detect_kitty_support(response: &[u8]) -> (r: bool)
    ensures
        r == supports_kitty(response@),
{
    let ghost b = response@;
    let n = response.len();
    if n < 3 {
        return false;
    }
    let mut i: usize = 0;
    while i < n - 2
        invariant
            n == response.len(),
            n >= 3,
            b == response@,
            i <= n - 2,
            forall|j: int| 0 <= j < i ==> !#[trigger] reply_at(b, j),
        decreases n - i,
    {
        if response[i] == 0x1b && response[i + 1] == 0x5b && response[i + 2] == 0x3f {
            assert(reply_at(b, i as int));
            let mut k: usize = i + 3;
            while k < n
                invariant
                    n == response.len(),
                    b == response@,
                    i + 3 <= k <= n,
                    reply_at(b, i as int),
                    forall|j: int| 0 <= j < i ==> !#[trigger] reply_at(b, j),
                    final_byte(b.skip(i + 3)) == final_byte(b.skip(k as int)),
                decreases n - k,
            {
                proof {
                    assert(b.skip(k as int)[0] == b[k as int]);
                    assert(b.skip(k as int).drop_first() =~= b.skip(k + 1));
                }
                if 0x40 <= response[k] && response[k] <= 0x7e {
                    let found = response[k] == 0x75;
                    proof {
                        lemma_first_reply(b, i as int);
                    }
                    return found;
                }
                k = k + 1;
            }
            proof {
                assert(b.skip(k as int).len() == 0);
                lemma_first_reply(b, i as int);
            }
            return false;
        }
        assert(!reply_at(b, i as int));
        i = i + 1;
    }
    proof {
        assert forall|j: int| !#[trigger] reply_at(b, j) by {
            if reply_at(b, j) {
                assert(j < i);
            }
        }
    }
    false
}

/// What the first reply says decides.
proof fn lemma_first_reply(b: Seq<u8>, i: int)
    requires
        reply_at(b, i),
        forall|j: int| 0 <= j < i ==> !#[trigger] reply_at(b, j),
    ensures
        supports_kitty(b) <==> final_byte(b.skip(i + 3)) == Some(0x75u8),
{
    if supports_kitty(b) {
        let k = choose|k: int| #[trigger]
            reply_at(b, k) && (forall|j: int| 0 <= j < k ==> !#[trigger] reply_at(b, j))
                && final_byte(b.skip(k + 3)) == Some(0x75u8);
        if k < i {
            assert(!reply_at(b, k));
        }
        if i < k {
            assert(!reply_at(b, i));
        }
    }
}

/// What is observed of the keyboard protocol.
pub open spec fn kitty_text(supported: bool) -> Seq<char> {
    if supported {
        "supported"@
    } else {
        "unsupported"@
    }
}

/// The capability that a reply to the queries shows.
#[must_use]
pub fn kitty_capability(response: &[u8]) -> (c: Capability)
    ensures
        c.name@ == "kitty_keyboard_protocol"@,
        c.value@ == kitty_text(supports_kitty(response@)),
        c.provenance == Provenance::QueryResponse,
        texts(c.raw_response@) == hex_texts(response@),
{
    let value = if detect_kitty_support(response) {
        copy_text("supported")
    } else {
        copy_text("unsupported")
    };
    Capability {
        name: copy_text("kitty_keyboard_protocol"),
        value,
        provenance: Provenance::QueryResponse,
        raw_response: to_hex(response),
    }
}

/// The mode to record in: the enhanced one, where it is asked for, needs the keyboard
/// protocol.
///
/// # Errors
///
/// Returns the message on a terminal that does not report the protocol as supported.
pub fn recording_mode(enhanced: bool, kitty: &str) -> (r: Result<&'static str, String>)
    ensures
        match r {
            Ok(mode) => {
                &&& !enhanced || kitty@ == "supported"@
                &&& mode@ == (if enhanced {
                    MODE_KITTY_ENHANCED@
                } else {
                    MODE_BASELINE@
                })
            },
            Err(message) => {
                &&& enhanced && kitty@ != "supported"@
                &&& message@
                    == "--enhanced needs the kitty keyboard protocol, but this terminal reports it \""@
                    + kitty@ + "\"; drop --enhanced to record a baseline capture instead"@
            },
        },
{
    if !enhanced {
        return Ok(MODE_BASELINE);
    }
    if same_text(kitty, "supported") {
        return Ok(MODE_KITTY_ENHANCED);
    }
    let mut message = copy_text(
        "--enhanced needs the kitty keyboard protocol, but this terminal reports it \"",
    );
    push_text(&mut message, kitty);
    push_text(&mut message, "\"; drop --enhanced to record a baseline capture instead");
    Err(message)
}

/// Formats a time, in nanoseconds since the Unix epoch, in UTC: with
/// `OffsetDateTime::from_unix_timestamp_nanos` and `OffsetDateTime::format` of the `time`
/// crate, in the format `Rfc3339`. `None` is an error of either. The result is named,
/// not described.
#[verifier::external_body]
fn format_rfc3339(nanos: i128) -> (s: Option<String>)
    ensures
        match s {
            Some(s) => rfc3339_text(nanos) == Some(s@),
            None => rfc3339_text(nanos) is None,
        },
{
    match OffsetDateTime::from_unix_timestamp_nanos(nanos) {
        Ok(time) => time.format(&Rfc3339).ok(),
        Err(_) => None,
    }
}

/// What formatting a time gives.
pub uninterp spec fn rfc3339_text(nanos: i128) -> Option<Seq<char>>;

/// What a time that was formatted is recorded as.
pub open spec fn time_recorded(formatted: Option<Seq<char>>) -> Seq<char> {
    match formatted {
        Some(text) => text,
        None => "unknown"@,
    }
}

/// What a time that was formatted is recorded as.
#[must_use]
pub fn recorded_time(formatted: Option<String>) -> (s: String)
    ensures
        s@ == time_recorded(
            match formatted {
                Some(text) => Some(text@),
                None => None,
            },
        ),
{
    match formatted {
        Some(text) => text,
        None => copy_text("unknown"),
    }
}

/// The time of a capture, given what the clock says, in nanoseconds since the Unix
/// epoch.
#[must_use]
pub fn now_rfc3339(nanos: i128) -> (s: String)
    ensures
        s@ == time_recorded(rfc3339_text(nanos)),
{
    let formatted = format_rfc3339(nanos);
    recorded_time(formatted)
}

/// A variable of the environment; one that is empty counts as not set.
pub open spec fn set_variable(value: Option<String>) -> Option<String> {
    match value {
        Some(text) if text@.len() > 0 => Some(text),
        _ => None,
    }
}

/// A variable of the environment; one that is empty counts as not set.
fn non_empty(value: Option<String>) -> (r: Option<String>)
    ensures
        r == set_variable(value),
{
    match value {
        Some(text) => if chars_of(text.as_str()).len() > 0 {
            Some(text)
        } else {
            None
        },
        None => None,
    }
}

/// The variables of the environment that a capture notes.
#[derive(Debug)]
pub struct Environment {
    /// `$TERM`.
    pub term: Option<String>,
    /// `$TERM_PROGRAM`.
    pub term_program: Option<String>,
    /// `$TERM_PROGRAM_VERSION`.
    pub term_program_version: Option<String>,
    /// `$TMUX`.
    pub tmux: Option<String>,
    /// `$SSH_TTY`.
    pub ssh_tty: Option<String>,
    /// `$SSH_CONNECTION`.
    pub ssh_connection: Option<String>,
}

/// Where and when a capture is taken.
#[must_use]
pub fn gather_meta(captured_at: String, harness_version: &str, env: Environment) -> (meta: Meta)
    ensures
        meta.captured_at == captured_at,
        meta.harness_version@ == harness_version@,
        meta.term == set_variable(env.term),
        meta.term_program == set_variable(env.term_program),
        meta.term_program_version == set_variable(env.term_program_version),
        meta.tmux == set_variable(env.tmux) is Some,
        meta.ssh == (set_variable(env.ssh_tty) is Some || set_variable(env.ssh_connection) is Some),
{
    Meta {
        captured_at,
        harness_version: copy_text(harness_version),
        term: non_empty(env.term),
        term_program: non_empty(env.term_program),
        term_program_version: non_empty(env.term_program_version),
        tmux: non_empty(env.tmux).is_some(),
        ssh: non_empty(env.ssh_tty).is_some() || non_empty(env.ssh_connection).is_some(),
    }
}

/// A noted variable of the environment, as it is shown.
pub open spec fn noted_text(value: Option<String>) -> Seq<char> {
    match value {
        Some(text) => text@,
        None => "?"@,
    }
}

/// What the operator is told at the start.
pub open spec fn banner_text(meta: Meta, enhanced: bool) -> Seq<Seq<char>> {
    seq![
        "keymap-probe — recording what this terminal sends"@,
        "  TERM="@ + noted_text(meta.term) + " TERM_PROGRAM="@ + noted_text(meta.term_program)
            + " tmux="@ + flag_text(meta.tmux) + " ssh="@ + flag_text(meta.ssh) + "  mode="@ + (
        if enhanced {
            "kitty-enhanced (--enhanced)"@
        } else {
            "baseline"@
        }),
        "  press each prompted key once; we record the raw bytes."@,
        Seq::empty(),
    ]
}

/// What the operator is told at the start.
#[must_use]
pub fn banner(meta: &Meta, enhanced: bool) -> (lines: Vec<String>)
    ensures
        texts(lines@) == banner_text(*meta, enhanced),
{
    let mut line = copy_text("  TERM=");
    push_noted(&mut line, &meta.term);
    push_text(&mut line, " TERM_PROGRAM=");
    push_noted(&mut line, &meta.term_program);
    push_text(&mut line, " tmux=");
    push_text(&mut line, flag_word(meta.tmux));
    push_text(&mut line, " ssh=");
    push_text(&mut line, flag_word(meta.ssh));
    push_text(&mut line, "  mode=");
    if enhanced {
        push_text(&mut line, "kitty-enhanced (--enhanced)");
    } else {
        push_text(&mut line, "baseline");
    }
    let mut lines: Vec<String> = Vec::new();
    lines.push(copy_text("keymap-probe — recording what this terminal sends"));
    lines.push(line);
    lines.push(copy_text("  press each prompted key once; we record the raw bytes."));
    lines.push(String::new());
    assert(texts(lines@) =~= banner_text(*meta, enhanced));
    lines
}

/// Appends a noted variable of the environment.
fn push_noted(out: &mut String, value: &Option<String>)
    ensures
        final(out)@ == old(out)@ + noted_text(*value),
{
    match value {
        Some(text) => push_text(out, text.as_str()),
        None => push_text(out, "?"),
    }
}

/// The names of held modifiers, in the fixed order.
pub open spec fn mod_names(mods: Modifiers) -> Seq<Seq<char>> {
    name_if(mods.has_ctrl(), "CTRL"@) + name_if(mods.has_alt(), "ALT"@) + name_if(
        mods.has_shift(),
        "SHIFT"@,
    ) + name_if(mods.has_super(), "SUPER"@)
}

/// The name where the flag is set.
pub open spec fn name_if(flag: bool, name: Seq<char>) -> Seq<Seq<char>> {
    if flag {
        seq![name]
    } else {
        Seq::empty()
    }
}

/// The names of held modifiers.
#[must_use]
pub fn mod_strings(mods: Modifiers) -> (names: Vec<String>)
    ensures
        texts(names@) == mod_names(mods),
{
    let mut names: Vec<String> = Vec::new();
    if mods.contains(Modifiers::CTRL) {
        names.push(copy_text("CTRL"));
    }
    assert(texts(names@) =~= name_if(mods.has_ctrl(), "CTRL"@));
    let ghost first = names@;
    if mods.contains(Modifiers::ALT) {
        names.push(copy_text("ALT"));
    }
    assert(texts(names@) =~= texts(first) + name_if(mods.has_alt(), "ALT"@));
    let ghost second = names@;
    if mods.contains(Modifiers::SHIFT) {
        names.push(copy_text("SHIFT"));
    }
    assert(texts(names@) =~= texts(second) + name_if(mods.has_shift(), "SHIFT"@));
    let ghost third = names@;
    if mods.contains(Modifiers::SUPER) {
        names.push(copy_text("SUPER"));
    }
    assert(texts(names@) =~= texts(third) + name_if(mods.has_super(), "SUPER"@));
    names
}

/// The key and the modifiers that a capture says a label means.
#[must_use]
pub fn expected_strings(input: &KeyInput) -> (r: (String, Vec<String>))
    ensures
        r.0@ == key_shown(input.key),
        texts(r.1@) == mod_names(input.mods),
{
    (show_key(input.key), mod_strings(input.mods))
}

/// The text with every character but ASCII letters and digits replaced.
pub open spec fn sanitized(s: Seq<char>) -> Seq<char> {
    s.map_values(|c: char| sanitized_char(c))
}

/// A character of a file name.
pub open spec fn sanitized_char(c: char) -> char {
    if 'a' <= c <= 'z' || 'A' <= c <= 'Z' || '0' <= c <= '9' {
        c
    } else {
        '-'
    }
}

/// Replaces every character but ASCII letters and digits by a hyphen.
fn sanitize(s: &str) -> (out: String)
    ensures
        out@ == sanitized(s@),
{
    let chars = chars_of(s);
    let mut out = String::new();
    let mut i: usize = 0;
    while i < chars.len()
        invariant
            i <= chars.len(),
            chars@ == s@,
            out@.len() == i,
            forall|j: int| 0 <= j < i ==> #[trigger] out@[j] == sanitized_char(s@[j]),
        decreases chars.len() - i,
    {
        let c = chars[i];
        if ('a' <= c && c <= 'z') || ('A' <= c && c <= 'Z') || ('0' <= c && c <= '9') {
            out.push(c);
        } else {
            out.push('-');
        }
        i = i + 1;
    }
    assert(out@ =~= sanitized(s@));
    out
}

/// `on` or `off`.
pub open spec fn switch(on: bool) -> Seq<char> {
    if on {
        "on"@
    } else {
        "off"@
    }
}

/// The name of a capture file. A mode other than the baseline stands in the name.
pub open spec fn path_text(
    label: Seq<char>,
    mode: Seq<char>,
    tmux: bool,
    ssh: bool,
    date: Seq<char>,
) -> Seq<char> {
    "captures/"@ + sanitized(label) + "_"@ + text_if(mode != MODE_BASELINE@, mode + "_"@) + "tmux-"@
        + switch(tmux) + "_ssh-"@ + switch(ssh) + "_"@ + date + ".toml"@
}

/// Builds the capture filename. A baseline capture has no mode in its name; another
/// mode does, so that it neither collides with the baseline file nor hides which mode
/// it holds.
#[must_use]
pub fn capture_path(label: &str, mode: &str, tmux: bool, ssh: bool, date: &str) -> (path: String)
    ensures
        path@ == path_text(label@, mode@, tmux, ssh, date@),
{
    let mut path = copy_text("captures/");
    let clean = sanitize(label);
    push_text(&mut path, clean.as_str());
    push_text(&mut path, "_");
    if !same_text(mode, MODE_BASELINE) {
        push_text(&mut path, mode);
        push_text(&mut path, "_");
    }
    push_text(&mut path, "tmux-");
    push_text(
        &mut path,
        if tmux {
            "on"
        } else {
            "off"
        },
    );
    push_text(&mut path, "_ssh-");
    push_text(
        &mut path,
        if ssh {
            "on"
        } else {
            "off"
        },
    );
    push_text(&mut path, "_");
    push_text(&mut path, date);
    push_text(&mut path, ".toml");
    assert(path@ =~= path_text(label@, mode@, tmux, ssh, date@));
    path
}

/// The number of bytes that a text takes in UTF-8.
pub open spec fn byte_len(s: Seq<char>) -> nat
    decreases s.len(),
{
    if s.len() == 0 {
        0
    } else {
        byte_len(s.drop_last()) + char_len(s.last())
    }
}

/// The number of bytes that a character takes in UTF-8.
pub open spec fn char_len(c: char) -> nat {
    if (c as u32) < 0x80 {
        1
    } else if (c as u32) < 0x800 {
        2
    } else if (c as u32) < 0x10000 {
        3
    } else {
        4
    }
}

/// The text is the date of a timestamp: its first ten bytes, or `unknown` where they
/// are not whole characters.
pub open spec fn is_date(stamp: Seq<char>, date: Seq<char>) -> bool {
    if exists|n: int| 0 <= n <= stamp.len() && #[trigger] byte_len(stamp.take(n)) == 10 {
        date.is_prefix_of(stamp) && byte_len(date) == 10
    } else {
        date == "unknown"@
    }
}

/// The date of a timestamp.
fn date_of(stamp: &str) -> (date: String)
    ensures
        is_date(stamp@, date@),
{
    let chars = chars_of(stamp);
    let ghost s = stamp@;
    let mut out = String::new();
    let mut bytes: usize = 0;
    let mut i: usize = 0;
    assert(out@ =~= s.take(0));
    while i < chars.len() && bytes < 10
        invariant
            i <= chars.len(),
            chars@ == s,
            out@ == s.take(i as int),
            bytes == byte_len(s.take(i as int)),
            bytes < 14,
            forall|n: int| 0 <= n < i ==> #[trigger] byte_len(s.take(n)) < 10,
        decreases chars.len() - i,
    {
        let c = chars[i];
        let code = c as u32;
        let width: usize = if code < 0x80 {
            1
        } else if code < 0x800 {
            2
        } else if code < 0x10000 {
            3
        } else {
            4
        };
        proof {
            assert(s.take(i + 1).drop_last() =~= s.take(i as int));
            assert(s.take(i + 1).last() == c);
            assert(s.take(i + 1) =~= s.take(i as int).push(c));
        }
        out.push(c);
        bytes = bytes + width;
        i = i + 1;
    }
    if bytes == 10 {
        proof {
            assert(out@.is_prefix_of(s));
            assert(byte_len(s.take(i as int)) == 10);
        }
        out
    } else {
        proof {
            assert forall|n: int| 0 <= n <= s.len() implies #[trigger] byte_len(s.take(n)) != 10 by {
                if n > i {
                    lemma_byte_len_grows(s, i as int, n);
                }
            }
        }
        copy_text("unknown")
    }
}

/// More characters take more bytes.
proof fn lemma_byte_len_grows(s: Seq<char>, a: int, b: int)
    requires
        0 <= a < b <= s.len(),
    ensures
        byte_len(s.take(a)) < byte_len(s.take(b)),
    decreases b - a,
{
    assert(s.take(b).drop_last() =~= s.take(b - 1));
    if a < b - 1 {
        lemma_byte_len_grows(s, a, b - 1);
    }
}

/// The label of an environment: the terminal program, or else the terminal type.
pub open spec fn label_of(meta: Meta) -> Seq<char> {
    match meta.term_program {
        Some(program) => program@,
        None => match meta.term {
            Some(term) => term@,
            None => "unknown"@,
        },
    }
}

/// The name of the file that a capture of the environment is written to.
#[must_use]
pub fn capture_name(meta: &Meta, mode: &str) -> (path: String)
    ensures
        exists|date: Seq<char>| #[trigger]
            is_date(meta.captured_at@, date) && path@ == path_text(
                label_of(*meta),
                mode@,
                meta.tmux,
                meta.ssh,
                date,
            ),
{
    let label: &str = match &meta.term_program {
        Some(program) => program.as_str(),
        None => match &meta.term {
            Some(term) => term.as_str(),
            None => "unknown",
        },
    };
    let date = date_of(meta.captured_at.as_str());
    assert(is_date(meta.captured_at@, date@));
    capture_path(label, mode, meta.tmux, meta.ssh, date.as_str())
}

/// What a [`KeyPress`] says.
pub struct PressView {
    /// The label.
    pub intended: Seq<char>,
    /// The mode.
    pub mode: Seq<char>,
    /// The bytes, in hex.
    pub raw: Seq<Seq<char>>,
    /// The sizes of the reads.
    pub chunks: Seq<usize>,
    /// The key that the label means.
    pub key: Option<Seq<char>>,
    /// The modifiers that the label means.
    pub mods: Option<Seq<Seq<char>>>,
}

impl View for KeyPress {
    type V = PressView;

    open spec fn view(&self) -> PressView {
        PressView {
            intended: self.intended@,
            mode: self.mode@,
            raw: texts(self.raw_bytes@),
            chunks: self.read_chunks@,
            key: match self.expected_key {
                Some(key) => Some(key@),
                None => None,
            },
            mods: match self.expected_mods {
                Some(mods) => Some(texts(mods@)),
                None => None,
            },
        }
    }
}

/// What is recorded of a keypress.
pub open spec fn press_recorded(
    intended: Seq<char>,
    mode: Seq<char>,
    bytes: Seq<u8>,
    chunks: Seq<usize>,
) -> PressView {
    PressView {
        intended,
        mode,
        raw: hex_texts(bytes),
        chunks,
        key: match parsed_chord(intended) {
            Some(k) => Some(key_shown(k.key)),
            None => None,
        },
        mods: match parsed_chord(intended) {
            Some(k) => Some(mod_names(k.mods)),
            None => None,
        },
    }
}

/// What the operator is told of a keypress.
pub open spec fn press_told(bytes: Seq<u8>) -> Seq<char> {
    if bytes == seq![0x03u8] {
        "ctrl+c — stopping."@
    } else if bytes.len() == 0 {
        "  …no bytes within timeout (not delivered to the app)"@
    } else {
        "  -> "@ + joined(hex_texts(bytes))
    }
}

/// What the recorded keypresses say.
pub open spec fn press_views(presses: Seq<KeyPress>) -> Seq<PressView> {
    presses.map_values(|p: KeyPress| p@)
}

/// A recording session: which key to ask for next, and what was recorded.
#[derive(Debug)]
pub struct Session {
    /// The recorded mode.
    pub mode: String,
    /// The labels of the keys that are still to be asked for.
    pub left: Vec<&'static str>,
    /// The keypresses recorded so far.
    pub keypresses: Vec<KeyPress>,
}

impl Session {
    /// A session that asks for all keys.
    #[must_use]
    pub fn new(mode: &str) -> (s: Session)
        ensures
            s.mode@ == mode@,
            slices(s.left@) == labels(),
            s.keypresses@.len() == 0,
    {
        Session { mode: copy_text(mode), left: keys_to_record(), keypresses: Vec::new() }
    }

    /// The label of the key to ask for, or `None` when the session is over.
    #[must_use]
    pub fn prompt(&self) -> (label: Option<&'static str>)
        ensures
            match label {
                Some(label) => self.left@.len() > 0 && label@ == slices(self.left@)[0],
                None => self.left@.len() == 0,
            },
    {
        if self.left.len() > 0 {
            Some(self.left[0])
        } else {
            None
        }
    }

    /// Records what the key that was asked for sent, and returns what the operator is
    /// told. A lone Ctrl+C ends the session, and is not recorded.
    pub fn record(&mut self, bytes: &[u8], chunks: Vec<usize>) -> (told: String)
        requires
            old(self).left@.len() > 0,
        ensures
            told@ == press_told(bytes@),
            final(self).mode@ == old(self).mode@,
            if bytes@ == seq![0x03u8] {
                final(self).left@.len() == 0 && final(self).keypresses@ == old(self).keypresses@
            } else {
                &&& final(self).left@ == old(self).left@.drop_first()
                &&& press_views(final(self).keypresses@) == press_views(
                    old(self).keypresses@,
                ).push(
                    press_recorded(
                        slices(old(self).left@)[0],
                        old(self).mode@,
                        bytes@,
                        chunks@,
                    ),
                )
            },
    {
        if bytes.len() == 1 && bytes[0] == 0x03 {
            assert(bytes@ =~= seq![0x03u8]);
            self.left.clear();
            return copy_text("ctrl+c — stopping.");
        }
        assert(bytes@ != seq![0x03u8]) by {
            if bytes@ == seq![0x03u8] {
                assert(bytes@.len() == 1 && bytes@[0] == 0x03);
            }
        }
        let ghost left0 = self.left@;
        let ghost presses0 = self.keypresses@;
        let intended = self.left.remove(0);
        assert(self.left@ =~= left0.drop_first());
        let hex = to_hex(bytes);
        let told = if bytes.len() == 0 {
            copy_text("  …no bytes within timeout (not delivered to the app)")
        } else {
            let mut out = copy_text("  -> ");
            let line = join_texts(&hex);
            push_text(&mut out, line.as_str());
            out
        };
        let (expected_key, expected_mods) = match KeyInput::parse(intended) {
            Ok(input) => {
                let (key, mods) = expected_strings(&input);
                (Some(key), Some(mods))
            },
            Err(_) => (None, None),
        };
        let press = KeyPress {
            intended: copy_text(intended),
            mode: copy_text(self.mode.as_str()),
            raw_bytes: hex,
            read_chunks: chunks,
            expected_key,
            expected_mods,
        };
        let ghost want = press_recorded(slices(left0)[0], self.mode@, bytes@, chunks@);
        assert(press@ == want);
        self.keypresses.push(press);
        assert(press_views(self.keypresses@) =~= press_views(presses0).push(want));
        told
    }
}

/// What became of a wait for bytes.
#[derive(Debug)]
pub enum Arrival {
    /// The wait ended without bytes.
    Idle,
    /// A read gave these bytes; none at the end of the stream.
    Bytes(Vec<u8>),
}

/// The bytes of one keypress, gathered until the stream goes idle, and the size of
/// each read.
#[derive(Debug)]
pub struct Gather {
    /// The bytes so far.
    pub bytes: Vec<u8>,
    /// The size of each read so far.
    pub chunks: Vec<usize>,
}

/// The sum of the sizes.
pub open spec fn total(chunks: Seq<usize>) -> nat
    decreases chunks.len(),
{
    if chunks.len() == 0 {
        0
    } else {
        total(chunks.drop_last()) + chunks.last() as nat
    }
}

impl Gather {
    /// Nothing gathered yet.
    #[must_use]
    pub fn new() -> (g: Gather)
        ensures
            g.bytes@.len() == 0,
            g.chunks@.len() == 0,
    {
        Gather { bytes: Vec::new(), chunks: Vec::new() }
    }

    /// Takes in what a wait gave, and answers whether to wait for more: not after an
    /// idle wait, nor at the end of the stream.
    pub fn take(&mut self, arrival: Arrival) -> (more: bool)
        ensures
            match arrival {
                Arrival::Bytes(read) if read@.len() > 0 => {
                    &&& more
                    &&& final(self).bytes@ == old(self).bytes@ + read@
                    &&& final(self).chunks@ == old(self).chunks@.push(read@.len() as usize)
                },
                _ => !more && *final(self) == *old(self),
            },
    {
        match arrival {
            Arrival::Idle => false,
            Arrival::Bytes(read) => {
                if read.len() == 0 {
                    return false;
                }
                let n = read.len();
                let mut read = read;
                self.bytes.append(&mut read);
                self.chunks.push(n);
                true
            },
        }
    }
}

/// The sizes of the reads add up to the bytes: no byte is lost or invented.
pub proof fn law_chunks_add_up(bytes: Seq<u8>, chunks: Seq<usize>, read: Seq<u8>)
    requires
        total(chunks) == bytes.len(),
        read.len() <= usize::MAX,
    ensures
        total(chunks.push(read.len() as usize)) == (bytes + read).len(),
{
    assert(chunks.push(read.len() as usize).drop_last() =~= chunks);
}

/// Whether a terminal has the keyboard protocol is read off the byte that ends its first
/// reply: `u` says that it has, whatever the parameters and whatever follows.
pub proof fn law_first_reply_tells(before: Seq<u8>, params: Seq<u8>, last: u8, after: Seq<u8>)
    requires
        forall|i: int| 0 <= i < before.len() ==> #[trigger] before[i] != 0x1b,
        forall|i: int| 0 <= i < params.len() ==> !(0x40 <= #[trigger] params[i] <= 0x7e),
        0x40 <= last <= 0x7e,
    ensures
        supports_kitty(before + seq![0x1bu8, 0x5bu8, 0x3fu8] + params + seq![last] + after)
            <==> last == 0x75,
{
    let b = before + seq![0x1bu8, 0x5bu8, 0x3fu8] + params + seq![last] + after;
    let n = before.len() as int;
    assert(b[n] == 0x1b && b[n + 1] == 0x5b && b[n + 2] == 0x3f);
    assert(reply_at(b, n));
    assert forall|j: int| 0 <= j < n implies !#[trigger] reply_at(b, j) by {
        assert(b[j] == before[j]);
    }
    lemma_first_reply(b, n);
    assert(b.skip(n + 3) =~= params + seq![last] + after);
    lemma_final_byte(params, last, after);
}

/// Parameters are skipped on the way to the byte that ends a reply.
proof fn lemma_final_byte(params: Seq<u8>, last: u8, after: Seq<u8>)
    requires
        forall|i: int| 0 <= i < params.len() ==> !(0x40 <= #[trigger] params[i] <= 0x7e),
        0x40 <= last <= 0x7e,
    ensures
        final_byte(params + seq![last] + after) == Some(last),
    decreases params.len(),
{
    let all = params + seq![last] + after;
    if params.len() == 0 {
        assert(all[0] == last);
    } else {
        assert(all[0] == params[0]);
        assert(all.drop_first() =~= params.drop_first() + seq![last] + after);
        lemma_final_byte(params.drop_first(), last, after);
    }
}

/// Nothing of a keypress is lost: the recorded bytes read back as those that came, and
/// the label, the mode and the sizes of the reads are recorded as they were.
pub proof fn law_recorded_press_reads_back(
    intended: Seq<char>,
    mode: Seq<char>,
    bytes: Seq<u8>,
    chunks: Seq<usize>,
)
    ensures
        ({
            let p = press_recorded(intended, mode, bytes, chunks);
            &&& crate::capture::hex_bytes(p.raw) == Some(bytes)
            &&& p.intended == intended
            &&& p.mode == mode
            &&& p.chunks == chunks
            &&& p.key is Some <==> parsed_chord(intended) is Some
            &&& p.mods is Some <==> parsed_chord(intended) is Some
        }),
{
    crate::capture::law_hex_round_trip(bytes);
}

/// A file name keeps the letters and digits of the label in their places and has a hyphen in
/// every other.
pub proof fn law_label_is_made_safe(s: Seq<char>, i: int)
    requires
        0 <= i < s.len(),
    ensures
        sanitized(s).len() == s.len(),
        ('a' <= s[i] <= 'z' || 'A' <= s[i] <= 'Z' || '0' <= s[i] <= '9') ==> sanitized(s)[i] == s[i],
        !('a' <= s[i] <= 'z' || 'A' <= s[i] <= 'Z' || '0' <= s[i] <= '9') ==> sanitized(s)[i] == '-',
{
}

/// The date of a timestamp in ASCII is its first ten characters.
pub proof fn law_date_is_the_front_of_the_stamp(stamp: Seq<char>, date: Seq<char>)
    requires
        is_date(stamp, date),
        stamp.len() >= 10,
        forall|i: int| 0 <= i < stamp.len() ==> (#[trigger] stamp[i] as u32) < 0x80,
    ensures
        date == stamp.take(10),
{
    lemma_ascii_len(stamp.take(10));
    assert(byte_len(stamp.take(10)) == 10);
    assert forall|i: int| 0 <= i < date.len() implies (#[trigger] date[i] as u32) < 0x80 by {
        assert(date[i] == stamp.subrange(0, date.len() as int)[i]);
        assert((stamp[i] as u32) < 0x80);
    }
    lemma_ascii_len(date);
    assert(date =~= stamp.take(10));
}

/// An ASCII text takes a byte a character.
proof fn lemma_ascii_len(s: Seq<char>)
    requires
        forall|i: int| 0 <= i < s.len() ==> (#[trigger] s[i] as u32) < 0x80,
    ensures
        byte_len(s) == s.len(),
    decreases s.len(),
{
    if s.len() > 0 {
        lemma_ascii_len(s.drop_last());
        assert((s[s.len() - 1] as u32) < 0x80);
    }
}

/// The names of held modifiers are those of the modifiers that are held, each once.
pub proof fn law_modifier_names_are_those_held(mods: Modifiers)
    ensures
        mod_names(mods).contains("CTRL"@) <==> mods.spec_contains(Modifiers::CTRL),
        mod_names(mods).contains("ALT"@) <==> mods.spec_contains(Modifiers::ALT),
        mod_names(mods).contains("SHIFT"@) <==> mods.spec_contains(Modifiers::SHIFT),
        mod_names(mods).contains("SUPER"@) <==> mods.spec_contains(Modifiers::SUPER),
        mod_names(mods).no_duplicates(),
{
    reveal_strlit("CTRL");
    reveal_strlit("ALT");
    reveal_strlit("SHIFT");
    reveal_strlit("SUPER");
    assert("CTRL"@.len() == 4 && "ALT"@.len() == 3);
    assert("SHIFT"@.len() == 5 && "SUPER"@.len() == 5);
    assert("SHIFT"@[1] == 'H' && "SUPER"@[1] == 'U');
    let a = name_if(mods.has_ctrl(), "CTRL"@);
    let b = name_if(mods.has_alt(), "ALT"@);
    let c = name_if(mods.has_shift(), "SHIFT"@);
    let d = name_if(mods.has_super(), "SUPER"@);
    let all = a + b + c + d;
    assert(all == mod_names(mods));
    let x = a.len() as int;
    let y = x + b.len();
    let z = y + c.len();
    assert(mods.has_ctrl() ==> all[0] == "CTRL"@);
    assert(mods.has_alt() ==> all[x] == "ALT"@);
    assert(mods.has_shift() ==> all[y] == "SHIFT"@);
    assert(mods.has_super() ==> all[z] == "SUPER"@);
    assert forall|i: int| 0 <= i < all.len() implies {
        ||| #[trigger] all[i] == "CTRL"@ && i == 0 && mods.has_ctrl()
        ||| all[i] == "ALT"@ && i == x && mods.has_alt()
        ||| all[i] == "SHIFT"@ && i == y && mods.has_shift()
        ||| all[i] == "SUPER"@ && i == z && mods.has_super()
    } by {}
}

/// A variable of the environment that is empty counts as not set, and any other is noted as
/// it is.
pub proof fn law_empty_variable_is_not_set(value: Option<String>)
    ensures
        value is None ==> set_variable(value) is None,
        value matches Some(text) ==> set_variable(value) == (if text@.len() == 0 {
            None
        } else {
            value
        }),
{
}

/// A capture is labelled with the terminal program where that is noted, else with the
/// terminal type; and the names of files tell the modes apart: that of a baseline capture has
/// no mode in it.
pub proof fn law_file_names_tell_modes_apart(
    meta: Meta,
    label: Seq<char>,
    mode: Seq<char>,
    tmux: bool,
    ssh: bool,
    date: Seq<char>,
)
    ensures
        meta.term_program matches Some(program) ==> label_of(meta) == program@,
        meta.term_program is None && meta.term is Some ==> label_of(meta) == (meta.term->0)@,
        mode != MODE_BASELINE@ ==> path_text(label, mode, tmux, ssh, date).len() == path_text(
            label,
            MODE_BASELINE@,
            tmux,
            ssh,
            date,
        ).len() + mode.len() + 1,
{
    reveal_strlit("_");
}

/// What recorded keypresses and labels say is what each of them says, one by one.
pub proof fn law_recorded_lists_say_what_they_hold(presses: Seq<KeyPress>, v: Seq<&'static str>)
    ensures
        press_views(presses).len() == presses.len(),
        forall|i: int| 0 <= i < presses.len() ==> #[trigger] press_views(presses)[i] == presses[i]@,
        slices(v).len() == v.len(),
        forall|i: int| 0 <= i < v.len() ==> #[trigger] slices(v)[i] == v[i]@,
{
}

/// Where bytes came, and more than a lone Control with `c`, the operator is told them as they
/// are recorded.
pub proof fn law_operator_is_told_what_came(bytes: Seq<u8>)
    ensures
        bytes.len() > 0 && bytes != seq![0x03u8] ==> joined(hex_texts(bytes)).is_suffix_of(
            press_told(bytes),
        ),
{
    let q = joined(hex_texts(bytes));
    let t = press_told(bytes);
    if bytes.len() > 0 && bytes != seq![0x03u8] {
        assert(t.subrange(t.len() - q.len(), t.len() as int) =~= q);
    }
}

} // verus!
