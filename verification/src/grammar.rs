//! The key-string grammar: parsing and printing of [`KeyInput`].
//!
//! Configuration files contain these strings and discovery prints them. The
//! policy is liberal-in / canonical-out:
//!
//! - [`KeyInput::to_string`] emits exactly one canonical spelling: modifiers in
//!   the fixed order `ctrl`, `alt`, `shift`, `super`, joined with `+`, then the
//!   key. Key names and modifier tokens are lowercase; a character glyph is
//!   emitted verbatim.
//! - [`KeyInput::parse`] accepts case-insensitive tokens and aliases (`control`,
//!   `cmd`, `return`, `escape`, …).
//!
//! Parsing applies the normalization rule of [`KeyInput::normalized`], so
//! `"shift+a"` and `"a"` are the same press.
use crate::input::{normalized_mods, Key, KeyInput, Modifiers};
use crate::text::{ascii_lower, chars_are, chars_of, copy_text, decimal_text, digit_char, lower_char,
    lower_text, push_decimal, push_text};
use vstd::prelude::*;

verus! {

/// The canonical name of a key.
pub open spec fn key_text(key: Key) -> Seq<char> {
    match key {
        Key::Char(c) => seq![c],
        Key::F(n) => seq!['f'] + decimal_text(n as nat),
        Key::Enter => "enter"@,
        Key::Esc => "esc"@,
        Key::Tab => "tab"@,
        Key::Backspace => "backspace"@,
        Key::Delete => "delete"@,
        Key::Insert => "insert"@,
        Key::Home => "home"@,
        Key::End => "end"@,
        Key::PageUp => "pageup"@,
        Key::PageDown => "pagedown"@,
        Key::Up => "up"@,
        Key::Down => "down"@,
        Key::Left => "left"@,
        Key::Right => "right"@,
    }
}

/// `token` if the flag is set, else nothing.
pub open spec fn text_if(flag: bool, token: Seq<char>) -> Seq<char> {
    if flag {
        token
    } else {
        Seq::empty()
    }
}

/// The canonical spelling of a press.
pub open spec fn chord_text(k: KeyInput) -> Seq<char> {
    text_if(k.mods.has_ctrl(), "ctrl+"@) + (text_if(k.mods.has_alt(), "alt+"@) + (text_if(
        k.mods.has_shift(),
        "shift+"@,
    ) + (text_if(k.mods.has_super(), "super+"@) + key_text(k.key))))
}

/// The modifier that a token names, in any case.
pub open spec fn modifier_named(token: Seq<char>) -> Option<Modifiers> {
    let t = lower_text(token);
    if t == "ctrl"@ || t == "control"@ {
        Some(Modifiers::CTRL)
    } else if t == "alt"@ || t == "opt"@ || t == "option"@ {
        Some(Modifiers::ALT)
    } else if t == "shift"@ {
        Some(Modifiers::SHIFT)
    } else if t == "cmd"@ || t == "super"@ || t == "win"@ || t == "meta"@ {
        Some(Modifiers::SUPER)
    } else {
        None
    }
}

/// The named (non-function, non-character) key that a lowercase token spells.
pub open spec fn named_key(t: Seq<char>) -> Option<Key> {
    if t == "tab"@ {
        Some(Key::Tab)
    } else if t == "enter"@ || t == "return"@ {
        Some(Key::Enter)
    } else if t == "esc"@ || t == "escape"@ {
        Some(Key::Esc)
    } else if t == "space"@ {
        Some(Key::Char(' '))
    } else if t == "backspace"@ {
        Some(Key::Backspace)
    } else if t == "delete"@ || t == "del"@ {
        Some(Key::Delete)
    } else if t == "insert"@ || t == "ins"@ {
        Some(Key::Insert)
    } else if t == "home"@ {
        Some(Key::Home)
    } else if t == "end"@ {
        Some(Key::End)
    } else if t == "pageup"@ || t == "pgup"@ {
        Some(Key::PageUp)
    } else if t == "pagedown"@ || t == "pgdn"@ {
        Some(Key::PageDown)
    } else if t == "up"@ {
        Some(Key::Up)
    } else if t == "down"@ {
        Some(Key::Down)
    } else if t == "left"@ {
        Some(Key::Left)
    } else if t == "right"@ {
        Some(Key::Right)
    } else {
        None
    }
}

/// The number that a run of decimal digits spells; the empty run spells zero.
pub open spec fn digits_value(s: Seq<char>) -> Option<nat>
    decreases s.len(),
{
    if s.len() == 0 {
        Some(0)
    } else {
        match digits_value(s.drop_last()) {
            Some(v) => if '0' <= s.last() <= '9' {
                Some((v * 10 + (s.last() as u32 - 48)) as nat)
            } else {
                None
            },
            None => None,
        }
    }
}

/// The number of at most `0xff` that a text spells: an optional `+`, then at
/// least one decimal digit.
pub open spec fn byte_value(s: Seq<char>) -> Option<nat> {
    let body = if s.len() > 0 && s[0] == '+' {
        s.drop_first()
    } else {
        s
    };
    match digits_value(body) {
        Some(v) => if body.len() > 0 && v <= 0xff {
            Some(v)
        } else {
            None
        },
        None => None,
    }
}

/// The number of the function key that a lowercase token spells.
pub open spec fn function_key(t: Seq<char>) -> Option<nat> {
    if t.len() > 0 && t[0] == 'f' {
        match byte_value(t.drop_first()) {
            Some(n) => if 1 <= n <= 24 {
                Some(n)
            } else {
                None
            },
            None => None,
        }
    } else {
        None
    }
}

/// The key that a token spells: a key name, a function key, or a single
/// character, whose case is kept.
pub open spec fn key_named(token: Seq<char>) -> Option<Key> {
    let t = lower_text(token);
    match named_key(t) {
        Some(key) => Some(key),
        None => match function_key(t) {
            Some(n) => Some(Key::F(n as u8)),
            None => if token.len() == 1 {
                Some(Key::Char(token[0]))
            } else {
                None
            },
        },
    }
}

/// The position of the first `+`, or the length where there is none.
pub open spec fn plus_at(s: Seq<char>) -> nat
    decreases s.len(),
{
    if s.len() == 0 || s[0] == '+' {
        0
    } else {
        1 + plus_at(s.drop_first())
    }
}

/// Takes leading `modifier+` tokens off a text: the modifiers that they name, in
/// addition to `mods`, and what is left.
pub open spec fn split_modifiers(s: Seq<char>, mods: Modifiers) -> (Modifiers, Seq<char>)
    decreases s.len(),
{
    let i = plus_at(s) as int;
    if i < s.len() {
        match modifier_named(s.take(i)) {
            Some(m) => split_modifiers(s.skip(i + 1), mods.spec_union(m)),
            None => (mods, s),
        }
    } else {
        (mods, s)
    }
}

/// The press that a text spells, if it spells one.
pub open spec fn parsed_chord(s: Seq<char>) -> Option<KeyInput> {
    let (mods, rest) = split_modifiers(s, Modifiers::NONE);
    match key_named(rest) {
        Some(key) => Some(KeyInput { key, mods: normalized_mods(key, mods) }),
        None => None,
    }
}

/// Why a text is not a press.
#[derive(Debug, Clone, Copy, PartialEq, Eq, Structural)]
pub enum ErrorKind {
    /// The text is empty.
    Empty,
    /// What is left after the modifiers is no key.
    InvalidKey,
}

/// Error returned when a string cannot be parsed into a [`KeyInput`].
#[derive(Debug, Clone, PartialEq, Eq)]
pub struct ParseKeyInputError {
    input: String,
    kind: ErrorKind,
}

/// Formats a text with `{:?}`: between double quotes, with what is not printable
/// escaped, as `Debug for str` does. The result is named, not described.
#[verifier::external_body]
pub(crate) fn quote(s: &str) -> (out: String)
    ensures
        out@ == quoted_text(s@),
{
    format!("{s:?}")
}

/// What formatting a text with `{:?}` gives.
pub uninterp spec fn quoted_text(s: Seq<char>) -> Seq<char>;

impl View for ParseKeyInputError {
    type V = (Seq<char>, ErrorKind);

    closed spec fn view(&self) -> (Seq<char>, ErrorKind) {
        (self.input@, self.kind)
    }
}

/// What parsing a text that spells no press reports.
pub open spec fn parse_error(s: Seq<char>) -> (Seq<char>, ErrorKind) {
    (
        s,
        if s.len() == 0 {
            ErrorKind::Empty
        } else {
            ErrorKind::InvalidKey
        },
    )
}

/// The message of a parse error.
pub open spec fn parse_error_text(e: (Seq<char>, ErrorKind)) -> Seq<char> {
    match e.1 {
        ErrorKind::Empty => "empty key string"@,
        ErrorKind::InvalidKey => "invalid key string: "@ + quoted_text(e.0),
    }
}

impl ParseKeyInputError {
    fn new(input: &str, kind: ErrorKind) -> (e: Self)
        ensures
            e@ == (input@, kind),
    {
        ParseKeyInputError { input: copy_text(input), kind }
    }

    /// The input string that failed to parse.
    #[must_use]
    pub fn input(&self) -> (s: &str)
        ensures
            s@ == self@.0,
    {
        self.input.as_str()
    }

    /// Why the input failed to parse.
    #[must_use]
    pub fn kind(&self) -> (kind: ErrorKind)
        ensures
            kind == self@.1,
    {
        self.kind
    }

    /// The message of the error.
    #[must_use]
    pub fn to_string(&self) -> (s: String)
        ensures
            s@ == parse_error_text(self@),
    {
        match self.kind {
            ErrorKind::Empty => copy_text("empty key string"),
            ErrorKind::InvalidKey => {
                let mut out = copy_text("invalid key string: ");
                let q = quote(self.input.as_str());
                push_text(&mut out, q.as_str());
                out
            },
        }
    }
}

/// The name of a key.
fn key_name(key: Key) -> (s: String)
    ensures
        s@ == key_text(key),
{
    match key {
        Key::Char(c) => {
            let mut s = String::new();
            s.push(c);
            assert(s@ =~= seq![c]);
            s
        },
        Key::F(n) => {
            let mut s = String::new();
            s.push('f');
            push_decimal(&mut s, n as u64);
            assert(s@ =~= seq!['f'] + decimal_text(n as nat));
            s
        },
        Key::Enter => copy_text("enter"),
        Key::Esc => copy_text("esc"),
        Key::Tab => copy_text("tab"),
        Key::Backspace => copy_text("backspace"),
        Key::Delete => copy_text("delete"),
        Key::Insert => copy_text("insert"),
        Key::Home => copy_text("home"),
        Key::End => copy_text("end"),
        Key::PageUp => copy_text("pageup"),
        Key::PageDown => copy_text("pagedown"),
        Key::Up => copy_text("up"),
        Key::Down => copy_text("down"),
        Key::Left => copy_text("left"),
        Key::Right => copy_text("right"),
    }
}

/// The modifier that a token names.
fn parse_modifier(token: &Vec<char>) -> (m: Option<Modifiers>)
    ensures
        m == modifier_named(token@),
{
    let t = ascii_lower(token);
    if chars_are(&t, "ctrl") || chars_are(&t, "control") {
        Some(Modifiers::CTRL)
    } else if chars_are(&t, "alt") || chars_are(&t, "opt") || chars_are(&t, "option") {
        Some(Modifiers::ALT)
    } else if chars_are(&t, "shift") {
        Some(Modifiers::SHIFT)
    } else if chars_are(&t, "cmd") || chars_are(&t, "super") || chars_are(&t, "win")
        || chars_are(&t, "meta") {
        Some(Modifiers::SUPER)
    } else {
        None
    }
}

/// The named key that a lowercase token spells.
fn parse_named(t: &Vec<char>) -> (key: Option<Key>)
    ensures
        key == named_key(t@),
{
    if chars_are(t, "tab") {
        Some(Key::Tab)
    } else if chars_are(t, "enter") || chars_are(t, "return") {
        Some(Key::Enter)
    } else if chars_are(t, "esc") || chars_are(t, "escape") {
        Some(Key::Esc)
    } else if chars_are(t, "space") {
        Some(Key::Char(' '))
    } else if chars_are(t, "backspace") {
        Some(Key::Backspace)
    } else if chars_are(t, "delete") || chars_are(t, "del") {
        Some(Key::Delete)
    } else if chars_are(t, "insert") || chars_are(t, "ins") {
        Some(Key::Insert)
    } else if chars_are(t, "home") {
        Some(Key::Home)
    } else if chars_are(t, "end") {
        Some(Key::End)
    } else if chars_are(t, "pageup") || chars_are(t, "pgup") {
        Some(Key::PageUp)
    } else if chars_are(t, "pagedown") || chars_are(t, "pgdn") {
        Some(Key::PageDown)
    } else if chars_are(t, "up") {
        Some(Key::Up)
    } else if chars_are(t, "down") {
        Some(Key::Down)
    } else if chars_are(t, "left") {
        Some(Key::Left)
    } else if chars_are(t, "right") {
        Some(Key::Right)
    } else {
        None
    }
}

/// The number below 256 that the characters from `from` on spell.
fn parse_byte(t: &Vec<char>, from: usize) -> (n: Option<u8>)
    requires
        from <= t.len(),
    ensures
        match n {
            Some(v) => byte_value(t@.skip(from as int)) == Some(v as nat),
            None => byte_value(t@.skip(from as int)) is None,
        },
{
    let ghost s = t@.skip(from as int);
    let mut i: usize = from;
    if i < t.len() && t[i] == '+' {
        i = i + 1;
        assert(s.drop_first() =~= t@.skip(i as int));
    }
    let start: usize = i;
    let ghost body = t@.skip(start as int);
    if start == t.len() {
        return None;
    }
    let mut big: bool = false;
    let mut acc: u32 = 0;
    while i < t.len()
        invariant
            start <= i <= t.len(),
            start < t.len(),
            s == t@.skip(from as int),
            body == t@.skip(start as int),
            body == (if s.len() > 0 && s[0] == '+' {
                s.drop_first()
            } else {
                s
            }),
            match digits_value(body.take(i - start)) {
                Some(v) => if big {
                    v > 0xff
                } else {
                    acc == v && acc <= 0xff
                },
                None => false,
            },
        decreases t.len() - i,
    {
        let c = t[i];
        assert(body.take(i + 1 - start).drop_last() =~= body.take(i - start));
        assert(body.take(i + 1 - start).last() == c);
        if !('0' <= c && c <= '9') {
            proof {
                lemma_bad_digit(body, i - start);
            }
            return None;
        }
        if !big {
            acc = acc * 10 + (c as u32 - 48);
            if acc > 0xff {
                big = true;
            }
        }
        i = i + 1;
    }
    assert(body.take(i - start) =~= body);
    if big {
        None
    } else {
        Some(acc as u8)
    }
}

/// A text with a character that is no digit spells no number.
proof fn lemma_bad_digit(s: Seq<char>, i: int)
    requires
        0 <= i < s.len(),
        !('0' <= s[i] <= '9'),
    ensures
        digits_value(s) is None,
    decreases s.len(),
{
    if i < s.len() - 1 {
        lemma_bad_digit(s.drop_last(), i);
    }
}

/// The key that a token spells.
fn parse_key(token: &Vec<char>) -> (key: Option<Key>)
    ensures
        key == key_named(token@),
{
    let t = ascii_lower(token);
    match parse_named(&t) {
        Some(key) => return Some(key),
        None => {},
    }
    if t.len() > 0 && t[0] == 'f' {
        assert(t@.skip(1) =~= t@.drop_first());
        match parse_byte(&t, 1) {
            Some(n) => if 1 <= n && n <= 24 {
                return Some(Key::F(n));
            },
            None => {},
        }
    }
    if token.len() == 1 {
        Some(Key::Char(token[0]))
    } else {
        None
    }
}

/// The position of the first `+` from `from` on, or the length.
fn find_plus(s: &Vec<char>, from: usize) -> (i: usize)
    requires
        from <= s.len(),
    ensures
        from <= i <= s.len(),
        i - from == plus_at(s@.skip(from as int)),
{
    let mut i: usize = from;
    while i < s.len() && s[i] != '+'
        invariant
            from <= i <= s.len(),
            plus_at(s@.skip(from as int)) == i - from + plus_at(s@.skip(i as int)),
        decreases s.len() - i,
    {
        assert(s@.skip(i as int).drop_first() =~= s@.skip(i + 1));
        i = i + 1;
    }
    i
}

/// The characters of `s` from `from` up to `to`.
pub(crate) fn slice_of(s: &Vec<char>, from: usize, to: usize) -> (out: Vec<char>)
    requires
        from <= to <= s.len(),
    ensures
        out@ == s@.subrange(from as int, to as int),
{
    let mut out: Vec<char> = Vec::new();
    let mut i: usize = from;
    while i < to
        invariant
            from <= i <= to <= s.len(),
            out@ == s@.subrange(from as int, i as int),
        decreases to - i,
    {
        out.push(s[i]);
        i = i + 1;
        assert(out@ =~= s@.subrange(from as int, i as int));
    }
    out
}

impl KeyInput {
    /// The canonical spelling of the press.
    #[must_use]
    pub fn to_string(&self) -> (s: String)
        ensures
            s@ == chord_text(*self),
    {
        let f = self.mods.flags();
        let mut s = String::new();
        if f.ctrl {
            push_text(&mut s, "ctrl+");
        }
        if f.alt {
            push_text(&mut s, "alt+");
        }
        if f.shift {
            push_text(&mut s, "shift+");
        }
        if f.sup {
            push_text(&mut s, "super+");
        }
        let name = key_name(self.key);
        push_text(&mut s, name.as_str());
        assert(s@ =~= chord_text(*self));
        s
    }

    /// Parses the spelling of a press.
    ///
    /// Leading `modifier+` tokens are consumed greedily; the remainder is the
    /// key. This leaves a literal `+` (e.g. `"ctrl++"`) as the key.
    pub fn parse(s: &str) -> (r: Result<KeyInput, ParseKeyInputError>)
        ensures
            match r {
                Ok(k) => parsed_chord(s@) == Some(k),
                Err(e) => parsed_chord(s@) is None && e@ == parse_error(s@),
            },
    {
        let chars = chars_of(s);
        if chars.len() == 0 {
            proof {
                lemma_short_text_is_no_name(lower_text(s@));
            }
            return Err(ParseKeyInputError::new(s, ErrorKind::Empty));
        }
        let mut mods = Modifiers::NONE;
        let mut from: usize = 0;
        assert(chars@.skip(0) =~= chars@);
        loop
            invariant
                from <= chars.len(),
                split_modifiers(chars@, Modifiers::NONE) == split_modifiers(
                    chars@.skip(from as int),
                    mods,
                ),
            ensures
                split_modifiers(chars@, Modifiers::NONE) == (mods, chars@.skip(from as int)),
                from <= chars.len(),
            decreases chars.len() - from,
        {
            let i = find_plus(&chars, from);
            if i == chars.len() {
                break ;
            }
            let token = slice_of(&chars, from, i);
            assert(chars@.skip(from as int).take(i - from) =~= token@);
            assert(chars@.skip(from as int).skip(i - from + 1) =~= chars@.skip(i + 1));
            match parse_modifier(&token) {
                Some(m) => {
                    mods = mods.union(m);
                    from = i + 1;
                },
                None => break ,
            }
        }
        let rest = slice_of(&chars, from, chars.len());
        assert(rest@ =~= chars@.skip(from as int));
        match parse_key(&rest) {
            Some(key) => Ok(KeyInput::normalized(key, mods)),
            None => Err(ParseKeyInputError::new(s, ErrorKind::InvalidKey)),
        }
    }
}

impl core::str::FromStr for KeyInput {
    type Err = ParseKeyInputError;

    /// Parses the spelling of a press, as [`KeyInput::parse`] does.
    fn from_str(s: &str) -> (r: Result<Self, Self::Err>)
        ensures
            match r {
                Ok(k) => parsed_chord(s@) == Some(k),
                Err(e) => parsed_chord(s@) is None && e@ == parse_error(s@),
            },
    {
        KeyInput::parse(s)
    }
}

/// No key name is shorter than two characters.
proof fn lemma_short_text_is_no_name(t: Seq<char>)
    requires
        t.len() < 2,
    ensures
        named_key(t) is None,
{
    reveal_names();
}

/// What the key names hold.
proof fn reveal_names()
    ensures
        "tab"@ == seq!['t', 'a', 'b'],
        "enter"@ == seq!['e', 'n', 't', 'e', 'r'],
        "return"@ == seq!['r', 'e', 't', 'u', 'r', 'n'],
        "esc"@ == seq!['e', 's', 'c'],
        "escape"@ == seq!['e', 's', 'c', 'a', 'p', 'e'],
        "space"@ == seq!['s', 'p', 'a', 'c', 'e'],
        "backspace"@ == seq!['b', 'a', 'c', 'k', 's', 'p', 'a', 'c', 'e'],
        "delete"@ == seq!['d', 'e', 'l', 'e', 't', 'e'],
        "del"@ == seq!['d', 'e', 'l'],
        "insert"@ == seq!['i', 'n', 's', 'e', 'r', 't'],
        "ins"@ == seq!['i', 'n', 's'],
        "home"@ == seq!['h', 'o', 'm', 'e'],
        "end"@ == seq!['e', 'n', 'd'],
        "pageup"@ == seq!['p', 'a', 'g', 'e', 'u', 'p'],
        "pgup"@ == seq!['p', 'g', 'u', 'p'],
        "pagedown"@ == seq!['p', 'a', 'g', 'e', 'd', 'o', 'w', 'n'],
        "pgdn"@ == seq!['p', 'g', 'd', 'n'],
        "up"@ == seq!['u', 'p'],
        "down"@ == seq!['d', 'o', 'w', 'n'],
        "left"@ == seq!['l', 'e', 'f', 't'],
        "right"@ == seq!['r', 'i', 'g', 'h', 't'],
{
    reveal_strlit("tab");
    reveal_strlit("enter");
    reveal_strlit("return");
    reveal_strlit("esc");
    reveal_strlit("escape");
    reveal_strlit("space");
    reveal_strlit("backspace");
    reveal_strlit("delete");
    reveal_strlit("del");
    reveal_strlit("insert");
    reveal_strlit("ins");
    reveal_strlit("home");
    reveal_strlit("end");
    reveal_strlit("pageup");
    reveal_strlit("pgup");
    reveal_strlit("pagedown");
    reveal_strlit("pgdn");
    reveal_strlit("up");
    reveal_strlit("down");
    reveal_strlit("left");
    reveal_strlit("right");
}

/// What the modifier tokens hold.
proof fn reveal_modifiers()
    ensures
        "ctrl+"@ == "ctrl"@.push('+'),
        "alt+"@ == "alt"@.push('+'),
        "shift+"@ == "shift"@.push('+'),
        "super+"@ == "super"@.push('+'),
        "ctrl"@ == seq!['c', 't', 'r', 'l'],
        "control"@ == seq!['c', 'o', 'n', 't', 'r', 'o', 'l'],
        "alt"@ == seq!['a', 'l', 't'],
        "opt"@ == seq!['o', 'p', 't'],
        "option"@ == seq!['o', 'p', 't', 'i', 'o', 'n'],
        "shift"@ == seq!['s', 'h', 'i', 'f', 't'],
        "cmd"@ == seq!['c', 'm', 'd'],
        "super"@ == seq!['s', 'u', 'p', 'e', 'r'],
        "win"@ == seq!['w', 'i', 'n'],
        "meta"@ == seq!['m', 'e', 't', 'a'],
{
    reveal_strlit("ctrl+");
    reveal_strlit("alt+");
    reveal_strlit("shift+");
    reveal_strlit("super+");
    reveal_strlit("ctrl");
    reveal_strlit("control");
    reveal_strlit("alt");
    reveal_strlit("opt");
    reveal_strlit("option");
    reveal_strlit("shift");
    reveal_strlit("cmd");
    reveal_strlit("super");
    reveal_strlit("win");
    reveal_strlit("meta");
}

/// A text without a `+` before position `i`, and with one there, has its first
/// `+` at `i`.
proof fn lemma_plus_at(s: Seq<char>, i: int)
    requires
        0 <= i <= s.len(),
        forall|j: int| 0 <= j < i ==> s[j] != '+',
        i < s.len() ==> s[i] == '+',
    ensures
        plus_at(s) == i,
    decreases i,
{
    if i > 0 {
        assert forall|j: int| 0 <= j < i - 1 implies s.drop_first()[j] != '+' by {
            assert(s.drop_first()[j] == s[j + 1]);
        }
        if i < s.len() {
            assert(s.drop_first()[i - 1] == s[i]);
        }
        lemma_plus_at(s.drop_first(), i - 1);
    }
}

/// A text that is longer than every key name, holds no `+` and does not begin like a
/// function key spells no press.
pub(crate) proof fn lemma_long_word_is_no_chord(s: Seq<char>)
    requires
        s.len() > 9,
        forall|j: int| 0 <= j < s.len() ==> s[j] != '+',
        lower_char(s[0]) != 'f',
    ensures
        parsed_chord(s) is None,
{
    reveal_names();
    lemma_plus_at(s, s.len() as int);
    assert(lower_text(s).len() == s.len());
    assert(lower_text(s)[0] == lower_char(s[0]));
}

/// A leading modifier token is taken off.
proof fn lemma_split_one(flag: bool, token: Seq<char>, rest: Seq<char>, m: Modifiers, mods: Modifiers)
    requires
        forall|j: int| 0 <= j < token.len() ==> token[j] != '+',
        modifier_named(token) == Some(m),
    ensures
        split_modifiers(text_if(flag, token.push('+')) + rest, mods) == split_modifiers(
            rest,
            if flag {
                mods.spec_union(m)
            } else {
                mods
            },
        ),
{
    if flag {
        let s = token.push('+') + rest;
        lemma_plus_at(s, token.len() as int);
        assert(s.take(token.len() as int) =~= token);
        assert(s.skip(token.len() as int + 1) =~= rest);
    } else {
        assert(text_if(flag, token.push('+')) + rest =~= rest);
    }
}

/// A canonical modifier token names its modifier.
proof fn lemma_canonical_modifiers()
    ensures
        modifier_named("ctrl"@) == Some(Modifiers::CTRL),
        modifier_named("alt"@) == Some(Modifiers::ALT),
        modifier_named("shift"@) == Some(Modifiers::SHIFT),
        modifier_named("super"@) == Some(Modifiers::SUPER),
{
    reveal_modifiers();
    assert(lower_text("ctrl"@) =~= "ctrl"@);
    assert(lower_text("alt"@) =~= "alt"@);
    assert(lower_text("shift"@) =~= "shift"@);
    assert(lower_text("super"@) =~= "super"@);
    assert("alt"@ != "ctrl"@ && "alt"@ != "control"@);
    assert("shift"@ != "option"@);
    assert("shift"@[1] == 'h');
    assert("super"@[1] == 'u');
    assert("opt"@[0] == 'o');
    assert("super"@ != "shift"@);
}

/// The digits of a number spell it, and are at least one.
proof fn lemma_decimal_round_trip(n: nat)
    ensures
        digits_value(decimal_text(n)) == Some(n),
        decimal_text(n).len() > 0,
        forall|i: int|
            0 <= i < decimal_text(n).len() ==> '0' <= #[trigger] decimal_text(n)[i] <= '9',
    decreases n,
{
    if n < 10 {
        let d = seq![digit_char(n as int)];
        assert(d.drop_last() =~= Seq::<char>::empty());
        assert(digits_value(d.drop_last()) == Some(0nat));
    } else {
        lemma_decimal_round_trip(n / 10);
        let d = decimal_text(n);
        assert(d.drop_last() =~= decimal_text(n / 10));
        assert forall|i: int| 0 <= i < d.len() implies '0' <= #[trigger] d[i] <= '9' by {
            if i < d.len() - 1 {
                assert(d[i] == decimal_text(n / 10)[i]);
            }
        }
    }
}

/// No part of the canonical name of a key is taken for a modifier, and the name
/// is lowercase unless it is a glyph.
proof fn lemma_key_text_is_no_modifier(key: Key, mods: Modifiers)
    ensures
        split_modifiers(key_text(key), mods) == (mods, key_text(key)),
        !(key is Char) ==> lower_text(key_text(key)) == key_text(key),
{
    let t = key_text(key);
    match key {
        Key::Char(c) => {
            if c == '+' {
                lemma_plus_at(t, 0);
                assert(t.take(0) =~= Seq::<char>::empty());
                reveal_modifiers();
                assert(lower_text(t.take(0)).len() == 0);
            } else {
                lemma_plus_at(t, 1);
            }
        },
        Key::F(n) => {
            lemma_decimal_round_trip(n as nat);
            let d = decimal_text(n as nat);
            assert forall|i: int| 0 <= i < t.len() implies #[trigger] t[i] != '+' && lower_char(t[i])
                == t[i] by {
                if i > 0 {
                    assert(t[i] == d[i - 1]);
                }
            }
            lemma_plus_at(t, t.len() as int);
            assert(lower_text(t) =~= t);
        },
        _ => {
            reveal_names();
            assert forall|i: int| 0 <= i < t.len() implies #[trigger] t[i] != '+' && lower_char(t[i])
                == t[i] by {}
            lemma_plus_at(t, t.len() as int);
            assert(lower_text(t) =~= t);
        },
    }
}

/// The canonical name of a function key is no key name, and spells the number.
proof fn lemma_function_key_text(n: u8)
    ensures
        named_key(key_text(Key::F(n))) is None,
        byte_value(key_text(Key::F(n)).drop_first()) == Some(n as nat),
        key_text(Key::F(n)).len() > 1,
        key_text(Key::F(n))[0] == 'f',
{
    let t = key_text(Key::F(n));
    let d = decimal_text(n as nat);
    lemma_decimal_round_trip(n as nat);
    assert(t.drop_first() =~= d);
    assert(d[0] != '+');
    reveal_names();
    assert(t[0] == 'f');
}

/// The canonical name of a key spells that key.
proof fn lemma_key_round_trip(key: Key)
    requires
        key matches Key::F(n) ==> 1 <= n <= 24,
    ensures
        key_named(key_text(key)) == Some(key),
{
    let t = key_text(key);
    lemma_key_text_is_no_modifier(key, Modifiers::NONE);
    match key {
        Key::Char(c) => {
            let lt = lower_text(t);
            lemma_short_text_is_no_name(lt);
            assert(lt.drop_first().len() == 0);
            assert(byte_value(lt.drop_first()) is None);
        },
        Key::F(n) => {
            lemma_function_key_text(n);
        },
        _ => {
            lemma_names_round_trip(key);
        },
    }
}

/// Keys with the same canonical name are the same key.
proof fn lemma_key_text_injective(a: Key, b: Key)
    requires
        key_text(a) == key_text(b),
    ensures
        a == b,
{
    if a is F {
        lemma_function_key_text(a->F_0);
    } else if a is Char {
        assert(key_text(a).len() == 1);
    } else {
        lemma_names_round_trip(a);
    }
    if b is F {
        lemma_function_key_text(b->F_0);
    } else if b is Char {
        assert(key_text(b).len() == 1);
    } else {
        lemma_names_round_trip(b);
    }
    if a is Char && b is Char {
        assert(key_text(a)[0] == a->Char_0);
        assert(key_text(b)[0] == b->Char_0);
    }
}

/// A named key is the one that its name spells.
#[verifier::rlimit(40)]
proof fn lemma_names_round_trip(key: Key)
    requires
        !(key is Char),
        !(key is F),
    ensures
        named_key(key_text(key)) == Some(key),
        key_text(key).len() >= 2,
{
    reveal_names();
    let t = key_text(key);
    assert(t.len() >= 2);
    assert(t[0] == t[0] && t[1] == t[1]);
    if t.len() > 2 {
        assert(t[2] == t[2]);
    }
}

/// The two presses that make the same modifiers up, one at a time, are the same.
proof fn lemma_union_of_flags(m: Modifiers)
    ensures
        ({
            let a = if m.has_ctrl() {
                Modifiers::NONE.spec_union(Modifiers::CTRL)
            } else {
                Modifiers::NONE
            };
            let b = if m.has_alt() {
                a.spec_union(Modifiers::ALT)
            } else {
                a
            };
            let c = if m.has_shift() {
                b.spec_union(Modifiers::SHIFT)
            } else {
                b
            };
            let d = if m.has_super() {
                c.spec_union(Modifiers::SUPER)
            } else {
                c
            };
            d == m
        }),
{
}

/// Taking the modifiers off a canonical spelling leaves the press's own
/// modifiers and the name of its key.
proof fn lemma_split_chord_text(k: KeyInput)
    ensures
        split_modifiers(chord_text(k), Modifiers::NONE) == (k.mods, key_text(k.key)),
{
    let m = k.mods;
    let t4 = key_text(k.key);
    let t3 = text_if(m.has_super(), "super+"@) + t4;
    let t2 = text_if(m.has_shift(), "shift+"@) + t3;
    let t1 = text_if(m.has_alt(), "alt+"@) + t2;
    reveal_modifiers();
    lemma_canonical_modifiers();
    let m0 = Modifiers::NONE;
    lemma_split_one(m.has_ctrl(), "ctrl"@, t1, Modifiers::CTRL, m0);
    let m1 = if m.has_ctrl() {
        m0.spec_union(Modifiers::CTRL)
    } else {
        m0
    };
    lemma_split_one(m.has_alt(), "alt"@, t2, Modifiers::ALT, m1);
    let m2 = if m.has_alt() {
        m1.spec_union(Modifiers::ALT)
    } else {
        m1
    };
    lemma_split_one(m.has_shift(), "shift"@, t3, Modifiers::SHIFT, m2);
    let m3 = if m.has_shift() {
        m2.spec_union(Modifiers::SHIFT)
    } else {
        m2
    };
    lemma_split_one(m.has_super(), "super"@, t4, Modifiers::SUPER, m3);
    let m4 = if m.has_super() {
        m3.spec_union(Modifiers::SUPER)
    } else {
        m3
    };
    lemma_key_text_is_no_modifier(k.key, m4);
    lemma_union_of_flags(m);
}

/// Parsing what [`KeyInput::to_string`] printed gives the press back, for every
/// normalized press whose key has a spelling that parses: function keys parse
/// from `f1` to `f24` only.
pub proof fn law_print_then_parse(k: KeyInput)
    requires
        k.is_normalized(),
        k.key matches Key::F(n) ==> 1 <= n <= 24,
    ensures
        parsed_chord(chord_text(k)) == Some(k),
{
    lemma_split_chord_text(k);
    lemma_key_round_trip(k.key);
}

/// The canonical spelling tells presses apart: two presses with the same
/// spelling are the same press, normalized or not.
pub proof fn law_spelling_is_injective(a: KeyInput, b: KeyInput)
    requires
        chord_text(a) == chord_text(b),
    ensures
        a == b,
{
    lemma_split_chord_text(a);
    lemma_split_chord_text(b);
    lemma_key_text_injective(a.key, b.key);
}

/// Whatever a text spells is normalized, and spelled canonically it parses to
/// the same press: parsing and printing settle after one round.
pub proof fn law_parse_is_normalized(s: Seq<char>)
    requires
        parsed_chord(s) is Some,
    ensures
        parsed_chord(s)->0.is_normalized(),
        parsed_chord(chord_text(parsed_chord(s)->0)) == parsed_chord(s),
{
    law_print_then_parse(parsed_chord(s)->0);
}

/// A canonical spelling is not empty, and a space stands nowhere in it but at the
/// end.
pub proof fn lemma_chord_spaces(k: KeyInput)
    ensures
        chord_text(k).len() > 0,
        forall|i: int| 0 <= i < chord_text(k).len() - 1 ==> #[trigger] chord_text(k)[i] != ' ',
{
    let m = k.mods;
    let t = key_text(k.key);
    assert(t.len() > 0 && forall|i: int| 0 <= i < t.len() - 1 ==> #[trigger] t[i] != ' ') by {
        match k.key {
            Key::Char(c) => {},
            Key::F(n) => {
                lemma_decimal_round_trip(n as nat);
            },
            _ => {
                reveal_names();
            },
        }
    }
    reveal_modifiers();
    let t3 = text_if(m.has_super(), "super+"@) + t;
    lemma_prefix_has_no_space(m.has_super(), "super+"@, t);
    let t2 = text_if(m.has_shift(), "shift+"@) + t3;
    lemma_prefix_has_no_space(m.has_shift(), "shift+"@, t3);
    let t1 = text_if(m.has_alt(), "alt+"@) + t2;
    lemma_prefix_has_no_space(m.has_alt(), "alt+"@, t2);
    lemma_prefix_has_no_space(m.has_ctrl(), "ctrl+"@, t1);
}

/// A token without a space in front of a text adds none.
proof fn lemma_prefix_has_no_space(flag: bool, token: Seq<char>, t: Seq<char>)
    requires
        t.len() > 0,
        forall|i: int| 0 <= i < token.len() ==> #[trigger] token[i] != ' ',
        forall|i: int| 0 <= i < t.len() - 1 ==> #[trigger] t[i] != ' ',
    ensures
        (text_if(flag, token) + t).len() > 0,
        forall|i: int|
            0 <= i < (text_if(flag, token) + t).len() - 1 ==> #[trigger] (text_if(flag, token)
                + t)[i] != ' ',
{
    let p = text_if(flag, token);
    let all = p + t;
    assert forall|i: int| 0 <= i < all.len() - 1 implies #[trigger] all[i] != ' ' by {
        if i < p.len() {
            assert(all[i] == token[i]);
        } else {
            assert(all[i] == t[i - p.len()]);
        }
    }
}

/// The text is empty, or ends a token: what follows it is read as a token of its own.
pub open spec fn ends_token(p: Seq<char>) -> bool {
    p.len() == 0 || p.last() == '+'
}

/// The first `+` is one, and there is none before it.
proof fn lemma_plus_is_there(s: Seq<char>)
    ensures
        plus_at(s) <= s.len(),
        plus_at(s) < s.len() ==> s[plus_at(s) as int] == '+',
        forall|j: int| 0 <= j < plus_at(s) ==> s[j] != '+',
    decreases s.len(),
{
    if s.len() > 0 && s[0] != '+' {
        lemma_plus_is_there(s.drop_first());
        assert forall|j: int| 0 <= j < plus_at(s) implies s[j] != '+' by {
            if j > 0 {
                assert(s.drop_first()[j - 1] == s[j]);
            }
        }
    }
}

/// Tokens in front of a text are taken off it as they are without it: either all of them
/// are modifiers, or what is left of them stays in front of the text.
proof fn lemma_split_front(p: Seq<char>, q: Seq<char>, mods: Modifiers)
    requires
        ends_token(p),
    ensures
        ({
            let (m, tail) = split_modifiers(p, mods);
            &&& ends_token(tail)
            &&& split_modifiers(p + q, mods) == (if tail.len() == 0 {
                split_modifiers(q, m)
            } else {
                (m, tail + q)
            })
        }),
    decreases p.len(),
{
    if p.len() == 0 {
        assert(p + q =~= q);
        assert(split_modifiers(p, mods) == (mods, p));
    } else {
        let i = plus_at(p) as int;
        lemma_plus_is_there(p);
        if i == p.len() {
            assert(p[p.len() - 1] != '+');
        }
        lemma_plus_at(p + q, i);
        assert((p + q).take(i) =~= p.take(i));
        match modifier_named(p.take(i)) {
            Some(m) => {
                let rest = p.skip(i + 1);
                assert((p + q).skip(i + 1) =~= rest + q);
                if rest.len() > 0 {
                    assert(rest.last() == p.last());
                }
                lemma_split_front(rest, q, mods.spec_union(m));
            },
            None => {},
        }
    }
}

/// No key name holds a `+`.
proof fn lemma_names_have_no_plus(t: Seq<char>)
    ensures
        named_key(t) is Some ==> forall|i: int| 0 <= i < t.len() ==> #[trigger] t[i] != '+',
{
    reveal_names();
}

/// Behind a token that is no modifier, a text that does not begin with a digit is no key.
proof fn lemma_blocked(tail: Seq<char>, q: Seq<char>)
    requires
        tail.len() > 0,
        tail.last() == '+',
        q.len() > 0,
        !('0' <= lower_char(q[0]) <= '9'),
    ensures
        key_named(tail + q) is None,
{
    let token = tail + q;
    let t = lower_text(token);
    let n = tail.len() as int;
    assert(t[n - 1] == lower_char('+'));
    lemma_names_have_no_plus(t);
    assert(t[n] == lower_char(q[0]));
    if t[0] == 'f' {
        let s = t.drop_first();
        assert(n >= 2);
        if s[0] == '+' {
            assert(s.drop_first()[n - 2] == t[n]);
            lemma_bad_digit(s.drop_first(), n - 2);
        } else {
            assert(s[n - 1] == t[n]);
            lemma_bad_digit(s, n - 1);
        }
    }
}

/// A text without a `+`, behind tokens, is the key of the press that they spell.
proof fn lemma_key_behind(p: Seq<char>, t: Seq<char>)
    requires
        ends_token(p),
        t.len() > 0,
        forall|j: int| 0 <= j < t.len() ==> t[j] != '+',
        !('0' <= lower_char(t[0]) <= '9'),
    ensures
        ({
            let (m, tail) = split_modifiers(p, Modifiers::NONE);
            parsed_chord(p + t) == if tail.len() > 0 {
                None
            } else {
                match key_named(t) {
                    Some(key) => Some(KeyInput { key, mods: normalized_mods(key, m) }),
                    None => None,
                }
            }
        }),
{
    let (m, tail) = split_modifiers(p, Modifiers::NONE);
    lemma_split_front(p, t, Modifiers::NONE);
    if tail.len() == 0 {
        lemma_plus_at(t, t.len() as int);
    } else {
        lemma_blocked(tail, t);
    }
}

/// The second text is the canonical name of the key that the first is another name of.
pub open spec fn is_key_alias(alias: Seq<char>, name: Seq<char>) -> bool {
    ||| alias == "space"@ && name == seq![' ']
    ||| alias == "return"@ && name == "enter"@
    ||| alias == "escape"@ && name == "esc"@
    ||| alias == "del"@ && name == "delete"@
    ||| alias == "ins"@ && name == "insert"@
    ||| alias == "pgup"@ && name == "pageup"@
    ||| alias == "pgdn"@ && name == "pagedown"@
}

/// The second text is the canonical name of the modifier that the first is another name
/// of.
pub open spec fn is_modifier_alias(alias: Seq<char>, name: Seq<char>) -> bool {
    ||| alias == "control"@ && name == "ctrl"@
    ||| alias == "opt"@ && name == "alt"@
    ||| alias == "option"@ && name == "alt"@
    ||| alias == "cmd"@ && name == "super"@
    ||| alias == "win"@ && name == "super"@
    ||| alias == "meta"@ && name == "super"@
}

/// An alias of a key spells what the canonical name spells, in any case, whatever
/// modifiers stand in front.
pub proof fn law_key_alias_spells_its_key(
    p: Seq<char>,
    alias: Seq<char>,
    written: Seq<char>,
    name: Seq<char>,
)
    requires
        ends_token(p),
        is_key_alias(alias, name),
        lower_text(written) == alias,
    ensures
        parsed_chord(p + written) == parsed_chord(p + name),
        key_named(written) is Some,
{
    reveal_names();
    lemma_lower_keeps_plus(written);
    assert forall|j: int| 0 <= j < written.len() implies written[j] != '+' by {
        assert(lower_text(written)[j] == lower_char(written[j]));
        assert(alias[j] != '+');
    }
    assert(written.len() == alias.len());
    assert(lower_text(written)[0] == lower_char(written[0]));
    lemma_key_behind(p, written);
    lemma_key_behind(p, name);
    lemma_alias_key(alias, name);
    if name.len() == 1 {
        lemma_short_text_is_no_name(lower_text(name));
        assert(lower_text(name)[0] == ' ');
    } else {
        assert(lower_text(name) =~= name);
    }
}

/// Lowercasing neither makes a `+` nor loses one.
proof fn lemma_lower_keeps_plus(s: Seq<char>)
    ensures
        forall|j: int| 0 <= j < s.len() ==> (#[trigger] lower_text(s)[j] == '+' <==> s[j] == '+'),
{
}

/// The names of keys that are aliases name the same key.
#[verifier::rlimit(40)]
proof fn lemma_alias_key(alias: Seq<char>, name: Seq<char>)
    requires
        is_key_alias(alias, name),
    ensures
        named_key(alias) is Some,
        name.len() > 1 ==> named_key(alias) == named_key(name),
        name.len() == 1 ==> named_key(alias) == Some(Key::Char(' ')),
{
    reveal_names();
    assert(alias[0] == alias[0] && alias[1] == alias[1] && alias[2] == alias[2]);
    if name.len() > 1 {
        assert(name[0] == name[0] && name[1] == name[1] && name[2] == name[2]);
    }
}

/// An alias of a modifier means what the canonical name means, in any case, wherever
/// among the modifiers it stands.
pub proof fn law_modifier_alias_is_its_modifier(
    p: Seq<char>,
    alias: Seq<char>,
    written: Seq<char>,
    name: Seq<char>,
    rest: Seq<char>,
)
    requires
        ends_token(p),
        is_modifier_alias(alias, name) || (alias == name && (name == "ctrl"@ || name == "alt"@
            || name == "shift"@ || name == "super"@)),
        lower_text(written) == alias,
    ensures
        parsed_chord(p + (written.push('+') + rest)) == parsed_chord(p + (name.push('+') + rest)),
        modifier_named(written) is Some,
{
    reveal_modifiers();
    let (m, tail) = split_modifiers(p, Modifiers::NONE);
    let x = written.push('+') + rest;
    let y = name.push('+') + rest;
    lemma_lower_keeps_plus(written);
    lemma_modifier_names_have_no_plus(alias);
    assert forall|j: int| 0 <= j < written.len() implies written[j] != '+' by {
        assert(lower_text(written)[j] == lower_char(written[j]));
        assert(alias[j] != '+');
    }
    assert(written.len() == alias.len());
    assert(lower_text(written)[0] == lower_char(written[0]));
    assert(x[0] == written[0] && y[0] == name[0]);
    lemma_split_front(p, x, Modifiers::NONE);
    lemma_split_front(p, y, Modifiers::NONE);
    lemma_alias_modifier(alias, name);
    assert(lower_text(name) =~= name);
    if tail.len() > 0 {
        lemma_blocked(tail, x);
        lemma_blocked(tail, y);
    } else {
        let named = modifier_named(name)->0;
        lemma_split_one(true, written, rest, named, m);
        lemma_split_one(true, name, rest, named, m);
    }
}

/// The names of modifiers that are aliases name the same modifier.
#[verifier::rlimit(40)]
proof fn lemma_alias_modifier(alias: Seq<char>, name: Seq<char>)
    requires
        is_modifier_alias(alias, name) || (alias == name && (name == "ctrl"@ || name == "alt"@
            || name == "shift"@ || name == "super"@)),
    ensures
        lower_text(alias) == alias,
        modifier_named(alias) == modifier_named(name),
        modifier_named(alias) is Some,
{
    lemma_canonical_modifiers();
    reveal_modifiers();
    assert(lower_text(alias) =~= alias);
    assert(lower_text(name) =~= name);
    assert(alias[0] == alias[0] && alias[1] == alias[1] && alias[2] == alias[2]);
}

/// Modifiers may come in any order, and more than once.
pub proof fn law_modifiers_in_any_order(
    a: Seq<char>,
    b: Seq<char>,
    rest: Seq<char>,
)
    requires
        modifier_named(a) is Some,
        modifier_named(b) is Some,
    ensures
        parsed_chord(a.push('+') + (b.push('+') + rest)) == parsed_chord(
            b.push('+') + (a.push('+') + rest),
        ),
        parsed_chord(a.push('+') + (a.push('+') + rest)) == parsed_chord(a.push('+') + rest),
{
    let none = Modifiers::NONE;
    let m = modifier_named(a)->0;
    let n = modifier_named(b)->0;
    lemma_modifiers_have_no_plus(a);
    lemma_modifiers_have_no_plus(b);
    lemma_split_one(true, a, b.push('+') + rest, m, none);
    lemma_split_one(true, b, rest, n, none.spec_union(m));
    lemma_split_one(true, b, a.push('+') + rest, n, none);
    lemma_split_one(true, a, rest, m, none.spec_union(n));
    lemma_split_one(true, a, a.push('+') + rest, m, none);
    lemma_split_one(true, a, rest, m, none.spec_union(m));
    lemma_split_one(true, a, rest, m, none);
}

/// No name of a modifier in small letters holds a `+`.
proof fn lemma_modifier_names_have_no_plus(t: Seq<char>)
    requires
        ({
            ||| t == "ctrl"@
            ||| t == "control"@
            ||| t == "alt"@
            ||| t == "opt"@
            ||| t == "option"@
            ||| t == "shift"@
            ||| t == "cmd"@
            ||| t == "super"@
            ||| t == "win"@
            ||| t == "meta"@
        }),
    ensures
        forall|j: int| 0 <= j < t.len() ==> #[trigger] t[j] != '+',
{
    reveal_modifiers();
    assert(forall|j: int| 0 <= j < "ctrl"@.len() ==> #[trigger] "ctrl"@[j] != '+');
    assert(forall|j: int| 0 <= j < "control"@.len() ==> #[trigger] "control"@[j] != '+');
    assert(forall|j: int| 0 <= j < "alt"@.len() ==> #[trigger] "alt"@[j] != '+');
    assert(forall|j: int| 0 <= j < "opt"@.len() ==> #[trigger] "opt"@[j] != '+');
    assert(forall|j: int| 0 <= j < "option"@.len() ==> #[trigger] "option"@[j] != '+');
    assert(forall|j: int| 0 <= j < "shift"@.len() ==> #[trigger] "shift"@[j] != '+');
    assert(forall|j: int| 0 <= j < "cmd"@.len() ==> #[trigger] "cmd"@[j] != '+');
    assert(forall|j: int| 0 <= j < "super"@.len() ==> #[trigger] "super"@[j] != '+');
    assert(forall|j: int| 0 <= j < "win"@.len() ==> #[trigger] "win"@[j] != '+');
    assert(forall|j: int| 0 <= j < "meta"@.len() ==> #[trigger] "meta"@[j] != '+');
}

/// No modifier name holds a `+`.
proof fn lemma_modifiers_have_no_plus(token: Seq<char>)
    requires
        modifier_named(token) is Some,
    ensures
        forall|j: int| 0 <= j < token.len() ==> token[j] != '+',
{
    let t = lower_text(token);
    lemma_lower_keeps_plus(token);
    lemma_modifier_names_have_no_plus(t);
    assert forall|j: int| 0 <= j < token.len() implies token[j] != '+' by {
        assert(t[j] != '+');
    }
}

/// Case does not matter but for a glyph: a word that is longer than one character spells
/// the same key in any case.
pub proof fn law_case_does_not_matter(p: Seq<char>, t: Seq<char>, u: Seq<char>)
    requires
        ends_token(p),
        t.len() > 1,
        forall|j: int| 0 <= j < t.len() ==> t[j] != '+',
        lower_text(t) == lower_text(u),
    ensures
        parsed_chord(p + t) == parsed_chord(p + u),
{
    let (m, tail) = split_modifiers(p, Modifiers::NONE);
    lemma_lower_keeps_plus(t);
    lemma_lower_keeps_plus(u);
    assert(lower_text(t).len() == lower_text(u).len());
    assert forall|j: int| 0 <= j < u.len() implies u[j] != '+' by {
        assert(lower_text(t)[j] != '+');
    }
    lemma_split_front(p, t, Modifiers::NONE);
    lemma_split_front(p, u, Modifiers::NONE);
    lemma_plus_at(t, t.len() as int);
    lemma_plus_at(u, u.len() as int);
    assert(lower_text(tail + t) =~= lower_text(tail) + lower_text(t));
    assert(lower_text(tail + u) =~= lower_text(tail) + lower_text(u));
}

/// A character stands for itself, case and all, whatever modifiers stand in front: none
/// is taken for the name of another key.
pub proof fn law_glyph_spells_itself(p: Seq<char>, c: char)
    requires
        ends_token(p),
        split_modifiers(p, Modifiers::NONE).1.len() == 0,
    ensures
        parsed_chord(p.push(c)) matches Some(k) && k.key == Key::Char(c),
{
    let t = seq![c];
    lemma_split_front(p, t, Modifiers::NONE);
    assert(p + t =~= p.push(c));
    lemma_key_text_is_no_modifier(Key::Char(c), split_modifiers(p, Modifiers::NONE).0);
    lemma_key_round_trip(Key::Char(c));
}

/// There are no other key names: what a text without a `+` spells is a character that
/// it consists of, a function key from 1 to 24 by its number, or a key that it is the
/// canonical name or an alias of, in any case; and it holds no modifiers.
pub proof fn law_there_are_no_other_keys(s: Seq<char>)
    requires
        forall|j: int| 0 <= j < s.len() ==> s[j] != '+',
        parsed_chord(s) is Some,
    ensures
        ({
            let k = parsed_chord(s)->0;
            let t = lower_text(s);
            &&& k.mods == Modifiers::NONE
            &&& match k.key {
                Key::Char(c) => s == seq![c] || (is_key_alias(t, seq![c])),
                Key::F(n) => 1 <= n <= 24 && s.len() >= 2 && (s[0] == 'f' || s[0] == 'F')
                    && digits_value(s.drop_first()) == Some(n as nat),
                key => t == key_text(key) || is_key_alias(t, key_text(key)),
            }
        }),
{
    let t = lower_text(s);
    lemma_plus_at(s, s.len() as int);
    if named_key(t) is None {
        if function_key(t) is Some {
            lemma_lower_keeps_plus(s);
            let rest = t.drop_first();
            assert(rest.len() > 0);
            assert(rest[0] == lower_text(s)[1]);
            assert(t[0] == lower_char(s[0]));
            lemma_digits_lower(s.drop_first());
            assert(lower_text(s.drop_first()) =~= rest);
        } else {
            assert(s =~= seq![s[0]]);
        }
    }
}

/// Lowercasing does not change the number that a text spells.
proof fn lemma_digits_lower(s: Seq<char>)
    ensures
        digits_value(lower_text(s)) == digits_value(s),
    decreases s.len(),
{
    if s.len() > 0 {
        lemma_digits_lower(s.drop_last());
        assert(lower_text(s).drop_last() =~= lower_text(s.drop_last()));
    }
}

/// There are no other modifier names: a token that means a modifier is its canonical name
/// or an alias of it, in any case.
pub proof fn law_there_are_no_other_modifiers(token: Seq<char>)
    requires
        modifier_named(token) is Some,
    ensures
        ({
            let t = lower_text(token);
            let m = modifier_named(token)->0;
            ||| m == Modifiers::CTRL && (t == "ctrl"@ || is_modifier_alias(t, "ctrl"@))
            ||| m == Modifiers::ALT && (t == "alt"@ || is_modifier_alias(t, "alt"@))
            ||| m == Modifiers::SHIFT && t == "shift"@
            ||| m == Modifiers::SUPER && (t == "super"@ || is_modifier_alias(t, "super"@))
        }),
{
}

/// A leading token that is no modifier is no part of a chord: but for a function key whose
/// number has a sign, such a text spells nothing.
pub proof fn law_unknown_modifier_spells_nothing(token: Seq<char>, rest: Seq<char>)
    requires
        forall|j: int| 0 <= j < token.len() ==> token[j] != '+',
        modifier_named(token) is None,
        token.len() > 0,
        rest.len() > 0,
        !('0' <= rest[0] <= '9'),
    ensures
        parsed_chord(token.push('+') + rest) is None,
{
    let tail = token.push('+');
    let s = tail + rest;
    lemma_plus_at(s, token.len() as int);
    assert(s.take(token.len() as int) =~= token);
    lemma_blocked(tail, rest);
}

/// A name of a key, in any case, spells that key.
pub proof fn law_names_name_their_keys(t: Seq<char>)
    ensures
        lower_text(t) == "tab"@ ==> key_named(t) == Some(Key::Tab),
        lower_text(t) == "enter"@ ==> key_named(t) == Some(Key::Enter),
        lower_text(t) == "esc"@ ==> key_named(t) == Some(Key::Esc),
        lower_text(t) == "backspace"@ ==> key_named(t) == Some(Key::Backspace),
        lower_text(t) == "delete"@ ==> key_named(t) == Some(Key::Delete),
        lower_text(t) == "insert"@ ==> key_named(t) == Some(Key::Insert),
        lower_text(t) == "home"@ ==> key_named(t) == Some(Key::Home),
        lower_text(t) == "end"@ ==> key_named(t) == Some(Key::End),
        lower_text(t) == "pageup"@ ==> key_named(t) == Some(Key::PageUp),
        lower_text(t) == "pagedown"@ ==> key_named(t) == Some(Key::PageDown),
        lower_text(t) == "up"@ ==> key_named(t) == Some(Key::Up),
        lower_text(t) == "down"@ ==> key_named(t) == Some(Key::Down),
        lower_text(t) == "left"@ ==> key_named(t) == Some(Key::Left),
        lower_text(t) == "right"@ ==> key_named(t) == Some(Key::Right),
        lower_text(t) == "space"@ ==> key_named(t) == Some(Key::Char(' ')),
{
    lemma_names_round_trip(Key::Tab);
    lemma_names_round_trip(Key::Enter);
    lemma_names_round_trip(Key::Esc);
    lemma_names_round_trip(Key::Backspace);
    lemma_names_round_trip(Key::Delete);
    lemma_names_round_trip(Key::Insert);
    lemma_names_round_trip(Key::Home);
    lemma_names_round_trip(Key::End);
    lemma_names_round_trip(Key::PageUp);
    lemma_names_round_trip(Key::PageDown);
    lemma_names_round_trip(Key::Up);
    lemma_names_round_trip(Key::Down);
    lemma_names_round_trip(Key::Left);
    lemma_names_round_trip(Key::Right);
    lemma_alias_key("space"@, seq![' ']);
}

/// A name of a modifier, in any case, names that modifier.
pub proof fn law_names_name_their_modifiers(t: Seq<char>)
    ensures
        lower_text(t) == "ctrl"@ ==> modifier_named(t) == Some(Modifiers::CTRL),
        lower_text(t) == "alt"@ ==> modifier_named(t) == Some(Modifiers::ALT),
        lower_text(t) == "shift"@ ==> modifier_named(t) == Some(Modifiers::SHIFT),
        lower_text(t) == "super"@ ==> modifier_named(t) == Some(Modifiers::SUPER),
{
    lemma_canonical_modifiers();
    reveal_modifiers();
    assert(lower_text("ctrl"@) =~= "ctrl"@);
    assert(lower_text("alt"@) =~= "alt"@);
    assert(lower_text("shift"@) =~= "shift"@);
    assert(lower_text("super"@) =~= "super"@);
}

/// The canonical spelling has the modifiers in front, each followed by a `+`, in the fixed
/// order Control, Alt, Shift, Super: a modifier that comes before all that are held is
/// written in front of what is there, and a character without modifiers is itself.
pub proof fn law_spelling_has_modifiers_in_order(key: Key, mods: Modifiers)
    ensures
        !mods.spec_contains(Modifiers::CTRL) ==> chord_text(
            KeyInput { key, mods: mods.spec_union(Modifiers::CTRL) },
        ) == "ctrl+"@ + chord_text(KeyInput { key, mods }),
        mods == Modifiers::NONE || mods == Modifiers::SHIFT || mods == Modifiers::SUPER || mods
            == Modifiers::SHIFT_SUPER ==> chord_text(
            KeyInput { key, mods: mods.spec_union(Modifiers::ALT) },
        ) == "alt+"@ + chord_text(KeyInput { key, mods }),
        mods == Modifiers::NONE || mods == Modifiers::SUPER ==> chord_text(
            KeyInput { key, mods: mods.spec_union(Modifiers::SHIFT) },
        ) == "shift+"@ + chord_text(KeyInput { key, mods }),
        chord_text(KeyInput { key, mods: Modifiers::SUPER }) == "super+"@ + chord_text(
            KeyInput { key, mods: Modifiers::NONE },
        ),
        key matches Key::Char(c) ==> chord_text(KeyInput { key, mods: Modifiers::NONE }) == seq![c],
{
    let k = KeyInput { key, mods };
    let t = chord_text(k);
    let ctrl = chord_text(KeyInput { key, mods: mods.spec_union(Modifiers::CTRL) });
    let alt = chord_text(KeyInput { key, mods: mods.spec_union(Modifiers::ALT) });
    let shift = chord_text(KeyInput { key, mods: mods.spec_union(Modifiers::SHIFT) });
    if !mods.has_ctrl() {
        assert(ctrl =~= "ctrl+"@ + t);
        if !mods.has_alt() {
            assert(alt =~= "alt+"@ + t);
            if !mods.has_shift() {
                assert(shift =~= "shift+"@ + t);
            }
        }
    }
    let bare = KeyInput { key, mods: Modifiers::NONE };
    assert(chord_text(bare) =~= key_text(key));
    assert(chord_text(KeyInput { key, mods: Modifiers::SUPER }) =~= "super+"@ + key_text(key));
}

/// A text that spells no press is handed back in the error, which says whether it was empty.
pub proof fn law_parse_error_hands_the_text_back(s: Seq<char>)
    ensures
        parse_error(s).0 == s,
        parse_error(s).1 is Empty <==> s.len() == 0,
        s.len() == 0 ==> parsed_chord(s) is None,
{
    if s.len() == 0 {
        lemma_short_text_is_no_name(lower_text(s));
    }
}

/// Zeros, as characters.
pub open spec fn zero_chars(n: nat) -> Seq<char> {
    Seq::new(n, |i: int| '0')
}

/// Zeros in front of a number do not change it.
proof fn lemma_zeros_in_front(n: nat, zeros: nat)
    ensures
        digits_value(zero_chars(zeros) + decimal_text(n)) == Some(n),
    decreases n,
{
    let s = zero_chars(zeros) + decimal_text(n);
    lemma_decimal_round_trip(n);
    if n < 10 {
        lemma_zero_chars(zeros);
        assert(s.drop_last() =~= zero_chars(zeros));
        assert(s.last() == digit_char(n as int));
    } else {
        lemma_zeros_in_front(n / 10, zeros);
        assert(s.drop_last() =~= zero_chars(zeros) + decimal_text(n / 10));
        assert(s.last() == digit_char((n % 10) as int));
    }
}

/// Zeros spell zero.
proof fn lemma_zero_chars(n: nat)
    ensures
        digits_value(zero_chars(n)) == Some(0nat),
    decreases n,
{
    if n > 0 {
        let m = (n - 1) as nat;
        lemma_zero_chars(m);
        assert(zero_chars(n).drop_last() =~= zero_chars(m));
    }
}

/// A function key is spelled by its number behind an `f`, large or small; the number may have
/// zeros in front, and a sign.
pub proof fn law_function_keys_go_by_their_numbers(n: u8, large: bool, signed: bool, zeros: nat)
    requires
        1 <= n <= 24,
    ensures
        ({
            let f = if large {
                'F'
            } else {
                'f'
            };
            let sign = if signed {
                seq!['+']
            } else {
                Seq::empty()
            };
            parsed_chord(seq![f] + (sign + (zero_chars(zeros) + decimal_text(n as nat)))) == Some(
                KeyInput { key: Key::F(n), mods: Modifiers::NONE },
            )
        }),
{
    let f = if large {
        'F'
    } else {
        'f'
    };
    let sign = if signed {
        seq!['+']
    } else {
        Seq::empty()
    };
    let digits = zero_chars(zeros) + decimal_text(n as nat);
    let number = sign + digits;
    let s = seq![f] + number;
    let t = lower_text(s);
    lemma_decimal_round_trip(n as nat);
    lemma_zeros_in_front(n as nat, zeros);
    assert forall|i: int| 0 <= i < digits.len() implies '0' <= #[trigger] digits[i] <= '9' by {
        if i >= zeros {
            assert(digits[i] == decimal_text(n as nat)[i - zeros]);
        }
    }
    assert(digits.len() > 0);
    // A sign ends a first token, which is no modifier.
    if signed {
        assert(s[1] == '+');
        lemma_plus_at(s, 1);
        assert(s.take(1) =~= seq![f]);
        reveal_modifiers();
        assert(lower_text(s.take(1)).len() == 1);
        assert(number.drop_first() =~= digits);
    } else {
        assert(number =~= digits);
        assert forall|j: int| 0 <= j < s.len() implies s[j] != '+' by {
            if j > 0 {
                assert(s[j] == digits[j - 1]);
            }
        }
        lemma_plus_at(s, s.len() as int);
        assert(digits[0] != '+');
    }
    assert(t.drop_first() =~= number) by {
        assert forall|i: int| 0 <= i < number.len() implies lower_char(number[i]) == number[i] by {
            if i >= sign.len() {
                assert(number[i] == digits[i - sign.len()]);
            }
        }
    }
    assert(t[0] == 'f');
    assert(named_key(t) is None) by {
        if named_key(t) is Some {
            lemma_names_do_not_begin_with_f(t);
        }
    }
}

/// No key name begins with an `f`.
proof fn lemma_names_do_not_begin_with_f(t: Seq<char>)
    requires
        named_key(t) is Some,
    ensures
        t[0] != 'f',
{
    reveal_names();
}

} // verus!
