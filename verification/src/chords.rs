//! Terse constructors for the common "modifier + character" chords.
//!
//! They cover exactly the single-modifier-on-a-character case. Named keys and
//! multi-modifier chords are parsed from their canonical string, or built with
//! [`KeyInput::new`]. A bare `shift` + a character is deliberately absent: a sole
//! Shift on a character folds away.
use crate::grammar::{chord_text, law_print_then_parse, parsed_chord};
use crate::input::{Key, KeyInput, Modifiers};
use vstd::prelude::*;

verus! {

/// A character with no modifiers (e.g. `key('q')` → `q`).
#[must_use]
pub fn key(c: char) -> (k: KeyInput)
    ensures
        k == (KeyInput { key: Key::Char(c), mods: Modifiers::NONE }),
{
    KeyInput::normalized(Key::Char(c), Modifiers::NONE)
}

/// A character held with Control (e.g. `ctrl('s')` → `ctrl+s`).
#[must_use]
pub fn ctrl(c: char) -> (k: KeyInput)
    ensures
        k == (KeyInput { key: Key::Char(c), mods: Modifiers::CTRL }),
{
    KeyInput::normalized(Key::Char(c), Modifiers::CTRL)
}

/// A character held with Alt/Option (e.g. `alt('x')` → `alt+x`).
#[must_use]
pub fn alt(c: char) -> (k: KeyInput)
    ensures
        k == (KeyInput { key: Key::Char(c), mods: Modifiers::ALT }),
{
    KeyInput::normalized(Key::Char(c), Modifiers::ALT)
}

/// A constructed chord is the one that its canonical string parses to, so a binding
/// made in code and one read from a configuration meet.
pub proof fn law_constructed_chords_are_parsed(c: char)
    ensures
        parsed_chord(seq![c]) == Some(KeyInput { key: Key::Char(c), mods: Modifiers::NONE }),
        parsed_chord("ctrl+"@ + seq![c]) == Some(
            KeyInput { key: Key::Char(c), mods: Modifiers::CTRL },
        ),
        parsed_chord("alt+"@ + seq![c]) == Some(
            KeyInput { key: Key::Char(c), mods: Modifiers::ALT },
        ),
{
    let plain = KeyInput { key: Key::Char(c), mods: Modifiers::NONE };
    let held = KeyInput { key: Key::Char(c), mods: Modifiers::CTRL };
    let opt = KeyInput { key: Key::Char(c), mods: Modifiers::ALT };
    law_print_then_parse(plain);
    law_print_then_parse(held);
    law_print_then_parse(opt);
    assert(chord_text(plain) =~= seq![c]);
    assert(chord_text(held) =~= "ctrl+"@ + seq![c]);
    assert(chord_text(opt) =~= "alt+"@ + seq![c]);
}

} // verus!
