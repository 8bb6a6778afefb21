//! The parts of a press, as a diagnostic shows them.
use crate::decode::Decoded;
use crate::event::{code_of, code_text, quote_char, quoted_char};
use crate::input::{Key, KeyInput, Modifiers};
use crate::text::{copy_text, decimal_text, push_decimal, push_text};
use vstd::prelude::*;

verus! {

/// What a key is shown as.
pub open spec fn key_shown(key: Key) -> Seq<char> {
    match key {
        Key::Char(c) => "Char("@ + quoted_char(c) + ")"@,
        Key::F(n) => "F("@ + decimal_text(n as nat) + ")"@,
        Key::Enter => "Enter"@,
        Key::Esc => "Esc"@,
        Key::Tab => "Tab"@,
        Key::Backspace => "Backspace"@,
        Key::Delete => "Delete"@,
        Key::Insert => "Insert"@,
        Key::Home => "Home"@,
        Key::End => "End"@,
        Key::PageUp => "PageUp"@,
        Key::PageDown => "PageDown"@,
        Key::Up => "Up"@,
        Key::Down => "Down"@,
        Key::Left => "Left"@,
        Key::Right => "Right"@,
    }
}

/// What a key is shown as.
#[must_use]
pub fn show_key(key: Key) -> (s: String)
    ensures
        s@ == key_shown(key),
{
    match key {
        Key::Char(c) => {
            let mut out = copy_text("Char(");
            let q = quote_char(c);
            push_text(&mut out, q.as_str());
            push_text(&mut out, ")");
            out
        },
        Key::F(n) => {
            let mut out = copy_text("F(");
            push_decimal(&mut out, n as u64);
            push_text(&mut out, ")");
            out
        },
        Key::Enter => copy_text("Enter"),
        Key::Esc => copy_text("Esc"),
        Key::Tab => copy_text("Tab"),
        Key::Backspace => copy_text("Backspace"),
        Key::Delete => copy_text("Delete"),
        Key::Insert => copy_text("Insert"),
        Key::Home => copy_text("Home"),
        Key::End => copy_text("End"),
        Key::PageUp => copy_text("PageUp"),
        Key::PageDown => copy_text("PageDown"),
        Key::Up => copy_text("Up"),
        Key::Down => copy_text("Down"),
        Key::Left => copy_text("Left"),
        Key::Right => copy_text("Right"),
    }
}

/// The modifiers as a bit set: Control, Alt, Shift and Super from the lowest bit up.
pub open spec fn mods_bits(mods: Modifiers) -> nat {
    (if mods.has_ctrl() {
        1nat
    } else {
        0
    }) + (if mods.has_alt() {
        2nat
    } else {
        0
    }) + (if mods.has_shift() {
        4nat
    } else {
        0
    }) + (if mods.has_super() {
        8nat
    } else {
        0
    })
}

/// What a decoding is shown as.
pub open spec fn decoded_shown(d: Decoded) -> Seq<char> {
    match d {
        Decoded::Key { input, consumed } => "Key { input: KeyInput { key: "@ + key_shown(input.key)
            + ", mods: Modifiers("@ + decimal_text(mods_bits(input.mods)) + ") }, consumed: "@
            + decimal_text(consumed as nat) + " }"@,
        Decoded::Incomplete => "Incomplete"@,
        Decoded::Unrecognized => "Unrecognized"@,
    }
}

/// What a decoding is shown as.
#[must_use]
pub fn show_decoded(d: Decoded) -> (s: String)
    ensures
        s@ == decoded_shown(d),
{
    match d {
        Decoded::Key { input, consumed } => {
            let mods = input.mods;
            let mut bits: u64 = 0;
            if mods.contains(Modifiers::CTRL) {
                bits = bits + 1;
            }
            if mods.contains(Modifiers::ALT) {
                bits = bits + 2;
            }
            if mods.contains(Modifiers::SHIFT) {
                bits = bits + 4;
            }
            if mods.contains(Modifiers::SUPER) {
                bits = bits + 8;
            }
            let mut out = copy_text("Key { input: KeyInput { key: ");
            let key = show_key(input.key);
            push_text(&mut out, key.as_str());
            push_text(&mut out, ", mods: Modifiers(");
            push_decimal(&mut out, bits);
            push_text(&mut out, ") }, consumed: ");
            push_decimal(&mut out, consumed as u64);
            push_text(&mut out, " }");
            out
        },
        Decoded::Incomplete => copy_text("Incomplete"),
        Decoded::Unrecognized => copy_text("Unrecognized"),
    }
}

/// A key is shown by the name of its key code.
pub proof fn law_key_is_shown_as_its_code(key: Key)
    ensures
        key_shown(key) == code_text(code_of(key)),
{
}

/// The bits of a set of modifiers are those of its members: each has a bit of its own.
pub proof fn law_bits_add_up(a: Modifiers, b: Modifiers)
    requires
        a.spec_difference(b) == a,
    ensures
        mods_bits(a.spec_union(b)) == mods_bits(a) + mods_bits(b),
        mods_bits(Modifiers::CTRL) == 1,
        mods_bits(Modifiers::ALT) == 2,
        mods_bits(Modifiers::SHIFT) == 4,
        mods_bits(Modifiers::SUPER) == 8,
{
    let f = a.spec_flags();
    let g = b.spec_flags();
    assert(!(f.ctrl && g.ctrl) && !(f.alt && g.alt) && !(f.shift && g.shift) && !(f.sup && g.sup))
        by {
        Modifiers::law_sets_are_their_flags(a.spec_difference(b), f);
        if f.ctrl && g.ctrl {
            assert(!a.spec_difference(b).has_ctrl());
        }
        if f.alt && g.alt {
            assert(!a.spec_difference(b).has_alt());
        }
        if f.shift && g.shift {
            assert(!a.spec_difference(b).has_shift());
        }
        if f.sup && g.sup {
            assert(!a.spec_difference(b).has_super());
        }
    }
}

} // verus!
