//! How a chord fares under the legacy 7-bit terminal encoding.
//!
//! Terminals without an enhanced keyboard protocol encode keys with the old C0
//! control-code scheme, which cannot carry every chord:
//!
//! - `ctrl+shift+<letter>` is the same byte as `ctrl+<letter>`.
//! - `ctrl+i` ≡ `tab`, `ctrl+m` ≡ `enter`, `ctrl+[` ≡ `esc`.
//! - `super` has no legacy encoding at all.
//!
//! [`KeyInput::legacy_form`] reports this structural fact from the chord alone.
use crate::grammar::{chord_text, law_spelling_is_injective};
use crate::input::{Key, KeyInput, Modifiers};
use crate::keymap::Keymap;
use crate::names::{ascending, lemma_ascending_distinct, row_views, NameMap};
use crate::table::{lemma_table_dom, lemma_table_row};
use crate::text::text_before;
use vstd::prelude::*;

verus! {

/// How a [`KeyInput`] survives the legacy 7-bit C0 terminal encoding,
/// independent of any enhanced protocol.
#[derive(Debug, Clone, Copy, PartialEq, Eq, Structural)]
pub enum LegacyForm {
    /// Encodable and distinguishable as-is under legacy C0.
    Representable,
    /// Loses information under legacy C0 and becomes indistinguishable from this
    /// other chord (e.g. `ctrl+shift+s` → `ctrl+s`, `ctrl+i` → `tab`).
    CollapsesTo(KeyInput),
    /// Has no legacy C0 encoding at all (any chord holding `super`).
    Unrepresentable,
}

/// The named key whose C0 byte is that of Control with the character.
pub open spec fn c0_alias(c: char) -> Option<Key> {
    if c == 'i' || c == 'I' {
        Some(Key::Tab)
    } else if c == 'm' || c == 'M' {
        Some(Key::Enter)
    } else if c == '[' {
        Some(Key::Esc)
    } else {
        None
    }
}

/// The chord that a legacy C0 terminal delivers for a chord, where that is
/// certain: Control and Shift are absorbed into the C0 byte of a named key, and
/// Shift is lost beside Control. Alt survives.
pub open spec fn collapsed(k: KeyInput) -> KeyInput {
    if k.mods.has_ctrl() && k.key is Char {
        match c0_alias(k.key->Char_0) {
            Some(named) => KeyInput {
                key: named,
                mods: k.mods.spec_difference(Modifiers::CTRL).spec_difference(Modifiers::SHIFT),
            },
            None => KeyInput { key: k.key, mods: k.mods.spec_difference(Modifiers::SHIFT) },
        }
    } else {
        k
    }
}

/// The legacy form of a chord.
pub open spec fn legacy_form_of(k: KeyInput) -> LegacyForm {
    if k.mods.has_super() {
        LegacyForm::Unrepresentable
    } else if collapsed(k) == k {
        LegacyForm::Representable
    } else {
        LegacyForm::CollapsesTo(collapsed(k))
    }
}

/// The chord a legacy C0 terminal actually delivers for `(key, mods)`.
fn collapse(key: Key, mods: Modifiers) -> (k: KeyInput)
    ensures
        k == collapsed(KeyInput { key, mods }),
{
    if mods.contains(Modifiers::CTRL) {
        if let Key::Char(c) = key {
            let aliased = if c == 'i' || c == 'I' {
                Some(Key::Tab)
            } else if c == 'm' || c == 'M' {
                Some(Key::Enter)
            } else if c == '[' {
                Some(Key::Esc)
            } else {
                None
            };
            if let Some(named) = aliased {
                let rest = mods.difference(Modifiers::CTRL).difference(Modifiers::SHIFT);
                return KeyInput::new(named, rest);
            }
            return KeyInput::new(key, mods.difference(Modifiers::SHIFT));
        }
    }
    KeyInput::new(key, mods)
}

impl KeyInput {
    /// Reports how this chord fares under the legacy 7-bit C0 terminal encoding.
    ///
    /// This is a structural fact that no terminal changes, and says nothing of
    /// reachability. A `Representable` chord has a legacy C0 encoding; whether it
    /// arrives on a given terminal is another matter.
    #[must_use]
    pub fn legacy_form(&self) -> (form: LegacyForm)
        ensures
            form == legacy_form_of(*self),
    {
        if self.mods.contains(Modifiers::SUPER) {
            return LegacyForm::Unrepresentable;
        }
        let c = collapse(self.key, self.mods);
        if c == *self {
            LegacyForm::Representable
        } else {
            LegacyForm::CollapsesTo(c)
        }
    }
}

/// What a chord collapses to is itself representable: following a collapse once
/// is enough.
pub proof fn law_collapse_is_representable(k: KeyInput)
    requires
        legacy_form_of(k) is CollapsesTo,
    ensures
        legacy_form_of(legacy_form_of(k)->CollapsesTo_0) == LegacyForm::Representable,
{
}

/// Super dominates: a chord is unrepresentable exactly when it holds Super.
pub proof fn law_super_is_unrepresentable(k: KeyInput)
    ensures
        legacy_form_of(k) == LegacyForm::Unrepresentable <==> k.mods.has_super(),
{
}

/// A bound chord that will not survive a legacy 7-bit (C0) terminal, reported by
/// [`legacy_lints`]. Chords are rendered in canonical form.
#[derive(Debug, Clone, PartialEq, Eq)]
pub enum LegacyLint {
    /// The chord holds `super`: a legacy terminal can never deliver it.
    Unrepresentable {
        /// The bound chord, in canonical form (e.g. `"super+s"`).
        chord: String,
    },
    /// On a legacy C0 terminal the chord is indistinguishable from another, so a
    /// binding to it also fires on `collapses_to`.
    CollapsesTo {
        /// The bound chord, in canonical form.
        chord: String,
        /// The chord it is indistinguishable from, in canonical form.
        collapses_to: String,
    },
}

impl View for LegacyLint {
    /// The chord, and what it collapses to; nothing for a chord that cannot be
    /// delivered.
    type V = (Seq<char>, Option<Seq<char>>);

    open spec fn view(&self) -> (Seq<char>, Option<Seq<char>>) {
        match *self {
            LegacyLint::Unrepresentable { chord } => (chord@, None),
            LegacyLint::CollapsesTo { chord, collapses_to } => (chord@, Some(collapses_to@)),
        }
    }
}

/// The lint on a bound chord, if there is one.
pub open spec fn lint_of(k: KeyInput) -> Option<(Seq<char>, Option<Seq<char>>)> {
    match legacy_form_of(k) {
        LegacyForm::Representable => None,
        LegacyForm::Unrepresentable => Some((chord_text(k), None)),
        LegacyForm::CollapsesTo(target) => Some((chord_text(k), Some(chord_text(target)))),
    }
}

/// The lints are those of the bound chords, in ascending order of chord.
pub open spec fn lints_of<A>(
    lints: Seq<(Seq<char>, Option<Seq<char>>)>,
    m: Map<KeyInput, A>,
) -> bool {
    &&& ascending(lints)
    &&& forall|k: KeyInput| #[trigger]
        m.contains_key(k) && lint_of(k) is Some ==> lints.contains(lint_of(k)->0)
    &&& forall|i: int| 0 <= i < lints.len() ==> is_owed(#[trigger] lints[i], m)
}

/// The lint is that of some bound chord.
pub open spec fn is_owed<A>(l: (Seq<char>, Option<Seq<char>>), m: Map<KeyInput, A>) -> bool {
    exists|k: KeyInput| #[trigger] m.contains_key(k) && lint_of(k) == Some(l)
}

/// The views of a list of lints.
pub open spec fn lint_views(lints: Seq<LegacyLint>) -> Seq<(Seq<char>, Option<Seq<char>>)> {
    lints.map_values(|l: LegacyLint| l@)
}

/// The lint on one chord.
fn lint(k: &KeyInput) -> (l: Option<LegacyLint>)
    ensures
        match l {
            Some(l) => lint_of(*k) == Some(l@),
            None => lint_of(*k) is None,
        },
{
    match k.legacy_form() {
        LegacyForm::Representable => None,
        LegacyForm::Unrepresentable => Some(LegacyLint::Unrepresentable { chord: k.to_string() }),
        LegacyForm::CollapsesTo(target) => Some(
            LegacyLint::CollapsesTo { chord: k.to_string(), collapses_to: target.to_string() },
        ),
    }
}

/// Reports every bound chord in `keymap` that will not survive a legacy 7-bit
/// (C0) terminal, derived purely from [`KeyInput::legacy_form`].
///
/// This is **opt-in**: nothing computes it unless you call it. The result is
/// sorted by chord (canonical form).
#[must_use]
pub fn legacy_lints<A>(keymap: &Keymap<A>) -> (lints: Vec<LegacyLint>)
    ensures
        lints_of(lint_views(lints@), keymap@),
{
    let rows = keymap.iter();
    let mut sorted: NameMap<LegacyLint> = NameMap::new();
    let mut i: usize = 0;
    while i < rows.len()
        invariant
            i <= rows.len(),
            forall|j: int|
                0 <= j < i && lint_of(*(#[trigger] rows@[j]).0) is Some ==> sorted@.contains_key(
                    chord_text(*rows@[j].0),
                ) && lint_of(*rows@[j].0) == Some(sorted@[chord_text(*rows@[j].0)]@),
            forall|c: Seq<char>| #[trigger]
                sorted@.contains_key(c) ==> sorted@[c]@.0 == c && exists|j: int|
                    0 <= j < i && lint_of(*(#[trigger] rows@[j]).0) == Some(sorted@[c]@),
        decreases rows.len() - i,
    {
        let ghost before = sorted@;
        let k: &KeyInput = rows[i].0;
        match lint(k) {
            Some(l) => {
                sorted.insert(k.to_string(), l);
                proof {
                    assert forall|c: Seq<char>| #[trigger] sorted@.contains_key(c) implies sorted@[c]@.0
                        == c && exists|j: int|
                        0 <= j < i + 1 && lint_of(*(#[trigger] rows@[j]).0) == Some(sorted@[c]@) by {
                        if c == chord_text(*k) {
                            assert(lint_of(*rows@[i as int].0) == Some(sorted@[c]@));
                        } else {
                            assert(before.contains_key(c));
                            let j = choose|j: int|
                                0 <= j < i && lint_of(*(#[trigger] rows@[j]).0) == Some(
                                    before[c]@,
                                );
                            assert(lint_of(*rows@[j].0) == Some(sorted@[c]@));
                        }
                    }
                    assert forall|j: int|
                        0 <= j < i + 1 && lint_of(*(#[trigger] rows@[j]).0) is Some implies sorted@.contains_key(
                        chord_text(*rows@[j].0),
                    ) && lint_of(*rows@[j].0) == Some(sorted@[chord_text(*rows@[j].0)]@) by {
                        if chord_text(*rows@[j].0) == chord_text(*k) {
                            law_spelling_is_injective(*rows@[j].0, *k);
                        }
                    }
                }
            },
            None => {},
        }
        i = i + 1;
    }
    let ghost m = sorted@;
    let rows2 = sorted.into_rows();
    let ghost v = row_views(rows2@);
    let mut lints: Vec<LegacyLint> = Vec::new();
    let mut rest = rows2;
    proof {
        lemma_ascending_distinct(v);
        lemma_table_dom(v);
    }
    while rest.len() > 0
        invariant
            rest@.len() <= rows2@.len(),
            rest@ == rows2@.skip(lints.len() as int),
            lints.len() + rest.len() == rows2@.len(),
            forall|j: int| 0 <= j < lints.len() ==> #[trigger] lints@[j] == rows2@[j].1,
        decreases rest.len(),
    {
        let (_, l) = rest.remove(0);
        lints.push(l);
        assert(rest@ =~= rows2@.skip(lints.len() as int));
    }
    proof {
        let out = lint_views(lints@);
        assert forall|j: int| 0 <= j < out.len() implies m.contains_key(v[j].0) && m[v[j].0]
            == lints@[j] && (#[trigger] out[j]).0 == v[j].0 by {
            lemma_table_row(v, j);
        }
        assert(ascending(out)) by {
            assert forall|a: int, b: int| 0 <= a < b < out.len() implies text_before(
                (#[trigger] out[a]).0,
                (#[trigger] out[b]).0,
            ) by {
                assert(text_before(v[a].0, v[b].0));
            }
        }
        assert forall|k: KeyInput| #[trigger]
            keymap@.contains_key(k) && lint_of(k) is Some implies out.contains(lint_of(k)->0) by {
            let j = choose|j: int| 0 <= j < rows.len() && *(#[trigger] rows@[j]).0 == k;
            let c = chord_text(k);
            assert(m.contains_key(c));
            let n = choose|n: int| 0 <= n < v.len() && (#[trigger] v[n]).0 == c;
            assert(out[n] == m[c]@);
        }
        assert forall|n: int| 0 <= n < out.len() implies is_owed(#[trigger] out[n], keymap@) by {
            let c = v[n].0;
            assert(m.contains_key(c));
            let j = choose|j: int| 0 <= j < rows.len() && lint_of(*(#[trigger] rows@[j]).0) == Some(m[c]@);
            assert(keymap@.contains_key(*rows@[j].0));
        }
    }
    lints
}

/// The byte that a legacy terminal sends for Control with a character: the low five bits
/// of the ASCII code of a letter or of `[`. Of other characters nothing is said.
pub open spec fn control_byte(c: char) -> Option<int> {
    if 'a' <= c <= 'z' {
        Some(c as int - 0x60)
    } else if 'A' <= c <= 'Z' {
        Some(c as int - 0x40)
    } else if c == '[' {
        Some(0x1b)
    } else {
        None
    }
}

/// The byte that a legacy terminal sends for a named key with a C0 code.
pub open spec fn named_byte(key: Key) -> Option<int> {
    match key {
        Key::Tab => Some(0x09),
        Key::Enter => Some(0x0d),
        Key::Esc => Some(0x1b),
        _ => None,
    }
}

/// A chord without Super is representable unless it holds Control with a character, and
/// either the byte of the two is that of a named key, or Shift is held too. It then
/// collapses to the named key with that byte, or to the same character without Shift. Alt
/// survives, and nothing but Control and Shift is lost.
pub proof fn law_legacy_form_goes_by_the_byte(k: KeyInput)
    requires
        !k.mods.spec_contains(Modifiers::SUPER),
    ensures
        !(k.key is Char) || !k.mods.spec_contains(Modifiers::CTRL) ==> legacy_form_of(k)
            == LegacyForm::Representable,
        k.key is Char && k.mods.spec_contains(Modifiers::CTRL) ==> {
            let byte = control_byte(k.key->Char_0);
            let taken = byte == Some(0x09int) || byte == Some(0x0dint) || byte == Some(0x1bint);
            let shifted = k.mods.spec_contains(Modifiers::SHIFT);
            let rest = if k.mods.spec_contains(Modifiers::ALT) {
                Modifiers::ALT
            } else {
                Modifiers::NONE
            };
            &&& legacy_form_of(k) is CollapsesTo <==> taken || shifted
            &&& legacy_form_of(k) is Representable <==> !taken && !shifted
            &&& legacy_form_of(k) matches LegacyForm::CollapsesTo(twin) ==> {
                &&& taken ==> named_byte(twin.key) == byte && twin.mods == rest
                &&& !taken ==> twin.key == k.key && twin.mods == rest.spec_union(Modifiers::CTRL)
            }
        },
{
}

/// On a legacy terminal Shift is lost beside Control with a character: with and without
/// it, the same chord arrives.
pub proof fn law_shift_is_lost_beside_control(c: char, mods: Modifiers)
    requires
        mods.spec_contains(Modifiers::CTRL),
        !mods.spec_contains(Modifiers::SUPER),
    ensures
        ({
            let plain = KeyInput {
                key: Key::Char(c),
                mods: mods.spec_difference(Modifiers::SHIFT),
            };
            let shifted = KeyInput { key: Key::Char(c), mods: mods.spec_union(Modifiers::SHIFT) };
            legacy_form_of(shifted) == match legacy_form_of(plain) {
                LegacyForm::Representable => LegacyForm::CollapsesTo(plain),
                other => other,
            }
        }),
{
}

/// Every bound chord that a legacy terminal cannot deliver as it is has its lint, in words
/// the spelling of the chord and of what arrives in its place; no other chord has one.
pub proof fn law_lints_are_the_lossy_chords<A>(
    lints: Seq<(Seq<char>, Option<Seq<char>>)>,
    m: Map<KeyInput, A>,
    k: KeyInput,
)
    requires
        lints_of(lints, m),
    ensures
        m.contains_key(k) ==> match legacy_form_of(k) {
            LegacyForm::Unrepresentable => lints.contains((chord_text(k), None)),
            LegacyForm::CollapsesTo(twin) => lints.contains(
                (chord_text(k), Some(chord_text(twin))),
            ),
            LegacyForm::Representable => forall|i: int|
                0 <= i < lints.len() ==> (#[trigger] lints[i]).0 != chord_text(k),
        },
        !m.contains_key(k) ==> forall|i: int|
            0 <= i < lints.len() ==> (#[trigger] lints[i]).0 != chord_text(k),
        forall|i: int, j: int|
            0 <= i < j < lints.len() ==> text_before(
                (#[trigger] lints[i]).0,
                (#[trigger] lints[j]).0,
            ),
{
    if !m.contains_key(k) || legacy_form_of(k) is Representable {
        assert forall|i: int| 0 <= i < lints.len() implies (#[trigger] lints[i]).0 != chord_text(k) by {
            assert(is_owed(lints[i], m));
            let o = choose|o: KeyInput| #[trigger] m.contains_key(o) && lint_of(o) == Some(lints[i]);
            if lints[i].0 == chord_text(k) {
                law_spelling_is_injective(o, k);
            }
        }
    }
}

/// What a list of lints says is what each of them says, one by one: the chord, and what it
/// collapses to where it does.
pub proof fn law_lints_say_what_they_hold(lints: Seq<LegacyLint>, l: LegacyLint)
    ensures
        lint_views(lints).len() == lints.len(),
        forall|i: int| 0 <= i < lints.len() ==> #[trigger] lint_views(lints)[i] == lints[i]@,
        l matches LegacyLint::Unrepresentable { chord } ==> l@.0 == chord@ && l@.1 is None,
        l matches LegacyLint::CollapsesTo { chord, collapses_to } ==> l@.0 == chord@ && l@.1 == Some(
            collapses_to@,
        ),
{
}

} // verus!
