//! The normalized key-input vocabulary.
//!
//! These types are backend-neutral on purpose: the event types of a particular
//! terminal library never appear here. The conversion from a backend's event is
//! in [`event`](crate::event).
use vstd::prelude::*;

verus! {

/// A physical key, independent of which terminal or OS produced it.
///
/// Only keys whose identity is unambiguous across environments are enumerated.
#[derive(Debug, Clone, Copy, PartialEq, Eq, Hash, Structural)]
pub enum Key {
    /// A character-producing key, carrying the *resolved* glyph. See the
    /// normalization note on [`KeyInput`] for how shift interacts with this.
    Char(char),
    /// A function key, `F(1)` through `F(n)`.
    F(u8),
    /// The Enter / Return key.
    Enter,
    /// The Escape key.
    Esc,
    /// The Tab key. `Shift+Tab` is represented as `Tab` with [`Modifiers::SHIFT`].
    Tab,
    /// The Backspace key.
    Backspace,
    /// The forward Delete key.
    Delete,
    /// The Insert key.
    Insert,
    /// The Home key.
    Home,
    /// The End key.
    End,
    /// The Page Up key.
    PageUp,
    /// The Page Down key.
    PageDown,
    /// The Up arrow.
    Up,
    /// The Down arrow.
    Down,
    /// The Left arrow.
    Left,
    /// The Right arrow.
    Right,
}

/// A set of held modifier keys: one variant for each subset of Control, Alt,
/// Shift and Super.
#[allow(non_camel_case_types)]
#[derive(Debug, Clone, Copy, PartialEq, Eq, Hash, Structural)]
pub enum Modifiers {
    /// No modifiers held.
    NONE,
    /// The Control modifier.
    CTRL,
    /// The Alt / Option modifier.
    ALT,
    /// Control and Alt.
    CTRL_ALT,
    /// The Shift modifier.
    SHIFT,
    /// Control and Shift.
    CTRL_SHIFT,
    /// Alt and Shift.
    ALT_SHIFT,
    /// Control, Alt and Shift.
    CTRL_ALT_SHIFT,
    /// The Super / Command / Windows modifier.
    SUPER,
    /// Control and Super.
    CTRL_SUPER,
    /// Alt and Super.
    ALT_SUPER,
    /// Control, Alt and Super.
    CTRL_ALT_SUPER,
    /// Shift and Super.
    SHIFT_SUPER,
    /// Control, Shift and Super.
    CTRL_SHIFT_SUPER,
    /// Alt, Shift and Super.
    ALT_SHIFT_SUPER,
    /// All four modifiers.
    CTRL_ALT_SHIFT_SUPER,
}

/// Which of the four modifiers a set holds.
#[derive(Debug, Clone, Copy, PartialEq, Eq, Structural)]
pub struct Flags {
    /// Control is held.
    pub ctrl: bool,
    /// Alt is held.
    pub alt: bool,
    /// Shift is held.
    pub shift: bool,
    /// Super is held.
    pub sup: bool,
}

impl Modifiers {
    /// Whether Control is in the set.
    pub open spec fn has_ctrl(self) -> bool {
        match self {
            Modifiers::CTRL | Modifiers::CTRL_ALT | Modifiers::CTRL_SHIFT
            | Modifiers::CTRL_ALT_SHIFT | Modifiers::CTRL_SUPER | Modifiers::CTRL_ALT_SUPER
            | Modifiers::CTRL_SHIFT_SUPER | Modifiers::CTRL_ALT_SHIFT_SUPER => true,
            _ => false,
        }
    }

    /// Whether Alt is in the set.
    pub open spec fn has_alt(self) -> bool {
        match self {
            Modifiers::ALT | Modifiers::CTRL_ALT | Modifiers::ALT_SHIFT
            | Modifiers::CTRL_ALT_SHIFT | Modifiers::ALT_SUPER | Modifiers::CTRL_ALT_SUPER
            | Modifiers::ALT_SHIFT_SUPER | Modifiers::CTRL_ALT_SHIFT_SUPER => true,
            _ => false,
        }
    }

    /// Whether Shift is in the set.
    pub open spec fn has_shift(self) -> bool {
        match self {
            Modifiers::SHIFT | Modifiers::CTRL_SHIFT | Modifiers::ALT_SHIFT
            | Modifiers::CTRL_ALT_SHIFT | Modifiers::SHIFT_SUPER | Modifiers::CTRL_SHIFT_SUPER
            | Modifiers::ALT_SHIFT_SUPER | Modifiers::CTRL_ALT_SHIFT_SUPER => true,
            _ => false,
        }
    }

    /// Whether Super is in the set.
    pub open spec fn has_super(self) -> bool {
        match self {
            Modifiers::SUPER | Modifiers::CTRL_SUPER | Modifiers::ALT_SUPER
            | Modifiers::CTRL_ALT_SUPER | Modifiers::SHIFT_SUPER | Modifiers::CTRL_SHIFT_SUPER
            | Modifiers::ALT_SHIFT_SUPER | Modifiers::CTRL_ALT_SHIFT_SUPER => true,
            _ => false,
        }
    }

    /// The set as its four membership bits.
    pub open spec fn spec_flags(self) -> Flags {
        Flags {
            ctrl: self.has_ctrl(),
            alt: self.has_alt(),
            shift: self.has_shift(),
            sup: self.has_super(),
        }
    }

    /// The set that holds exactly the given modifiers.
    pub open spec fn spec_from_flags(f: Flags) -> Modifiers {
        match (f.ctrl, f.alt, f.shift, f.sup) {
            (false, false, false, false) => Modifiers::NONE,
            (true, false, false, false) => Modifiers::CTRL,
            (false, true, false, false) => Modifiers::ALT,
            (true, true, false, false) => Modifiers::CTRL_ALT,
            (false, false, true, false) => Modifiers::SHIFT,
            (true, false, true, false) => Modifiers::CTRL_SHIFT,
            (false, true, true, false) => Modifiers::ALT_SHIFT,
            (true, true, true, false) => Modifiers::CTRL_ALT_SHIFT,
            (false, false, false, true) => Modifiers::SUPER,
            (true, false, false, true) => Modifiers::CTRL_SUPER,
            (false, true, false, true) => Modifiers::ALT_SUPER,
            (true, true, false, true) => Modifiers::CTRL_ALT_SUPER,
            (false, false, true, true) => Modifiers::SHIFT_SUPER,
            (true, false, true, true) => Modifiers::CTRL_SHIFT_SUPER,
            (false, true, true, true) => Modifiers::ALT_SHIFT_SUPER,
            (true, true, true, true) => Modifiers::CTRL_ALT_SHIFT_SUPER,
        }
    }

    /// Every modifier of `other` is in the set.
    pub open spec fn spec_contains(self, other: Modifiers) -> bool {
        &&& other.has_ctrl() ==> self.has_ctrl()
        &&& other.has_alt() ==> self.has_alt()
        &&& other.has_shift() ==> self.has_shift()
        &&& other.has_super() ==> self.has_super()
    }

    /// The modifiers that are in either set.
    pub open spec fn spec_union(self, other: Modifiers) -> Modifiers {
        Modifiers::spec_from_flags(
            Flags {
                ctrl: self.has_ctrl() || other.has_ctrl(),
                alt: self.has_alt() || other.has_alt(),
                shift: self.has_shift() || other.has_shift(),
                sup: self.has_super() || other.has_super(),
            },
        )
    }

    /// The modifiers of `self` that are not in `other`.
    pub open spec fn spec_difference(self, other: Modifiers) -> Modifiers {
        Modifiers::spec_from_flags(
            Flags {
                ctrl: self.has_ctrl() && !other.has_ctrl(),
                alt: self.has_alt() && !other.has_alt(),
                shift: self.has_shift() && !other.has_shift(),
                sup: self.has_super() && !other.has_super(),
            },
        )
    }

    /// A modifier set is determined by its membership bits, and every
    /// combination of bits is a set.
    pub proof fn law_sets_are_their_flags(m: Modifiers, f: Flags)
        ensures
            Modifiers::spec_from_flags(m.spec_flags()) == m,
            Modifiers::spec_from_flags(f).spec_flags() == f,
    {
    }

    /// The membership bits of the set.
    pub fn flags(self) -> (f: Flags)
        ensures
            f == self.spec_flags(),
    {
        match self {
            Modifiers::NONE => Flags { ctrl: false, alt: false, shift: false, sup: false },
            Modifiers::CTRL => Flags { ctrl: true, alt: false, shift: false, sup: false },
            Modifiers::ALT => Flags { ctrl: false, alt: true, shift: false, sup: false },
            Modifiers::CTRL_ALT => Flags { ctrl: true, alt: true, shift: false, sup: false },
            Modifiers::SHIFT => Flags { ctrl: false, alt: false, shift: true, sup: false },
            Modifiers::CTRL_SHIFT => Flags { ctrl: true, alt: false, shift: true, sup: false },
            Modifiers::ALT_SHIFT => Flags { ctrl: false, alt: true, shift: true, sup: false },
            Modifiers::CTRL_ALT_SHIFT => Flags { ctrl: true, alt: true, shift: true, sup: false },
            Modifiers::SUPER => Flags { ctrl: false, alt: false, shift: false, sup: true },
            Modifiers::CTRL_SUPER => Flags { ctrl: true, alt: false, shift: false, sup: true },
            Modifiers::ALT_SUPER => Flags { ctrl: false, alt: true, shift: false, sup: true },
            Modifiers::CTRL_ALT_SUPER => Flags { ctrl: true, alt: true, shift: false, sup: true },
            Modifiers::SHIFT_SUPER => Flags { ctrl: false, alt: false, shift: true, sup: true },
            Modifiers::CTRL_SHIFT_SUPER => Flags { ctrl: true, alt: false, shift: true, sup: true },
            Modifiers::ALT_SHIFT_SUPER => Flags { ctrl: false, alt: true, shift: true, sup: true },
            Modifiers::CTRL_ALT_SHIFT_SUPER => Flags { ctrl: true, alt: true, shift: true, sup: true },
        }
    }

    /// The set with the given membership bits.
    pub fn from_flags(f: Flags) -> (m: Modifiers)
        ensures
            m == Modifiers::spec_from_flags(f),
    {
        match (f.ctrl, f.alt, f.shift, f.sup) {
            (false, false, false, false) => Modifiers::NONE,
            (true, false, false, false) => Modifiers::CTRL,
            (false, true, false, false) => Modifiers::ALT,
            (true, true, false, false) => Modifiers::CTRL_ALT,
            (false, false, true, false) => Modifiers::SHIFT,
            (true, false, true, false) => Modifiers::CTRL_SHIFT,
            (false, true, true, false) => Modifiers::ALT_SHIFT,
            (true, true, true, false) => Modifiers::CTRL_ALT_SHIFT,
            (false, false, false, true) => Modifiers::SUPER,
            (true, false, false, true) => Modifiers::CTRL_SUPER,
            (false, true, false, true) => Modifiers::ALT_SUPER,
            (true, true, false, true) => Modifiers::CTRL_ALT_SUPER,
            (false, false, true, true) => Modifiers::SHIFT_SUPER,
            (true, false, true, true) => Modifiers::CTRL_SHIFT_SUPER,
            (false, true, true, true) => Modifiers::ALT_SHIFT_SUPER,
            (true, true, true, true) => Modifiers::CTRL_ALT_SHIFT_SUPER,
        }
    }

    /// Returns the empty modifier set (alias for [`Modifiers::NONE`]).
    #[must_use]
    pub fn empty() -> (m: Self)
        ensures
            m == Modifiers::NONE,
    {
        Modifiers::NONE
    }

    /// Returns `true` if no modifiers are held.
    #[must_use]
    pub fn is_empty(self) -> (r: bool)
        ensures
            r == (self == Modifiers::NONE),
    {
        self == Modifiers::NONE
    }

    /// Returns `true` if every modifier in `other` is also held in `self`.
    #[must_use]
    pub fn contains(self, other: Modifiers) -> (r: bool)
        ensures
            r == self.spec_contains(other),
    {
        let a = self.flags();
        let b = other.flags();
        (!b.ctrl || a.ctrl) && (!b.alt || a.alt) && (!b.shift || a.shift) && (!b.sup || a.sup)
    }

    /// Returns the union of two modifier sets.
    #[must_use]
    pub fn union(self, other: Modifiers) -> (m: Self)
        ensures
            m == self.spec_union(other),
    {
        let a = self.flags();
        let b = other.flags();
        Modifiers::from_flags(
            Flags {
                ctrl: a.ctrl || b.ctrl,
                alt: a.alt || b.alt,
                shift: a.shift || b.shift,
                sup: a.sup || b.sup,
            },
        )
    }

    /// Returns `self` with every modifier in `other` removed.
    #[must_use]
    pub fn difference(self, other: Modifiers) -> (m: Self)
        ensures
            m == self.spec_difference(other),
    {
        let a = self.flags();
        let b = other.flags();
        Modifiers::from_flags(
            Flags {
                ctrl: a.ctrl && !b.ctrl,
                alt: a.alt && !b.alt,
                shift: a.shift && !b.shift,
                sup: a.sup && !b.sup,
            },
        )
    }
}

impl Default for Modifiers {
    fn default() -> (m: Self)
        ensures
            m == Modifiers::NONE,
    {
        Modifiers::NONE
    }
}

impl core::ops::BitOr for Modifiers {
    type Output = Modifiers;

    fn bitor(self, rhs: Modifiers) -> (out: Modifiers) {
        self.union(rhs)
    }
}

impl vstd::std_specs::ops::BitOrSpecImpl for Modifiers {
    open spec fn obeys_bitor_spec() -> bool {
        true
    }

    open spec fn bitor_req(self, rhs: Modifiers) -> bool {
        true
    }

    open spec fn bitor_spec(self, rhs: Modifiers) -> Modifiers {
        self.spec_union(rhs)
    }
}

impl core::ops::BitOrAssign for Modifiers {
    fn bitor_assign(&mut self, rhs: Modifiers)
        ensures
            *final(self) == old(self).spec_union(rhs),
    {
        *self = self.union(rhs);
    }
}

/// A normalized key press: a [`Key`] plus the [`Modifiers`] held with it.
///
/// This is the unit a [`Keymap`](crate::keymap::Keymap) is keyed on, so its
/// equality is the equality used for binding lookup.
///
/// # Normalization
///
/// For character-producing keys, the terminal has already resolved which glyph
/// the keypress produces. [`Modifiers::SHIFT`] is cleared for a character key
/// only on a bare press, when Shift is the sole modifier and therefore redundant
/// with the glyph. When another modifier is held, Shift is the only signal that
/// tells the chord apart from the unshifted one, and is kept. For non-character
/// keys Shift is always kept.
///
/// [`KeyInput::new`] does not apply this rule; [`KeyInput::normalized`] does.
#[derive(Debug, Clone, Copy, PartialEq, Eq, Hash, Structural)]
pub struct KeyInput {
    /// The key of the press.
    pub key: Key,
    /// The modifiers held with it.
    pub mods: Modifiers,
}

/// The single input-normalization rule: the modifiers that remain of `mods`
/// when they are held with `key`.
pub open spec fn normalized_mods(key: Key, mods: Modifiers) -> Modifiers {
    if key is Char && !mods.has_ctrl() && !mods.has_alt() && !mods.has_super() {
        Modifiers::NONE
    } else {
        mods
    }
}

impl KeyInput {
    /// The press is a fixed point of the normalization rule.
    pub open spec fn is_normalized(self) -> bool {
        normalized_mods(self.key, self.mods) == self.mods
    }

    /// Builds a `KeyInput` from an already-normalized key and modifier set.
    #[must_use]
    pub fn new(key: Key, mods: Modifiers) -> (k: Self)
        ensures
            k == (KeyInput { key, mods }),
    {
        KeyInput { key, mods }
    }

    /// Builds a `KeyInput`, applying the shared normalization rule first.
    ///
    /// Every boundary that turns *raw* key parts into a `KeyInput` uses this
    /// constructor: a binding parsed from text and an event produced at runtime
    /// therefore land on the *same* `KeyInput`.
    #[must_use]
    pub fn normalized(key: Key, mods: Modifiers) -> (k: Self)
        ensures
            k == (KeyInput { key, mods: normalized_mods(key, mods) }),
            k.is_normalized(),
    {
        let (key, mods) = normalize(key, mods);
        KeyInput { key, mods }
    }

    /// The key that was pressed.
    #[must_use]
    pub fn key(&self) -> (key: Key)
        ensures
            key == self.key,
    {
        self.key
    }

    /// The modifiers held during the press.
    #[must_use]
    pub fn modifiers(&self) -> (mods: Modifiers)
        ensures
            mods == self.mods,
    {
        self.mods
    }
}

/// Applies the normalization rule to a key and its complete modifier set.
pub fn normalize(key: Key, mods: Modifiers) -> (out: (Key, Modifiers))
    ensures
        out == (key, normalized_mods(key, mods)),
{
    match key {
        Key::Char(_) => if mods.difference(Modifiers::SHIFT).is_empty() {
            (key, Modifiers::NONE)
        } else {
            (key, mods)
        },
        _ => (key, mods),
    }
}

/// Normalizing twice is normalizing once: the rule is applied at every boundary,
/// and a press that crosses two of them is not changed by the second.
pub proof fn law_normalize_is_idempotent(key: Key, mods: Modifiers)
    ensures
        normalized_mods(key, normalized_mods(key, mods)) == normalized_mods(key, mods),
{
}

/// Normalization never adds a modifier, and removes none but Shift.
pub proof fn law_normalize_only_drops_shift(key: Key, mods: Modifiers)
    ensures
        mods.spec_contains(normalized_mods(key, mods)),
        normalized_mods(key, mods).spec_contains(mods.spec_difference(Modifiers::SHIFT)),
{
}

/// Shift is cleared on a bare character press, and nothing else ever is: the one press
/// that the rule changes is a character with Shift alone, which becomes the character.
pub proof fn law_only_a_bare_shifted_glyph_changes(key: Key, mods: Modifiers)
    ensures
        normalized_mods(key, mods) == mods || (key is Char && mods == Modifiers::SHIFT),
        key is Char ==> normalized_mods(key, Modifiers::SHIFT) == Modifiers::NONE,
        (KeyInput { key, mods }).is_normalized() <==> !(key is Char && mods == Modifiers::SHIFT),
{
}

/// A modifier set is a set of four modifiers: it is made of the modifiers that it
/// contains, and union, difference and containment go modifier by modifier.
pub proof fn law_modifiers_are_sets(a: Modifiers, b: Modifiers)
    ensures
        forall|x: Modifiers|
            x == Modifiers::CTRL || x == Modifiers::ALT || x == Modifiers::SHIFT || x
                == Modifiers::SUPER ==> {
                &&& #[trigger] a.spec_union(b).spec_contains(x) <==> a.spec_contains(x)
                    || b.spec_contains(x)
                &&& a.spec_difference(b).spec_contains(x) <==> a.spec_contains(x)
                    && !b.spec_contains(x)
                &&& !Modifiers::NONE.spec_contains(x)
                &&& x.spec_contains(a) <==> a == x || a == Modifiers::NONE
            },
        a.spec_contains(b) <==> a.spec_union(b) == a,
        a.spec_contains(b) && b.spec_contains(a) ==> a == b,
        a.spec_union(b) == b.spec_union(a),
        a.spec_difference(b).spec_union(b) == a.spec_union(b),
        a.has_ctrl() <==> a.spec_contains(Modifiers::CTRL),
        a.has_alt() <==> a.spec_contains(Modifiers::ALT),
        a.has_shift() <==> a.spec_contains(Modifiers::SHIFT),
        a.has_super() <==> a.spec_contains(Modifiers::SUPER),
{
}

/// The name of each set says what it holds.
pub proof fn law_sets_are_what_their_names_say(m: Modifiers)
    ensures
        Modifiers::CTRL.spec_union(Modifiers::ALT) == Modifiers::CTRL_ALT,
        Modifiers::CTRL.spec_union(Modifiers::SHIFT) == Modifiers::CTRL_SHIFT,
        Modifiers::CTRL.spec_union(Modifiers::SUPER) == Modifiers::CTRL_SUPER,
        Modifiers::ALT.spec_union(Modifiers::SHIFT) == Modifiers::ALT_SHIFT,
        Modifiers::ALT.spec_union(Modifiers::SUPER) == Modifiers::ALT_SUPER,
        Modifiers::SHIFT.spec_union(Modifiers::SUPER) == Modifiers::SHIFT_SUPER,
        Modifiers::CTRL_ALT.spec_union(Modifiers::SHIFT) == Modifiers::CTRL_ALT_SHIFT,
        Modifiers::CTRL_ALT.spec_union(Modifiers::SUPER) == Modifiers::CTRL_ALT_SUPER,
        Modifiers::CTRL_SHIFT.spec_union(Modifiers::SUPER) == Modifiers::CTRL_SHIFT_SUPER,
        Modifiers::ALT_SHIFT.spec_union(Modifiers::SUPER) == Modifiers::ALT_SHIFT_SUPER,
        Modifiers::CTRL_ALT_SHIFT.spec_union(Modifiers::SUPER) == Modifiers::CTRL_ALT_SHIFT_SUPER,
        m.spec_union(Modifiers::NONE) == m,
{
}

} // verus!
