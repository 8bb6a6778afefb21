//! Conversion from a terminal backend's key events into the neutral [`KeyInput`].
//!
//! The event types here hold what a backend reports, variant for variant; turning a
//! backend's own event into one of them is the caller's.
use crate::decode::{csi_u_bytes, decodes_to, kitty_code, law_csi_u_round_trip, DecodeMode, Decoded};
use crate::grammar::{chord_text, law_print_then_parse, parsed_chord};
use crate::input::{law_modifiers_are_sets, normalized_mods, Flags, Key, KeyInput, Modifiers};
use crate::text::{copy_text, decimal_text, push_decimal, push_text};
use vstd::prelude::*;

verus! {

/// A media key.
#[derive(Debug, Clone, Copy, PartialEq, Eq, Hash, Structural)]
pub enum MediaKeyCode {
    /// The Play key.
    Play,
    /// The Pause key.
    Pause,
    /// The Play/Pause key.
    PlayPause,
    /// The Reverse key.
    Reverse,
    /// The Stop key.
    Stop,
    /// The Fast-forward key.
    FastForward,
    /// The Rewind key.
    Rewind,
    /// The Next-track key.
    TrackNext,
    /// The Previous-track key.
    TrackPrevious,
    /// The Record key.
    Record,
    /// The Lower-volume key.
    LowerVolume,
    /// The Raise-volume key.
    RaiseVolume,
    /// The Mute-volume key.
    MuteVolume,
}

/// A modifier key, pressed on its own.
#[derive(Debug, Clone, Copy, PartialEq, Eq, Hash, Structural)]
pub enum ModifierKeyCode {
    /// Left Shift.
    LeftShift,
    /// Left Control.
    LeftControl,
    /// Left Alt.
    LeftAlt,
    /// Left Super.
    LeftSuper,
    /// Left Hyper.
    LeftHyper,
    /// Left Meta.
    LeftMeta,
    /// Right Shift.
    RightShift,
    /// Right Control.
    RightControl,
    /// Right Alt.
    RightAlt,
    /// Right Super.
    RightSuper,
    /// Right Hyper.
    RightHyper,
    /// Right Meta.
    RightMeta,
    /// Iso Level3Shift.
    IsoLevel3Shift,
    /// Iso Level5Shift.
    IsoLevel5Shift,
}

/// The key that a backend reports.
#[derive(Debug, Clone, Copy, PartialEq, Eq, Hash, Structural)]
pub enum KeyCode {
    /// The Backspace key.
    Backspace,
    /// The Enter key.
    Enter,
    /// The Left arrow.
    Left,
    /// The Right arrow.
    Right,
    /// The Up arrow.
    Up,
    /// The Down arrow.
    Down,
    /// The Home key.
    Home,
    /// The End key.
    End,
    /// The Page Up key.
    PageUp,
    /// The Page Down key.
    PageDown,
    /// The Tab key.
    Tab,
    /// Shift and Tab, reported as a key of its own.
    BackTab,
    /// The forward Delete key.
    Delete,
    /// The Insert key.
    Insert,
    /// A function key.
    F(u8),
    /// A character.
    Char(char),
    /// No key.
    Null,
    /// The Escape key.
    Esc,
    /// The Caps Lock key.
    CapsLock,
    /// The Scroll Lock key.
    ScrollLock,
    /// The Num Lock key.
    NumLock,
    /// The Print Screen key.
    PrintScreen,
    /// The Pause key.
    Pause,
    /// The Menu key.
    Menu,
    /// The Begin key of the keypad.
    KeypadBegin,
    /// A media key.
    Media(MediaKeyCode),
    /// A modifier key.
    Modifier(ModifierKeyCode),
}

/// The modifiers that a backend reports.
#[derive(Debug, Clone, Copy, PartialEq, Eq, Hash, Structural)]
pub struct KeyModifiers {
    /// Shift is held.
    pub shift: bool,
    /// Control is held.
    pub control: bool,
    /// Alt is held.
    pub alt: bool,
    /// Super is held.
    pub sup: bool,
    /// Hyper is held.
    pub hyper: bool,
    /// Meta is held.
    pub meta: bool,
}

impl KeyModifiers {
    /// The modifiers of which the first four are given.
    pub open spec fn of(shift: bool, control: bool, alt: bool, sup: bool) -> KeyModifiers {
        KeyModifiers { shift, control, alt, sup, hyper: false, meta: false }
    }

    /// No modifier.
    #[must_use]
    pub fn none() -> (m: Self)
        ensures
            m == KeyModifiers::of(false, false, false, false),
    {
        KeyModifiers {
            shift: false,
            control: false,
            alt: false,
            sup: false,
            hyper: false,
            meta: false,
        }
    }

    /// Shift.
    #[must_use]
    pub fn shift() -> (m: Self)
        ensures
            m == KeyModifiers::of(true, false, false, false),
    {
        KeyModifiers { shift: true, ..KeyModifiers::none() }
    }

    /// Control.
    #[must_use]
    pub fn control() -> (m: Self)
        ensures
            m == KeyModifiers::of(false, true, false, false),
    {
        KeyModifiers { control: true, ..KeyModifiers::none() }
    }

    /// Alt.
    #[must_use]
    pub fn alt() -> (m: Self)
        ensures
            m == KeyModifiers::of(false, false, true, false),
    {
        KeyModifiers { alt: true, ..KeyModifiers::none() }
    }

    /// Super.
    #[must_use]
    pub fn sup() -> (m: Self)
        ensures
            m == KeyModifiers::of(false, false, false, true),
    {
        KeyModifiers { sup: true, ..KeyModifiers::none() }
    }

    /// The modifiers of both sets.
    #[must_use]
    pub fn union(self, other: Self) -> (m: Self)
        ensures
            m == (KeyModifiers {
                shift: self.shift || other.shift,
                control: self.control || other.control,
                alt: self.alt || other.alt,
                sup: self.sup || other.sup,
                hyper: self.hyper || other.hyper,
                meta: self.meta || other.meta,
            }),
    {
        KeyModifiers {
            shift: self.shift || other.shift,
            control: self.control || other.control,
            alt: self.alt || other.alt,
            sup: self.sup || other.sup,
            hyper: self.hyper || other.hyper,
            meta: self.meta || other.meta,
        }
    }
}

/// What happened to the key.
#[derive(Debug, Clone, Copy, PartialEq, Eq, Hash, Structural)]
pub enum KeyEventKind {
    /// It went down.
    Press,
    /// It is held down.
    Repeat,
    /// It went up.
    Release,
}

/// A key event that a backend reports.
#[derive(Debug, Clone, Copy, PartialEq, Eq, Hash, Structural)]
pub struct KeyEvent {
    /// The key.
    pub code: KeyCode,
    /// The modifiers held with it.
    pub modifiers: KeyModifiers,
    /// What happened to it.
    pub kind: KeyEventKind,
}

impl KeyEvent {
    /// A press of the key.
    #[must_use]
    pub fn new(code: KeyCode, modifiers: KeyModifiers) -> (e: Self)
        ensures
            e == (KeyEvent { code, modifiers, kind: KeyEventKind::Press }),
    {
        KeyEvent { code, modifiers, kind: KeyEventKind::Press }
    }
}

/// Formats a character with `{:?}`: between single quotes, escaped where it is not
/// printable, as `Debug for char` does. The result is named, not described.
#[verifier::external_body]
pub(crate) fn quote_char(c: char) -> (out: String)
    ensures
        out@ == quoted_char(c),
{
    format!("{c:?}")
}

/// What formatting a character with `{:?}` gives.
pub uninterp spec fn quoted_char(c: char) -> Seq<char>;

/// The name of a media key.
pub open spec fn media_text(code: MediaKeyCode) -> Seq<char> {
    match code {
        MediaKeyCode::Play => "Play"@,
        MediaKeyCode::Pause => "Pause"@,
        MediaKeyCode::PlayPause => "PlayPause"@,
        MediaKeyCode::Reverse => "Reverse"@,
        MediaKeyCode::Stop => "Stop"@,
        MediaKeyCode::FastForward => "FastForward"@,
        MediaKeyCode::Rewind => "Rewind"@,
        MediaKeyCode::TrackNext => "TrackNext"@,
        MediaKeyCode::TrackPrevious => "TrackPrevious"@,
        MediaKeyCode::Record => "Record"@,
        MediaKeyCode::LowerVolume => "LowerVolume"@,
        MediaKeyCode::RaiseVolume => "RaiseVolume"@,
        MediaKeyCode::MuteVolume => "MuteVolume"@,
    }
}

/// The name of a modifier key.
pub open spec fn modifier_text(code: ModifierKeyCode) -> Seq<char> {
    match code {
        ModifierKeyCode::LeftShift => "LeftShift"@,
        ModifierKeyCode::LeftControl => "LeftControl"@,
        ModifierKeyCode::LeftAlt => "LeftAlt"@,
        ModifierKeyCode::LeftSuper => "LeftSuper"@,
        ModifierKeyCode::LeftHyper => "LeftHyper"@,
        ModifierKeyCode::LeftMeta => "LeftMeta"@,
        ModifierKeyCode::RightShift => "RightShift"@,
        ModifierKeyCode::RightControl => "RightControl"@,
        ModifierKeyCode::RightAlt => "RightAlt"@,
        ModifierKeyCode::RightSuper => "RightSuper"@,
        ModifierKeyCode::RightHyper => "RightHyper"@,
        ModifierKeyCode::RightMeta => "RightMeta"@,
        ModifierKeyCode::IsoLevel3Shift => "IsoLevel3Shift"@,
        ModifierKeyCode::IsoLevel5Shift => "IsoLevel5Shift"@,
    }
}

/// The name of a key code, as the log shows it.
pub open spec fn code_text(code: KeyCode) -> Seq<char> {
    match code {
        KeyCode::Backspace => "Backspace"@,
        KeyCode::Enter => "Enter"@,
        KeyCode::Left => "Left"@,
        KeyCode::Right => "Right"@,
        KeyCode::Up => "Up"@,
        KeyCode::Down => "Down"@,
        KeyCode::Home => "Home"@,
        KeyCode::End => "End"@,
        KeyCode::PageUp => "PageUp"@,
        KeyCode::PageDown => "PageDown"@,
        KeyCode::Tab => "Tab"@,
        KeyCode::BackTab => "BackTab"@,
        KeyCode::Delete => "Delete"@,
        KeyCode::Insert => "Insert"@,
        KeyCode::Null => "Null"@,
        KeyCode::Esc => "Esc"@,
        KeyCode::CapsLock => "CapsLock"@,
        KeyCode::ScrollLock => "ScrollLock"@,
        KeyCode::NumLock => "NumLock"@,
        KeyCode::PrintScreen => "PrintScreen"@,
        KeyCode::Pause => "Pause"@,
        KeyCode::Menu => "Menu"@,
        KeyCode::KeypadBegin => "KeypadBegin"@,
        KeyCode::F(n) => "F("@ + decimal_text(n as nat) + ")"@,
        KeyCode::Char(c) => "Char("@ + quoted_char(c) + ")"@,
        KeyCode::Media(m) => "Media("@ + media_text(m) + ")"@,
        KeyCode::Modifier(m) => "Modifier("@ + modifier_text(m) + ")"@,
    }
}

impl MediaKeyCode {
    /// The name of the key.
    #[must_use]
    pub fn name(self) -> (s: &'static str)
        ensures
            s@ == media_text(self),
    {
        match self {
            MediaKeyCode::Play => "Play",
            MediaKeyCode::Pause => "Pause",
            MediaKeyCode::PlayPause => "PlayPause",
            MediaKeyCode::Reverse => "Reverse",
            MediaKeyCode::Stop => "Stop",
            MediaKeyCode::FastForward => "FastForward",
            MediaKeyCode::Rewind => "Rewind",
            MediaKeyCode::TrackNext => "TrackNext",
            MediaKeyCode::TrackPrevious => "TrackPrevious",
            MediaKeyCode::Record => "Record",
            MediaKeyCode::LowerVolume => "LowerVolume",
            MediaKeyCode::RaiseVolume => "RaiseVolume",
            MediaKeyCode::MuteVolume => "MuteVolume",
        }
    }
}

impl ModifierKeyCode {
    /// The name of the key.
    #[must_use]
    pub fn name(self) -> (s: &'static str)
        ensures
            s@ == modifier_text(self),
    {
        match self {
            ModifierKeyCode::LeftShift => "LeftShift",
            ModifierKeyCode::LeftControl => "LeftControl",
            ModifierKeyCode::LeftAlt => "LeftAlt",
            ModifierKeyCode::LeftSuper => "LeftSuper",
            ModifierKeyCode::LeftHyper => "LeftHyper",
            ModifierKeyCode::LeftMeta => "LeftMeta",
            ModifierKeyCode::RightShift => "RightShift",
            ModifierKeyCode::RightControl => "RightControl",
            ModifierKeyCode::RightAlt => "RightAlt",
            ModifierKeyCode::RightSuper => "RightSuper",
            ModifierKeyCode::RightHyper => "RightHyper",
            ModifierKeyCode::RightMeta => "RightMeta",
            ModifierKeyCode::IsoLevel3Shift => "IsoLevel3Shift",
            ModifierKeyCode::IsoLevel5Shift => "IsoLevel5Shift",
        }
    }
}

impl KeyCode {
    /// The name of the key code.
    #[must_use]
    pub fn to_string(&self) -> (s: String)
        ensures
            s@ == code_text(*self),
    {
        match *self {
            KeyCode::Backspace => copy_text("Backspace"),
            KeyCode::Enter => copy_text("Enter"),
            KeyCode::Left => copy_text("Left"),
            KeyCode::Right => copy_text("Right"),
            KeyCode::Up => copy_text("Up"),
            KeyCode::Down => copy_text("Down"),
            KeyCode::Home => copy_text("Home"),
            KeyCode::End => copy_text("End"),
            KeyCode::PageUp => copy_text("PageUp"),
            KeyCode::PageDown => copy_text("PageDown"),
            KeyCode::Tab => copy_text("Tab"),
            KeyCode::BackTab => copy_text("BackTab"),
            KeyCode::Delete => copy_text("Delete"),
            KeyCode::Insert => copy_text("Insert"),
            KeyCode::Null => copy_text("Null"),
            KeyCode::Esc => copy_text("Esc"),
            KeyCode::CapsLock => copy_text("CapsLock"),
            KeyCode::ScrollLock => copy_text("ScrollLock"),
            KeyCode::NumLock => copy_text("NumLock"),
            KeyCode::PrintScreen => copy_text("PrintScreen"),
            KeyCode::Pause => copy_text("Pause"),
            KeyCode::Menu => copy_text("Menu"),
            KeyCode::KeypadBegin => copy_text("KeypadBegin"),
            KeyCode::F(n) => {
                let mut out = copy_text("F(");
                push_decimal(&mut out, n as u64);
                push_text(&mut out, ")");
                out
            },
            KeyCode::Char(c) => wrapped("Char(", quote_char(c).as_str()),
            KeyCode::Media(m) => wrapped("Media(", m.name()),
            KeyCode::Modifier(m) => wrapped("Modifier(", m.name()),
        }
    }
}

/// A text behind an opening, with a closing bracket.
fn wrapped(open: &str, inner: &str) -> (s: String)
    ensures
        s@ == open@ + inner@ + ")"@,
{
    let mut out = copy_text(open);
    push_text(&mut out, inner);
    push_text(&mut out, ")");
    out
}

/// Error returned when a backend's key has no representation in [`Key`].
///
/// Only keys whose identity is unambiguous across environments are enumerated;
/// media keys, lock keys, lone modifier presses, and similar are reported here
/// instead of being silently dropped or guessed.
#[derive(Debug, Clone, Copy, PartialEq, Eq, Structural)]
pub struct UnsupportedKey {
    /// The key code that could not be converted.
    pub code: KeyCode,
}

impl UnsupportedKey {
    /// The key code that could not be converted.
    #[must_use]
    pub fn code(&self) -> (code: KeyCode)
        ensures
            code == self.code,
    {
        self.code
    }

    /// The message of the error.
    #[must_use]
    pub fn to_string(&self) -> (s: String)
        ensures
            s@ == "unsupported key code: "@ + code_text(self.code),
    {
        let mut out = copy_text("unsupported key code: ");
        let name = self.code.to_string();
        push_text(&mut out, name.as_str());
        out
    }
}

/// The modifiers that a backend's modifiers are: Hyper and Meta have no place.
pub open spec fn mods_reported(m: KeyModifiers) -> Modifiers {
    Modifiers::spec_from_flags(
        (Flags { ctrl: m.control, alt: m.alt, shift: m.shift, sup: m.sup }),
    )
}

/// The key that a key code is, if it is one. `BackTab` is Tab.
pub open spec fn key_reported(code: KeyCode) -> Option<Key> {
    match code {
        KeyCode::Char(c) => Some(Key::Char(c)),
        KeyCode::F(n) => Some(Key::F(n)),
        KeyCode::Tab | KeyCode::BackTab => Some(Key::Tab),
        KeyCode::Enter => Some(Key::Enter),
        KeyCode::Esc => Some(Key::Esc),
        KeyCode::Backspace => Some(Key::Backspace),
        KeyCode::Delete => Some(Key::Delete),
        KeyCode::Insert => Some(Key::Insert),
        KeyCode::Home => Some(Key::Home),
        KeyCode::End => Some(Key::End),
        KeyCode::PageUp => Some(Key::PageUp),
        KeyCode::PageDown => Some(Key::PageDown),
        KeyCode::Up => Some(Key::Up),
        KeyCode::Down => Some(Key::Down),
        KeyCode::Left => Some(Key::Left),
        KeyCode::Right => Some(Key::Right),
        _ => None,
    }
}

/// The press that an event is, if its key has a neutral form: `BackTab` carries
/// Shift, and the shared normalization rule decides whether Shift stays.
pub open spec fn reported(event: KeyEvent) -> Result<KeyInput, UnsupportedKey> {
    let held = mods_reported(event.modifiers);
    let mods = if event.code == KeyCode::BackTab {
        held.spec_union(Modifiers::SHIFT)
    } else {
        held
    };
    match key_reported(event.code) {
        Some(key) => Ok(KeyInput { key, mods: normalized_mods(key, mods) }),
        None => Err(UnsupportedKey { code: event.code }),
    }
}

/// Maps a backend's modifiers onto ours.
fn modifiers_of(m: KeyModifiers) -> (mods: Modifiers)
    ensures
        mods == mods_reported(m),
{
    Modifiers::from_flags(Flags { ctrl: m.control, alt: m.alt, shift: m.shift, sup: m.sup })
}

impl TryFrom<KeyEvent> for KeyInput {
    type Error = UnsupportedKey;

    fn try_from(event: KeyEvent) -> (r: Result<KeyInput, UnsupportedKey>) {
        let mut mods = modifiers_of(event.modifiers);
        let key = match event.code {
            KeyCode::Char(c) => Key::Char(c),
            KeyCode::BackTab => {
                mods = mods.union(Modifiers::SHIFT);
                Key::Tab
            },
            KeyCode::F(n) => Key::F(n),
            KeyCode::Enter => Key::Enter,
            KeyCode::Esc => Key::Esc,
            KeyCode::Tab => Key::Tab,
            KeyCode::Backspace => Key::Backspace,
            KeyCode::Delete => Key::Delete,
            KeyCode::Insert => Key::Insert,
            KeyCode::Home => Key::Home,
            KeyCode::End => Key::End,
            KeyCode::PageUp => Key::PageUp,
            KeyCode::PageDown => Key::PageDown,
            KeyCode::Up => Key::Up,
            KeyCode::Down => Key::Down,
            KeyCode::Left => Key::Left,
            KeyCode::Right => Key::Right,
            other => {
                return Err(UnsupportedKey { code: other });
            },
        };
        Ok(KeyInput::normalized(key, mods))
    }
}

impl vstd::std_specs::convert::TryFromSpecImpl<KeyEvent> for KeyInput {
    open spec fn obeys_try_from_spec() -> bool {
        true
    }

    open spec fn try_from_spec(event: KeyEvent) -> Result<KeyInput, UnsupportedKey> {
        reported(event)
    }
}

/// Every press that comes from an event is normalized, so that it finds the binding
/// that a configuration spells.
pub proof fn law_reported_press_is_normalized(event: KeyEvent)
    requires
        reported(event) is Ok,
    ensures
        reported(event)->Ok_0.is_normalized(),
{
}

/// The two encodings of Shift+Tab converge.
pub proof fn law_backtab_is_shift_tab(m: KeyModifiers)
    ensures
        reported(KeyEvent { code: KeyCode::BackTab, modifiers: m, kind: KeyEventKind::Press })
            == reported(
            KeyEvent {
                code: KeyCode::Tab,
                modifiers: KeyModifiers { shift: true, ..m },
                kind: KeyEventKind::Press,
            },
        ),
{
}

/// The key code of a key: each key is reported by a code of its own.
pub open spec fn code_of(key: Key) -> KeyCode {
    match key {
        Key::Char(c) => KeyCode::Char(c),
        Key::F(n) => KeyCode::F(n),
        Key::Enter => KeyCode::Enter,
        Key::Esc => KeyCode::Esc,
        Key::Tab => KeyCode::Tab,
        Key::Backspace => KeyCode::Backspace,
        Key::Delete => KeyCode::Delete,
        Key::Insert => KeyCode::Insert,
        Key::Home => KeyCode::Home,
        Key::End => KeyCode::End,
        Key::PageUp => KeyCode::PageUp,
        Key::PageDown => KeyCode::PageDown,
        Key::Up => KeyCode::Up,
        Key::Down => KeyCode::Down,
        Key::Left => KeyCode::Left,
        Key::Right => KeyCode::Right,
    }
}

/// A press that a backend reports arrives as that press: for every key and every set of
/// modifiers, the event of the two converts to the key with those modifiers, but for a Shift
/// that a character holds alone. Hyper and Meta, and whether the key repeats or goes up,
/// change nothing.
pub proof fn law_reported_press_is_the_press(
    key: Key,
    shift: bool,
    control: bool,
    alt: bool,
    sup: bool,
    hyper: bool,
    meta: bool,
    kind: KeyEventKind,
)
    ensures
        ({
            let modifiers = KeyModifiers { shift, control, alt, sup, hyper, meta };
            reported(KeyEvent { code: code_of(key), modifiers, kind }) matches Ok(k) && {
                &&& k.key == key
                &&& k.mods.spec_contains(Modifiers::CTRL) <==> control
                &&& k.mods.spec_contains(Modifiers::ALT) <==> alt
                &&& k.mods.spec_contains(Modifiers::SUPER) <==> sup
                &&& k.mods.spec_contains(Modifiers::SHIFT) <==> shift && (key is Char ==> control
                    || alt || sup)
            }
        }),
{
}

/// A key code converts exactly where it is the code of some key, or `BackTab`; any other is
/// handed back as it is.
pub proof fn law_other_codes_are_handed_back(event: KeyEvent)
    ensures
        reported(event) is Ok <==> event.code == KeyCode::BackTab || exists|key: Key|
            event.code == #[trigger] code_of(key),
        reported(event) matches Err(e) ==> e.code == event.code,
        event.code == KeyCode::BackTab ==> (reported(event) matches Ok(k) && k.key == Key::Tab
            && k.mods.spec_contains(Modifiers::SHIFT)),
{
    if let Ok(k) = reported(event) {
        if event.code != KeyCode::BackTab {
            assert(event.code == code_of(k.key));
        }
    }
    if exists|key: Key| event.code == #[trigger] code_of(key) {
        let key = choose|key: Key| event.code == #[trigger] code_of(key);
        assert(reported(event) is Ok);
    }
}

/// A press that a backend reports finds the binding that a configuration spells for it: the
/// canonical spelling of the press parses to that very press.
pub proof fn law_reported_press_finds_its_spelling(event: KeyEvent)
    requires
        reported(event) is Ok,
        event.code matches KeyCode::F(n) ==> 1 <= n <= 24,
    ensures
        parsed_chord(chord_text(reported(event)->Ok_0)) == Some(reported(event)->Ok_0),
{
    law_print_then_parse(reported(event)->Ok_0);
}

/// Bytes and events agree: the CSI-u sequence of a key with modifiers decodes to the press
/// that the event of the same key and modifiers is.
pub proof fn law_bytes_and_events_agree(
    key: Key,
    shift: bool,
    alt: bool,
    ctrl: bool,
    sup: bool,
    kind: KeyEventKind,
)
    requires
        kitty_code(key) is Some,
    ensures
        ({
            let bytes = csi_u_bytes(key, shift, alt, ctrl, sup, 0);
            let modifiers = KeyModifiers::of(shift, ctrl, alt, sup);
            let event = KeyEvent { code: code_of(key), modifiers, kind };
            decodes_to(bytes, DecodeMode::KittyEnhanced) matches Decoded::Key { input, .. }
                && reported(event) == Ok::<KeyInput, UnsupportedKey>(input)
        }),
{
    let bytes = csi_u_bytes(key, shift, alt, ctrl, sup, 0);
    let event = KeyEvent {
        code: code_of(key),
        modifiers: KeyModifiers::of(shift, ctrl, alt, sup),
        kind,
    };
    law_csi_u_round_trip(key, shift, alt, ctrl, sup, 0);
    law_reported_press_is_the_press(key, shift, ctrl, alt, sup, false, false, kind);
    let a = decodes_to(bytes, DecodeMode::KittyEnhanced)->input;
    let b = reported(event)->Ok_0;
    law_modifiers_are_sets(a.mods, b.mods);
    Modifiers::law_sets_are_their_flags(a.mods, b.mods.spec_flags());
    Modifiers::law_sets_are_their_flags(b.mods, a.mods.spec_flags());
    assert(a.mods.spec_flags() == b.mods.spec_flags());
}

} // verus!
