//! Key symbols, modifier state and key-handler results as fcitx5 reports them.

use vstd::prelude::*;

verus! {

/// Fcitx5 key symbols that the engine tells apart.
#[derive(Debug, Clone, Copy, PartialEq, Eq, Structural)]
pub enum KeySym {
    /// Any key the engine does not name (`None` in fcitx5 terms).
    Unknown,
    BackSpace,
    Tab,
    Return,
    Escape,
    Space,
    Delete,
    Left,
    Up,
    Right,
    Down,
    PageUp,
    PageDown,
    Plus,
    Minus,
    Equal,
    ShiftL,
    ShiftR,
    ControlL,
    ControlR,
    AltL,
    AltR,
    SuperL,
    SuperR,
}

/// The key symbol that a raw X11 keysym value denotes.
pub open spec fn spec_keysym_from_raw(value: u32) -> KeySym {
    if value == 0xff08 { KeySym::BackSpace }
    else if value == 0xff09 { KeySym::Tab }
    else if value == 0xff0d { KeySym::Return }
    else if value == 0xff1b { KeySym::Escape }
    else if value == 0x0020 { KeySym::Space }
    else if value == 0xffff { KeySym::Delete }
    else if value == 0xff51 { KeySym::Left }
    else if value == 0xff52 { KeySym::Up }
    else if value == 0xff53 { KeySym::Right }
    else if value == 0xff54 { KeySym::Down }
    else if value == 0xff55 { KeySym::PageUp }
    else if value == 0xff56 { KeySym::PageDown }
    else if value == 0x002b { KeySym::Plus }
    else if value == 0x002d { KeySym::Minus }
    else if value == 0x003d { KeySym::Equal }
    else if value == 0xffe1 { KeySym::ShiftL }
    else if value == 0xffe2 { KeySym::ShiftR }
    else if value == 0xffe3 { KeySym::ControlL }
    else if value == 0xffe4 { KeySym::ControlR }
    else if value == 0xffe9 { KeySym::AltL }
    else if value == 0xffea { KeySym::AltR }
    else if value == 0xffeb { KeySym::SuperL }
    else if value == 0xffec { KeySym::SuperR }
    else { KeySym::Unknown }
}

/// The raw keysym value of each named key symbol (`Unknown` is 0).
pub open spec fn spec_keysym_raw(k: KeySym) -> u32 {
    match k {
        KeySym::Unknown => 0,
        KeySym::BackSpace => 0xff08,
        KeySym::Tab => 0xff09,
        KeySym::Return => 0xff0d,
        KeySym::Escape => 0xff1b,
        KeySym::Space => 0x0020,
        KeySym::Delete => 0xffff,
        KeySym::Left => 0xff51,
        KeySym::Up => 0xff52,
        KeySym::Right => 0xff53,
        KeySym::Down => 0xff54,
        KeySym::PageUp => 0xff55,
        KeySym::PageDown => 0xff56,
        KeySym::Plus => 0x002b,
        KeySym::Minus => 0x002d,
        KeySym::Equal => 0x003d,
        KeySym::ShiftL => 0xffe1,
        KeySym::ShiftR => 0xffe2,
        KeySym::ControlL => 0xffe3,
        KeySym::ControlR => 0xffe4,
        KeySym::AltL => 0xffe9,
        KeySym::AltR => 0xffea,
        KeySym::SuperL => 0xffeb,
        KeySym::SuperR => 0xffec,
    }
}

/// A raw value is a letter key (`A`-`Z` or `a`-`z`).
pub open spec fn spec_is_letter(raw: u32) -> bool {
    (0x0041 <= raw <= 0x005a) || (0x0061 <= raw <= 0x007a)
}

/// A raw value is a digit key (`0`-`9`).
pub open spec fn spec_is_number(raw: u32) -> bool {
    0x0030 <= raw <= 0x0039
}

/// A raw value is a printable ASCII character.
pub open spec fn spec_is_printable(raw: u32) -> bool {
    0x0020 <= raw < 0x007f
}

impl KeySym {
    /// Create from a raw key value; unknown values give `KeySym::Unknown`.
    pub fn from_raw(value: u32) -> (k: KeySym)
        ensures
            k == spec_keysym_from_raw(value),
    {
        match value {
            0xff08 => KeySym::BackSpace,
            0xff09 => KeySym::Tab,
            0xff0d => KeySym::Return,
            0xff1b => KeySym::Escape,
            0x0020 => KeySym::Space,
            0xffff => KeySym::Delete,
            0xff51 => KeySym::Left,
            0xff52 => KeySym::Up,
            0xff53 => KeySym::Right,
            0xff54 => KeySym::Down,
            0xff55 => KeySym::PageUp,
            0xff56 => KeySym::PageDown,
            0x002b => KeySym::Plus,
            0x002d => KeySym::Minus,
            0x003d => KeySym::Equal,
            0xffe1 => KeySym::ShiftL,
            0xffe2 => KeySym::ShiftR,
            0xffe3 => KeySym::ControlL,
            0xffe4 => KeySym::ControlR,
            0xffe9 => KeySym::AltL,
            0xffea => KeySym::AltR,
            0xffeb => KeySym::SuperL,
            0xffec => KeySym::SuperR,
            _ => KeySym::Unknown,
        }
    }

    /// The raw keysym value of this symbol.
    pub fn to_raw(&self) -> (r: u32)
        ensures
            r == spec_keysym_raw(*self),
    {
        match self {
            KeySym::Unknown => 0,
            KeySym::BackSpace => 0xff08,
            KeySym::Tab => 0xff09,
            KeySym::Return => 0xff0d,
            KeySym::Escape => 0xff1b,
            KeySym::Space => 0x0020,
            KeySym::Delete => 0xffff,
            KeySym::Left => 0xff51,
            KeySym::Up => 0xff52,
            KeySym::Right => 0xff53,
            KeySym::Down => 0xff54,
            KeySym::PageUp => 0xff55,
            KeySym::PageDown => 0xff56,
            KeySym::Plus => 0x002b,
            KeySym::Minus => 0x002d,
            KeySym::Equal => 0x003d,
            KeySym::ShiftL => 0xffe1,
            KeySym::ShiftR => 0xffe2,
            KeySym::ControlL => 0xffe3,
            KeySym::ControlR => 0xffe4,
            KeySym::AltL => 0xffe9,
            KeySym::AltR => 0xffea,
            KeySym::SuperL => 0xffeb,
            KeySym::SuperR => 0xffec,
        }
    }

    /// Check if this is a letter key (a-z, A-Z).
    pub fn is_letter(&self, raw: u32) -> (b: bool)
        ensures
            b == spec_is_letter(raw),
    {
        (raw >= 0x0041 && raw <= 0x005a) || (raw >= 0x0061 && raw <= 0x007a)
    }

    /// Check if this is a number key (0-9).
    pub fn is_number(&self, raw: u32) -> (b: bool)
        ensures
            b == spec_is_number(raw),
    {
        raw >= 0x0030 && raw <= 0x0039
    }

    /// Check if this is a printable character.
    pub fn is_printable(&self, raw: u32) -> (b: bool)
        ensures
            b == spec_is_printable(raw),
    {
        raw >= 0x0020 && raw < 0x007f
    }
}

/// Turning a key symbol into its raw value and back gives the symbol again.
pub proof fn lemma_keysym_raw_roundtrip(k: KeySym)
    ensures
        spec_keysym_from_raw(spec_keysym_raw(k)) == k,
{
}

/// Key state modifiers, a bit set.
#[derive(Debug, Clone, Copy, Default, PartialEq, Eq, Structural)]
pub struct KeyState(pub u32);

/// Bit of the shift modifier.
pub const SHIFT_BIT: u32 = 1;
/// Bit of the control modifier.
pub const CTRL_BIT: u32 = 2;
/// Bit of the alt modifier.
pub const ALT_BIT: u32 = 4;
/// Bit of the super modifier.
pub const SUPER_BIT: u32 = 8;

impl KeyState {
    pub fn has_shift(&self) -> (b: bool)
        ensures
            b == (self.0 & SHIFT_BIT != 0),
    {
        (self.0 & SHIFT_BIT) != 0
    }

    pub fn has_ctrl(&self) -> (b: bool)
        ensures
            b == (self.0 & CTRL_BIT != 0),
    {
        (self.0 & CTRL_BIT) != 0
    }

    pub fn has_alt(&self) -> (b: bool)
        ensures
            b == (self.0 & ALT_BIT != 0),
    {
        (self.0 & ALT_BIT) != 0
    }

    pub fn has_super(&self) -> (b: bool)
        ensures
            b == (self.0 & SUPER_BIT != 0),
    {
        (self.0 & SUPER_BIT) != 0
    }
}

/// Return value for key event handlers.
#[derive(Debug, Clone, Copy, PartialEq, Eq, Structural)]
pub enum IMReturnValue {
    /// Ignore the key event
    Ignore,
    /// Forward the key event to the application
    Forward,
    /// Consume the key event (don't forward)
    Consume,
}

impl IMReturnValue {
    /// The integer that the C side receives: Ignore = 0, Forward = 1, Consume = 2.
    pub fn to_raw(&self) -> (r: i32)
        ensures
            r == (match *self {
                IMReturnValue::Ignore => 0i32,
                IMReturnValue::Forward => 1i32,
                IMReturnValue::Consume => 2i32,
            }),
    {
        match self {
            IMReturnValue::Ignore => 0,
            IMReturnValue::Forward => 1,
            IMReturnValue::Consume => 2,
        }
    }
}

} // verus!
