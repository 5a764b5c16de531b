//! Decoded keyboard input as the line editor sees it.

use vstd::prelude::*;

verus! {

/// A key that is not a plain byte.
#[derive(Clone, Copy, Debug, PartialEq, Eq, Structural)]
pub enum NamedKey {
    Esc,
    Enter,
    Backspace,
    Tab,
    Left,
    Right,
    Up,
    Down,
    Home,
    End,
    Delete,
    Insert,
    PageUp,
    PageDown,
    F1,
    F2,
    F3,
    F4,
    F5,
    F6,
    F7,
    F8,
    F9,
    F10,
    F11,
    F12,
    CapsLock,
    NumLock,
    ScrollLock,
    LeftShift,
    RightShift,
    LeftCtrl,
    RightCtrl,
    LeftAlt,
    RightAlt,
}

/// One decoded key press: a byte (ASCII or control) or a named key.
#[derive(Clone, Copy, Debug, PartialEq, Eq, Structural)]
pub enum DecodedKey {
    Char(u8),
    Named(NamedKey),
}

} // verus!
