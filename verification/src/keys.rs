//! Keyboard input as the editor and the application read it.
use vstd::prelude::*;

verus! {

/// The key that was pressed.
#[derive(Clone, Copy, Debug, PartialEq, Eq, Structural)]
pub enum KeyCode {
    Char(char),
    Enter,
    Esc,
    Tab,
    BackTab,
    Backspace,
    Delete,
    Left,
    Right,
    Up,
    Down,
    Home,
    End,
    PageUp,
    PageDown,
    F(u8),
    Other,
}

/// A key press or release with its modifiers.
#[derive(Clone, Copy, Debug, PartialEq, Eq, Structural)]
pub struct KeyEvent {
    pub code: KeyCode,
    pub control: bool,
    pub alt: bool,
    pub release: bool,
}

impl KeyEvent {
    /// A plain press of a key, without modifiers.
    pub fn plain(code: KeyCode) -> (r: KeyEvent)
        ensures
            r == (KeyEvent { code, control: false, alt: false, release: false }),
    {
        KeyEvent { code, control: false, alt: false, release: false }
    }

    /// A press of a key with Control held.
    pub fn with_control(code: KeyCode) -> (r: KeyEvent)
        ensures
            r == (KeyEvent { code, control: true, alt: false, release: false }),
    {
        KeyEvent { code, control: true, alt: false, release: false }
    }
}

} // verus!
