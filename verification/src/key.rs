//! Key presses as the library sees them: the key and whether control was
//! held.

use vstd::prelude::*;

verus! {

/// Which key was pressed.
#[derive(Debug, Clone, Copy, PartialEq, Eq, Structural)]
pub enum KeyCode {
    Char(char),
    Esc,
    Enter,
    Backspace,
    Tab,
    Left,
    Right,
    Up,
    Down,
    Home,
    End,
    Delete,
    /// Any key the library has no use for.
    Other,
}

/// One key press.
#[derive(Debug, Clone, Copy, PartialEq, Eq, Structural)]
pub struct Key {
    pub code: KeyCode,
    pub ctrl: bool,
}

impl Key {
    /// A press of `code` with no modifier held.
    pub fn plain(code: KeyCode) -> (res: Key)
        ensures
            res == (Key { code, ctrl: false }),
    {
        Key { code, ctrl: false }
    }

    /// A press of `code` with control held.
    pub fn ctrl(code: KeyCode) -> (res: Key)
        ensures
            res == (Key { code, ctrl: true }),
    {
        Key { code, ctrl: true }
    }
}

} // verus!
