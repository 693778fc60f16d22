use vstd::prelude::*;

verus! {

/// A decoded key press, as handed to the editor's mode layer.
#[derive(Copy, Clone, PartialEq, Eq, Hash, Debug)]
pub enum Key {
    Tab,
    Enter,
    Esc,
    Backspace,
    Right,
    Left,
    Down,
    Up,
    Delete,
    Home,
    End,
    CtrlLeft,
    CtrlRight,

    Char(char),
    Ctrl(char),
}

impl Key {
    /// Translate a terminal-specific special key code. No special codes are
    /// recognised, so every code maps to no key.
    pub fn from_special_code(code: u16) -> (r: Option<Key>)
        ensures
            r is None,
    {
        match code {
            _ => None,
        }
    }
}

} // verus!
