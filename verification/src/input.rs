//! What the keyboard reported for one tick, as plain values.
use vstd::prelude::*;

verus! {

/// The key that was pressed last, as far as the editors tell keys apart.
#[derive(Debug, Clone, Copy, PartialEq, Eq, Structural)]
pub enum Key {
    Backspace,
    Enter,
    Tab,
    Escape,
    Other,
}

/// The state of the keyboard at one tick.
#[derive(Debug, Clone, Copy)]
pub struct Input {
    /// The escape key is held down.
    pub escape_down: bool,
    /// The left control key is held down.
    pub ctrl_down: bool,
    /// The left shift key is held down.
    pub shift_down: bool,
    /// The key that was pressed last in this tick, if any.
    pub last_key: Option<Key>,
    /// The next character that was typed and not taken yet, if any. A
    /// function that takes it says so in its result; a character that is
    /// not taken is offered again at the next tick.
    pub ch: Option<char>,
}

/// What reading the clipboard gave.
pub enum Clipboard {
    /// The clipboard could not be opened.
    Closed,
    /// The clipboard was opened but gave no text; the reason, in words.
    Failed(String),
    /// The text in the clipboard.
    Text(String),
}

} // verus!
