use vstd::prelude::*;
use crate::text::str_eq;

verus! {

/// A key press, as the game reads it.
#[derive(Clone, Copy, Debug, PartialEq, Eq, Structural)]
pub enum Key {
    Digit(u8),
    Erase,
    Up,
    Down,
    Left,
    Right,
    Other,
}

/// The key named by a key-event string: "1".."9" are digits,
/// "Backspace", "Delete" and "0" erase, and the four arrow keys move.
pub open spec fn key_of(s: Seq<char>) -> Key {
    if s == "1"@ {
        Key::Digit(1)
    } else if s == "2"@ {
        Key::Digit(2)
    } else if s == "3"@ {
        Key::Digit(3)
    } else if s == "4"@ {
        Key::Digit(4)
    } else if s == "5"@ {
        Key::Digit(5)
    } else if s == "6"@ {
        Key::Digit(6)
    } else if s == "7"@ {
        Key::Digit(7)
    } else if s == "8"@ {
        Key::Digit(8)
    } else if s == "9"@ {
        Key::Digit(9)
    } else if s == "Backspace"@ || s == "Delete"@ || s == "0"@ {
        Key::Erase
    } else if s == "ArrowUp"@ {
        Key::Up
    } else if s == "ArrowDown"@ {
        Key::Down
    } else if s == "ArrowLeft"@ {
        Key::Left
    } else if s == "ArrowRight"@ {
        Key::Right
    } else {
        Key::Other
    }
}

/// Reads a key-event string.
pub fn key_from_str(s: &str) -> (k: Key)
    ensures
        k == key_of(s@),
{
    if str_eq(s, "1") {
        Key::Digit(1)
    } else if str_eq(s, "2") {
        Key::Digit(2)
    } else if str_eq(s, "3") {
        Key::Digit(3)
    } else if str_eq(s, "4") {
        Key::Digit(4)
    } else if str_eq(s, "5") {
        Key::Digit(5)
    } else if str_eq(s, "6") {
        Key::Digit(6)
    } else if str_eq(s, "7") {
        Key::Digit(7)
    } else if str_eq(s, "8") {
        Key::Digit(8)
    } else if str_eq(s, "9") {
        Key::Digit(9)
    } else if str_eq(s, "Backspace") || str_eq(s, "Delete") || str_eq(s, "0") {
        Key::Erase
    } else if str_eq(s, "ArrowUp") {
        Key::Up
    } else if str_eq(s, "ArrowDown") {
        Key::Down
    } else if str_eq(s, "ArrowLeft") {
        Key::Left
    } else if str_eq(s, "ArrowRight") {
        Key::Right
    } else {
        Key::Other
    }
}

/// What a key press asks of the app.
#[derive(Clone, Copy, Debug, PartialEq, Eq, Structural)]
pub enum KeyEffect {
    /// Nothing changed.
    Ignore,
    /// The selection moved.
    Redraw,
    /// The number (0 erases) is to be placed with `place_number`.
    Place(u8),
}

/// What a key press asks of a game played by clicking.
#[derive(Clone, Copy, Debug, PartialEq, Eq, Structural)]
pub enum KeyAction {
    /// Escape: drop the selection and the hint.
    Deselect,
    /// Ctrl-Z or Cmd-Z: undo.
    Undo,
    Ignore,
}

/// The action of a key-event string, with the state of the control and
/// meta keys.
pub open spec fn key_action_of(key: Seq<char>, ctrl: bool, meta: bool) -> KeyAction {
    if key == "Escape"@ {
        KeyAction::Deselect
    } else if key == "z"@ && (ctrl || meta) {
        KeyAction::Undo
    } else {
        KeyAction::Ignore
    }
}

/// Reads a key press.
pub fn key_action(key: &str, ctrl: bool, meta: bool) -> (a: KeyAction)
    ensures
        a == key_action_of(key@, ctrl, meta),
{
    if str_eq(key, "Escape") {
        KeyAction::Deselect
    } else if str_eq(key, "z") && (ctrl || meta) {
        KeyAction::Undo
    } else {
        KeyAction::Ignore
    }
}

} // verus!
