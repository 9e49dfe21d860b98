//! Touch and key input as the core sees it: touch positions mapped to cells,
//! on-screen key names mapped to key presses, and small input-side state.
use vstd::prelude::*;
use vstd::string::*;

use crate::backend::Rect;
use crate::direct_keyboard::str_eq;

verus! {

/// Touch action types.
#[derive(Clone, Copy, Debug, PartialEq, Eq, Structural)]
pub enum TouchAction {
    /// Finger touched the screen.
    Down,
    /// Finger lifted from the screen.
    Up,
    /// Finger moved on the screen.
    Move,
    /// Touch cancelled.
    Cancel,
}

/// `a / b` held to 16 bits; division by zero gives the largest value, or 0
/// when `a` is 0 too.
pub open spec fn cell_index(a: int, b: int) -> int {
    if b == 0 {
        if a == 0 { 0 } else { 0xffff }
    } else if a / b > 0xffff {
        0xffff
    } else {
        a / b
    }
}

fn cell_index_of(a: u32, b: u32) -> (r: u16)
    ensures
        r == cell_index(a as int, b as int),
{
    if b == 0 {
        if a == 0 {
            0
        } else {
            0xffff
        }
    } else if a / b > 0xffff {
        0xffff
    } else {
        (a / b) as u16
    }
}

/// The terminal cell `(column, row)` under the pixel `(x, y)`, with rows
/// starting `top_offset_px` pixels down; a pixel above that maps to row 0.
pub fn cell_at_pixel(x: u32, y: u32, font_width: u32, font_height: u32, top_offset_px: u32) -> (r: (
    u16,
    u16,
))
    ensures
        r.0 == cell_index(x as int, font_width as int),
        r.1 == cell_index(if y >= top_offset_px { y - top_offset_px } else { 0 }, font_height as int),
{
    let dy = if y >= top_offset_px {
        y - top_offset_px
    } else {
        0
    };
    (cell_index_of(x, font_width), cell_index_of(dy, font_height))
}

/// A key, as the terminal application receives it.
#[derive(Clone, Copy, Debug, PartialEq, Eq, Structural)]
pub enum KeyCode {
    Esc,
    Tab,
    Up,
    Down,
    Left,
    Right,
    Enter,
    Backspace,
    Delete,
    Char(char),
}

/// A key with the modifiers held at the time.
#[derive(Clone, Copy, Debug, PartialEq, Eq, Structural)]
pub struct KeyPress {
    pub code: KeyCode,
    pub shift: bool,
    pub ctrl: bool,
}

/// The key a name stands for. Shift, Ctrl and the keyboard toggle stand for
/// none: they change state instead of sending a key.
pub open spec fn key_code_for(name: Seq<char>) -> Option<KeyCode> {
    if name == "ESC"@ {
        Some(KeyCode::Esc)
    } else if name == "TAB"@ {
        Some(KeyCode::Tab)
    } else if name == "SHIFT"@ || name == "CTRL"@ {
        None
    } else if name == "UP"@ {
        Some(KeyCode::Up)
    } else if name == "DOWN"@ {
        Some(KeyCode::Down)
    } else if name == "LEFT"@ {
        Some(KeyCode::Left)
    } else if name == "RIGHT"@ {
        Some(KeyCode::Right)
    } else if name == "ENTER"@ {
        Some(KeyCode::Enter)
    } else if name == "SPACE"@ {
        Some(KeyCode::Char(' '))
    } else if name == "BACKSPACE"@ {
        Some(KeyCode::Backspace)
    } else if name == "DELETE"@ {
        Some(KeyCode::Delete)
    } else if name == "KEYBOARD"@ {
        None
    } else if name.len() == 1 && (name[0] as u32) < 128 {
        Some(KeyCode::Char(name[0]))
    } else {
        None
    }
}

/// The key press for an on-screen key name with the current toggles; see
/// [`key_code_for`]. A single ASCII character stands for itself.
pub fn key_event_for_name(key_name: &str, shift_active: bool, ctrl_active: bool) -> (r: Option<KeyPress>)
    ensures
        r.is_some() == key_code_for(key_name@).is_some(),
        r.is_some() ==> r.unwrap() == (KeyPress {
            code: key_code_for(key_name@).unwrap(),
            shift: shift_active,
            ctrl: ctrl_active,
        }),
{
    let code = if str_eq(key_name, "ESC") {
        KeyCode::Esc
    } else if str_eq(key_name, "TAB") {
        KeyCode::Tab
    } else if str_eq(key_name, "SHIFT") || str_eq(key_name, "CTRL") {
        return None;
    } else if str_eq(key_name, "UP") {
        KeyCode::Up
    } else if str_eq(key_name, "DOWN") {
        KeyCode::Down
    } else if str_eq(key_name, "LEFT") {
        KeyCode::Left
    } else if str_eq(key_name, "RIGHT") {
        KeyCode::Right
    } else if str_eq(key_name, "ENTER") {
        KeyCode::Enter
    } else if str_eq(key_name, "SPACE") {
        KeyCode::Char(' ')
    } else if str_eq(key_name, "BACKSPACE") {
        KeyCode::Backspace
    } else if str_eq(key_name, "DELETE") {
        KeyCode::Delete
    } else if str_eq(key_name, "KEYBOARD") {
        return None;
    } else if key_name.unicode_len() == 1 && (key_name.get_char(0) as u32) < 128 {
        KeyCode::Char(key_name.get_char(0))
    } else {
        return None;
    };
    Some(KeyPress { code, shift: shift_active, ctrl: ctrl_active })
}

/// Input state for composing accented characters from dead keys.
pub struct InputState {
    /// The accent waiting for the next key, if any.
    pub combining_accent: Option<char>,
}

impl InputState {
    /// No accent pending.
    pub fn new() -> (r: InputState)
        ensures
            r.combining_accent.is_none(),
    {
        InputState { combining_accent: None }
    }
}

/// A clickable button of a terminal UI.
pub struct Button {
    pub label: String,
    pub focused: bool,
    pub clicked: bool,
}

impl Button {
    /// An unfocused, unclicked button.
    pub fn new(label: String) -> (r: Button)
        ensures
            r.label == label,
            !r.focused,
            !r.clicked,
    {
        Button { label, focused: false, clicked: false }
    }

    pub fn set_focused(&mut self, focused: bool)
        ensures
            final(self).focused == focused,
            final(self).clicked == old(self).clicked,
            final(self).label == old(self).label,
    {
        self.focused = focused;
    }

    pub fn set_clicked(&mut self, clicked: bool)
        ensures
            final(self).clicked == clicked,
            final(self).focused == old(self).focused,
            final(self).label == old(self).label,
    {
        self.clicked = clicked;
    }

    /// Whether cell `(x, y)` lies inside `area`.
    pub fn contains(&self, x: u16, y: u16, area: Rect) -> (r: bool)
        ensures
            r == (area.x <= x < area.x + area.width && area.y <= y < area.y + area.height),
    {
        x >= area.x && (x as u32) < (area.x as u32) + (area.width as u32) && y >= area.y && (y as u32)
            < (area.y as u32) + (area.height as u32)
    }
}

} // verus!
