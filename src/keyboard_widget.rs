//! The cell-based on-screen keyboard's state and touch handling. Drawing it
//! into a terminal buffer is left to the widget toolkit.
use vstd::prelude::*;

use crate::direct_keyboard::{clock_millis, feedback_on};

verus! {

/// Keyboard widget state: the pressed key, the toggles, and where the rows
/// were last drawn.
pub struct KeyboardState {
    /// Currently pressed key, for visual feedback.
    pub pressed_key: Option<String>,
    /// When the key was pressed, in milliseconds on the caller's clock.
    pub press_time: Option<u64>,
    /// Whether Shift is on.
    pub shift_active: bool,
    /// Whether Ctrl is on.
    pub ctrl_active: bool,
    /// First column of the top row, set when the widget is drawn.
    pub row1_start_col: Option<u16>,
    /// First column of the bottom row, set when the widget is drawn.
    pub row2_start_col: Option<u16>,
}

/// Columns each row of the widget spans.
pub const WIDGET_WIDTH: u16 = 21;

/// The key under column `rel` of the top row, three columns per key.
pub open spec fn top_key(rel: int) -> &'static str {
    if rel < 3 {
        "ESC"
    } else if rel < 6 {
        "TAB"
    } else if rel < 9 {
        "SHIFT"
    } else if rel < 12 {
        "CTRL"
    } else if rel < 15 {
        "UP"
    } else if rel < 18 {
        "DELETE"
    } else {
        "ENTER"
    }
}

/// The key under column `rel` of the bottom row, which is indented by nine
/// columns.
pub open spec fn bottom_key(rel: int) -> Option<&'static str> {
    if 9 <= rel < 12 {
        Some("LEFT")
    } else if 12 <= rel < 15 {
        Some("DOWN")
    } else if 15 <= rel < 18 {
        Some("RIGHT")
    } else if 18 <= rel < 21 {
        Some("KEYBOARD")
    } else {
        None
    }
}

/// The key a touch at `(col, row)` hits, given where the rows start; a touch
/// above the keyboard's first row hits nothing.
pub open spec fn widget_hit(s: KeyboardState, col: int, row: int, start_row: int) -> Option<
    &'static str,
> {
    let krow = row - start_row;
    if krow < 0 {
        None
    } else if krow == 0 {
        match s.row1_start_col {
            None => None,
            Some(c) => if c <= col < c + WIDGET_WIDTH {
                Some(top_key(col - c))
            } else {
                None
            },
        }
    } else if krow == 1 {
        match s.row2_start_col {
            None => None,
            Some(c) => if c <= col < c + WIDGET_WIDTH {
                bottom_key(col - c)
            } else {
                None
            },
        }
    } else {
        None
    }
}

impl KeyboardState {
    /// No key pressed, toggles off, not yet drawn.
    pub fn new() -> (r: KeyboardState)
        ensures
            r.pressed_key.is_none(),
            r.press_time.is_none(),
            !r.shift_active,
            !r.ctrl_active,
            r.row1_start_col.is_none(),
            r.row2_start_col.is_none(),
    {
        KeyboardState {
            pressed_key: None,
            press_time: None,
            shift_active: false,
            ctrl_active: false,
            row1_start_col: None,
            row2_start_col: None,
        }
    }

    /// Clears the pressed key.
    pub fn clear_pressed(&mut self)
        ensures
            final(self).pressed_key.is_none(),
            final(self).press_time.is_none(),
            final(self).shift_active == old(self).shift_active,
            final(self).ctrl_active == old(self).ctrl_active,
            final(self).row1_start_col == old(self).row1_start_col,
            final(self).row2_start_col == old(self).row2_start_col,
    {
        self.pressed_key = None;
        self.press_time = None;
    }

    /// Marks `key` as pressed at `now_ms`.
    pub fn set_pressed_at(&mut self, key: String, now_ms: u64)
        ensures
            final(self).pressed_key == Some(key),
            final(self).press_time == Some(now_ms),
            final(self).shift_active == old(self).shift_active,
            final(self).ctrl_active == old(self).ctrl_active,
            final(self).row1_start_col == old(self).row1_start_col,
            final(self).row2_start_col == old(self).row2_start_col,
    {
        self.pressed_key = Some(key);
        self.press_time = Some(now_ms);
    }

    /// Marks `key` as pressed now.
    pub fn set_pressed(&mut self, key: String)
        ensures
            final(self).pressed_key == Some(key),
            final(self).press_time.is_some(),
            final(self).shift_active == old(self).shift_active,
            final(self).ctrl_active == old(self).ctrl_active,
            final(self).row1_start_col == old(self).row1_start_col,
            final(self).row2_start_col == old(self).row2_start_col,
    {
        let now = clock_millis();
        self.set_pressed_at(key, now);
    }

    /// Flips Shift.
    pub fn toggle_shift(&mut self)
        ensures
            final(self).shift_active == !old(self).shift_active,
            final(self).ctrl_active == old(self).ctrl_active,
            final(self).pressed_key == old(self).pressed_key,
            final(self).press_time == old(self).press_time,
    {
        self.shift_active = !self.shift_active;
    }

    /// Flips Ctrl.
    pub fn toggle_ctrl(&mut self)
        ensures
            final(self).ctrl_active == !old(self).ctrl_active,
            final(self).shift_active == old(self).shift_active,
            final(self).pressed_key == old(self).pressed_key,
            final(self).press_time == old(self).press_time,
    {
        self.ctrl_active = !self.ctrl_active;
    }

    /// Whether the pressed key is still highlighted at `now_ms`.
    pub fn should_show_feedback_at(&self, now_ms: u64) -> (r: bool)
        ensures
            r == (self.press_time.is_some() && feedback_on(self.press_time.unwrap(), now_ms)),
    {
        match self.press_time {
            Some(t) => now_ms >= t && now_ms - t < crate::direct_keyboard::FEEDBACK_MS,
            None => false,
        }
    }

    /// Whether the pressed key is still highlighted now.
    pub fn should_show_feedback(&self) -> (r: bool)
        ensures
            r ==> self.press_time.is_some(),
    {
        let now = clock_millis();
        self.should_show_feedback_at(now)
    }
}

/// `after` is `before` after a touch at `(col, row)` that returned `r`: a hit
/// returns the key's name and marks it pressed at some time, keeping the
/// toggles and row positions; a miss returns nothing and changes nothing.
pub open spec fn touched(
    before: KeyboardState,
    after: KeyboardState,
    col: int,
    row: int,
    start_row: int,
    r: Option<String>,
) -> bool {
    let hit = widget_hit(before, col, row, start_row);
    &&& r.is_some() == hit.is_some()
    &&& r.is_some() ==> {
        &&& r.unwrap()@ == hit.unwrap()@
        &&& after.pressed_key == r
        &&& after.press_time.is_some()
        &&& after.shift_active == before.shift_active
        &&& after.ctrl_active == before.ctrl_active
        &&& after.row1_start_col == before.row1_start_col
        &&& after.row2_start_col == before.row2_start_col
    }
    &&& r.is_none() ==> after == before
}

impl KeyboardState {
    /// The key hit by a touch on terminal cell `(col, row)` when the keyboard
    /// starts at row `keyboard_start_row`; a hit is also marked as pressed.
    pub fn handle_touch(&mut self, col: u16, row: u16, keyboard_start_row: u16) -> (r: Option<String>)
        ensures
            touched(*old(self), *final(self), col as int, row as int, keyboard_start_row as int, r),
    {
        if row < keyboard_start_row {
            return None;
        }
        let krow: u16 = row - keyboard_start_row;
        let name: &'static str = if krow == 0 {
            let start = match self.row1_start_col {
                Some(c) => c,
                None => return None,
            };
            if col < start || (col as u32) >= (start as u32) + (WIDGET_WIDTH as u32) {
                return None;
            }
            let rel = col - start;
            if rel < 3 {
                "ESC"
            } else if rel < 6 {
                "TAB"
            } else if rel < 9 {
                "SHIFT"
            } else if rel < 12 {
                "CTRL"
            } else if rel < 15 {
                "UP"
            } else if rel < 18 {
                "DELETE"
            } else {
                "ENTER"
            }
        } else if krow == 1 {
            let start = match self.row2_start_col {
                Some(c) => c,
                None => return None,
            };
            if col < start || (col as u32) >= (start as u32) + (WIDGET_WIDTH as u32) {
                return None;
            }
            let rel = col - start;
            if 9 <= rel && rel < 12 {
                "LEFT"
            } else if 12 <= rel && rel < 15 {
                "DOWN"
            } else if 15 <= rel && rel < 18 {
                "RIGHT"
            } else if 18 <= rel && rel < 21 {
                "KEYBOARD"
            } else {
                return None;
            }
        } else {
            return None;
        };
        let key = name.to_owned();
        self.set_pressed(key.clone());
        Some(key)
    }
}

impl Default for KeyboardState {
    fn default() -> (r: KeyboardState)
        ensures
            r.pressed_key.is_none(),
            r.press_time.is_none(),
            !r.shift_active,
            !r.ctrl_active,
            r.row1_start_col.is_none(),
            r.row2_start_col.is_none(),
    {
        KeyboardState::new()
    }
}

/// The keyboard widget, borrowing its state.
pub struct KeyboardWidget<'a> {
    pub state: &'a mut KeyboardState,
}

impl<'a> KeyboardWidget<'a> {
    /// A widget over `state`.
    pub fn new(state: &'a mut KeyboardState) -> (r: KeyboardWidget<'a>)
        ensures
            *r.state == *old(state),
            *final(state) == *final(r.state),
    {
        KeyboardWidget { state }
    }

    /// The key hit by a touch on terminal cell `(col, row)` when the keyboard
    /// starts at row `keyboard_start_row`; see [`KeyboardState::handle_touch`].
    pub fn handle_touch(&mut self, col: u16, row: u16, keyboard_start_row: u16) -> (r: Option<String>)
        ensures
            touched(*old(self).state, *final(self).state, col as int, row as int, keyboard_start_row as int, r),
    {
        self.state.handle_touch(col, row, keyboard_start_row)
    }
}

} // verus!
