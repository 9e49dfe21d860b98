//! Tracking whether the platform's soft keyboard is showing, from window
//! height changes and from the app's own show and hide requests.
use vstd::prelude::*;

verus! {

/// What is known of the soft keyboard.
#[derive(Clone, Copy, Debug, PartialEq, Eq, Structural)]
pub struct KeyboardVisibility {
    /// Set when visibility changed and not yet reported.
    pub changed: bool,
    /// Window height when visibility last changed.
    pub visible_height: u32,
    /// Whether the keyboard is taken to be showing.
    pub visible: bool,
    /// Window height at the last observation; 0 before the first.
    pub previous_height: u32,
}

/// Least change in window height, in pixels, that counts as the keyboard
/// opening or closing.
pub const MIN_RESIZE_PX: u32 = 100;

/// Least change in height, in pixels, before a stale state is corrected.
pub const MIN_CORRECTION_PX: u32 = 50;

/// Fifteen percent of the screen height, rounded down.
pub open spec fn resize_threshold(screen: u32) -> int {
    let t = screen * 15 / 100;
    if t >= MIN_RESIZE_PX { t } else { MIN_RESIZE_PX as int }
}

/// A window under 85 percent of the screen height suggests a keyboard.
pub open spec fn looks_covered(current: u32, screen: u32) -> bool {
    screen > 0 && current * 100 < screen * 85
}

/// The state after observing a window `current` pixels high on a screen
/// `screen` pixels high, and whether the keyboard is then taken as showing.
pub open spec fn observe(s: KeyboardVisibility, current: u32, screen: u32) -> (KeyboardVisibility, bool) {
    if s.previous_height == 0 {
        (KeyboardVisibility { previous_height: current, visible_height: current, visible: false, ..s }, false)
    } else {
        let prev = s.previous_height;
        let diff = if current < prev { prev - current } else { current - prev };
        if diff > resize_threshold(screen) {
            let now_visible = current < prev;
            let s1 = if s.visible != now_visible {
                KeyboardVisibility { visible_height: current, visible: now_visible, changed: true, ..s }
            } else {
                s
            };
            (KeyboardVisibility { previous_height: current, ..s1 }, now_visible)
        } else {
            let likely = looks_covered(current, screen);
            let s1 = if s.visible != likely && diff > MIN_CORRECTION_PX {
                KeyboardVisibility { visible: likely, visible_height: current, changed: true, ..s }
            } else {
                s
            };
            (KeyboardVisibility { previous_height: current, ..s1 }, s1.visible)
        }
    }
}

/// The state after the app itself showed (`visible`) or hid the keyboard.
pub open spec fn after_request(s: KeyboardVisibility, visible: bool) -> KeyboardVisibility {
    let h = if s.visible_height >= s.previous_height { s.visible_height } else { s.previous_height };
    if h > 0 {
        if s.visible != visible {
            KeyboardVisibility { visible, visible_height: h, changed: true, previous_height: h }
        } else {
            s
        }
    } else {
        KeyboardVisibility { visible, changed: s.changed || s.visible != visible, ..s }
    }
}

impl KeyboardVisibility {
    /// Nothing observed yet: hidden, height unknown.
    pub fn new() -> (r: KeyboardVisibility)
        ensures
            r == (KeyboardVisibility { changed: false, visible_height: 0, visible: false, previous_height: 0 }),
    {
        KeyboardVisibility { changed: false, visible_height: 0, visible: false, previous_height: 0 }
    }
}

/// Updates the state from a window height and returns whether the keyboard
/// is taken as showing. The first observation only records the height. A
/// change beyond fifteen percent of the screen (at least 100 pixels) means
/// the keyboard opened (the window shrank) or closed; a smaller change of
/// over 50 pixels corrects a state that disagrees with the window covering
/// under 85 percent of the screen.
pub fn detect_keyboard_visibility(state: &mut KeyboardVisibility, current_height: u32, screen_height: u32) -> (r: bool)
    ensures
        (*final(state), r) == observe(*old(state), current_height, screen_height),
{
    let prev = state.previous_height;
    if prev == 0 {
        state.previous_height = current_height;
        state.visible_height = current_height;
        state.visible = false;
        return false;
    }
    let diff = if current_height < prev {
        prev - current_height
    } else {
        current_height - prev
    };
    let t: u64 = (screen_height as u64) * 15 / 100;
    let threshold: u64 = if t >= MIN_RESIZE_PX as u64 {
        t
    } else {
        MIN_RESIZE_PX as u64
    };
    if diff as u64 > threshold {
        let now_visible = current_height < prev;
        if state.visible != now_visible {
            state.visible_height = current_height;
            state.visible = now_visible;
            state.changed = true;
        }
        state.previous_height = current_height;
        return now_visible;
    }
    let likely = screen_height > 0 && (current_height as u64) * 100 < (screen_height as u64) * 85;
    if state.visible != likely && diff > MIN_CORRECTION_PX {
        state.visible = likely;
        state.visible_height = current_height;
        state.changed = true;
    }
    state.previous_height = current_height;
    state.visible
}

/// Reports whether visibility changed since the last call, and clears the
/// flag.
pub fn check_keyboard_visibility_changed(state: &mut KeyboardVisibility) -> (r: bool)
    ensures
        r == old(state).changed,
        *final(state) == (KeyboardVisibility { changed: false, ..*old(state) }),
{
    let r = state.changed;
    state.changed = false;
    r
}

/// Window height when visibility last changed.
pub fn get_visible_height(state: &KeyboardVisibility) -> (r: u32)
    ensures
        r == state.visible_height,
{
    state.visible_height
}

/// Whether the keyboard is taken to be showing.
pub fn is_soft_keyboard_visible(state: &KeyboardVisibility) -> (r: bool)
    ensures
        r == state.visible,
{
    state.visible
}

fn record_request(state: &mut KeyboardVisibility, visible: bool)
    ensures
        *final(state) == after_request(*old(state), visible),
{
    let h = if state.visible_height >= state.previous_height {
        state.visible_height
    } else {
        state.previous_height
    };
    if h > 0 {
        if state.visible != visible {
            state.visible = visible;
            state.visible_height = h;
            state.changed = true;
            state.previous_height = h;
        }
    } else {
        if state.visible != visible {
            state.changed = true;
        }
        state.visible = visible;
    }
}

/// Records the outcome of asking the platform to show the keyboard: when
/// the request went through, the keyboard is taken as showing (later window
/// sizes still correct this).
pub fn show_soft_keyboard(state: &mut KeyboardVisibility, request_succeeded: bool)
    ensures
        request_succeeded ==> *final(state) == after_request(*old(state), true),
        !request_succeeded ==> *final(state) == *old(state),
{
    if request_succeeded {
        record_request(state, true);
    }
}

/// Records the outcome of asking the platform to hide the keyboard.
pub fn hide_soft_keyboard(state: &mut KeyboardVisibility, request_succeeded: bool)
    ensures
        request_succeeded ==> *final(state) == after_request(*old(state), false),
        !request_succeeded ==> *final(state) == *old(state),
{
    if request_succeeded {
        record_request(state, false);
    }
}

} // verus!
