//! The on-screen keyboard drawn straight into the pixel buffer, and the
//! hit-test that maps a touch back to a key.
use vstd::prelude::*;
use vstd::string::*;

use crate::glyph::{read_px, write_px};
use crate::rasterizer::{
    in_done, same_from, lemma_pixel_coords, lemma_pixels_apart, lemma_rect_kept_above, lemma_row_start_monotone,
    pixel_index, put_px, px_x, px_y, rect_filled, rect_kept_outside, same_before, Rasterizer,
};

verus! {

/// Whether two strings hold the same characters.
pub fn str_eq(a: &str, b: &str) -> (r: bool)
    ensures
        r == (a@ == b@),
{
    let n = a.unicode_len();
    if n != b.unicode_len() {
        return false;
    }
    let mut i: usize = 0;
    while i < n
        invariant
            n == a@.len(),
            n == b@.len(),
            i <= n,
            forall|j: int| 0 <= j < i ==> a@[j] == b@[j],
        decreases n - i,
    {
        if a.get_char(i) != b.get_char(i) {
            return false;
        }
        i = i + 1;
    }
    assert(a@ =~= b@);
    true
}

/// Keyboard state: the key shown as pressed and the two toggles.
pub struct DirectKeyboardState {
    /// Currently pressed key, for visual feedback.
    pub pressed_key: Option<String>,
    /// When the key was pressed, in milliseconds on the caller's clock.
    pub press_time: Option<u64>,
    /// Whether Shift is on.
    pub shift_active: bool,
    /// Whether Ctrl is on.
    pub ctrl_active: bool,
}

/// How long a pressed key stays highlighted, in milliseconds.
pub const FEEDBACK_MS: u64 = 200;

/// Relies on `std::time::SystemTime::elapsed`, called on the Unix epoch: the
/// time now in milliseconds since the epoch, or 0 when the clock is set
/// before it. Nothing is promised of the value.
#[verifier::external_body]
pub(crate) fn clock_millis() -> u64 {
    match std::time::UNIX_EPOCH.elapsed() {
        Ok(d) => d.as_millis() as u64,
        Err(_) => 0,
    }
}

/// Whether a press at `press_ms` is still highlighted at `now_ms`.
pub open spec fn feedback_on(press_ms: u64, now_ms: u64) -> bool {
    now_ms >= press_ms && now_ms - press_ms < FEEDBACK_MS
}

impl DirectKeyboardState {
    /// No key pressed, both toggles off.
    pub fn new() -> (r: DirectKeyboardState)
        ensures
            r.pressed_key.is_none(),
            r.press_time.is_none(),
            !r.shift_active,
            !r.ctrl_active,
    {
        DirectKeyboardState { pressed_key: None, press_time: None, shift_active: false, ctrl_active: false }
    }

    /// Marks `key` as pressed at `now_ms`.
    pub fn set_pressed_at(&mut self, key: String, now_ms: u64)
        ensures
            final(self).pressed_key == Some(key),
            final(self).press_time == Some(now_ms),
            final(self).shift_active == old(self).shift_active,
            final(self).ctrl_active == old(self).ctrl_active,
    {
        self.pressed_key = Some(key);
        self.press_time = Some(now_ms);
    }

    /// Marks `key` as pressed now.
    pub fn set_pressed(&mut self, key: String)
        ensures
            final(self).pressed_key == Some(key),
            final(self).press_time.is_some(),
            final(self).shift_active == old(self).shift_active,
            final(self).ctrl_active == old(self).ctrl_active,
    {
        let now = clock_millis();
        self.set_pressed_at(key, now);
    }

    /// Clears the pressed key.
    pub fn clear_pressed(&mut self)
        ensures
            final(self).pressed_key.is_none(),
            final(self).press_time.is_none(),
            final(self).shift_active == old(self).shift_active,
            final(self).ctrl_active == old(self).ctrl_active,
    {
        self.pressed_key = None;
        self.press_time = None;
    }

    /// Flips Shift.
    pub fn toggle_shift(&mut self)
        ensures
            final(self).shift_active == !old(self).shift_active,
            final(self).ctrl_active == old(self).ctrl_active,
            final(self).pressed_key == old(self).pressed_key,
            final(self).press_time == old(self).press_time,
    {
        self.shift_active = !self.shift_active;
    }

    /// Flips Ctrl.
    pub fn toggle_ctrl(&mut self)
        ensures
            final(self).ctrl_active == !old(self).ctrl_active,
            final(self).shift_active == old(self).shift_active,
            final(self).pressed_key == old(self).pressed_key,
            final(self).press_time == old(self).press_time,
    {
        self.ctrl_active = !self.ctrl_active;
    }

    /// Whether the pressed key is still highlighted at `now_ms`.
    pub fn should_show_feedback_at(&self, now_ms: u64) -> (r: bool)
        ensures
            r == (self.press_time.is_some() && feedback_on(self.press_time.unwrap(), now_ms)),
    {
        match self.press_time {
            Some(t) => now_ms >= t && now_ms - t < FEEDBACK_MS,
            None => false,
        }
    }

    /// Whether the pressed key is still highlighted now.
    pub fn should_show_feedback(&self) -> (r: bool)
        ensures
            r ==> self.press_time.is_some(),
    {
        let now = clock_millis();
        self.should_show_feedback_at(now)
    }
}

/// One key of the layout.
pub struct KeyButton {
    pub label: &'static str,
    pub key_name: &'static str,
    pub width_units: u32,
}

/// Where a key is drawn and what it sends.
#[derive(Clone, Copy, Debug)]
pub struct KeyRect {
    pub x: usize,
    pub y: usize,
    pub width: usize,
    pub height: usize,
    pub label: &'static str,
    pub key_name: &'static str,
}

/// The widest a button unit gets, in pixels.
pub const MAX_BUTTON_WIDTH: usize = 150;

/// Pixels between neighbouring buttons.
pub const BUTTON_GAP: usize = 2;

/// On the default keyboard in a 1080 pixel window with its top at row 1000
/// and 80 pixel buttons, a touch at `(20, 1010)` lies in the first button
/// and reports Escape.
pub proof fn lemma_default_escape_touch(kb: DirectKeyboard)
    requires
        kb.is_default(),
    ensures
        first_hit(kb.key_rects(1080, 1000, 80), 20, 1010) == Some("ESC"),
{
    let row = kb.row1@;
    assert(units_sum(row) == 7) by {
        reveal_with_fuel(units_sum, 8);
        assert(row.drop_last().drop_last().drop_last().drop_last().drop_last().drop_last().drop_last().len() == 0);
    }
    assert(kb.unit_width(1080) == 150);
    assert(kb.left_edge(1080) == 15);
    lemma_row_rect(row, 15, 1001, 150, 80, 7, 0);
    lemma_row_rects_len(row, 15, 1001, 150, 80, 7);
    let rects = kb.key_rects(1080, 1000, 80);
    assert(rects[0] == row_rects(row, 15, 1001, 150, 80, 7)[0]);
    assert(rect_contains(rects[0], 20, 1010));
    lemma_touch_matches_layout(kb, 1080, 1000, 80, 20, 1010);
}

/// A one-unit key with this label and name.
pub open spec fn key_is(b: KeyButton, label: &'static str, name: &'static str) -> bool {
    b.label == label && b.key_name == name && b.width_units == 1
}

/// Keyboard renderer that writes straight into the pixel buffer.
pub struct DirectKeyboard {
    /// The top row, left to right.
    row1: Vec<KeyButton>,
    /// The bottom row, left to right.
    row2: Vec<KeyButton>,
    /// How many button widths (each with its gap) the bottom row is indented.
    row2_padding: u32,
}

/// The sum of a row's width units.
pub open spec fn units_sum(row: Seq<KeyButton>) -> int
    decreases row.len(),
{
    if row.len() == 0 {
        0
    } else {
        units_sum(row.drop_last()) + row.last().width_units
    }
}

/// Left edge of button `i` of a row that starts at `start`.
pub open spec fn x_at(row: Seq<KeyButton>, start: int, bw: int, i: int) -> int
    decreases i,
{
    if i <= 0 {
        start
    } else {
        x_at(row, start, bw, i - 1) + bw * row[i - 1].width_units + BUTTON_GAP
    }
}

/// The rectangles of the first `n` buttons of a row.
pub open spec fn row_rects(row: Seq<KeyButton>, start: int, y: int, bw: int, bh: int, n: int) -> Seq<
    KeyRect,
>
    decreases n,
{
    if n <= 0 {
        Seq::empty()
    } else {
        row_rects(row, start, y, bw, bh, n - 1).push(
            KeyRect {
                x: x_at(row, start, bw, n - 1) as usize,
                y: y as usize,
                width: (bw * row[n - 1].width_units) as usize,
                height: bh as usize,
                label: row[n - 1].label,
                key_name: row[n - 1].key_name,
            },
        )
    }
}

/// Whether `(x, y)` lies inside `r`.
pub open spec fn rect_contains(r: KeyRect, x: int, y: int) -> bool {
    r.x <= x < r.x + r.width && r.y <= y < r.y + r.height
}

/// The key of the first rectangle holding `(x, y)`.
pub open spec fn first_hit(rects: Seq<KeyRect>, x: int, y: int) -> Option<&'static str>
    decreases rects.len(),
{
    if rects.len() == 0 {
        None
    } else if rect_contains(rects[0], x, y) {
        Some(rects[0].key_name)
    } else {
        first_hit(rects.drop_first(), x, y)
    }
}

/// Whether the keyboard's rows, starting at `ky` with buttons `bh` high, fit
/// in the address range.
pub open spec fn layout_fits(ky: int, bh: int) -> bool {
    ky + 2 * bh + 4 <= usize::MAX
}

impl DirectKeyboard {
    pub closed spec fn row1_view(&self) -> Seq<KeyButton> {
        self.row1@
    }

    pub closed spec fn row2_view(&self) -> Seq<KeyButton> {
        self.row2@
    }

    pub closed spec fn padding(&self) -> int {
        self.row2_padding as int
    }

    /// Rows are short, units are small and positive, and the top row is not
    /// empty.
    pub closed spec fn wf(&self) -> bool {
        &&& 1 <= self.row1@.len() <= 8
        &&& self.row2@.len() <= 8
        &&& self.row2_padding <= 8
        &&& forall|i: int| 0 <= i < self.row1@.len() ==> 1 <= #[trigger] self.row1@[i].width_units <= 4
        &&& forall|i: int| 0 <= i < self.row2@.len() ==> 1 <= #[trigger] self.row2@[i].width_units <= 4
    }

    /// Width of one button unit in a window `ww` pixels wide.
    pub closed spec fn unit_width(&self, ww: int) -> int {
        let q = ww / units_sum(self.row1@);
        if q <= MAX_BUTTON_WIDTH { q } else { MAX_BUTTON_WIDTH as int }
    }

    /// Left edge of the top row: the keyboard is centred.
    pub closed spec fn left_edge(&self, ww: int) -> int {
        (ww - self.unit_width(ww) * units_sum(self.row1@)) / 2
    }

    /// Every button's rectangle, top row first, left to right.
    pub closed spec fn key_rects(&self, ww: int, ky: int, bh: int) -> Seq<KeyRect> {
        let bw = self.unit_width(ww);
        let x0 = self.left_edge(ww);
        row_rects(self.row1@, x0, ky + 1, bw, bh, self.row1@.len() as int) + row_rects(
            self.row2@,
            x0 + bw * self.row2_padding + BUTTON_GAP * self.row2_padding,
            ky + bh + 3,
            bw,
            bh,
            self.row2@.len() as int,
        )
    }

    /// The default layout: Esc, Tab, Shift, Ctrl, Up, Delete, Enter on top;
    /// Left, Down, Right and the system keyboard toggle below, indented by
    /// three buttons.
    pub fn new() -> (r: DirectKeyboard)
        ensures
            r.is_default(),
            r.wf(),
    {
        let row1 = vec![
            KeyButton { label: "ESC", key_name: "ESC", width_units: 1 },
            KeyButton { label: "TAB", key_name: "TAB", width_units: 1 },
            KeyButton { label: "SFT", key_name: "SHIFT", width_units: 1 },
            KeyButton { label: "CTL", key_name: "CTRL", width_units: 1 },
            KeyButton { label: "^", key_name: "UP", width_units: 1 },
            KeyButton { label: "DEL", key_name: "DELETE", width_units: 1 },
            KeyButton { label: "RET", key_name: "ENTER", width_units: 1 },
        ];
        let row2 = vec![
            KeyButton { label: "<", key_name: "LEFT", width_units: 1 },
            KeyButton { label: "v", key_name: "DOWN", width_units: 1 },
            KeyButton { label: ">", key_name: "RIGHT", width_units: 1 },
            KeyButton { label: "KB", key_name: "KEYBOARD", width_units: 1 },
        ];
        DirectKeyboard { row1, row2, row2_padding: 3 }
    }

    /// The default layout, key by key.
    pub closed spec fn is_default(&self) -> bool {
        &&& self.wf()
        &&& self.row1@.len() == 7
        &&& self.row2@.len() == 4
        &&& self.row2_padding == 3
        &&& key_is(self.row1@[0], "ESC", "ESC")
        &&& key_is(self.row1@[1], "TAB", "TAB")
        &&& key_is(self.row1@[2], "SFT", "SHIFT")
        &&& key_is(self.row1@[3], "CTL", "CTRL")
        &&& key_is(self.row1@[4], "^", "UP")
        &&& key_is(self.row1@[5], "DEL", "DELETE")
        &&& key_is(self.row1@[6], "RET", "ENTER")
        &&& key_is(self.row2@[0], "<", "LEFT")
        &&& key_is(self.row2@[1], "v", "DOWN")
        &&& key_is(self.row2@[2], ">", "RIGHT")
        &&& key_is(self.row2@[3], "KB", "KEYBOARD")
    }

    /// Keyboard height in pixels for a button height.
    pub fn height_pixels(&self, button_height: u32) -> (r: u64)
        ensures
            r == 2 * button_height + 4,
    {
        (button_height as u64) * 2 + 4
    }

    fn total_units(&self) -> (r: usize)
        requires
            self.wf(),
        ensures
            r == units_sum(self.row1@),
            1 <= r <= 32,
    {
        let mut sum: usize = 0;
        let mut i: usize = 0;
        while i < self.row1.len()
            invariant
                self.wf(),
                i <= self.row1@.len(),
                sum == units_sum(self.row1@.take(i as int)),
                i <= sum <= 4 * i,
            decreases self.row1@.len() - i,
        {
            assert(self.row1@.take(i as int + 1).drop_last() =~= self.row1@.take(i as int));
            sum = sum + self.row1[i].width_units as usize;
            i = i + 1;
        }
        assert(self.row1@.take(i as int) =~= self.row1@);
        sum
    }

    /// Appends the rectangles of `row`, starting at pixel column `start` on
    /// pixel row `y`.
    fn push_row(row: &Vec<KeyButton>, start: usize, y: usize, bw: usize, bh: usize, out: &mut Vec<KeyRect>)
        requires
            row@.len() <= 8,
            forall|i: int| 0 <= i < row@.len() ==> 1 <= #[trigger] row@[i].width_units <= 4,
            bw <= MAX_BUTTON_WIDTH,
            start + 8 * (4 * MAX_BUTTON_WIDTH + BUTTON_GAP) <= usize::MAX,
        ensures
            final(out)@ == old(out)@ + row_rects(
                row@,
                start as int,
                y as int,
                bw as int,
                bh as int,
                row@.len() as int,
            ),
    {
        let mut x: usize = start;
        let mut i: usize = 0;
        while i < row.len()
            invariant
                row@.len() <= 8,
                forall|j: int| 0 <= j < row@.len() ==> 1 <= #[trigger] row@[j].width_units <= 4,
                bw <= MAX_BUTTON_WIDTH,
                start + 8 * (4 * MAX_BUTTON_WIDTH + BUTTON_GAP) <= usize::MAX,
                i <= row@.len(),
                x == x_at(row@, start as int, bw as int, i as int),
                x <= start + i * (4 * MAX_BUTTON_WIDTH + BUTTON_GAP),
                out@ == old(out)@ + row_rects(row@, start as int, y as int, bw as int, bh as int, i as int),
            decreases row@.len() - i,
        {
            let u = row[i].width_units as usize;
            assert(bw * u <= 4 * MAX_BUTTON_WIDTH) by (nonlinear_arith)
                requires
                    bw <= MAX_BUTTON_WIDTH,
                    u <= 4,
            ;
            let w = bw * u;
            assert(i * (4 * MAX_BUTTON_WIDTH + BUTTON_GAP) + (4 * MAX_BUTTON_WIDTH + BUTTON_GAP) == (i
                + 1) * (4 * MAX_BUTTON_WIDTH + BUTTON_GAP)) by (nonlinear_arith);
            assert((i + 1) * (4 * MAX_BUTTON_WIDTH + BUTTON_GAP) <= 8 * (4 * MAX_BUTTON_WIDTH
                + BUTTON_GAP)) by (nonlinear_arith)
                requires
                    i < 8,
            ;
            out.push(KeyRect { x, y, width: w, height: bh, label: row[i].label, key_name: row[i].key_name });
            x = x + w + BUTTON_GAP;
            i = i + 1;
        }
    }

    /// Every button's rectangle for a window `window_width` pixels wide with
    /// the keyboard's top at `keyboard_y`, or none when the rows would run
    /// past the address range. This one layout serves both drawing and
    /// hit-testing.
    pub fn layout(&self, window_width: usize, keyboard_y: usize, button_height: u32) -> (r: Option<
        Vec<KeyRect>,
    >)
        requires
            self.wf(),
        ensures
            r.is_some() == layout_fits(keyboard_y as int, button_height as int),
            r.is_some() ==> r.unwrap()@ == self.key_rects(
                window_width as int,
                keyboard_y as int,
                button_height as int,
            ),
    {
        let bh = button_height as usize;
        if keyboard_y > usize::MAX - 4 || (usize::MAX - 4 - keyboard_y) / 2 < bh {
            return None;
        }
        let total = self.total_units();
        let q = window_width / total;
        let bw = if q <= MAX_BUTTON_WIDTH {
            q
        } else {
            MAX_BUTTON_WIDTH
        };
        assert(bw * total <= window_width) by (nonlinear_arith)
            requires
                bw <= window_width / total,
                total >= 1,
        ;
        let x0 = (window_width - bw * total) / 2;
        proof {
            self.lemma_geometry(window_width as int, keyboard_y as int, bh as int);
        }
        let mut rects: Vec<KeyRect> = Vec::new();
        Self::push_row(&self.row1, x0, keyboard_y + 1, bw, bh, &mut rects);
        let pad = self.row2_padding as usize;
        let x2 = x0 + bw * pad + BUTTON_GAP * pad;
        Self::push_row(&self.row2, x2, keyboard_y + bh + 3, bw, bh, &mut rects);
        assert(rects@ =~= self.key_rects(window_width as int, keyboard_y as int, button_height as int));
        Some(rects)
    }

    /// The key under the touch at `(touch_x, touch_y)`, using the same layout
    /// as [`DirectKeyboard::render`] with the same geometry.
    pub fn handle_touch(
        &self,
        touch_x: usize,
        touch_y: usize,
        window_width: usize,
        keyboard_y: usize,
        button_height: u32,
    ) -> (r: Option<&'static str>)
        requires
            self.wf(),
        ensures
            r == if layout_fits(keyboard_y as int, button_height as int) {
                first_hit(
                    self.key_rects(window_width as int, keyboard_y as int, button_height as int),
                    touch_x as int,
                    touch_y as int,
                )
            } else {
                None
            },
    {
        let rects = match self.layout(window_width, keyboard_y, button_height) {
            Some(r) => r,
            None => return None,
        };
        let ghost all = rects@;
        assert(all.subrange(0, all.len() as int) =~= all);
        let mut i: usize = 0;
        while i < rects.len()
            invariant
                all == rects@,
                layout_fits(keyboard_y as int, button_height as int),
                all == self.key_rects(window_width as int, keyboard_y as int, button_height as int),
                i <= rects@.len(),
                first_hit(all, touch_x as int, touch_y as int) == first_hit(
                    all.subrange(i as int, all.len() as int),
                    touch_x as int,
                    touch_y as int,
                ),
            decreases rects@.len() - i,
        {
            let rc = rects[i];
            let ghost rest = all.subrange(i as int, all.len() as int);
            assert(rest[0] == rc);
            if rc.x <= touch_x && touch_x - rc.x < rc.width && rc.y <= touch_y && touch_y - rc.y
                < rc.height {
                assert(first_hit(rest, touch_x as int, touch_y as int) == Some(rc.key_name));
                return Some(rc.key_name);
            }
            assert(rest.drop_first() =~= all.subrange(i as int + 1, all.len() as int));
            i = i + 1;
        }
        assert(all.subrange(i as int, all.len() as int) =~= Seq::<KeyRect>::empty());
        None
    }
}

proof fn lemma_first_hit_none(rects: Seq<KeyRect>, x: int, y: int)
    requires
        forall|i: int| 0 <= i < rects.len() ==> !rect_contains(#[trigger] rects[i], x, y),
    ensures
        first_hit(rects, x, y).is_none(),
    decreases rects.len(),
{
    if rects.len() > 0 {
        assert(!rect_contains(rects[0], x, y));
        assert forall|i: int| 0 <= i < rects.drop_first().len() implies !rect_contains(
            #[trigger] rects.drop_first()[i],
            x,
            y,
        ) by {
            assert(rects.drop_first()[i] == rects[i + 1]);
        }
        lemma_first_hit_none(rects.drop_first(), x, y);
    }
}

proof fn lemma_first_hit_at(rects: Seq<KeyRect>, x: int, y: int, k: int)
    requires
        0 <= k < rects.len(),
        rect_contains(rects[k], x, y),
        forall|j: int| 0 <= j < k ==> !rect_contains(#[trigger] rects[j], x, y),
    ensures
        first_hit(rects, x, y) == Some(rects[k].key_name),
    decreases k,
{
    if k > 0 {
        assert(!rect_contains(rects[0], x, y));
        let t = rects.drop_first();
        assert(t[k - 1] == rects[k]);
        assert forall|j: int| 0 <= j < k - 1 implies !rect_contains(#[trigger] t[j], x, y) by {
            assert(t[j] == rects[j + 1]);
        }
        lemma_first_hit_at(t, x, y, k - 1);
    }
}

proof fn lemma_x_at_bounds(row: Seq<KeyButton>, start: int, bw: int, i: int)
    requires
        0 <= i <= row.len(),
        0 <= bw,
        start >= 0,
        forall|j: int| 0 <= j < row.len() ==> 1 <= #[trigger] row[j].width_units <= 4,
    ensures
        start <= x_at(row, start, bw, i) <= start + i * (4 * bw + BUTTON_GAP),
    decreases i,
{
    if i > 0 {
        lemma_x_at_bounds(row, start, bw, i - 1);
        let u = row[i - 1].width_units as int;
        assert(0 <= bw * u <= 4 * bw) by (nonlinear_arith)
            requires
                0 <= bw,
                1 <= u <= 4,
        ;
        assert((i - 1) * (4 * bw + BUTTON_GAP) + (4 * bw + BUTTON_GAP) == i * (4 * bw + BUTTON_GAP))
            by (nonlinear_arith);
    }
}

proof fn lemma_x_at_gap(row: Seq<KeyButton>, start: int, bw: int, j: int, k: int)
    requires
        0 <= j < k <= row.len(),
        0 <= bw,
        forall|i: int| 0 <= i < row.len() ==> 1 <= #[trigger] row[i].width_units <= 4,
    ensures
        x_at(row, start, bw, j) + bw * row[j].width_units + BUTTON_GAP <= x_at(row, start, bw, k),
    decreases k,
{
    if k - 1 > j {
        lemma_x_at_gap(row, start, bw, j, k - 1);
        let u = row[k - 1].width_units as int;
        assert(0 <= bw * u) by (nonlinear_arith)
            requires
                0 <= bw,
                1 <= u,
        ;
    }
}

proof fn lemma_row_rect(row: Seq<KeyButton>, start: int, y: int, bw: int, bh: int, n: int, i: int)
    requires
        0 <= i < n <= row.len(),
        row.len() <= 8,
        0 <= bw <= MAX_BUTTON_WIDTH,
        0 <= bh,
        0 <= y,
        y + bh <= usize::MAX,
        0 <= start,
        start + 8 * (4 * MAX_BUTTON_WIDTH + BUTTON_GAP) <= usize::MAX,
        forall|j: int| 0 <= j < row.len() ==> 1 <= #[trigger] row[j].width_units <= 4,
    ensures
        row_rects(row, start, y, bw, bh, n).len() == n,
        row_rects(row, start, y, bw, bh, n)[i].x == x_at(row, start, bw, i),
        row_rects(row, start, y, bw, bh, n)[i].width == bw * row[i].width_units,
        row_rects(row, start, y, bw, bh, n)[i].y == y,
        row_rects(row, start, y, bw, bh, n)[i].height == bh,
        row_rects(row, start, y, bw, bh, n)[i].key_name == row[i].key_name,
    decreases n,
{
    lemma_row_rects_len(row, start, y, bw, bh, n);
    if i < n - 1 {
        lemma_row_rect(row, start, y, bw, bh, n - 1, i);
    } else {
        lemma_x_at_bounds(row, start, bw, i);
        assert(i * (4 * bw + BUTTON_GAP) <= 8 * (4 * MAX_BUTTON_WIDTH + BUTTON_GAP)) by (nonlinear_arith)
            requires
                0 <= i < 8,
                0 <= bw <= MAX_BUTTON_WIDTH,
        ;
        let u = row[i].width_units as int;
        assert(0 <= bw * u <= 4 * MAX_BUTTON_WIDTH) by (nonlinear_arith)
            requires
                0 <= bw <= MAX_BUTTON_WIDTH,
                1 <= u <= 4,
        ;
    }
}

proof fn lemma_row_rects_len(row: Seq<KeyButton>, start: int, y: int, bw: int, bh: int, n: int)
    requires
        0 <= n,
    ensures
        row_rects(row, start, y, bw, bh, n).len() == n,
    decreases n,
{
    if n > 0 {
        lemma_row_rects_len(row, start, y, bw, bh, n - 1);
    }
}

proof fn lemma_row_disjoint(
    row: Seq<KeyButton>,
    start: int,
    y: int,
    bw: int,
    bh: int,
    j: int,
    k: int,
    tx: int,
    ty: int,
)
    requires
        0 <= j < k < row.len(),
        row.len() <= 8,
        0 <= bw <= MAX_BUTTON_WIDTH,
        0 <= bh,
        0 <= y,
        y + bh <= usize::MAX,
        0 <= start,
        start + 8 * (4 * MAX_BUTTON_WIDTH + BUTTON_GAP) <= usize::MAX,
        forall|i: int| 0 <= i < row.len() ==> 1 <= #[trigger] row[i].width_units <= 4,
        rect_contains(row_rects(row, start, y, bw, bh, row.len() as int)[k], tx, ty),
    ensures
        !rect_contains(row_rects(row, start, y, bw, bh, row.len() as int)[j], tx, ty),
{
    let n = row.len() as int;
    lemma_row_rect(row, start, y, bw, bh, n, j);
    lemma_row_rect(row, start, y, bw, bh, n, k);
    lemma_x_at_gap(row, start, bw, j, k);
}

impl DirectKeyboard {
    proof fn lemma_geometry(&self, ww: int, ky: int, bh: int)
        requires
            self.wf(),
            0 <= ww <= usize::MAX,
            0 <= ky,
            0 <= bh,
            layout_fits(ky, bh),
        ensures
            units_sum(self.row1@) >= 1,
            0 <= self.unit_width(ww) <= MAX_BUTTON_WIDTH,
            0 <= self.left_edge(ww) <= ww / 2,
            self.left_edge(ww) + 8 * (4 * MAX_BUTTON_WIDTH + BUTTON_GAP) <= usize::MAX,
            self.left_edge(ww) + self.unit_width(ww) * self.row2_padding + BUTTON_GAP
                * self.row2_padding + 8 * (4 * MAX_BUTTON_WIDTH + BUTTON_GAP) <= usize::MAX,
    {
        lemma_units_sum_pos(self.row1@);
        let t = units_sum(self.row1@);
        let bw = self.unit_width(ww);
        assert(0 <= bw * t <= ww) by (nonlinear_arith)
            requires
                0 <= bw <= ww / t,
                t >= 1,
                ww >= 0,
        ;
        let p = self.row2_padding as int;
        assert(0 <= bw * p <= MAX_BUTTON_WIDTH * 8) by (nonlinear_arith)
            requires
                0 <= bw <= MAX_BUTTON_WIDTH,
                0 <= p <= 8,
        ;
    }
}

proof fn lemma_units_sum_pos(row: Seq<KeyButton>)
    requires
        forall|i: int| 0 <= i < row.len() ==> 1 <= #[trigger] row[i].width_units,
    ensures
        units_sum(row) >= row.len(),
    decreases row.len(),
{
    if row.len() > 0 {
        let t = row.drop_last();
        assert forall|i: int| 0 <= i < t.len() implies 1 <= #[trigger] t[i].width_units by {
            assert(t[i] == row[i]);
        }
        lemma_units_sum_pos(t);
    }
}

/// A byte at or after the start of row `rows` belongs to a pixel of row
/// `rows` or later.
proof fn lemma_row_of_offset(b: int, s: int, rows: int)
    requires
        s > 0,
        rows >= 0,
        rows * s * 4 <= b,
    ensures
        px_y(b, s) >= rows,
{
    assert(b / 4 >= rows * s) by (nonlinear_arith)
        requires
            rows * s * 4 <= b,
    ;
    assert((b / 4) / s >= rows) by (nonlinear_arith)
        requires
            b / 4 >= rows * s,
            s > 0,
    ;
}

/// Two keys' rectangles share no pixel.
proof fn lemma_rects_disjoint(kb: DirectKeyboard, ww: int, ky: int, bh: int, j: int, k: int, tx: int, ty: int)
    requires
        kb.wf(),
        0 <= ww <= usize::MAX,
        0 <= ky,
        0 <= bh,
        layout_fits(ky, bh),
        0 <= j < k < kb.key_rects(ww, ky, bh).len(),
        rect_contains(kb.key_rects(ww, ky, bh)[k], tx, ty),
    ensures
        !rect_contains(kb.key_rects(ww, ky, bh)[j], tx, ty),
{
    kb.lemma_geometry(ww, ky, bh);
    let bw = kb.unit_width(ww);
    let x0 = kb.left_edge(ww);
    let x2 = x0 + bw * kb.row2_padding + BUTTON_GAP * kb.row2_padding;
    let n1 = kb.row1@.len() as int;
    let n2 = kb.row2@.len() as int;
    let r1 = row_rects(kb.row1@, x0, ky + 1, bw, bh, n1);
    let r2 = row_rects(kb.row2@, x2, ky + bh + 3, bw, bh, n2);
    let rects = kb.key_rects(ww, ky, bh);
    lemma_row_rects_len(kb.row1@, x0, ky + 1, bw, bh, n1);
    lemma_row_rects_len(kb.row2@, x2, ky + bh + 3, bw, bh, n2);
    assert(rects == r1 + r2);
    if k < n1 {
        lemma_row_disjoint(kb.row1@, x0, ky + 1, bw, bh, j, k, tx, ty);
    } else if j >= n1 {
        assert(rects[k] == r2[k - n1]);
        assert(rects[j] == r2[j - n1]);
        lemma_row_disjoint(kb.row2@, x2, ky + bh + 3, bw, bh, j - n1, k - n1, tx, ty);
    } else {
        assert(rects[k] == r2[k - n1]);
        lemma_row_rect(kb.row2@, x2, ky + bh + 3, bw, bh, n2, k - n1);
        lemma_row_rect(kb.row1@, x0, ky + 1, bw, bh, n1, j);
    }
}

/// A touch inside the rectangle that the keyboard draws for a key reports
/// that key, and a touch inside none of them reports no key: drawing and
/// hit-testing share one layout.
pub proof fn lemma_touch_matches_layout(
    kb: DirectKeyboard,
    window_width: usize,
    keyboard_y: usize,
    button_height: u32,
    touch_x: usize,
    touch_y: usize,
)
    requires
        kb.wf(),
        layout_fits(keyboard_y as int, button_height as int),
    ensures
        ({
            let rects = kb.key_rects(window_width as int, keyboard_y as int, button_height as int);
            &&& forall|k: int|
                0 <= k < rects.len() && rect_contains(#[trigger] rects[k], touch_x as int, touch_y as int)
                    ==> first_hit(rects, touch_x as int, touch_y as int) == Some(rects[k].key_name)
            &&& (forall|k: int|
                0 <= k < rects.len() ==> !rect_contains(#[trigger] rects[k], touch_x as int, touch_y as int))
                ==> first_hit(rects, touch_x as int, touch_y as int).is_none()
        }),
{
    let ww = window_width as int;
    let ky = keyboard_y as int;
    let bh = button_height as int;
    let tx = touch_x as int;
    let ty = touch_y as int;
    kb.lemma_geometry(ww, ky, bh);
    let bw = kb.unit_width(ww);
    let x0 = kb.left_edge(ww);
    let x2 = x0 + bw * kb.row2_padding + BUTTON_GAP * kb.row2_padding;
    let n1 = kb.row1@.len() as int;
    let n2 = kb.row2@.len() as int;
    let r1 = row_rects(kb.row1@, x0, ky + 1, bw, bh, n1);
    let r2 = row_rects(kb.row2@, x2, ky + bh + 3, bw, bh, n2);
    let rects = kb.key_rects(ww, ky, bh);
    lemma_row_rects_len(kb.row1@, x0, ky + 1, bw, bh, n1);
    lemma_row_rects_len(kb.row2@, x2, ky + bh + 3, bw, bh, n2);
    assert(rects == r1 + r2);
    assert forall|k: int|
        0 <= k < rects.len() && rect_contains(#[trigger] rects[k], tx, ty) implies first_hit(
        rects,
        tx,
        ty,
    ) == Some(rects[k].key_name) by {
        assert forall|j: int| 0 <= j < k implies !rect_contains(#[trigger] rects[j], tx, ty) by {
            if k < n1 {
                lemma_row_disjoint(kb.row1@, x0, ky + 1, bw, bh, j, k, tx, ty);
            } else if j >= n1 {
                assert(rects[k] == r2[k - n1]);
                assert(rects[j] == r2[j - n1]);
                lemma_row_disjoint(kb.row2@, x2, ky + bh + 3, bw, bh, j - n1, k - n1, tx, ty);
            } else {
                assert(rects[k] == r2[k - n1]);
                lemma_row_rect(kb.row2@, x2, ky + bh + 3, bw, bh, n2, k - n1);
                lemma_row_rect(kb.row1@, x0, ky + 1, bw, bh, n1, j);
            }
        }
        lemma_first_hit_at(rects, tx, ty, k);
    }
    if forall|k: int| 0 <= k < rects.len() ==> !rect_contains(#[trigger] rects[k], tx, ty) {
        lemma_first_hit_none(rects, tx, ty);
    }
}

/// The 5 by 7 bitmap of a label character, one row per entry, most
/// significant of the five bits leftmost; characters without a bitmap are
/// blank.
fn glyph_rows(ch: char) -> (r: [u8; 7])
    ensures
        r == glyph_pattern(ch),
{
    match ch {
        'A' => [0b01110, 0b10001, 0b10001, 0b11111, 0b10001, 0b10001, 0b10001],
        'B' => [0b11110, 0b10001, 0b10001, 0b11110, 0b10001, 0b10001, 0b11110],
        'C' => [0b01110, 0b10001, 0b10000, 0b10000, 0b10000, 0b10001, 0b01110],
        'D' => [0b11110, 0b10001, 0b10001, 0b10001, 0b10001, 0b10001, 0b11110],
        'E' => [0b11111, 0b10000, 0b10000, 0b11110, 0b10000, 0b10000, 0b11111],
        'F' => [0b11111, 0b10000, 0b10000, 0b11110, 0b10000, 0b10000, 0b10000],
        'G' => [0b01110, 0b10001, 0b10000, 0b10111, 0b10001, 0b10001, 0b01110],
        'H' => [0b10001, 0b10001, 0b10001, 0b11111, 0b10001, 0b10001, 0b10001],
        'I' => [0b01110, 0b00100, 0b00100, 0b00100, 0b00100, 0b00100, 0b01110],
        'K' => [0b10001, 0b10010, 0b10100, 0b11000, 0b10100, 0b10010, 0b10001],
        'L' => [0b10000, 0b10000, 0b10000, 0b10000, 0b10000, 0b10000, 0b11111],
        'R' => [0b11110, 0b10001, 0b10001, 0b11110, 0b10100, 0b10010, 0b10001],
        'S' => [0b01111, 0b10000, 0b10000, 0b01110, 0b00001, 0b00001, 0b11110],
        'T' => [0b11111, 0b00100, 0b00100, 0b00100, 0b00100, 0b00100, 0b00100],
        '^' => [0b00100, 0b01110, 0b10101, 0b00100, 0b00100, 0b00100, 0b00000],
        'v' => [0b00000, 0b00100, 0b00100, 0b00100, 0b10101, 0b01110, 0b00100],
        '<' => [0b00010, 0b00100, 0b01000, 0b10000, 0b01000, 0b00100, 0b00010],
        '>' => [0b01000, 0b00100, 0b00010, 0b00001, 0b00010, 0b00100, 0b01000],
        _ => [0, 0, 0, 0, 0, 0, 0],
    }
}

/// The first row of the keyboard strip, inside the window and among the
/// rows that `new` holds in full, is the strip colour, when the layout fits and the window fits in the stride.
pub open spec fn strip_top_painted(old: Seq<u8>, new: Seq<u8>, stride: int, ww: int, ky: int, bh: int) -> bool {
    layout_fits(ky, bh) && 0 < stride && ww <= stride && stride * 4 <= usize::MAX ==> rect_filled(
        new,
        stride,
        ww,
        new.len() as int / (stride * 4),
        0,
        ky,
        ww,
        1,
        KB_BG,
    )
}

/// The 5 by 7 bitmap of a label character; see [`dot_lit`].
pub open spec fn glyph_pattern(ch: char) -> [u8; 7] {
    match ch {
        'A' => [0b01110u8, 0b10001u8, 0b10001u8, 0b11111u8, 0b10001u8, 0b10001u8, 0b10001u8],
        'B' => [0b11110u8, 0b10001u8, 0b10001u8, 0b11110u8, 0b10001u8, 0b10001u8, 0b11110u8],
        'C' => [0b01110u8, 0b10001u8, 0b10000u8, 0b10000u8, 0b10000u8, 0b10001u8, 0b01110u8],
        'D' => [0b11110u8, 0b10001u8, 0b10001u8, 0b10001u8, 0b10001u8, 0b10001u8, 0b11110u8],
        'E' => [0b11111u8, 0b10000u8, 0b10000u8, 0b11110u8, 0b10000u8, 0b10000u8, 0b11111u8],
        'F' => [0b11111u8, 0b10000u8, 0b10000u8, 0b11110u8, 0b10000u8, 0b10000u8, 0b10000u8],
        'G' => [0b01110u8, 0b10001u8, 0b10000u8, 0b10111u8, 0b10001u8, 0b10001u8, 0b01110u8],
        'H' => [0b10001u8, 0b10001u8, 0b10001u8, 0b11111u8, 0b10001u8, 0b10001u8, 0b10001u8],
        'I' => [0b01110u8, 0b00100u8, 0b00100u8, 0b00100u8, 0b00100u8, 0b00100u8, 0b01110u8],
        'K' => [0b10001u8, 0b10010u8, 0b10100u8, 0b11000u8, 0b10100u8, 0b10010u8, 0b10001u8],
        'L' => [0b10000u8, 0b10000u8, 0b10000u8, 0b10000u8, 0b10000u8, 0b10000u8, 0b11111u8],
        'R' => [0b11110u8, 0b10001u8, 0b10001u8, 0b11110u8, 0b10100u8, 0b10010u8, 0b10001u8],
        'S' => [0b01111u8, 0b10000u8, 0b10000u8, 0b01110u8, 0b00001u8, 0b00001u8, 0b11110u8],
        'T' => [0b11111u8, 0b00100u8, 0b00100u8, 0b00100u8, 0b00100u8, 0b00100u8, 0b00100u8],
        '^' => [0b00100u8, 0b01110u8, 0b10101u8, 0b00100u8, 0b00100u8, 0b00100u8, 0b00000u8],
        'v' => [0b00000u8, 0b00100u8, 0b00100u8, 0b00100u8, 0b10101u8, 0b01110u8, 0b00100u8],
        '<' => [0b00010u8, 0b00100u8, 0b01000u8, 0b10000u8, 0b01000u8, 0b00100u8, 0b00010u8],
        '>' => [0b01000u8, 0b00100u8, 0b00010u8, 0b00001u8, 0b00010u8, 0b00100u8, 0b01000u8],
        _ => [0u8, 0u8, 0u8, 0u8, 0u8, 0u8, 0u8],
    }
}

/// Whether dot `(dx, dy)` of the label bitmap of `ch` is lit; the most
/// significant of a row's five bits is its leftmost dot.
pub open spec fn dot_lit(ch: char, dx: int, dy: int) -> bool {
    0 <= dx < 5 && 0 <= dy < 7 && (glyph_pattern(ch)[dy] >> ((4 - dx) as u8)) & 1u8 == 1u8
}

/// Lit dot `(dx, dy)` is drawn in `color` at `(x + dx, y + dy)` when its
/// bytes lie inside `new`.
pub open spec fn dot_drawn(new: Seq<u8>, stride: int, x: int, y: int, ch: char, color: [u8; 4], dx: int, dy: int) -> bool {
    dot_lit(ch, dx, dy) && pixel_index(stride, x + dx, y + dy) + 3 < new.len() ==> read_px(
        new,
        pixel_index(stride, x + dx, y + dy),
    ) == color
}

/// Whether dot `(dx, dy)` is lit and comes before dot `(col, row)` in
/// drawing order.
pub open spec fn dot_before(ch: char, dx: int, dy: int, row: int, col: int) -> bool {
    dot_lit(ch, dx, dy) && (dy < row || (dy == row && dx < col))
}

/// `new` is `old` with the lit dots before `(col, row)` drawn in `color`
/// and every other byte kept.
pub open spec fn dots_done(old: Seq<u8>, new: Seq<u8>, stride: int, x: int, y: int, ch: char, color: [u8; 4], row: int, col: int) -> bool {
    &&& new.len() == old.len()
    &&& forall|dx: int, dy: int| dot_before(ch, dx, dy, row, col) ==> #[trigger] dot_drawn(new, stride, x, y, ch, color, dx, dy)
    &&& forall|i: int|
        0 <= i < old.len() && !dot_before(ch, px_x(i, stride) - x, px_y(i, stride) - y, row, col) ==> #[trigger] new[i] == old[i]
}

proof fn lemma_dot_step(old: Seq<u8>, before: Seq<u8>, after: Seq<u8>, stride: int, x: int, y: int, ch: char, color: [u8; 4], row: int, col: int)
    requires
        dots_done(old, before, stride, x, y, ch, color, row, col),
        0 <= x,
        0 <= y,
        x + 5 <= stride,
        0 <= col < 5,
        0 <= row < 7,
        dot_lit(ch, col, row) && pixel_index(stride, x + col, y + row) + 3 < before.len() ==> after == write_px(
            before,
            pixel_index(stride, x + col, y + row),
            color,
        ),
        !(dot_lit(ch, col, row) && pixel_index(stride, x + col, y + row) + 3 < before.len()) ==> after == before,
    ensures
        dots_done(old, after, stride, x, y, ch, color, row, col + 1),
{
    let X = x + col;
    let Y = y + row;
    let i = pixel_index(stride, X, Y);
    let wrote = dot_lit(ch, col, row) && i + 3 < before.len();
    assert forall|dx: int, dy: int| dot_before(ch, dx, dy, row, col + 1) implies #[trigger] dot_drawn(after, stride, x, y, ch, color, dx, dy) by {
        let j = pixel_index(stride, x + dx, y + dy);
        if dx == col && dy == row {
            if wrote {
                assert(read_px(after, i) =~= color);
            }
        } else {
            assert(dot_before(ch, dx, dy, row, col));
            assert(dot_drawn(before, stride, x, y, ch, color, dx, dy));
            if wrote && j + 3 < after.len() {
                lemma_pixels_apart(stride, X, Y, x + dx, y + dy);
                assert(read_px(after, j) =~= read_px(before, j));
            }
        }
    }
    assert forall|k: int|
        0 <= k < old.len() && !dot_before(ch, px_x(k, stride) - x, px_y(k, stride) - y, row, col + 1) implies #[trigger] after[k]
        == old[k] by {
        assert(!dot_before(ch, px_x(k, stride) - x, px_y(k, stride) - y, row, col));
        assert(before[k] == old[k]);
        if wrote && i <= k < i + 4 {
            lemma_pixel_coords(stride, X, Y, k);
        }
    }
}

proof fn lemma_dot_row(old: Seq<u8>, new: Seq<u8>, stride: int, x: int, y: int, ch: char, color: [u8; 4], row: int)
    requires
        dots_done(old, new, stride, x, y, ch, color, row, 5),
    ensures
        dots_done(old, new, stride, x, y, ch, color, row + 1, 0),
{
    assert forall|dx: int, dy: int| dot_before(ch, dx, dy, row + 1, 0) implies #[trigger] dot_drawn(new, stride, x, y, ch, color, dx, dy) by {
        assert(dot_before(ch, dx, dy, row, 5));
    }
    assert forall|k: int|
        0 <= k < old.len() && !dot_before(ch, px_x(k, stride) - x, px_y(k, stride) - y, row + 1, 0) implies #[trigger] new[k]
        == old[k] by {
        assert(!dot_before(ch, px_x(k, stride) - x, px_y(k, stride) - y, row, 5));
    }
}

/// Left edge of a label `n` characters long centred in a box `w` wide at `x`.
pub open spec fn text_x(x: int, w: int, n: int) -> int {
    x + (if w > 6 * n - 1 { (w - (6 * n - 1)) / 2 } else { 0 })
}

/// Top of a label centred in a box `h` high at `y`.
pub open spec fn text_y(y: int, h: int) -> int {
    y + (if h > 7 { (h - 7) / 2 } else { 0 })
}

/// Whether pixel `(x, y)` lies in the box of `r`'s label.
pub open spec fn in_label(r: KeyRect, x: int, y: int) -> bool {
    let n = r.label@.len() as int;
    let lx = text_x(r.x as int, r.width as int, n);
    let ly = text_y(r.y as int, r.height as int);
    lx <= x < lx + 6 * n - 1 && ly <= y < ly + 7
}

/// Whether `r`'s label fits inside it.
pub open spec fn label_fits(r: KeyRect) -> bool {
    6 * r.label@.len() - 1 <= r.width && 7 <= r.height
}

/// The colour of pixel `(x, y)` of button `r` with inside colour `bg`:
/// corners, then the rest of the edge, then the inside.
pub open spec fn button_color(r: KeyRect, x: int, y: int, bg: [u8; 4]) -> [u8; 4] {
    let edge_y = y == r.y || y == r.y + r.height - 1;
    let edge_x = x == r.x || x == r.x + r.width - 1;
    if edge_y && edge_x {
        CORNER
    } else if edge_y || edge_x {
        BORDER
    } else {
        bg
    }
}

/// Every pixel of button `r` outside its label's box, when its bytes lie
/// inside `buf`, has its button colour.
pub open spec fn button_ok(buf: Seq<u8>, stride: int, r: KeyRect, bg: [u8; 4]) -> bool {
    forall|x: int, y: int|
        r.x <= x < r.x + r.width && r.y <= y < r.y + r.height && !in_label(r, x, y) && pixel_index(stride, x, y) + 3
            < buf.len() ==> #[trigger] read_px(buf, pixel_index(stride, x, y)) == button_color(r, x, y, bg)
}

/// Offset `(dx, dy)` of button `r` comes before `(col, row)` in painting
/// order.
pub open spec fn btn_before(r: KeyRect, dx: int, dy: int, row: int, col: int) -> bool {
    0 <= dx < r.width && 0 <= dy < r.height && (dy < row || (dy == row && dx < col))
}

/// Pixel at offset `(dx, dy)` of button `r` has its colour.
pub open spec fn btn_px(buf: Seq<u8>, stride: int, r: KeyRect, bg: [u8; 4], dx: int, dy: int) -> bool {
    pixel_index(stride, r.x + dx, r.y + dy) + 3 < buf.len() ==> read_px(buf, pixel_index(stride, r.x + dx, r.y + dy))
        == button_color(r, r.x + dx, r.y + dy, bg)
}

/// `new` is `old` with the pixels of `r` before `(col, row)` painted and
/// every other byte kept.
pub open spec fn btn_done(old: Seq<u8>, new: Seq<u8>, stride: int, r: KeyRect, bg: [u8; 4], row: int, col: int) -> bool {
    &&& new.len() == old.len()
    &&& forall|dx: int, dy: int| btn_before(r, dx, dy, row, col) ==> #[trigger] btn_px(new, stride, r, bg, dx, dy)
    &&& forall|i: int|
        0 <= i < old.len() && !btn_before(r, px_x(i, stride) - r.x, px_y(i, stride) - r.y, row, col) ==> #[trigger] new[i]
            == old[i]
}

proof fn lemma_btn_step(old: Seq<u8>, before: Seq<u8>, after: Seq<u8>, stride: int, r: KeyRect, bg: [u8; 4], row: int, col: int, color: [u8; 4])
    requires
        btn_done(old, before, stride, r, bg, row, col),
        r.x + r.width <= stride,
        0 <= col < r.width,
        0 <= row < r.height,
        color == button_color(r, r.x + col, r.y + row, bg),
        pixel_index(stride, r.x + col, r.y + row) + 3 < before.len() ==> after == write_px(
            before,
            pixel_index(stride, r.x + col, r.y + row),
            color,
        ),
        pixel_index(stride, r.x + col, r.y + row) + 3 >= before.len() ==> after == before,
    ensures
        btn_done(old, after, stride, r, bg, row, col + 1),
{
    let X = r.x + col;
    let Y = r.y + row;
    let i = pixel_index(stride, X, Y);
    let wrote = i + 3 < before.len();
    assert forall|dx: int, dy: int| btn_before(r, dx, dy, row, col + 1) implies #[trigger] btn_px(after, stride, r, bg, dx, dy) by {
        let j = pixel_index(stride, r.x + dx, r.y + dy);
        if dx == col && dy == row {
            if wrote {
                assert(read_px(after, i) =~= color);
            }
        } else {
            assert(btn_before(r, dx, dy, row, col));
            assert(btn_px(before, stride, r, bg, dx, dy));
            if wrote && j + 3 < after.len() {
                lemma_pixels_apart(stride, X, Y, r.x + dx, r.y + dy);
                assert(read_px(after, j) =~= read_px(before, j));
            }
        }
    }
    assert forall|k: int|
        0 <= k < old.len() && !btn_before(r, px_x(k, stride) - r.x, px_y(k, stride) - r.y, row, col + 1) implies #[trigger] after[k]
        == old[k] by {
        assert(!btn_before(r, px_x(k, stride) - r.x, px_y(k, stride) - r.y, row, col));
        assert(before[k] == old[k]);
        if wrote && i <= k < i + 4 {
            lemma_pixel_coords(stride, X, Y, k);
        }
    }
}

proof fn lemma_btn_row(old: Seq<u8>, new: Seq<u8>, stride: int, r: KeyRect, bg: [u8; 4], row: int)
    requires
        btn_done(old, new, stride, r, bg, row, r.width as int),
    ensures
        btn_done(old, new, stride, r, bg, row + 1, 0),
{
    assert forall|dx: int, dy: int| btn_before(r, dx, dy, row + 1, 0) implies #[trigger] btn_px(new, stride, r, bg, dx, dy) by {
        assert(btn_before(r, dx, dy, row, r.width as int));
    }
    assert forall|k: int|
        0 <= k < old.len() && !btn_before(r, px_x(k, stride) - r.x, px_y(k, stride) - r.y, row + 1, 0) implies #[trigger] new[k]
        == old[k] by {
        assert(!btn_before(r, px_x(k, stride) - r.x, px_y(k, stride) - r.y, row, r.width as int));
    }
}

proof fn lemma_btn_finish(old: Seq<u8>, filled: Seq<u8>, last: Seq<u8>, stride: int, r: KeyRect, bg: [u8; 4])
    requires
        0 < stride,
        r.x + r.width <= stride,
        label_fits(r),
        btn_done(old, filled, stride, r, bg, r.height as int, 0),
        rect_kept_outside(
            filled,
            last,
            stride,
            text_x(r.x as int, r.width as int, r.label@.len() as int),
            text_y(r.y as int, r.height as int),
            6 * r.label@.len() - 1,
            7,
        ),
    ensures
        button_ok(last, stride, r, bg),
        rect_kept_outside(old, last, stride, r.x as int, r.y as int, r.width as int, r.height as int),
{
    let n = r.label@.len() as int;
    let lx = text_x(r.x as int, r.width as int, n);
    let ly = text_y(r.y as int, r.height as int);
    assert forall|x: int, y: int|
        r.x <= x < r.x + r.width && r.y <= y < r.y + r.height && !in_label(r, x, y) && pixel_index(stride, x, y) + 3
            < last.len() implies #[trigger] read_px(last, pixel_index(stride, x, y)) == button_color(r, x, y, bg) by {
        let i = pixel_index(stride, x, y);
        assert(btn_before(r, x - r.x, y - r.y, r.height as int, 0));
        assert(btn_px(filled, stride, r, bg, x - r.x, y - r.y));
        lemma_pixel_coords(stride, x, y, i);
        lemma_pixel_coords(stride, x, y, i + 1);
        lemma_pixel_coords(stride, x, y, i + 2);
        lemma_pixel_coords(stride, x, y, i + 3);
        assert(!in_done(px_x(i, stride), px_y(i, stride), lx, ly, 6 * n - 1, 7, 0));
        assert(!in_done(px_x(i + 1, stride), px_y(i + 1, stride), lx, ly, 6 * n - 1, 7, 0));
        assert(!in_done(px_x(i + 2, stride), px_y(i + 2, stride), lx, ly, 6 * n - 1, 7, 0));
        assert(!in_done(px_x(i + 3, stride), px_y(i + 3, stride), lx, ly, 6 * n - 1, 7, 0));
        assert(read_px(last, i) =~= read_px(filled, i));
    }
    assert forall|k: int|
        0 <= k < old.len() && !in_done(px_x(k, stride), px_y(k, stride), r.x as int, r.y as int, r.width as int, r.height as int, 0)
        implies #[trigger] last[k] == old[k] by {
        assert(!btn_before(r, px_x(k, stride) - r.x, px_y(k, stride) - r.y, r.height as int, 0));
        assert(filled[k] == old[k]);
        assert(!in_done(px_x(k, stride), px_y(k, stride), lx, ly, 6 * n - 1, 7, 0));
    }
}

/// The inside colour of the key named `name` at time `now`: green while
/// pressed less than the feedback time ago, cyan for an active Shift or Ctrl,
/// blue for Enter and the keyboard toggle, dark otherwise.
pub open spec fn key_bg(state: DirectKeyboardState, now: u64, name: &'static str) -> [u8; 4] {
    let pressed = state.press_time.is_some() && feedback_on(state.press_time.unwrap(), now)
        && state.pressed_key.is_some() && state.pressed_key.unwrap()@ == name@;
    if pressed {
        BG_ACTIVE
    } else if (state.shift_active && name@ == "SHIFT"@) || (state.ctrl_active && name@ == "CTRL"@) {
        BG_TOGGLE
    } else if name@ == "ENTER"@ || name@ == "KEYBOARD"@ {
        BG_BLUE
    } else {
        BG_DARK
    }
}

impl DirectKeyboard {
    /// The keyboard can be drawn exactly: the layout fits, the window fits
    /// the stride, the whole strip lies in the buffer, and every key lies in
    /// the window with its label inside it.
    pub open spec fn drawable(&self, dest_len: int, stride: int, ww: int, ky: int, bh: int) -> bool {
        &&& layout_fits(ky, bh)
        &&& 0 < stride
        &&& ww <= stride
        &&& (ky + 2 * bh + 4) * stride * 4 <= dest_len
        &&& forall|i: int|
            0 <= i < self.key_rects(ww, ky, bh).len() ==> #[trigger] self.key_rects(ww, ky, bh)[i].x
                + self.key_rects(ww, ky, bh)[i].width <= ww && label_fits(self.key_rects(ww, ky, bh)[i])
    }

    /// `new` is the drawn keyboard over `old`: the strip outside the keys is
    /// the strip colour, each key has its button colours outside its label,
    /// and the rows below the strip keep their bytes.
    pub open spec fn drawn_over(
        &self,
        old: Seq<u8>,
        new: Seq<u8>,
        state: DirectKeyboardState,
        now: u64,
        stride: int,
        ww: int,
        ky: int,
        bh: int,
    ) -> bool {
        let rects = self.key_rects(ww, ky, bh);
        &&& forall|x: int, y: int|
            0 <= x < ww && ky <= y < ky + 2 * bh + 4 && (forall|j: int|
                0 <= j < rects.len() ==> !rect_contains(#[trigger] rects[j], x, y)) ==> #[trigger] read_px(
                new,
                pixel_index(stride, x, y),
            ) == KB_BG
        &&& forall|i: int| 0 <= i < rects.len() ==> #[trigger] button_ok(new, stride, rects[i], key_bg(state, now, rects[i].key_name))
        &&& same_from(old, new, (ky + 2 * bh + 4) * stride * 4)
    }
}

/// Colors of the keyboard.
pub const KB_BG: [u8; 4] = [20, 20, 20, 255];
pub const BG_DARK: [u8; 4] = [40, 40, 40, 255];
pub const BG_ACTIVE: [u8; 4] = [0, 200, 100, 255];
pub const BG_TOGGLE: [u8; 4] = [0, 150, 200, 255];
pub const BG_BLUE: [u8; 4] = [50, 80, 200, 255];
pub const FG_WHITE: [u8; 4] = [255, 255, 255, 255];
pub const FG_YELLOW: [u8; 4] = [255, 220, 100, 255];
pub const BORDER: [u8; 4] = [80, 80, 80, 255];
pub const CORNER: [u8; 4] = [20, 20, 20, 255];

impl DirectKeyboard {
    /// Draws one label character with its top left at `(x, y)`.
    /// Draws the lit dots of `ch`'s label bitmap in `color` with the top left
    /// dot at `(x, y)`; nothing else changes.
    fn draw_char(dest: &mut [u8], stride: usize, x: usize, y: usize, ch: char, color: [u8; 4], Ghost(lo): Ghost<int>)
        requires
            0 <= lo <= y * stride * 4,
        ensures
            same_before(old(dest)@, final(dest)@, lo),
            x + 5 <= stride ==> dots_done(old(dest)@, final(dest)@, stride as int, x as int, y as int, ch, color, 7, 0),
    {
        let ghost d0 = dest@;
        let pattern = glyph_rows(ch);
        let mut row: usize = 0;
        while row < 7
            invariant
                0 <= lo <= y * stride * 4,
                same_before(d0, dest@, lo),
                pattern == glyph_pattern(ch),
                row <= 7,
                x + 5 <= stride ==> dots_done(d0, dest@, stride as int, x as int, y as int, ch, color, row as int, 0),
            decreases 7 - row,
        {
            let bits = pattern[row];
            let mut col: usize = 0;
            while col < 5
                invariant
                    0 <= lo <= y * stride * 4,
                    row < 7,
                    col <= 5,
                    bits == glyph_pattern(ch)[row as int],
                    same_before(d0, dest@, lo),
                    x + 5 <= stride ==> dots_done(d0, dest@, stride as int, x as int, y as int, ch, color, row as int, col as int),
                decreases 5 - col,
            {
                let ghost before = dest@;
                let _n = dest.len();
                let lit = (bits >> ((4 - col) as u8)) & 1 == 1;
                if lit && x <= usize::MAX - col && y <= usize::MAX - row {
                    proof {
                        lemma_row_start_monotone(stride as int, y as int, (x + col) as int, (y + row) as int);
                    }
                    put_px(dest, stride, x + col, y + row, color);
                }
                proof {
                    if x + 5 <= stride {
                        assert(lit == dot_lit(ch, col as int, row as int));
                        if lit && y > usize::MAX - row {
                            assert(pixel_index(stride as int, x + col, y + row) + 3 >= before.len()) by (nonlinear_arith)
                                requires
                                    y + row > usize::MAX,
                                    before.len() <= usize::MAX,
                                    stride >= 5,
                                    x >= 0,
                                    col >= 0,
                            ;
                        }
                        lemma_dot_step(d0, before, dest@, stride as int, x as int, y as int, ch, color, row as int, col as int);
                    }
                }
                col = col + 1;
            }
            proof {
                if x + 5 <= stride {
                    lemma_dot_row(d0, dest@, stride as int, x as int, y as int, ch, color, row as int);
                }
            }
            row = row + 1;
        }
    }

    /// Draws a label centred in the `width` by `height` box at `(x, y)`;
    /// when the label fits the box and the box fits the stride, nothing
    /// outside the label's own box changes.
    fn draw_text(
        dest: &mut [u8],
        stride: usize,
        x: usize,
        y: usize,
        width: usize,
        height: usize,
        text: &str,
        color: [u8; 4],
        Ghost(lo): Ghost<int>,
    )
        requires
            0 <= lo <= y * stride * 4,
        ensures
            same_before(old(dest)@, final(dest)@, lo),
            0 < stride && x + width <= stride && 6 * text@.len() - 1 <= width ==> rect_kept_outside(
                old(dest)@,
                final(dest)@,
                stride as int,
                text_x(x as int, width as int, text@.len() as int),
                text_y(y as int, height as int),
                6 * text@.len() - 1,
                7,
            ),
    {
        let ghost d0 = dest@;
        let n = text.unicode_len();
        if n == 0 || n > usize::MAX / 6 {
            return ;
        }
        let total = n * 6 - 1;
        let ox = if width > total {
            (width - total) / 2
        } else {
            0
        };
        let oy = if height > 7 {
            (height - 7) / 2
        } else {
            0
        };
        if x > usize::MAX - ox || y > usize::MAX - oy {
            return ;
        }
        let start_x = x + ox;
        let start_y = y + oy;
        let ghost cond = 0 < stride && x + width <= stride && 6 * text@.len() - 1 <= width;
        proof {
            lemma_row_start_monotone(stride as int, y as int, 0, start_y as int);
        }
        let mut i: usize = 0;
        while i < n
            invariant
                n == text@.len(),
                n <= usize::MAX / 6,
                total == n * 6 - 1,
                0 <= lo <= start_y * stride * 4,
                same_before(d0, dest@, lo),
                start_x == text_x(x as int, width as int, n as int),
                start_y == text_y(y as int, height as int),
                cond == (0 < stride && x + width <= stride && 6 * text@.len() - 1 <= width),
                cond ==> start_x + total <= stride,
                cond ==> rect_kept_outside(d0, dest@, stride as int, start_x as int, start_y as int, total as int, 7),
            decreases n - i,
        {
            let ch = text.get_char(i);
            let shift = i * 6;
            let ghost before = dest@;
            if start_x <= usize::MAX - shift {
                Self::draw_char(dest, stride, start_x + shift, start_y, ch, color, Ghost(lo));
                proof {
                    if cond {
                        let xi = start_x + shift;
                        assert(xi + 5 <= stride);
                        assert forall|k: int|
                            0 <= k < d0.len() && !in_done(px_x(k, stride as int), px_y(k, stride as int), start_x as int, start_y as int, total as int, 7, 0)
                            implies #[trigger] dest@[k] == d0[k] by {
                            assert(before[k] == d0[k]);
                            assert(!dot_before(ch, px_x(k, stride as int) - xi, px_y(k, stride as int) - start_y, 7, 0));
                        }
                    }
                }
            }
            i = i + 1;
        }
    }

    /// Draws a bordered button with its label: corners in the corner colour,
    /// the rest of the edge in the border colour, the inside in `bg`, then the
    /// label in `fg`. When the label fits the button and the button fits the
    /// stride, every pixel outside the label's box gets its colour, and
    /// nothing outside the button changes.
    fn draw_button(
        dest: &mut [u8],
        stride: usize,
        rect: KeyRect,
        bg: [u8; 4],
        fg: [u8; 4],
        Ghost(lo): Ghost<int>,
    )
        requires
            0 <= lo <= rect.y * stride * 4,
        ensures
            same_before(old(dest)@, final(dest)@, lo),
            0 < stride && rect.x + rect.width <= stride && rect.y + rect.height <= usize::MAX && label_fits(rect) ==> button_ok(final(dest)@, stride as int, rect, bg)
                && rect_kept_outside(
                old(dest)@,
                final(dest)@,
                stride as int,
                rect.x as int,
                rect.y as int,
                rect.width as int,
                rect.height as int,
            ),
    {
        let ghost d0 = dest@;
        let x = rect.x;
        let y = rect.y;
        let w = rect.width;
        let h = rect.height;
        if x > usize::MAX - w || y > usize::MAX - h {
            return ;
        }
        let ghost cond = 0 < stride && rect.x + rect.width <= stride && label_fits(rect);
        let _n = dest.len();
        let end_x = x + w;
        let end_y = y + h;
        let mut py: usize = y;
        while py < end_y
            invariant
                end_x == x + w,
                end_y == y + h,
                x == rect.x,
                y == rect.y,
                w == rect.width,
                h == rect.height,
                0 <= lo <= y * stride * 4,
                y <= py <= end_y,
                same_before(d0, dest@, lo),
                cond == (0 < stride && rect.x + rect.width <= stride && label_fits(rect)),
                cond ==> btn_done(d0, dest@, stride as int, rect, bg, py - y, 0),
            decreases y + h - py,
        {
            let mut px: usize = x;
            while px < end_x
                invariant
                    end_x == x + w,
                    end_y == y + h,
                    x == rect.x,
                    y == rect.y,
                    w == rect.width,
                    h == rect.height,
                    0 <= lo <= y * stride * 4,
                    y <= py < y + h,
                    x <= px <= end_x,
                    same_before(d0, dest@, lo),
                    dest@.len() == d0.len(),
                    cond == (0 < stride && rect.x + rect.width <= stride && label_fits(rect)),
                    cond ==> btn_done(d0, dest@, stride as int, rect, bg, py - y, px - x),
                decreases x + w - px,
            {
                let edge_y = py == y || py == end_y - 1;
                let edge_x = px == x || px == end_x - 1;
                let color = if edge_y && edge_x {
                    CORNER
                } else if edge_y || edge_x {
                    BORDER
                } else {
                    bg
                };
                proof {
                    lemma_row_start_monotone(stride as int, y as int, px as int, py as int);
                }
                let ghost before = dest@;
                put_px(dest, stride, px, py, color);
                proof {
                    if cond {
                        assert(color == button_color(rect, px as int, py as int, bg));
                        lemma_btn_step(d0, before, dest@, stride as int, rect, bg, py - y, px - x, color);
                    }
                }
                px = px + 1;
            }
            proof {
                if cond {
                    lemma_btn_row(d0, dest@, stride as int, rect, bg, py - y);
                }
            }
            py = py + 1;
        }
        let ghost filled = dest@;
        Self::draw_text(dest, stride, x, y, w, h, rect.label, fg, Ghost(lo));
        proof {
            if cond {
                lemma_btn_finish(d0, filled, dest@, stride as int, rect, bg);
            }
        }
    }

    /// Renders the keyboard as [`DirectKeyboard::render_at`] does at the
    /// time now.
    pub fn render(
        &self,
        state: &DirectKeyboardState,
        dest: &mut [u8],
        stride: usize,
        window_width: usize,
        window_height: usize,
        keyboard_y: usize,
        button_height: u32,
    )
        requires
            self.wf(),
        ensures
            !layout_fits(keyboard_y as int, button_height as int) ==> final(dest)@ == old(dest)@,
            same_before(old(dest)@, final(dest)@, keyboard_y * stride * 4),
            strip_top_painted(old(dest)@, final(dest)@, stride as int, window_width as int, keyboard_y as int, button_height as int),
            self.drawable(old(dest)@.len() as int, stride as int, window_width as int, keyboard_y as int, button_height as int)
                ==> exists|now: u64| #[trigger] self.drawn_over(old(dest)@, final(dest)@, *state, now, stride as int, window_width as int, keyboard_y as int, button_height as int),
    {
        let now = clock_millis();
        self.render_at(state, dest, stride, window_width, window_height, keyboard_y, button_height, now);
    }

    /// Renders the keyboard into `dest`, an RGBA8888 buffer of `stride` pixels
    /// per row, at time `now_ms`: a dark strip from `keyboard_y` down, then
    /// every button of [`DirectKeyboard::layout`] with its label. A key
    /// pressed less than the feedback time ago is green, an active Shift or
    /// Ctrl cyan, Enter and the keyboard toggle blue, arrow labels yellow.
    /// Nothing above `keyboard_y` is written, nothing at all when the layout
    /// does not fit, and the strip's first row stays the strip colour. When
    /// the keyboard is [`DirectKeyboard::drawable`], the result is exactly
    /// [`DirectKeyboard::drawn_over`]: strip colour outside the keys, each
    /// key's corner, border and state colour outside its label, rows below
    /// the strip untouched.
    pub fn render_at(
        &self,
        state: &DirectKeyboardState,
        dest: &mut [u8],
        stride: usize,
        window_width: usize,
        window_height: usize,
        keyboard_y: usize,
        button_height: u32,
        now_ms: u64,
    )
        requires
            self.wf(),
        ensures
            !layout_fits(keyboard_y as int, button_height as int) ==> final(dest)@ == old(dest)@,
            same_before(old(dest)@, final(dest)@, keyboard_y * stride * 4),
            strip_top_painted(old(dest)@, final(dest)@, stride as int, window_width as int, keyboard_y as int, button_height as int),
            self.drawable(old(dest)@.len() as int, stride as int, window_width as int, keyboard_y as int, button_height as int)
                ==> self.drawn_over(old(dest)@, final(dest)@, *state, now_ms, stride as int, window_width as int, keyboard_y as int, button_height as int),
    {
        let _dl = dest.len();
        let rects = match self.layout(window_width, keyboard_y, button_height) {
            Some(r) => r,
            None => return ,
        };
        let ghost lo = keyboard_y * stride * 4;
        let ghost lo1 = (keyboard_y + 1) * stride * 4;
        let bh = button_height as usize;
        let strip_end = keyboard_y + bh * 2 + 4;
        let rows_in_dest: usize = if stride == 0 || stride > usize::MAX / 4 {
            0
        } else {
            dest.len() / (stride * 4)
        };
        let max_y = if strip_end <= rows_in_dest {
            strip_end
        } else {
            rows_in_dest
        };
        Rasterizer::fill_rect(
            dest,
            stride,
            window_width,
            max_y,
            0,
            keyboard_y,
            window_width,
            bh * 2 + 4,
            KB_BG,
            Ghost(lo),
        );
        let ghost strip = dest@;
        let ghost d = self.drawable(old(dest)@.len() as int, stride as int, window_width as int, keyboard_y as int, button_height as int);
        let ghost s = stride as int;
        let ghost ww = window_width as int;
        let ghost ky = keyboard_y as int;
        let ghost bhi = button_height as int;
        let ghost se = strip_end as int;
        proof {
            if d {
                assert(16 * s <= se * s * 4) by (nonlinear_arith)
                    requires
                        se >= 4,
                        s > 0,
                ;
                let len0 = old(dest)@.len() as int;
                assert(se <= len0 / (s * 4)) by (nonlinear_arith)
                    requires
                        se * s * 4 <= len0,
                        s > 0,
                ;
                assert(s <= usize::MAX as int / 4) by (nonlinear_arith)
                    requires
                        16 * s <= se * s * 4,
                        se * s * 4 <= len0,
                        len0 <= usize::MAX,
                ;
                assert(rows_in_dest as int == len0 / (s * 4));
                assert(max_y == strip_end);
            }
        }
        let highlight = state.should_show_feedback_at(now_ms);
        assert(lo <= lo1) by (nonlinear_arith)
            requires
                lo == keyboard_y * stride * 4,
                lo1 == (keyboard_y + 1) * stride * 4,
        ;
        let mut i: usize = 0;
        while i < rects.len()
            invariant
                lo == keyboard_y * stride * 4,
                lo1 == (keyboard_y + 1) * stride * 4,
                lo <= lo1,
                same_before(old(dest)@, strip, lo),
                same_before(strip, dest@, lo1),
                rects@ == self.key_rects(window_width as int, keyboard_y as int, button_height as int),
                layout_fits(keyboard_y as int, button_height as int),
                self.wf(),
                same_before(old(dest)@, dest@, lo),
                d == self.drawable(old(dest)@.len() as int, stride as int, window_width as int, keyboard_y as int, button_height as int),
                s == stride,
                ww == window_width,
                ky == keyboard_y,
                bhi == button_height,
                se == strip_end,
                se == ky + 2 * bhi + 4,
                d ==> max_y == strip_end,
                highlight == (state.press_time.is_some() && feedback_on(state.press_time.unwrap(), now_ms)),
                dest@.len() == old(dest)@.len(),
                strip.len() == old(dest)@.len(),
                i <= rects@.len(),
                d ==> forall|b: int|
                    0 <= b < strip.len() && (forall|j: int|
                        0 <= j < i ==> !rect_contains(#[trigger] rects@[j], px_x(b, s), px_y(b, s))) ==> #[trigger] dest@[b]
                        == strip[b],
                d ==> forall|j: int|
                    0 <= j < i ==> #[trigger] button_ok(dest@, s, rects@[j], key_bg(*state, now_ms, rects@[j].key_name)),
            decreases rects@.len() - i,
        {
            let rect = rects[i];
            proof {
                self.lemma_rects_below(window_width as int, keyboard_y as int, button_height as int, i as int);
                lemma_row_start_monotone(stride as int, keyboard_y as int + 1, 0, rect.y as int);
            }
            let name = rect.key_name;
            let pressed = highlight && match &state.pressed_key {
                Some(k) => str_eq(k.as_str(), name),
                None => false,
            };
            let toggled = (state.shift_active && str_eq(name, "SHIFT")) || (state.ctrl_active
                && str_eq(name, "CTRL"));
            let bg = if pressed {
                BG_ACTIVE
            } else if toggled {
                BG_TOGGLE
            } else if str_eq(name, "ENTER") || str_eq(name, "KEYBOARD") {
                BG_BLUE
            } else {
                BG_DARK
            };
            let arrow = str_eq(name, "UP") || str_eq(name, "LEFT") || str_eq(name, "DOWN") || str_eq(
                name,
                "RIGHT",
            );
            let fg = if arrow {
                FG_YELLOW
            } else {
                FG_WHITE
            };
            let ghost before = dest@;
            proof {
                assert(bg == key_bg(*state, now_ms, name));
            }
            Self::draw_button(dest, stride, rect, bg, fg, Ghost(lo1));
            proof {
                if d {
                    let rs = rects@;
                    assert(rs[i as int] == rect);
                    assert(rect.x + rect.width <= ww && label_fits(rect));
                    assert(rect.y + rect.height <= usize::MAX);
                    assert forall|b: int|
                        0 <= b < strip.len() && (forall|j: int|
                            0 <= j < i + 1 ==> !rect_contains(#[trigger] rs[j], px_x(b, s), px_y(b, s))) implies #[trigger] dest@[b]
                        == strip[b] by {
                        assert(!rect_contains(rs[i as int], px_x(b, s), px_y(b, s)));
                        assert(!in_done(px_x(b, s), px_y(b, s), rect.x as int, rect.y as int, rect.width as int, rect.height as int, 0));
                        assert(forall|j: int| 0 <= j < i ==> !rect_contains(#[trigger] rs[j], px_x(b, s), px_y(b, s)));
                        assert(before[b] == strip[b]);
                    }
                    assert forall|j: int|
                        0 <= j < i + 1 implies #[trigger] button_ok(dest@, s, rs[j], key_bg(*state, now_ms, rs[j].key_name)) by {
                        if j < i {
                            let rj = rs[j];
                            let cj = key_bg(*state, now_ms, rj.key_name);
                            assert(button_ok(before, s, rj, cj));
                            assert forall|x: int, y: int|
                                rj.x <= x < rj.x + rj.width && rj.y <= y < rj.y + rj.height && !in_label(rj, x, y) && pixel_index(s, x, y) + 3
                                    < dest@.len() implies #[trigger] read_px(dest@, pixel_index(s, x, y)) == button_color(rj, x, y, cj) by {
                                let q = pixel_index(s, x, y);
                                assert(rect_contains(rj, x, y));
                                if rect_contains(rect, x, y) {
                                    lemma_rects_disjoint(*self, ww, ky, bhi, j, i as int, x, y);
                                }
                                assert(!rect_contains(rect, x, y));
                                lemma_pixel_coords(s, x, y, q);
                                lemma_pixel_coords(s, x, y, q + 1);
                                lemma_pixel_coords(s, x, y, q + 2);
                                lemma_pixel_coords(s, x, y, q + 3);
                                assert(!in_done(x, y, rect.x as int, rect.y as int, rect.width as int, rect.height as int, 0));
                                assert(read_px(dest@, q) =~= read_px(before, q));
                            }
                        }
                    }
                }
            }
            i = i + 1;
        }
        proof {
            if d {
                let rs = rects@;
                let fin = dest@;
                assert forall|x: int, y: int|
                    0 <= x < ww && ky <= y < ky + 2 * bhi + 4 && (forall|j: int|
                        0 <= j < rs.len() ==> !rect_contains(#[trigger] rs[j], x, y)) implies #[trigger] read_px(
                    fin,
                    pixel_index(s, x, y),
                ) == KB_BG by {
                    let q = pixel_index(s, x, y);
                    assert(q + 3 < se * s * 4) by (nonlinear_arith)
                        requires
                            q == (y * s + x) * 4,
                            0 <= x < s,
                            0 <= y < se,
                    ;
                    assert(0 <= q) by (nonlinear_arith)
                        requires
                            q == (y * s + x) * 4,
                            0 <= x,
                            0 <= y,
                            s > 0,
                    ;
                    assert(read_px(strip, q) == KB_BG);
                    lemma_pixel_coords(s, x, y, q);
                    lemma_pixel_coords(s, x, y, q + 1);
                    lemma_pixel_coords(s, x, y, q + 2);
                    lemma_pixel_coords(s, x, y, q + 3);
                    assert(fin[q] == strip[q]);
                    assert(fin[q + 1] == strip[q + 1]);
                    assert(fin[q + 2] == strip[q + 2]);
                    assert(fin[q + 3] == strip[q + 3]);
                    assert(read_px(fin, q) =~= read_px(strip, q));
                }
                assert forall|b: int| se * s * 4 <= b < old(dest)@.len() implies #[trigger] fin[b] == old(dest)@[b] by {
                    lemma_row_of_offset(b, s, se);
                    assert forall|j: int| 0 <= j < rs.len() implies !rect_contains(#[trigger] rs[j], px_x(b, s), px_y(b, s)) by {
                        self.lemma_rects_below(ww, ky, bhi, j);
                    }
                    assert(fin[b] == strip[b]);
                    assert(strip[b] == old(dest)@[b]);
                }
            }
        }
        proof {
            let s = stride as int;
            let ww = window_width as int;
            let ky = keyboard_y as int;
            if 0 < stride && window_width <= stride && stride * 4 <= usize::MAX {
                assert(rows_in_dest as int == dest@.len() as int / (stride * 4) as int);
                assert forall|x: int, y: int|
                    0 <= x < 0 + ww && x < ww && ky <= y < ky + 1 && y < dest@.len() as int / (s * 4) && 0
                        <= crate::rasterizer::pixel_index(s, x, y) && crate::rasterizer::pixel_index(s, x, y) + 3
                        < dest@.len() implies #[trigger] crate::glyph::read_px(dest@, crate::rasterizer::pixel_index(s, x, y))
                    == KB_BG by {
                    let idx = crate::rasterizer::pixel_index(s, x, y);
                    assert(y < max_y);
                    assert(crate::glyph::read_px(strip, idx) == KB_BG);
                    assert(idx + 3 < lo1) by (nonlinear_arith)
                        requires
                            idx == (y * s + x) * 4,
                            lo1 == (ky + 1) * s * 4,
                            y == ky,
                            0 <= x < s,
                    ;
                    assert(crate::glyph::read_px(dest@, idx) =~= crate::glyph::read_px(strip, idx));
                }
            }
        }
    }

    proof fn lemma_rects_below(&self, ww: int, ky: int, bh: int, i: int)
        requires
            self.wf(),
            0 <= ww <= usize::MAX,
            0 <= ky,
            0 <= bh,
            layout_fits(ky, bh),
            0 <= i < self.key_rects(ww, ky, bh).len(),
        ensures
            self.key_rects(ww, ky, bh)[i].y >= ky + 1,
            self.key_rects(ww, ky, bh)[i].height == bh,
            self.key_rects(ww, ky, bh)[i].y + self.key_rects(ww, ky, bh)[i].height <= ky + 2 * bh + 3,
    {
        self.lemma_geometry(ww, ky, bh);
        let bw = self.unit_width(ww);
        let x0 = self.left_edge(ww);
        let x2 = x0 + bw * self.row2_padding + BUTTON_GAP * self.row2_padding;
        let n1 = self.row1@.len() as int;
        let n2 = self.row2@.len() as int;
        let r1 = row_rects(self.row1@, x0, ky + 1, bw, bh, n1);
        let r2 = row_rects(self.row2@, x2, ky + bh + 3, bw, bh, n2);
        lemma_row_rects_len(self.row1@, x0, ky + 1, bw, bh, n1);
        lemma_row_rects_len(self.row2@, x2, ky + bh + 3, bw, bh, n2);
        assert(self.key_rects(ww, ky, bh) == r1 + r2);
        if i < n1 {
            lemma_row_rect(self.row1@, x0, ky + 1, bw, bh, n1, i);
        } else {
            assert(self.key_rects(ww, ky, bh)[i] == r2[i - n1]);
            lemma_row_rect(self.row2@, x2, ky + bh + 3, bw, bh, n2, i - n1);
        }
    }
}

impl Default for DirectKeyboard {
    fn default() -> (r: DirectKeyboard)
        ensures
            r.is_default(),
    {
        DirectKeyboard::new()
    }
}

impl Default for DirectKeyboardState {
    fn default() -> (r: DirectKeyboardState)
        ensures
            r.pressed_key.is_none(),
            r.press_time.is_none(),
            !r.shift_active,
            !r.ctrl_active,
    {
        DirectKeyboardState::new()
    }
}

} // verus!
