//! Screen geometry: how many terminal rows and columns fit, and how many rows
//! the status bar, navigation bar and keyboard take.
use vstd::prelude::*;

use crate::rasterizer::Rasterizer;

verus! {

/// Configuration of the rendering core.
#[derive(Clone, Copy, Debug, PartialEq, Eq, Structural)]
pub struct AndroidConfig {
    /// Font size in thousandths of a pixel.
    pub font_size: u32,
    /// Height of the on-screen keyboard in pixels.
    pub keyboard_height: u32,
    /// Status bar height in pixels; 0 when unknown.
    pub status_bar_height: u32,
    /// Navigation bar height in pixels; 0 when unknown.
    pub nav_bar_height: u32,
    /// Whether to fill the glyph cache at start-up.
    pub warm_cache: bool,
}

impl AndroidConfig {
    /// A 48 pixel font, an 80 pixel keyboard, bar heights unknown, cache
    /// warming on.
    pub fn new() -> (r: AndroidConfig)
        ensures
            r == (AndroidConfig {
                font_size: 48000,
                keyboard_height: 80,
                status_bar_height: 0,
                nav_bar_height: 0,
                warm_cache: true,
            }),
    {
        AndroidConfig {
            font_size: 48000,
            keyboard_height: 80,
            status_bar_height: 0,
            nav_bar_height: 0,
            warm_cache: true,
        }
    }
}

/// Screen layout in pixels and cells.
#[derive(Clone, Copy, Debug, PartialEq, Eq, Structural)]
pub struct ScreenLayout {
    pub width_px: u32,
    pub height_px: u32,
    /// Height not covered by the soft keyboard.
    pub visible_height_px: u32,
    pub cols: u16,
    /// Rows left for the application.
    pub rows: u16,
    /// Rows reserved at the top for the status bar.
    pub top_offset_rows: u16,
    /// Rows reserved at the bottom for the navigation bar and keyboard.
    pub bottom_offset_rows: u16,
    pub font_width: u32,
    pub font_height: u32,
}

/// `a / b` rounded down, held to 16 bits; a division by zero gives the
/// largest value, or 0 when `a` is 0 too.
pub open spec fn cells_floor(a: int, b: int) -> int {
    if b == 0 {
        if a == 0 { 0 } else { 0xffff }
    } else if a / b > 0xffff {
        0xffff
    } else {
        a / b
    }
}

/// `a / b` rounded up, held to 16 bits, with division by zero as above.
pub open spec fn cells_ceil(a: int, b: int) -> int {
    if b == 0 {
        if a == 0 { 0 } else { 0xffff }
    } else if (a + b - 1) / b > 0xffff {
        0xffff
    } else {
        (a + b - 1) / b
    }
}

fn div_floor_cells(a: u32, b: u32) -> (r: u16)
    ensures
        r == cells_floor(a as int, b as int),
{
    if b == 0 {
        if a == 0 {
            0
        } else {
            0xffff
        }
    } else if a / b > 0xffff {
        0xffff
    } else {
        (a / b) as u16
    }
}

fn div_ceil_cells(a: u32, b: u32) -> (r: u16)
    ensures
        r == cells_ceil(a as int, b as int),
{
    if b == 0 {
        if a == 0 {
            0
        } else {
            0xffff
        }
    } else {
        let q: u64 = ((a as u64) + (b as u64) - 1) / (b as u64);
        if q > 0xffff {
            0xffff
        } else {
            q as u16
        }
    }
}

/// Rows for a bar of `px` pixels: at least one, and one when unknown.
pub open spec fn bar_rows(px: u32, fh: int) -> int {
    if px > 0 {
        let r = cells_ceil(px as int, fh);
        if r >= 1 { r } else { 1 }
    } else {
        1
    }
}

/// Rows for the keyboard: at least two.
pub open spec fn keyboard_rows(px: u32, fh: int) -> int {
    let r = cells_ceil(px as int, fh);
    if r >= 2 { r } else { 2 }
}

/// `a - b`, or 0 when `b` is larger.
pub open spec fn sat_sub(a: int, b: int) -> int {
    if a >= b { a - b } else { 0 }
}

fn bar_rows_of(px: u32, fh: u32) -> (r: u16)
    ensures
        r == bar_rows(px, fh as int),
{
    if px > 0 {
        let r = div_ceil_cells(px, fh);
        if r >= 1 {
            r
        } else {
            1
        }
    } else {
        1
    }
}

impl ScreenLayout {
    /// The layout of a `screen_width` by `screen_height` screen of which
    /// `visible_height` is not under the soft keyboard. The status bar takes
    /// at most a quarter of the rows; the rows left for the application are
    /// the total less the top and bottom reservations, never below zero.
    pub fn calculate(
        screen_width: u32,
        screen_height: u32,
        visible_height: u32,
        config: &AndroidConfig,
        rasterizer: &Rasterizer,
    ) -> (r: ScreenLayout)
        ensures
            ({
                let fw = rasterizer.spec_font_width();
                let fh = rasterizer.spec_font_height();
                let total = cells_floor(visible_height as int, fh);
                let status = bar_rows(config.status_bar_height, fh);
                let top = if status <= total / 4 { status } else { total / 4 };
                let bottom = keyboard_rows(config.keyboard_height, fh) + bar_rows(config.nav_bar_height, fh);
                let bottom16 = if bottom > 0xffff { 0xffff } else { bottom };
                &&& r.width_px == screen_width
                &&& r.height_px == screen_height
                &&& r.visible_height_px == visible_height
                &&& r.cols == cells_floor(screen_width as int, fw)
                &&& r.top_offset_rows == top
                &&& r.bottom_offset_rows == bottom16
                &&& r.rows == sat_sub(sat_sub(total, top), bottom16)
                &&& r.font_width == fw
                &&& r.font_height == fh
            }),
    {
        let fw = rasterizer.font_width();
        let fh = rasterizer.font_height();
        let cols = div_floor_cells(screen_width, fw);
        let total_rows = div_floor_cells(visible_height, fh);
        let status_rows = bar_rows_of(config.status_bar_height, fh);
        let kr = div_ceil_cells(config.keyboard_height, fh);
        let keyboard_rows: u16 = if kr >= 2 {
            kr
        } else {
            2
        };
        let nav_rows = bar_rows_of(config.nav_bar_height, fh);
        let quarter = total_rows / 4;
        let top_offset_rows = if status_rows <= quarter {
            status_rows
        } else {
            quarter
        };
        let bottom_offset_rows: u16 = if (keyboard_rows as u32) + (nav_rows as u32) > 0xffff {
            0xffff
        } else {
            keyboard_rows + nav_rows
        };
        let after_top = if total_rows >= top_offset_rows {
            total_rows - top_offset_rows
        } else {
            0
        };
        let rows = if after_top >= bottom_offset_rows {
            after_top - bottom_offset_rows
        } else {
            0
        };
        ScreenLayout {
            width_px: screen_width,
            height_px: screen_height,
            visible_height_px: visible_height,
            cols,
            rows,
            top_offset_rows,
            bottom_offset_rows,
            font_width: fw,
            font_height: fh,
        }
    }

    /// The pixel row where the keyboard starts: the screen height less the
    /// keyboard and the navigation bar, never below zero.
    pub fn keyboard_y(&self, nav_bar_height_px: u32, keyboard_height_px: u32) -> (r: usize)
        ensures
            r == sat_sub(sat_sub(self.height_px as int, keyboard_height_px as int), nav_bar_height_px as int),
    {
        let h = self.height_px as usize;
        let a = if h >= keyboard_height_px as usize {
            h - keyboard_height_px as usize
        } else {
            0
        };
        if a >= nav_bar_height_px as usize {
            a - nav_bar_height_px as usize
        } else {
            0
        }
    }
}

impl Default for AndroidConfig {
    fn default() -> (r: AndroidConfig)
        ensures
            r == AndroidConfig::spec_default(),
    {
        AndroidConfig::new()
    }
}

impl AndroidConfig {
    /// The default configuration; see [`AndroidConfig::new`].
    pub open spec fn spec_default() -> AndroidConfig {
        AndroidConfig {
            font_size: 48000,
            keyboard_height: 80,
            status_bar_height: 0,
            nav_bar_height: 0,
            warm_cache: true,
        }
    }
}

} // verus!
