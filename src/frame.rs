//! One frame: clear the destination, paint the cells between the reserved
//! bars, then paint the keyboard overlay on top.
use vstd::prelude::*;

use crate::backend::{resized, AndroidBackend};
use crate::direct_keyboard::{DirectKeyboard, DirectKeyboardState};
use crate::glyph::GlyphShaper;
use crate::glyph_cache::GlyphCache;
use crate::layout::ScreenLayout;
use crate::rasterizer::{cells_painted, render_limit, same_before, Rasterizer};

verus! {

/// Height of the keyboard overlay in pixels: two button rows and padding.
pub const DIRECT_KEYBOARD_HEIGHT_PX: u32 = 120;

/// The byte at offset `i` of a buffer cleared to opaque black.
pub open spec fn black_byte(i: int) -> u8 {
    if i % 4 == 3 { 255 } else { 0 }
}

/// Where the keyboard overlay goes in a window `window_height` pixels high
/// above a navigation bar `nav_bar_px` high: its top row, and the height of
/// each button row.
pub fn keyboard_geometry(window_height: usize, nav_bar_px: u32) -> (r: (usize, u32))
    ensures
        r.0 == (if window_height >= DIRECT_KEYBOARD_HEIGHT_PX + nav_bar_px {
            window_height - DIRECT_KEYBOARD_HEIGHT_PX - nav_bar_px
        } else {
            0
        }),
        r.1 == 56,
{
    let reserve: u64 = DIRECT_KEYBOARD_HEIGHT_PX as u64 + nav_bar_px as u64;
    let y: usize = if window_height as u64 >= reserve {
        (window_height as u64 - reserve) as usize
    } else {
        0
    };
    let half = DIRECT_KEYBOARD_HEIGHT_PX / 2 - 4;
    (y, if half >= 20 {
        half
    } else {
        20
    })
}

/// Resizes the cell buffer to the layout's columns and rows when both are
/// positive; returns whether it did.
pub fn resize_for_layout(backend: &mut AndroidBackend, layout: &ScreenLayout) -> (r: bool)
    ensures
        r == (layout.cols > 0 && layout.rows > 0),
        r ==> resized(*old(backend), *final(backend), layout.cols, layout.rows),
        !r ==> *final(backend) == *old(backend),
{
    if layout.cols > 0 && layout.rows > 0 {
        backend.resize(layout.cols, layout.rows);
        true
    } else {
        false
    }
}

fn clear_to_black(dest: &mut [u8])
    ensures
        final(dest)@.len() == old(dest)@.len(),
        forall|i: int| 0 <= i < old(dest)@.len() / 4 * 4 ==> #[trigger] final(dest)@[i] == black_byte(i),
        final(dest)@ == cleared(old(dest)@),
{
    let len = dest.len();
    let n = len / 4;
    let mut k: usize = 0;
    while k < n
        invariant
            n == dest@.len() / 4,
            n * 4 <= dest@.len(),
            dest@.len() <= usize::MAX,
            k <= n,
            dest@.len() == old(dest)@.len(),
            forall|i: int| 0 <= i < k * 4 ==> #[trigger] dest@[i] == black_byte(i),
            forall|i: int| k * 4 <= i < dest@.len() ==> #[trigger] dest@[i] == old(dest)@[i],
        decreases n - k,
    {
        let i = k * 4;
        dest[i] = 0;
        dest[i + 1] = 0;
        dest[i + 2] = 0;
        dest[i + 3] = 255;
        k = k + 1;
    }
    assert(dest@ =~= cleared(old(dest)@));
}

/// `old` with every whole pixel set to opaque black.
pub open spec fn cleared(old: Seq<u8>) -> Seq<u8> {
    Seq::new(old.len(), |i: int| if i < old.len() / 4 * 4 { black_byte(i) } else { old[i] })
}

/// `v` held to the largest `usize`.
pub open spec fn capped(v: int) -> int {
    if v <= usize::MAX { v } else { usize::MAX as int }
}

/// Draws a frame into `dest` (`stride` pixels per row): clears it to opaque
/// black, paints the cells with `top_rows` and `bottom_rows` cell rows kept
/// free at the top and bottom, then the keyboard above the navigation bar.
/// Rows above both the top bar and the keyboard stay black, and so do the
/// rows between the cell area and the keyboard. The cells are painted as
/// [`Rasterizer::render_to_surface_with_offset`] promises on the cleared
/// buffer, and the keyboard over that as [`DirectKeyboard::render`]
/// promises.
pub fn draw_frame<S: GlyphShaper>(
    rasterizer: &Rasterizer,
    backend: &AndroidBackend,
    cache: &mut GlyphCache,
    shaper: &mut S,
    keyboard: &DirectKeyboard,
    keyboard_state: &DirectKeyboardState,
    dest: &mut [u8],
    stride: usize,
    window_width: usize,
    window_height: usize,
    top_rows: u16,
    bottom_rows: u16,
    nav_bar_px: u32,
)
    requires
        backend.wf(),
        old(cache).wf(),
        keyboard.wf(),
    ensures
        final(cache).wf(),
        final(cache).capacity() == old(cache).capacity(),
        final(dest)@.len() == old(dest)@.len(),
        ({
            let top_px = top_rows * rasterizer.spec_font_height();
            let ky = keyboard_geometry_y(window_height, nav_bar_px);
            let lo = if top_px <= ky { top_px } else { ky };
            forall|i: int|
                0 <= i < old(dest)@.len() / 4 * 4 && i < lo * stride * 4 ==> #[trigger] final(dest)@[i]
                    == black_byte(i)
        }),
        ({
            let limit = render_limit(window_height as int, bottom_rows * rasterizer.spec_font_height());
            let ky = keyboard_geometry_y(window_height, nav_bar_px);
            0 < stride && window_width <= stride ==> forall|i: int|
                limit * stride * 4 <= i < ky * stride * 4 && i < old(dest)@.len() / 4 * 4 ==> #[trigger] final(dest)@[i] == black_byte(i)
        }),
        exists|mid: Seq<u8>|
            #[trigger] cells_painted(
                *backend,
                rasterizer.spec_font_width(),
                rasterizer.spec_font_height(),
                cleared(old(dest)@),
                mid,
                stride as int,
                window_width as int,
                window_height as int,
                capped(top_rows * rasterizer.spec_font_height()),
                capped(bottom_rows * rasterizer.spec_font_height()),
            ) && (keyboard.drawable(
                mid.len() as int,
                stride as int,
                window_width as int,
                keyboard_geometry_y(window_height, nav_bar_px),
                56,
            ) ==> exists|now: u64| #[trigger] keyboard.drawn_over(
                mid,
                final(dest)@,
                *keyboard_state,
                now,
                stride as int,
                window_width as int,
                keyboard_geometry_y(window_height, nav_bar_px),
                56,
            )),
{
    clear_to_black(dest);
    let ghost blank = dest@;
    let fh = rasterizer.font_height() as u64;
    assert(top_rows as u64 * fh <= 0xffff * 0xffff_ffff && bottom_rows as u64 * fh <= 0xffff
        * 0xffff_ffff) by (nonlinear_arith)
        requires
            top_rows <= 0xffff,
            bottom_rows <= 0xffff,
            fh <= 0xffff_ffff,
    ;
    let top: u64 = top_rows as u64 * fh;
    let bottom: u64 = bottom_rows as u64 * fh;
    let top_px: usize = if top > usize::MAX as u64 {
        usize::MAX
    } else {
        top as usize
    };
    let bottom_px: usize = if bottom > usize::MAX as u64 {
        usize::MAX
    } else {
        bottom as usize
    };
    rasterizer.render_to_surface_with_offset(
        backend,
        cache,
        shaper,
        dest,
        stride,
        window_width,
        window_height,
        top_px,
        bottom_px,
    );
    let ghost painted = dest@;
    let (ky, bh) = keyboard_geometry(window_height, nav_bar_px);
    keyboard.render(keyboard_state, dest, stride, window_width, window_height, ky, bh);
    proof {
        assert(top_px == capped(top_rows * rasterizer.spec_font_height()));
        assert(bottom_px == capped(bottom_rows * rasterizer.spec_font_height()));
        assert(cells_painted(
            *backend,
            rasterizer.spec_font_width(),
            rasterizer.spec_font_height(),
            cleared(old(dest)@),
            painted,
            stride as int,
            window_width as int,
            window_height as int,
            capped(top_rows * rasterizer.spec_font_height()),
            capped(bottom_rows * rasterizer.spec_font_height()),
        ));
        let tp = top_rows * rasterizer.spec_font_height();
        let lo = if tp <= ky { tp } else { ky as int };
        assert(lo * stride * 4 <= top_px * stride * 4 && lo * stride * 4 <= ky * stride * 4)
            by (nonlinear_arith)
            requires
                0 <= lo,
                lo <= top_px || top_px == usize::MAX,
                lo <= ky,
                0 <= stride,
                lo <= tp,
                tp == top_px || top_px == usize::MAX,
        ;
        assert forall|i: int|
            0 <= i < old(dest)@.len() / 4 * 4 && i < lo * stride * 4 implies #[trigger] dest@[i]
            == black_byte(i) by {
            assert(painted[i] == blank[i]);
        }
        let limit = render_limit(window_height as int, bottom_rows * rasterizer.spec_font_height());
        if 0 < stride && window_width <= stride {
            assert(render_limit(window_height as int, bottom_px as int) == limit);
            assert forall|i: int|
                limit * stride * 4 <= i < ky * stride * 4 && i < old(dest)@.len() / 4 * 4 implies #[trigger] dest@[i]
                == black_byte(i) by {
                assert(painted[i] == blank[i]);
            }
        }
    }
}

/// The keyboard's top row for a window height and navigation bar; see
/// [`keyboard_geometry`].
pub open spec fn keyboard_geometry_y(window_height: usize, nav_bar_px: u32) -> int {
    if window_height >= DIRECT_KEYBOARD_HEIGHT_PX + nav_bar_px {
        window_height - DIRECT_KEYBOARD_HEIGHT_PX - nav_bar_px
    } else {
        0
    }
}

} // verus!
