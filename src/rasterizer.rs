//! The software rasterizer: walks the cell buffer and paints each visible
//! cell's background and glyphs into an RGBA8888 destination buffer.
use vstd::prelude::*;

use crate::backend::{in_grid, lead_char, AndroidBackend, Cell, CellView};
use crate::color::{bg_rgba, color_to_rgba, color_to_rgba_bg, fg_rgba};
use crate::glyph::{
    blend_over, blend_pixel, cell_height, glyph_key_of, native_key_of, cell_height_px, is_wide_char, narrow_cell_width,
    narrow_width_px, read_px, render_char_android, render_glyph, wide_char, write_px, GlyphShaper,
};
use crate::glyph_cache::{glyph_view, has_key, held, key_pos, CachedChar, GlyphCache, GlyphKey, GlyphView};

verus! {

/// Where one cell of a row is painted: its column, the first pixel column,
/// the width in pixels (clipped at the window edge), and whether it is wide.
#[derive(Clone, Copy, Debug, PartialEq, Eq, Structural)]
pub struct CellSpan {
    pub column: u16,
    pub px_start: usize,
    pub width: usize,
    pub wide: bool,
}

/// Whether the cell at `(x, y)` starts with a wide character.
pub open spec fn cell_is_wide(b: AndroidBackend, x: int, y: int) -> bool {
    wide_char(lead_char(b.cell_at(x, y).symbol))
}

/// The spans of row `y` from column `x` on, left to right, while columns
/// before `skip` belong to a wide character already laid out: such a column
/// and a column starting at or right of the window edge get no span, and a
/// wide cell takes the next column too.
pub open spec fn row_walk(b: AndroidBackend, y: int, fw: int, ww: int, x: int, skip: int) -> Seq<
    CellSpan,
>
    decreases b.width - x,
{
    if x >= b.width || x < 0 {
        Seq::empty()
    } else if x < skip {
        row_walk(b, y, fw, ww, x + 1, skip)
    } else if x * fw >= ww {
        row_walk(b, y, fw, ww, x + 1, skip)
    } else {
        let wide = cell_is_wide(b, x, y);
        let full = if wide { 2 * fw } else { fw };
        let width = if full <= ww - x * fw { full } else { ww - x * fw };
        if width == 0 {
            row_walk(b, y, fw, ww, x + 1, skip)
        } else {
            seq![CellSpan { column: x as u16, px_start: (x * fw) as usize, width: width as usize, wide }]
                + row_walk(b, y, fw, ww, x + 1, if wide { x + 2 } else { skip })
        }
    }
}

/// The spans of row `y`.
pub open spec fn row_spans(b: AndroidBackend, y: int, fw: int, ww: int) -> Seq<CellSpan> {
    row_walk(b, y, fw, ww, 0, 0)
}

proof fn lemma_walk_columns(b: AndroidBackend, y: int, fw: int, ww: int, x: int, skip: int)
    requires
        x >= 0,
    ensures
        forall|i: int|
            0 <= i < row_walk(b, y, fw, ww, x, skip).len() ==> {
                let s = #[trigger] row_walk(b, y, fw, ww, x, skip)[i];
                &&& s.column >= x
                &&& s.column >= skip
                &&& s.column < b.width
            },
    decreases b.width - x,
{
    if x < b.width {
        let wide = cell_is_wide(b, x, y);
        let nskip = if wide { x + 2 } else { skip };
        lemma_walk_columns(b, y, fw, ww, x + 1, skip);
        lemma_walk_columns(b, y, fw, ww, x + 1, nskip);
        let w = row_walk(b, y, fw, ww, x, skip);
        if x >= skip && x * fw < ww {
            let full = if wide { 2 * fw } else { fw };
            let width = if full <= ww - x * fw { full } else { ww - x * fw };
            if width != 0 {
                let rest = row_walk(b, y, fw, ww, x + 1, nskip);
                assert(w == seq![w[0]] + rest);
                assert forall|i: int| 0 <= i < w.len() implies {
                    let s = #[trigger] w[i];
                    &&& s.column >= x
                    &&& s.column >= skip
                    &&& s.column < b.width
                } by {
                    if i > 0 {
                        assert(w[i] == rest[i - 1]);
                    }
                }
            }
        }
    }
}

/// A wide cell's span takes the next column too: every later span starts at
/// least two columns to its right, and columns rise from span to span, so no
/// span is laid out for the column right of a wide cell.
pub proof fn lemma_wide_consumes_next(b: AndroidBackend, y: int, fw: int, ww: int, x: int, skip: int)
    requires
        x >= 0,
        fw >= 0,
        0 <= ww <= usize::MAX,
    ensures
        forall|i: int, j: int|
            0 <= i < j < row_walk(b, y, fw, ww, x, skip).len() ==> {
                let si = #[trigger] row_walk(b, y, fw, ww, x, skip)[i];
                let sj = #[trigger] row_walk(b, y, fw, ww, x, skip)[j];
                &&& si.column < sj.column
                &&& si.wide ==> sj.column >= si.column + 2
            },
        forall|i: int|
            0 <= i < row_walk(b, y, fw, ww, x, skip).len() ==> {
                let s = #[trigger] row_walk(b, y, fw, ww, x, skip)[i];
                &&& s.wide == cell_is_wide(b, s.column as int, y)
                &&& s.px_start == s.column * fw
                &&& s.width == (if s.wide { 2 * fw } else { fw }) || s.width == ww - s.column * fw
            },
    decreases b.width - x,
{
    if x < b.width {
        let wide = cell_is_wide(b, x, y);
        let nskip = if wide { x + 2 } else { skip };
        lemma_wide_consumes_next(b, y, fw, ww, x + 1, skip);
        lemma_wide_consumes_next(b, y, fw, ww, x + 1, nskip);
        lemma_walk_columns(b, y, fw, ww, x + 1, nskip);
        let w = row_walk(b, y, fw, ww, x, skip);
        if x >= skip && x * fw < ww {
            let full = if wide { 2 * fw } else { fw };
            let width = if full <= ww - x * fw { full } else { ww - x * fw };
            if width != 0 {
                let rest = row_walk(b, y, fw, ww, x + 1, nskip);
                assert(0 <= x * fw) by (nonlinear_arith)
                    requires
                        x >= 0,
                        fw >= 0,
                ;
                assert(w == seq![w[0]] + rest);
                assert(w[0].column as int == x);
                assert(w[0].px_start as int == x * fw);
                assert(w[0].width as int == width);
                assert(w[0].wide == wide);
                assert forall|i: int, j: int| 0 <= i < j < w.len() implies {
                    let si = #[trigger] w[i];
                    let sj = #[trigger] w[j];
                    &&& si.column < sj.column
                    &&& si.wide ==> sj.column >= si.column + 2
                } by {
                    assert(w[j] == rest[j - 1]);
                    if i > 0 {
                        assert(w[i] == rest[i - 1]);
                    }
                }
                assert forall|i: int| 0 <= i < w.len() implies {
                    let s = #[trigger] w[i];
                    &&& s.wide == cell_is_wide(b, s.column as int, y)
                    &&& s.px_start == s.column * fw
                    &&& s.width == (if s.wide { 2 * fw } else { fw }) || s.width == ww - s.column
                        * fw
                } by {
                    if i > 0 {
                        assert(w[i] == rest[i - 1]);
                    }
                }
            } else {
                assert(w == row_walk(b, y, fw, ww, x + 1, skip));
            }
        } else {
            assert(w == row_walk(b, y, fw, ww, x + 1, skip));
        }
    }
}

/// Every span starts left of the window edge, and is at least one pixel and
/// at most its full cell width wide.
proof fn lemma_span_bounds(b: AndroidBackend, y: int, fw: int, ww: int, x: int, skip: int)
    requires
        x >= 0,
        fw >= 0,
        0 <= ww <= usize::MAX,
    ensures
        forall|i: int|
            0 <= i < row_walk(b, y, fw, ww, x, skip).len() ==> {
                let s = #[trigger] row_walk(b, y, fw, ww, x, skip)[i];
                &&& s.px_start < ww
                &&& 1 <= s.width <= (if s.wide { 2 * fw } else { fw })
                &&& s.px_start + s.width <= ww
            },
    decreases b.width - x,
{
    if x < b.width {
        let wide = cell_is_wide(b, x, y);
        let nskip = if wide { x + 2 } else { skip };
        lemma_span_bounds(b, y, fw, ww, x + 1, skip);
        lemma_span_bounds(b, y, fw, ww, x + 1, nskip);
        let w = row_walk(b, y, fw, ww, x, skip);
        if x >= skip && x * fw < ww {
            let full = if wide { 2 * fw } else { fw };
            let width = if full <= ww - x * fw { full } else { ww - x * fw };
            if width != 0 {
                let rest = row_walk(b, y, fw, ww, x + 1, nskip);
                assert(0 <= x * fw) by (nonlinear_arith)
                    requires
                        x >= 0,
                        fw >= 0,
                ;
                assert(w == seq![w[0]] + rest);
                assert forall|i: int| 0 <= i < w.len() implies {
                    let s = #[trigger] w[i];
                    &&& s.px_start < ww
                    &&& 1 <= s.width <= (if s.wide { 2 * fw } else { fw })
                    &&& s.px_start + s.width <= ww
                } by {
                    if i > 0 {
                        assert(w[i] == rest[i - 1]);
                    }
                }
            } else {
                assert(w == row_walk(b, y, fw, ww, x + 1, skip));
            }
        } else {
            assert(w == row_walk(b, y, fw, ww, x + 1, skip));
        }
    }
}

/// Spans of a row do not overlap and run left to right.
proof fn lemma_spans_ordered(b: AndroidBackend, y: int, fw: int, ww: int)
    requires
        fw >= 0,
        0 <= ww <= usize::MAX,
    ensures
        forall|j: int, k: int|
            0 <= j < k < row_spans(b, y, fw, ww).len() ==> #[trigger] row_spans(b, y, fw, ww)[j].px_start
                + row_spans(b, y, fw, ww)[j].width <= #[trigger] row_spans(b, y, fw, ww)[k].px_start,
{
    let w = row_spans(b, y, fw, ww);
    lemma_wide_consumes_next(b, y, fw, ww, 0, 0);
    lemma_span_bounds(b, y, fw, ww, 0, 0);
    assert forall|j: int, k: int| 0 <= j < k < w.len() implies #[trigger] w[j].px_start + w[j].width
        <= #[trigger] w[k].px_start by {
        let sj = w[j];
        let sk = w[k];
        let m: int = if sj.wide { 2 } else { 1 };
        assert(sk.column >= sj.column + m);
        assert(sk.column * fw >= sj.column * fw + m * fw) by (nonlinear_arith)
            requires
                sk.column >= sj.column + m,
                fw >= 0,
        ;
    }
}

/// First pixel row of cell row `y`.
pub open spec fn row_start(fh: int, top: int, y: int) -> int {
    y * fh + top
}

/// Pixel rows before this one may hold cells; the rest is reserved.
pub open spec fn render_limit(wh: int, bottom: int) -> int {
    if wh > bottom { wh - bottom } else { 0 }
}

/// Height of the band that cell row `y` paints.
pub open spec fn row_band(fh: int, top: int, wh: int, bottom: int, y: int) -> int {
    let room = render_limit(wh, bottom) - row_start(fh, top, y);
    if fh <= room { fh } else { room }
}

/// Whether cell row `y` is painted at all.
pub open spec fn row_painted(fh: int, top: int, wh: int, bottom: int, y: int) -> bool {
    &&& row_start(fh, top, y) <= usize::MAX
    &&& row_start(fh, top, y) < render_limit(wh, bottom)
    &&& row_band(fh, top, wh, bottom, y) > 0
}

/// A symbol that gets no glyph: empty, or starting with a space.
pub open spec fn blank_symbol(s: Seq<char>) -> bool {
    s.len() == 0 || s[0] == ' '
}

/// When span `k` of painted row `y` shows a blank symbol, its band in `dest`
/// holds exactly the cell's background color.
pub open spec fn blank_cell_painted(
    b: AndroidBackend,
    dest: Seq<u8>,
    stride: int,
    ww: int,
    wh: int,
    fw: int,
    fh: int,
    top: int,
    bottom: int,
    y: int,
    k: int,
) -> bool {
    let spans = row_spans(b, y, fw, ww);
    row_painted(fh, top, wh, bottom, y) && 0 <= k < spans.len() && blank_symbol(
        b.cell_at(spans[k].column as int, y).symbol,
    ) ==> rect_filled(
        dest,
        stride,
        ww,
        wh,
        spans[k].px_start as int,
        row_start(fh, top, y),
        spans[k].width as int,
        row_band(fh, top, wh, bottom, y),
        bg_rgba(b.cell_at(spans[k].column as int, y).bg),
    )
}

proof fn lemma_column_of(stride: int, x: int, y: int, d: int)
    requires
        0 <= x < stride,
        0 <= y,
        0 <= d < 4,
    ensures
        ((pixel_index(stride, x, y) + d) / 4) % stride == x,
{
    assert((pixel_index(stride, x, y) + d) / 4 == y * stride + x) by (nonlinear_arith)
        requires
            0 <= d < 4,
    ;
    assert((y * stride + x) % stride == x) by (nonlinear_arith)
        requires
            0 <= x < stride,
            0 <= y,
    ;
}

proof fn lemma_rect_kept_left(a: Seq<u8>, c: Seq<u8>, stride: int, ww: int, wh: int, px: int, py: int, w: int, h: int, color: [u8; 4], x0: int)
    requires
        0 < stride,
        ww <= stride,
        0 <= px,
        0 <= py,
        rect_filled(a, stride, ww, wh, px, py, w, h, color),
        same_left_of(a, c, stride, x0),
        px + w <= x0,
    ensures
        rect_filled(c, stride, ww, wh, px, py, w, h, color),
{
    assert forall|x: int, y: int|
        px <= x < px + w && x < ww && py <= y < py + h && y < wh && 0 <= pixel_index(stride, x, y)
            && pixel_index(stride, x, y) + 3 < c.len() implies #[trigger] read_px(c, pixel_index(stride, x, y))
        == color by {
        let i = pixel_index(stride, x, y);
        assert(read_px(a, i) == color);
        lemma_column_of(stride, x, y, 0);
        lemma_column_of(stride, x, y, 1);
        lemma_column_of(stride, x, y, 2);
        lemma_column_of(stride, x, y, 3);
        assert(a[i] == c[i]);
        assert(a[i + 1] == c[i + 1]);
        assert(a[i + 2] == c[i + 2]);
        assert(a[i + 3] == c[i + 3]);
        assert(read_px(c, i) =~= read_px(a, i));
    }
}

pub(crate) proof fn lemma_rect_kept_above(a: Seq<u8>, c: Seq<u8>, stride: int, ww: int, wh: int, px: int, py: int, w: int, h: int, color: [u8; 4], rows: int)
    requires
        0 < stride,
        ww <= stride,
        0 <= px,
        0 <= py,
        rect_filled(a, stride, ww, wh, px, py, w, h, color),
        same_before(a, c, rows * stride * 4),
        py + h <= rows,
    ensures
        rect_filled(c, stride, ww, wh, px, py, w, h, color),
{
    assert forall|x: int, y: int|
        px <= x < px + w && x < ww && py <= y < py + h && y < wh && 0 <= pixel_index(stride, x, y)
            && pixel_index(stride, x, y) + 3 < c.len() implies #[trigger] read_px(c, pixel_index(stride, x, y))
        == color by {
        let i = pixel_index(stride, x, y);
        assert(read_px(a, i) == color);
        assert(i + 3 < rows * stride * 4) by (nonlinear_arith)
            requires
                i == (y * stride + x) * 4,
                0 <= x < stride,
                0 <= y < rows,
        ;
        assert(read_px(c, i) =~= read_px(a, i));
    }
}

/// Width in pixels of a cell, doubled for a wide character.
pub open spec fn cell_span_width(fw: int, wide: bool) -> int {
    if wide { 2 * fw } else { fw }
}

/// The largest scale `num / den`, at most one, at which a `bw` by `bh`
/// bitmap fits a `cw` by `ch` cell.
pub open spec fn fit_scale_of(cw: int, ch: int, bw: int, bh: int) -> (int, int) {
    if cw * bh <= ch * bw {
        if cw < bw { (cw, bw) } else { (1, 1) }
    } else {
        if ch < bh { (ch, bh) } else { (1, 1) }
    }
}

/// The bitmap pixel that destination offset `(dx, dy)` samples.
pub open spec fn bitmap_sample(data: Seq<u8>, bw: int, num: int, den: int, dx: int, dy: int) -> [u8; 4] {
    read_px(data, ((dy * den / num) * bw + dx * den / num) * 4)
}

/// Column of the pixel that byte `i` belongs to.
pub open spec fn px_x(i: int, stride: int) -> int {
    (i / 4) % stride
}

/// Row of the pixel that byte `i` belongs to.
pub open spec fn px_y(i: int, stride: int) -> int {
    (i / 4) / stride
}

/// The scaled bitmap pixel at offset `(dx, dy)` from `(x0, py)`, when it
/// lies in the window and in `new`, is the bitmap's sample laid over what
/// `old` held there.
pub open spec fn bitmap_px(
    old: Seq<u8>,
    new: Seq<u8>,
    stride: int,
    ww: int,
    wh: int,
    x0: int,
    py: int,
    data: Seq<u8>,
    bw: int,
    num: int,
    den: int,
    dx: int,
    dy: int,
) -> bool {
    let i = pixel_index(stride, x0 + dx, py + dy);
    x0 + dx < ww && py + dy < wh && i + 3 < new.len() ==> read_px(new, i) == blend_over(
        read_px(old, i),
        bitmap_sample(data, bw, num, den, dx, dy),
    )
}

/// Whether pixel `(x, y)` is among the first `dy` full rows of a `sw` wide
/// rectangle at `(x0, py)`, or the first `dx` pixels of the row after.
pub open spec fn in_done(x: int, y: int, x0: int, py: int, sw: int, dy: int, dx: int) -> bool {
    (py <= y < py + dy && x0 <= x < x0 + sw) || (y == py + dy && x0 <= x < x0 + dx)
}

/// `new` is `old` with the scaled bitmap composited over the pixels of
/// [`in_done`] and every other byte kept.
pub open spec fn bitmap_done(
    old: Seq<u8>,
    new: Seq<u8>,
    stride: int,
    ww: int,
    wh: int,
    x0: int,
    py: int,
    sw: int,
    dy: int,
    dx: int,
    data: Seq<u8>,
    bw: int,
    num: int,
    den: int,
) -> bool {
    &&& new.len() == old.len()
    &&& forall|a: int, b: int|
        (0 <= b < dy && 0 <= a < sw) || (b == dy && 0 <= a < dx) ==> #[trigger] bitmap_px(
            old,
            new,
            stride,
            ww,
            wh,
            x0,
            py,
            data,
            bw,
            num,
            den,
            a,
            b,
        )
    &&& forall|i: int|
        0 <= i < old.len() && !in_done(px_x(i, stride), px_y(i, stride), x0, py, sw, dy, dx) ==> #[trigger] new[i]
            == old[i]
}

/// `new` is `old` with a `bw` by `bh` bitmap composited onto the cell at
/// `(px, py)` that is `cw` by `ch` pixels: scaled by [`fit_scale_of`],
/// centred horizontally, each pixel of the scaled rectangle inside the
/// window laid over the destination, every other byte kept.
pub open spec fn bitmap_painted(
    old: Seq<u8>,
    new: Seq<u8>,
    stride: int,
    ww: int,
    wh: int,
    px: int,
    py: int,
    bw: int,
    bh: int,
    data: Seq<u8>,
    cw: int,
    ch: int,
) -> bool {
    let (num, den) = fit_scale_of(cw, ch, bw, bh);
    let sw = bw * num / den;
    let sh = bh * num / den;
    let off = if cw >= sw { (cw - sw) / 2 } else { 0 };
    &&& bw > 0 && bh > 0 ==> bitmap_done(old, new, stride, ww, wh, px + off, py, sw, sh, 0, data, bw, num, den)
    &&& (bw == 0 || bh == 0) ==> new == old
}

/// Compositing a bitmap onto a cell: where the sampled source pixel is
/// opaque the destination pixel becomes exactly its colour, and where it is
/// fully transparent the destination pixel keeps its value.
pub proof fn lemma_bitmap_alpha_bounds(
    old: Seq<u8>,
    new: Seq<u8>,
    stride: int,
    ww: int,
    wh: int,
    px: int,
    py: int,
    bw: int,
    bh: int,
    data: Seq<u8>,
    cw: int,
    ch: int,
    dx: int,
    dy: int,
)
    requires
        bitmap_painted(old, new, stride, ww, wh, px, py, bw, bh, data, cw, ch),
        bw > 0,
        bh > 0,
        ({
            let (num, den) = fit_scale_of(cw, ch, bw, bh);
            0 <= dx < bw * num / den && 0 <= dy < bh * num / den
        }),
    ensures
        ({
            let (num, den) = fit_scale_of(cw, ch, bw, bh);
            let sw = bw * num / den;
            let off = if cw >= sw { (cw - sw) / 2 } else { 0 };
            let i = pixel_index(stride, px + off + dx, py + dy);
            let src = bitmap_sample(data, bw, num, den, dx, dy);
            px + off + dx < ww && py + dy < wh && i + 3 < new.len() ==> {
                &&& src[3] == 255 ==> read_px(new, i) == [src[0], src[1], src[2], 255u8]
                &&& src[3] == 0 ==> read_px(new, i) == read_px(old, i)
            }
        }),
{
    let (num, den) = fit_scale_of(cw, ch, bw, bh);
    let sw = bw * num / den;
    let off = if cw >= sw { (cw - sw) / 2 } else { 0 };
    assert(bitmap_px(old, new, stride, ww, wh, px + off, py, data, bw, num, den, dx, dy));
    let i = pixel_index(stride, px + off + dx, py + dy);
    crate::glyph::lemma_blend_bounds(read_px(old, i), bitmap_sample(data, bw, num, den, dx, dy));
}

proof fn lemma_sample_in_range(d: int, n: int, num: int, den: int)
    requires
        0 <= d,
        d < n * num / den,
        num > 0,
        den > 0,
        n >= 0,
    ensures
        d * den / num < n,
{
    assert((d + 1) * den <= n * num) by (nonlinear_arith)
        requires
            d + 1 <= n * num / den,
            den > 0,
            n >= 0,
            num > 0,
    ;
    assert(d * den < n * num) by (nonlinear_arith)
        requires
            (d + 1) * den <= n * num,
            den > 0,
    ;
    assert(d * den / num < n) by (nonlinear_arith)
        requires
            d * den < n * num,
            num > 0,
            d >= 0,
            den > 0,
    ;
}

pub(crate) proof fn lemma_pixel_coords(stride: int, x: int, y: int, i: int)
    requires
        0 <= x < stride,
        0 <= y,
        pixel_index(stride, x, y) <= i < pixel_index(stride, x, y) + 4,
    ensures
        px_x(i, stride) == x,
        px_y(i, stride) == y,
{
    assert(i / 4 == y * stride + x) by (nonlinear_arith)
        requires
            pixel_index(stride, x, y) <= i < pixel_index(stride, x, y) + 4,
            pixel_index(stride, x, y) == (y * stride + x) * 4,
    ;
    assert((y * stride + x) % stride == x && (y * stride + x) / stride == y) by (nonlinear_arith)
        requires
            0 <= x < stride,
            0 <= y,
    ;
}

proof fn lemma_done_skip_row(
    old: Seq<u8>,
    new: Seq<u8>,
    stride: int,
    ww: int,
    wh: int,
    x0: int,
    py: int,
    sw: int,
    y: int,
    data: Seq<u8>,
    bw: int,
    num: int,
    den: int,
)
    requires
        bitmap_done(old, new, stride, ww, wh, x0, py, sw, y, 0, data, bw, num, den),
        py + y >= wh,
        0 <= y,
    ensures
        bitmap_done(old, new, stride, ww, wh, x0, py, sw, y + 1, 0, data, bw, num, den),
{
    assert forall|a: int, b: int|
        (0 <= b < y + 1 && 0 <= a < sw) || (b == y + 1 && 0 <= a < 0) implies #[trigger] bitmap_px(
        old,
        new,
        stride,
        ww,
        wh,
        x0,
        py,
        data,
        bw,
        num,
        den,
        a,
        b,
    ) by {
        if b < y {
            assert((0 <= b < y && 0 <= a < sw) || (b == y && 0 <= a < 0));
        }
    }
}

proof fn lemma_done_skip_px(
    old: Seq<u8>,
    new: Seq<u8>,
    stride: int,
    ww: int,
    wh: int,
    x0: int,
    py: int,
    sw: int,
    y: int,
    x: int,
    data: Seq<u8>,
    bw: int,
    num: int,
    den: int,
)
    requires
        bitmap_done(old, new, stride, ww, wh, x0, py, sw, y, x, data, bw, num, den),
        x0 + x >= ww,
        0 <= x,
    ensures
        bitmap_done(old, new, stride, ww, wh, x0, py, sw, y, x + 1, data, bw, num, den),
{
    assert forall|a: int, b: int|
        (0 <= b < y && 0 <= a < sw) || (b == y && 0 <= a < x + 1) implies #[trigger] bitmap_px(
        old,
        new,
        stride,
        ww,
        wh,
        x0,
        py,
        data,
        bw,
        num,
        den,
        a,
        b,
    ) by {
        if !(b == y && a == x) {
            assert((0 <= b < y && 0 <= a < sw) || (b == y && 0 <= a < x));
        }
    }
}

proof fn lemma_done_row_complete(
    old: Seq<u8>,
    new: Seq<u8>,
    stride: int,
    ww: int,
    wh: int,
    x0: int,
    py: int,
    sw: int,
    y: int,
    data: Seq<u8>,
    bw: int,
    num: int,
    den: int,
)
    requires
        bitmap_done(old, new, stride, ww, wh, x0, py, sw, y, sw, data, bw, num, den),
        0 <= y,
    ensures
        bitmap_done(old, new, stride, ww, wh, x0, py, sw, y + 1, 0, data, bw, num, den),
{
    assert forall|a: int, b: int|
        (0 <= b < y + 1 && 0 <= a < sw) || (b == y + 1 && 0 <= a < 0) implies #[trigger] bitmap_px(
        old,
        new,
        stride,
        ww,
        wh,
        x0,
        py,
        data,
        bw,
        num,
        den,
        a,
        b,
    ) by {
        assert((0 <= b < y && 0 <= a < sw) || (b == y && 0 <= a < sw));
    }
    assert forall|i: int|
        0 <= i < old.len() && !in_done(px_x(i, stride), px_y(i, stride), x0, py, sw, y + 1, 0) implies #[trigger] new[i]
        == old[i] by {
        assert(!in_done(px_x(i, stride), px_y(i, stride), x0, py, sw, y, sw));
    }
}

proof fn lemma_done_write(
    old: Seq<u8>,
    before: Seq<u8>,
    after: Seq<u8>,
    stride: int,
    ww: int,
    wh: int,
    x0: int,
    py: int,
    sw: int,
    y: int,
    x: int,
    data: Seq<u8>,
    bw: int,
    num: int,
    den: int,
    src: [u8; 4],
    wrote: bool,
)
    requires
        bitmap_done(old, before, stride, ww, wh, x0, py, sw, y, x, data, bw, num, den),
        0 <= x < sw,
        0 <= y,
        0 <= x0,
        0 <= py,
        x0 + x < ww <= stride,
        py + y < wh,
        src == bitmap_sample(data, bw, num, den, x, y),
        ({
            let i = pixel_index(stride, x0 + x, py + y);
            &&& wrote && i + 3 < before.len() ==> after == write_px(before, i, blend_over(read_px(before, i), src))
            &&& wrote && i + 3 >= before.len() ==> after == before
            &&& !wrote ==> after == before && blend_over(read_px(before, i), src) == read_px(before, i)
        }),
    ensures
        bitmap_done(old, after, stride, ww, wh, x0, py, sw, y, x + 1, data, bw, num, den),
{
    let X = x0 + x;
    let Y = py + y;
    let i = pixel_index(stride, X, Y);
    assert(0 <= i) by (nonlinear_arith)
        requires
            i == (Y * stride + X) * 4,
            0 <= X,
            0 <= Y,
            0 <= stride,
    ;
    // The pixel written now held its old value until now.
    if i + 3 < before.len() {
        lemma_pixel_coords(stride, X, Y, i);
        lemma_pixel_coords(stride, X, Y, i + 1);
        lemma_pixel_coords(stride, X, Y, i + 2);
        lemma_pixel_coords(stride, X, Y, i + 3);
        assert(!in_done(px_x(i, stride), px_y(i, stride), x0, py, sw, y, x));
        assert(!in_done(px_x(i + 1, stride), px_y(i + 1, stride), x0, py, sw, y, x));
        assert(!in_done(px_x(i + 2, stride), px_y(i + 2, stride), x0, py, sw, y, x));
        assert(!in_done(px_x(i + 3, stride), px_y(i + 3, stride), x0, py, sw, y, x));
        assert(read_px(before, i) =~= read_px(old, i)) by {
            assert(before[i] == old[i]);
            assert(before[i + 1] == old[i + 1]);
            assert(before[i + 2] == old[i + 2]);
            assert(before[i + 3] == old[i + 3]);
        }
    }
    assert forall|a: int, b: int|
        (0 <= b < y && 0 <= a < sw) || (b == y && 0 <= a < x + 1) implies #[trigger] bitmap_px(
        old,
        after,
        stride,
        ww,
        wh,
        x0,
        py,
        data,
        bw,
        num,
        den,
        a,
        b,
    ) by {
        let j = pixel_index(stride, x0 + a, py + b);
        if b == y && a == x {
            if i + 3 < before.len() && wrote {
                assert(read_px(after, i) =~= blend_over(read_px(before, i), src));
            }
        } else {
            assert((0 <= b < y && 0 <= a < sw) || (b == y && 0 <= a < x));
            assert(bitmap_px(old, before, stride, ww, wh, x0, py, data, bw, num, den, a, b));
            if x0 + a < ww && py + b < wh && j + 3 < after.len() && wrote && i + 3 < before.len() {
                lemma_pixels_apart(stride, X, Y, x0 + a, py + b);
                assert(read_px(after, j) =~= read_px(before, j));
            }
        }
    }
    assert forall|k: int|
        0 <= k < old.len() && !in_done(px_x(k, stride), px_y(k, stride), x0, py, sw, y, x + 1) implies #[trigger] after[k]
        == old[k] by {
        assert(!in_done(px_x(k, stride), px_y(k, stride), x0, py, sw, y, x));
        assert(before[k] == old[k]);
        if i <= k < i + 4 {
            lemma_pixel_coords(stride, X, Y, k);
        }
    }
}

/// Bytes of pixels outside the `w` by `h` rectangle at `(px, py)` are the
/// same in `a` and `b`.
pub open spec fn rect_kept_outside(a: Seq<u8>, b: Seq<u8>, stride: int, px: int, py: int, w: int, h: int) -> bool {
    rect_kept_outside2(a, b, stride, px, py, w, h, 0)
}

/// As [`rect_kept_outside`], for `h` full rows and `d` pixels of the next.
pub open spec fn rect_kept_outside2(a: Seq<u8>, b: Seq<u8>, stride: int, px: int, py: int, w: int, h: int, d: int) -> bool {
    a.len() == b.len() && forall|i: int|
        0 <= i < a.len() && !in_done(px_x(i, stride), px_y(i, stride), px, py, w, h, d) ==> #[trigger] b[i] == a[i]
}

proof fn lemma_kept_write(old: Seq<u8>, before: Seq<u8>, after: Seq<u8>, stride: int, px: int, py: int, w: int, h: int, d: int, color: [u8; 4])
    requires
        0 < stride,
        0 <= px,
        0 <= py,
        0 <= d,
        0 <= h,
        px + d < stride,
        rect_kept_outside2(old, before, stride, px, py, w, h, d),
        pixel_index(stride, px + d, py + h) + 3 < before.len() ==> after == write_px(before, pixel_index(stride, px + d, py + h), color),
        pixel_index(stride, px + d, py + h) + 3 >= before.len() ==> after == before,
    ensures
        rect_kept_outside2(old, after, stride, px, py, w, h, d + 1),
{
    let i = pixel_index(stride, px + d, py + h);
    assert forall|k: int|
        0 <= k < old.len() && !in_done(px_x(k, stride), px_y(k, stride), px, py, w, h, d + 1) implies #[trigger] after[k]
        == old[k] by {
        assert(!in_done(px_x(k, stride), px_y(k, stride), px, py, w, h, d));
        assert(before[k] == old[k]);
        if i <= k < i + 4 {
            lemma_pixel_coords(stride, px + d, py + h, k);
        }
    }
}

proof fn lemma_kept_row(a: Seq<u8>, b: Seq<u8>, stride: int, px: int, py: int, w: int, h: int, d: int)
    requires
        rect_kept_outside2(a, b, stride, px, py, w, h, d),
        d == w || (w <= 0 && d == 0),
        0 <= h,
    ensures
        rect_kept_outside(a, b, stride, px, py, w, h + 1),
{
    assert forall|k: int|
        0 <= k < a.len() && !in_done(px_x(k, stride), px_y(k, stride), px, py, w, h + 1, 0) implies #[trigger] b[k]
        == a[k] by {
        assert(!in_done(px_x(k, stride), px_y(k, stride), px, py, w, h, d));
    }
}

proof fn lemma_kept_widen(a: Seq<u8>, b: Seq<u8>, stride: int, px: int, py: int, w: int, h: int, w2: int, h2: int)
    requires
        rect_kept_outside(a, b, stride, px, py, w, h),
        w <= w2,
        h <= h2,
    ensures
        rect_kept_outside(a, b, stride, px, py, w2, h2),
{
    assert forall|k: int|
        0 <= k < a.len() && !in_done(px_x(k, stride), px_y(k, stride), px, py, w2, h2, 0) implies #[trigger] b[k]
        == a[k] by {
        assert(!in_done(px_x(k, stride), px_y(k, stride), px, py, w, h, 0));
    }
}

/// A glyph that can be drawn: not empty, with all its pixels present.
pub open spec fn usable_glyph(g: GlyphView) -> bool {
    g.0 > 0 && g.1 > 0 && g.3.len() >= g.0 * g.1 * 4
}

/// Whether the glyph stored under `k` can be drawn.
pub open spec fn held_usable(s: Seq<(GlyphKey, GlyphView)>, k: GlyphKey) -> bool {
    held(s, k).is_some() && usable_glyph(held(s, k).unwrap())
}

/// Host-drawn glyphs never share a key with shaped ones.
proof fn lemma_native_key_differs(c: char, size_milli: u32, color: [u8; 4])
    ensures
        native_key_of(c, size_milli, color) != glyph_key_of(c, size_milli, color),
{
    let x = c as u32;
    assert(x <= 0x10ffff);
    assert(x <= 0x10ffff ==> (x | 0x1000_0000u32) != x) by (bit_vector);
}

/// Whether a glyph can be drawn; see [`usable_glyph`].
fn glyph_usable(g: &CachedChar) -> (r: bool)
    ensures
        r == usable_glyph(glyph_view(*g)),
{
    assert((g.0 as u64) * (g.1 as u64) <= 0xffff_ffff * 0xffff_ffff) by (nonlinear_arith)
        requires
            g.0 <= 0xffff_ffff,
            g.1 <= 0xffff_ffff,
    ;
    g.0 > 0 && g.1 > 0 && (g.3.len() as u64) / 4 >= (g.0 as u64) * (g.1 as u64)
}

/// `new` is `old` with the fallback block for a character at `(px, py)`
/// filled with `color`, and every other byte kept.
pub open spec fn fallback_painted(
    old: Seq<u8>,
    new: Seq<u8>,
    stride: int,
    ww: int,
    wh: int,
    px: int,
    py: int,
    fw: int,
    fh: int,
    wide: bool,
    color: [u8; 4],
) -> bool {
    let b = fallback_size(fh);
    let cw = cell_span_width(fw, wide);
    let sx = px + (if cw >= b { (cw - b) / 2 } else { 0 });
    let sy = py + (if fh >= b { (fh - b) / 2 } else { 0 });
    rect_filled(new, stride, ww, wh, sx, sy, b, b, color) && rect_kept_outside(old, new, stride, sx, sy, b, b)
}

/// `new` is `old` with character `c` drawn at `(px, py)`: some usable glyph
/// composited onto its cell, or the fallback block in `color`.
pub open spec fn char_drawn(
    old: Seq<u8>,
    new: Seq<u8>,
    stride: int,
    ww: int,
    wh: int,
    px: int,
    py: int,
    fw: int,
    fh: int,
    c: char,
    color: [u8; 4],
) -> bool {
    ||| exists|g: GlyphView|
        usable_glyph(g) && #[trigger] bitmap_painted(
            old,
            new,
            stride,
            ww,
            wh,
            px,
            py,
            g.0 as int,
            g.1 as int,
            g.3,
            cell_span_width(fw, wide_char(c)),
            fh,
        )
    ||| fallback_painted(old, new, stride, ww, wh, px, py, fw, fh, wide_char(c), color)
}

/// Bytes from offset `lo` on are the same in `a` and `b`.
pub open spec fn same_from(a: Seq<u8>, b: Seq<u8>, lo: int) -> bool {
    a.len() == b.len() && forall|i: int| lo <= i < a.len() ==> #[trigger] b[i] == a[i]
}

proof fn lemma_write_px_above(buf: Seq<u8>, stride: int, x: int, y: int, rows: int, c: [u8; 4])
    requires
        0 <= x < stride,
        0 <= y < rows,
        pixel_index(stride, x, y) + 3 < buf.len(),
    ensures
        same_from(buf, write_px(buf, pixel_index(stride, x, y), c), rows * stride * 4),
{
    assert(pixel_index(stride, x, y) + 4 <= rows * stride * 4) by (nonlinear_arith)
        requires
            0 <= x < stride,
            0 <= y < rows,
    ;
}

/// Every pixel of the `w` by `h` rectangle at `(px, py)` that lies inside
/// the window and inside `buf` is opaque.
pub open spec fn rect_opaque(buf: Seq<u8>, stride: int, ww: int, wh: int, px: int, py: int, w: int, h: int) -> bool {
    forall|x: int, y: int|
        px <= x < px + w && x < ww && py <= y < py + h && y < wh && 0 <= pixel_index(stride, x, y)
            && pixel_index(stride, x, y) + 3 < buf.len() ==> #[trigger] buf[pixel_index(stride, x, y) + 3] == 255
}

/// Span `k` of painted row `y` ends opaque over the row's band: its
/// background, with whatever the cell's glyphs laid over it.
pub open spec fn span_opaque(
    b: AndroidBackend,
    dest: Seq<u8>,
    stride: int,
    ww: int,
    wh: int,
    fw: int,
    fh: int,
    top: int,
    bottom: int,
    y: int,
    k: int,
) -> bool {
    let spans = row_spans(b, y, fw, ww);
    row_painted(fh, top, wh, bottom, y) && 0 <= k < spans.len() ==> rect_opaque(
        dest,
        stride,
        ww,
        wh,
        spans[k].px_start as int,
        row_start(fh, top, y),
        spans[k].width as int,
        row_band(fh, top, wh, bottom, y),
    )
}

proof fn lemma_opaque_wh(buf: Seq<u8>, stride: int, ww: int, wh1: int, wh2: int, px: int, py: int, w: int, h: int)
    requires
        rect_opaque(buf, stride, ww, wh1, px, py, w, h),
        py + h <= wh1 || py + h <= wh2 && wh2 <= wh1,
    ensures
        rect_opaque(buf, stride, ww, wh2, px, py, w, h),
{
    assert forall|x: int, y: int|
        px <= x < px + w && x < ww && py <= y < py + h && y < wh2 && 0 <= pixel_index(stride, x, y)
            && pixel_index(stride, x, y) + 3 < buf.len() implies #[trigger] buf[pixel_index(stride, x, y) + 3] == 255 by {
        assert(y < wh1);
    }
}

proof fn lemma_filled_opaque(buf: Seq<u8>, stride: int, ww: int, wh: int, px: int, py: int, w: int, h: int, color: [u8; 4])
    requires
        rect_filled(buf, stride, ww, wh, px, py, w, h, color),
        color[3] == 255,
    ensures
        rect_opaque(buf, stride, ww, wh, px, py, w, h),
{
    assert forall|x: int, y: int|
        px <= x < px + w && x < ww && py <= y < py + h && y < wh && 0 <= pixel_index(stride, x, y)
            && pixel_index(stride, x, y) + 3 < buf.len() implies #[trigger] buf[pixel_index(stride, x, y) + 3] == 255 by {
        assert(read_px(buf, pixel_index(stride, x, y)) == color);
    }
}

proof fn lemma_opaque_kept_left(a: Seq<u8>, c: Seq<u8>, stride: int, ww: int, wh: int, px: int, py: int, w: int, h: int, x0: int)
    requires
        0 < stride,
        ww <= stride,
        0 <= px,
        0 <= py,
        rect_opaque(a, stride, ww, wh, px, py, w, h),
        same_left_of(a, c, stride, x0),
        px + w <= x0,
    ensures
        rect_opaque(c, stride, ww, wh, px, py, w, h),
{
    assert forall|x: int, y: int|
        px <= x < px + w && x < ww && py <= y < py + h && y < wh && 0 <= pixel_index(stride, x, y)
            && pixel_index(stride, x, y) + 3 < c.len() implies #[trigger] c[pixel_index(stride, x, y) + 3] == 255 by {
        let i = pixel_index(stride, x, y);
        assert(a[i + 3] == 255);
        lemma_column_of(stride, x, y, 3);
        assert(a[i + 3] == c[i + 3]);
    }
}

proof fn lemma_opaque_kept_above(a: Seq<u8>, c: Seq<u8>, stride: int, ww: int, wh: int, px: int, py: int, w: int, h: int, rows: int)
    requires
        0 < stride,
        ww <= stride,
        0 <= px,
        0 <= py,
        rect_opaque(a, stride, ww, wh, px, py, w, h),
        same_before(a, c, rows * stride * 4),
        py + h <= rows,
    ensures
        rect_opaque(c, stride, ww, wh, px, py, w, h),
{
    assert forall|x: int, y: int|
        px <= x < px + w && x < ww && py <= y < py + h && y < wh && 0 <= pixel_index(stride, x, y)
            && pixel_index(stride, x, y) + 3 < c.len() implies #[trigger] c[pixel_index(stride, x, y) + 3] == 255 by {
        let i = pixel_index(stride, x, y);
        assert(a[i + 3] == 255);
        assert(i + 3 < rows * stride * 4) by (nonlinear_arith)
            requires
                i == (y * stride + x) * 4,
                0 <= x < stride,
                0 <= y < rows,
        ;
    }
}

/// Drawing a character in an opaque colour keeps opaque pixels opaque.
proof fn lemma_char_keeps_opaque(
    before: Seq<u8>,
    after: Seq<u8>,
    stride: int,
    ww: int,
    wh: int,
    cx: int,
    cy: int,
    fw: int,
    fh: int,
    c: char,
    color: [u8; 4],
    px: int,
    py: int,
    w: int,
    h: int,
)
    requires
        0 < stride,
        ww <= stride,
        0 <= px,
        0 <= py,
        color[3] == 255,
        rect_opaque(before, stride, ww, wh, px, py, w, h),
        char_drawn(before, after, stride, ww, wh, cx, cy, fw, fh, c, color),
    ensures
        rect_opaque(after, stride, ww, wh, px, py, w, h),
{
    assert forall|x: int, y: int|
        px <= x < px + w && x < ww && py <= y < py + h && y < wh && 0 <= pixel_index(stride, x, y)
            && pixel_index(stride, x, y) + 3 < after.len() implies #[trigger] after[pixel_index(stride, x, y) + 3] == 255 by {
        let i = pixel_index(stride, x, y);
        lemma_pixel_coords(stride, x, y, i + 3);
        if exists|g: GlyphView|
            usable_glyph(g) && #[trigger] bitmap_painted(
                before,
                after,
                stride,
                ww,
                wh,
                cx,
                cy,
                g.0 as int,
                g.1 as int,
                g.3,
                cell_span_width(fw, wide_char(c)),
                fh,
            ) {
            let g = choose|g: GlyphView|
                usable_glyph(g) && #[trigger] bitmap_painted(
                    before,
                    after,
                    stride,
                    ww,
                    wh,
                    cx,
                    cy,
                    g.0 as int,
                    g.1 as int,
                    g.3,
                    cell_span_width(fw, wide_char(c)),
                    fh,
                );
            let cw = cell_span_width(fw, wide_char(c));
            let (num, den) = fit_scale_of(cw, fh, g.0 as int, g.1 as int);
            let sw = g.0 as int * num / den;
            let sh = g.1 as int * num / den;
            let off = if cw >= sw { (cw - sw) / 2 } else { 0 };
            let x0 = cx + off;
            if in_done(x, y, x0, cy, sw, sh, 0) {
                assert(bitmap_px(before, after, stride, ww, wh, x0, cy, g.3, g.0 as int, num, den, x - x0, y - cy));
                assert(before[i + 3] == 255);
            } else {
                assert(after[i + 3] == before[i + 3]);
            }
        } else {
            let b = fallback_size(fh);
            let cw = cell_span_width(fw, wide_char(c));
            let sx = cx + (if cw >= b { (cw - b) / 2 } else { 0 });
            let sy = cy + (if fh >= b { (fh - b) / 2 } else { 0 });
            if in_done(x, y, sx, sy, b, b, 0) {
                assert(read_px(after, i) == color);
            } else {
                assert(after[i + 3] == before[i + 3]);
            }
        }
    }
}

/// Every pixel of the rectangle inside the window and inside `a` has the
/// same value in `a` and `z`.
pub open spec fn rect_same(a: Seq<u8>, z: Seq<u8>, stride: int, ww: int, wh: int, px: int, py: int, w: int, h: int) -> bool {
    a.len() == z.len() && forall|x: int, y: int|
        px <= x < px + w && x < ww && py <= y < py + h && y < wh && 0 <= pixel_index(stride, x, y)
            && pixel_index(stride, x, y) + 3 < a.len() ==> #[trigger] read_px(a, pixel_index(stride, x, y))
            == read_px(z, pixel_index(stride, x, y))
}

/// Span `k` of painted row `y`, when its cell holds one character other than
/// a space, shows that character drawn in the foreground colour over the
/// band filled with the background colour: it agrees over the band with
/// some `z` that [`char_drawn`] makes of a buffer `mid` whose band is the
/// background.
pub open spec fn span_char_drawn(
    b: AndroidBackend,
    dest: Seq<u8>,
    stride: int,
    ww: int,
    wh: int,
    fw: int,
    fh: int,
    top: int,
    bottom: int,
    y: int,
    k: int,
) -> bool {
    let spans = row_spans(b, y, fw, ww);
    let sp = spans[k];
    let cell = b.cell_at(sp.column as int, y);
    row_painted(fh, top, wh, bottom, y) && 0 <= k < spans.len() && cell.symbol.len() == 1 && cell.symbol[0] != ' '
        ==> exists|mid: Seq<u8>, z: Seq<u8>|
        #[trigger] char_drawn(
            mid,
            z,
            stride,
            ww,
            render_limit(wh, bottom),
            sp.px_start as int,
            row_start(fh, top, y),
            fw,
            fh,
            cell.symbol[0],
            fg_rgba(cell.fg),
        ) && rect_filled(
            mid,
            stride,
            ww,
            wh,
            sp.px_start as int,
            row_start(fh, top, y),
            sp.width as int,
            row_band(fh, top, wh, bottom, y),
            bg_rgba(cell.bg),
        ) && rect_same(
            dest,
            z,
            stride,
            ww,
            wh,
            sp.px_start as int,
            row_start(fh, top, y),
            sp.width as int,
            row_band(fh, top, wh, bottom, y),
        )
}

proof fn lemma_same_kept_left(a: Seq<u8>, c: Seq<u8>, z: Seq<u8>, stride: int, ww: int, wh: int, px: int, py: int, w: int, h: int, x0: int)
    requires
        0 < stride,
        ww <= stride,
        0 <= px,
        0 <= py,
        rect_same(a, z, stride, ww, wh, px, py, w, h),
        same_left_of(a, c, stride, x0),
        px + w <= x0,
    ensures
        rect_same(c, z, stride, ww, wh, px, py, w, h),
{
    assert forall|x: int, y: int|
        px <= x < px + w && x < ww && py <= y < py + h && y < wh && 0 <= pixel_index(stride, x, y)
            && pixel_index(stride, x, y) + 3 < c.len() implies #[trigger] read_px(c, pixel_index(stride, x, y))
        == read_px(z, pixel_index(stride, x, y)) by {
        let i = pixel_index(stride, x, y);
        assert(read_px(a, i) == read_px(z, i));
        lemma_column_of(stride, x, y, 0);
        lemma_column_of(stride, x, y, 1);
        lemma_column_of(stride, x, y, 2);
        lemma_column_of(stride, x, y, 3);
        assert(a[i] == c[i]);
        assert(a[i + 1] == c[i + 1]);
        assert(a[i + 2] == c[i + 2]);
        assert(a[i + 3] == c[i + 3]);
        assert(read_px(c, i) =~= read_px(a, i));
    }
}

proof fn lemma_same_kept_above(a: Seq<u8>, c: Seq<u8>, z: Seq<u8>, stride: int, ww: int, wh: int, px: int, py: int, w: int, h: int, rows: int)
    requires
        0 < stride,
        ww <= stride,
        0 <= px,
        0 <= py,
        rect_same(a, z, stride, ww, wh, px, py, w, h),
        same_before(a, c, rows * stride * 4),
        py + h <= rows,
    ensures
        rect_same(c, z, stride, ww, wh, px, py, w, h),
{
    assert forall|x: int, y: int|
        px <= x < px + w && x < ww && py <= y < py + h && y < wh && 0 <= pixel_index(stride, x, y)
            && pixel_index(stride, x, y) + 3 < c.len() implies #[trigger] read_px(c, pixel_index(stride, x, y))
        == read_px(z, pixel_index(stride, x, y)) by {
        let i = pixel_index(stride, x, y);
        assert(read_px(a, i) == read_px(z, i));
        assert(i + 3 < rows * stride * 4) by (nonlinear_arith)
            requires
                i == (y * stride + x) * 4,
                0 <= x < stride,
                0 <= y < rows,
        ;
        assert(read_px(c, i) =~= read_px(a, i));
    }
}

/// Every cell holds at most one character.
pub open spec fn single_char_cells(b: AndroidBackend) -> bool {
    forall|x: int, y: int| 0 <= x < b.width && 0 <= y < b.height ==> (#[trigger] b.cell_at(x, y)).symbol.len() <= 1
}

/// Whether pixel `(x, y)` lies in span `k` of painted row `yy`'s band.
pub open spec fn in_span(
    b: AndroidBackend,
    ww: int,
    wh: int,
    fw: int,
    fh: int,
    top: int,
    bottom: int,
    yy: int,
    k: int,
    x: int,
    y: int,
) -> bool {
    let spans = row_spans(b, yy, fw, ww);
    &&& row_painted(fh, top, wh, bottom, yy)
    &&& 0 <= k < spans.len()
    &&& spans[k].px_start <= x < spans[k].px_start + spans[k].width
    &&& row_start(fh, top, yy) <= y < row_start(fh, top, yy) + row_band(fh, top, wh, bottom, yy)
}

/// Bytes of pixels in no painted span of the rows before `rows`, nor in the
/// spans before `k` of row `rows`, are the same in `old` and `new`.
pub open spec fn kept_outside_spans(
    b: AndroidBackend,
    old: Seq<u8>,
    new: Seq<u8>,
    stride: int,
    ww: int,
    wh: int,
    fw: int,
    fh: int,
    top: int,
    bottom: int,
    rows: int,
    k: int,
) -> bool {
    old.len() == new.len() && forall|i: int|
        0 <= i < old.len() && !(exists|yy: int, kk: int|
            ((0 <= yy < rows) || (yy == rows && kk < k)) && #[trigger] in_span(b, ww, wh, fw, fh, top, bottom, yy, kk, px_x(i, stride), px_y(i, stride)))
            ==> #[trigger] new[i] == old[i]
}

proof fn lemma_fit_inside(cw: int, ch: int, bw: int, bh: int)
    requires
        cw >= 0,
        ch >= 0,
        bw > 0,
        bh > 0,
    ensures
        ({
            let (num, den) = fit_scale_of(cw, ch, bw, bh);
            &&& den > 0
            &&& bw * num / den <= cw
            &&& bh * num / den <= ch
        }),
{
    assert(bw * 1 / 1 == bw && bh * 1 / 1 == bh) by (nonlinear_arith);
    if cw * bh <= ch * bw {
        if cw < bw {
            assert(bw * cw / bw == cw) by (nonlinear_arith)
                requires
                    bw > 0,
            ;
            assert(bh * cw / bw <= ch) by (nonlinear_arith)
                requires
                    cw * bh <= ch * bw,
                    bw > 0,
                    cw >= 0,
                    bh > 0,
            ;
        } else {
            assert(bh <= ch) by (nonlinear_arith)
                requires
                    cw * bh <= ch * bw,
                    cw >= bw,
                    bw > 0,
                    bh > 0,
            ;
        }
    } else {
        if ch < bh {
            assert(bh * ch / bh == ch) by (nonlinear_arith)
                requires
                    bh > 0,
            ;
            assert(bw * ch / bh <= cw) by (nonlinear_arith)
                requires
                    cw * bh > ch * bw,
                    bh > 0,
                    ch >= 0,
                    bw > 0,
            ;
        } else {
            assert(bw <= cw) by (nonlinear_arith)
                requires
                    cw * bh > ch * bw,
                    ch >= bh,
                    bw > 0,
                    bh > 0,
            ;
        }
    }
}

/// What drawing one character at `(px, py)` changes lies in its cell,
/// `cw` by `fh`, when the fallback block fits the cell.
proof fn lemma_char_inside(
    mid: Seq<u8>,
    z: Seq<u8>,
    stride: int,
    ww: int,
    wh: int,
    px: int,
    py: int,
    fw: int,
    fh: int,
    c: char,
    color: [u8; 4],
    i: int,
)
    requires
        0 < stride,
        0 <= px,
        0 <= py,
        fw >= 0,
        fh >= 0,
        fallback_size(fh) <= fw,
        fallback_size(fh) <= fh,
        char_drawn(mid, z, stride, ww, wh, px, py, fw, fh, c, color),
        0 <= i < mid.len(),
        !(px <= px_x(i, stride) < px + cell_span_width(fw, wide_char(c)) && py <= px_y(i, stride) < py + fh),
    ensures
        z[i] == mid[i],
{
    let cw = cell_span_width(fw, wide_char(c));
    if exists|g: GlyphView|
        usable_glyph(g) && #[trigger] bitmap_painted(mid, z, stride, ww, wh, px, py, g.0 as int, g.1 as int, g.3, cw, fh) {
        let g = choose|g: GlyphView|
            usable_glyph(g) && #[trigger] bitmap_painted(mid, z, stride, ww, wh, px, py, g.0 as int, g.1 as int, g.3, cw, fh);
        lemma_fit_inside(cw, fh, g.0 as int, g.1 as int);
        let (num, den) = fit_scale_of(cw, fh, g.0 as int, g.1 as int);
        let sw = g.0 as int * num / den;
        let sh = g.1 as int * num / den;
        let off = if cw >= sw { (cw - sw) / 2 } else { 0 };
        assert(!in_done(px_x(i, stride), px_y(i, stride), px + off, py, sw, sh, 0));
    } else {
        let b = fallback_size(fh);
        let sx = px + (if cw >= b { (cw - b) / 2 } else { 0 });
        let sy = py + (if fh >= b { (fh - b) / 2 } else { 0 });
        assert(!in_done(px_x(i, stride), px_y(i, stride), sx, sy, b, b, 0));
    }
}

proof fn lemma_offset_of_row(i: int, s: int, rows: int)
    requires
        s > 0,
        rows >= 0,
        i >= 0,
        px_y(i, s) >= rows,
    ensures
        i >= rows * s * 4,
{
    assert(i / 4 >= rows * s) by (nonlinear_arith)
        requires
            (i / 4) / s >= rows,
            s > 0,
            i >= 0,
    ;
}

/// What painting one span changes lies in the span: its background, and
/// for a drawn character, a glyph or block clipped to the window.
proof fn lemma_span_kept(
    before: Seq<u8>,
    after_bg: Seq<u8>,
    after: Seq<u8>,
    stride: int,
    ww: int,
    maxh: int,
    px: int,
    py: int,
    w: int,
    band: int,
    fw: int,
    fh: int,
    c: char,
    color: [u8; 4],
    drew: bool,
    i: int,
)
    requires
        0 < stride,
        ww <= stride,
        0 <= px,
        0 <= py,
        0 <= maxh,
        fw >= 0,
        fh >= 0,
        fallback_size(fh) <= fw,
        fallback_size(fh) <= fh,
        w <= cell_span_width(fw, wide_char(c)),
        px + w <= ww,
        w == cell_span_width(fw, wide_char(c)) || w == ww - px,
        band == (if fh <= maxh - py { fh } else { maxh - py }),
        rect_kept_outside(before, after_bg, stride, px, py, w, band),
        drew ==> char_drawn(after_bg, after, stride, ww, maxh, px, py, fw, fh, c, color) && same_right_of(
            after_bg,
            after,
            stride,
            ww,
        ) && same_from(after_bg, after, maxh * stride * 4),
        !drew ==> after == after_bg,
        0 <= i < before.len(),
        !in_done(px_x(i, stride), px_y(i, stride), px, py, w, band, 0),
    ensures
        after[i] == before[i],
{
    assert(after_bg[i] == before[i]);
    if drew {
        let X = px_x(i, stride);
        let Y = px_y(i, stride);
        if X >= ww {
            assert(after[i] == after_bg[i]);
        } else if Y >= maxh {
            lemma_offset_of_row(i, stride, maxh);
            assert(after[i] == after_bg[i]);
        } else {
            lemma_char_inside(after_bg, after, stride, ww, maxh, px, py, fw, fh, c, color, i);
        }
    }
}

/// With nothing of row `rows` left to paint from span `k` on, the kept
/// region moves on to the next row.
proof fn lemma_kept_next_row(
    b: AndroidBackend,
    old: Seq<u8>,
    new: Seq<u8>,
    stride: int,
    ww: int,
    wh: int,
    fw: int,
    fh: int,
    top: int,
    bottom: int,
    rows: int,
    k: int,
)
    requires
        rows >= 0,
        kept_outside_spans(b, old, new, stride, ww, wh, fw, fh, top, bottom, rows, k),
        forall|kk: int, x: int, y: int| kk >= k ==> !#[trigger] in_span(b, ww, wh, fw, fh, top, bottom, rows, kk, x, y),
    ensures
        kept_outside_spans(b, old, new, stride, ww, wh, fw, fh, top, bottom, rows + 1, 0),
{
    assert forall|i: int|
        0 <= i < old.len() && !(exists|yy: int, kk: int|
            ((0 <= yy < rows + 1) || (yy == rows + 1 && kk < 0)) && #[trigger] in_span(b, ww, wh, fw, fh, top, bottom, yy, kk, px_x(i, stride), px_y(i, stride)))
            implies #[trigger] new[i] == old[i] by {
        if exists|yy: int, kk: int|
            ((0 <= yy < rows) || (yy == rows && kk < k)) && #[trigger] in_span(b, ww, wh, fw, fh, top, bottom, yy, kk, px_x(i, stride), px_y(i, stride)) {
            let (yy, kk) = choose|yy: int, kk: int|
                ((0 <= yy < rows) || (yy == rows && kk < k)) && #[trigger] in_span(b, ww, wh, fw, fh, top, bottom, yy, kk, px_x(i, stride), px_y(i, stride));
            assert((0 <= yy < rows + 1) || (yy == rows + 1 && kk < 0));
        }
    }
}

/// Painting span `k` of row `rows`, with changes only inside it, extends
/// the kept region by that span.
proof fn lemma_kept_next_span(
    b: AndroidBackend,
    old: Seq<u8>,
    before: Seq<u8>,
    new: Seq<u8>,
    stride: int,
    ww: int,
    wh: int,
    fw: int,
    fh: int,
    top: int,
    bottom: int,
    rows: int,
    k: int,
)
    requires
        kept_outside_spans(b, old, before, stride, ww, wh, fw, fh, top, bottom, rows, k),
        new.len() == before.len(),
        forall|i: int|
            0 <= i < before.len() && !in_span(b, ww, wh, fw, fh, top, bottom, rows, k, px_x(i, stride), px_y(i, stride))
                ==> #[trigger] new[i] == before[i],
    ensures
        kept_outside_spans(b, old, new, stride, ww, wh, fw, fh, top, bottom, rows, k + 1),
{
    assert forall|i: int|
        0 <= i < old.len() && !(exists|yy: int, kk: int|
            ((0 <= yy < rows) || (yy == rows && kk < k + 1)) && #[trigger] in_span(b, ww, wh, fw, fh, top, bottom, yy, kk, px_x(i, stride), px_y(i, stride)))
            implies #[trigger] new[i] == old[i] by {
        assert(!in_span(b, ww, wh, fw, fh, top, bottom, rows, k, px_x(i, stride), px_y(i, stride)));
        assert(new[i] == before[i]);
        if exists|yy: int, kk: int|
            ((0 <= yy < rows) || (yy == rows && kk < k)) && #[trigger] in_span(b, ww, wh, fw, fh, top, bottom, yy, kk, px_x(i, stride), px_y(i, stride)) {
            let (yy, kk) = choose|yy: int, kk: int|
                ((0 <= yy < rows) || (yy == rows && kk < k)) && #[trigger] in_span(b, ww, wh, fw, fh, top, bottom, yy, kk, px_x(i, stride), px_y(i, stride));
            assert((0 <= yy < rows) || (yy == rows && kk < k + 1));
        }
    }
}

/// All that [`Rasterizer::render_to_surface_with_offset`] promises of the
/// destination, as one predicate.
pub open spec fn cells_painted(
    b: AndroidBackend,
    fw: int,
    fh: int,
    old: Seq<u8>,
    new: Seq<u8>,
    stride: int,
    ww: int,
    wh: int,
    top: int,
    bottom: int,
) -> bool {
    &&& new.len() == old.len()
    &&& old.len() < stride * wh * 4 ==> new == old
    &&& same_before(old, new, top * stride * 4)
    &&& 0 < stride && ww <= stride ==> same_from(old, new, render_limit(wh, bottom) * stride * 4)
    &&& ww <= stride ==> same_right_of(old, new, stride, ww)
    &&& 0 < stride && ww <= stride && old.len() >= stride * wh * 4 ==> forall|y: int, k: int|
        0 <= y < b.height ==> #[trigger] blank_cell_painted(b, new, stride, ww, wh, fw, fh, top, bottom, y, k)
    &&& 0 < stride && ww <= stride && old.len() >= stride * wh * 4 ==> forall|y: int, k: int|
        0 <= y < b.height ==> #[trigger] span_opaque(b, new, stride, ww, wh, fw, fh, top, bottom, y, k)
    &&& 0 < stride && ww <= stride && old.len() >= stride * wh * 4 ==> forall|y: int, k: int|
        0 <= y < b.height ==> #[trigger] span_char_drawn(b, new, stride, ww, wh, fw, fh, top, bottom, y, k)
    &&& 0 < stride && ww <= stride && old.len() >= stride * wh * 4 && single_char_cells(b) && fallback_size(fh) <= fw
        && fallback_size(fh) <= fh ==> kept_outside_spans(b, old, new, stride, ww, wh, fw, fh, top, bottom, b.height as int, 0)
}

/// Software rasterizer from cells to pixels.
pub struct Rasterizer {
    font_width: u32,
    font_height: u32,
    font_size: u32,
}

/// Byte offset of pixel `(px, py)` in a buffer `stride` pixels wide.
pub open spec fn pixel_index(stride: int, px: int, py: int) -> int {
    (py * stride + px) * 4
}

pub(crate) proof fn lemma_row_start_monotone(stride: int, lo: int, px: int, py: int)
    requires
        0 <= lo <= py,
        0 <= px,
        0 <= stride,
    ensures
        lo * stride * 4 <= pixel_index(stride, px, py),
{
    assert(lo * stride <= py * stride) by (nonlinear_arith)
        requires
            0 <= lo <= py,
            0 <= stride,
    ;
}

/// Writes `color` at pixel `(px, py)` when its four bytes lie inside `dest`;
/// otherwise nothing changes.
pub(crate) fn put_px(dest: &mut [u8], stride: usize, px: usize, py: usize, color: [u8; 4])
    ensures
        pixel_index(stride as int, px as int, py as int) + 3 < old(dest)@.len() ==> final(dest)@
            == write_px(old(dest)@, pixel_index(stride as int, px as int, py as int), color),
        pixel_index(stride as int, px as int, py as int) + 3 >= old(dest)@.len() ==> final(dest)@
            == old(dest)@,
{
    let _n = dest.len();
    let idx = match py.checked_mul(stride) {
        Some(a) => match a.checked_add(px) {
            Some(b) => match b.checked_mul(4) {
                Some(c) => c,
                None => return ,
            },
            None => return ,
        },
        None => return ,
    };
    if idx < dest.len() && dest.len() - idx > 3 {
        dest[idx] = color[0];
        dest[idx + 1] = color[1];
        dest[idx + 2] = color[2];
        dest[idx + 3] = color[3];
        assert(dest@ =~= write_px(old(dest)@, idx as int, color));
    }
}

/// Lays `color` over pixel `(px, py)` when its four bytes lie inside `dest`.
fn blend_px(dest: &mut [u8], stride: usize, px: usize, py: usize, color: [u8; 4])
    ensures
        ({
            let i = pixel_index(stride as int, px as int, py as int);
            &&& i + 3 < old(dest)@.len() ==> final(dest)@ == write_px(
                old(dest)@,
                i,
                blend_over(read_px(old(dest)@, i), color),
            )
            &&& i + 3 >= old(dest)@.len() ==> final(dest)@ == old(dest)@
        }),
{
    let _n = dest.len();
    let idx = match py.checked_mul(stride) {
        Some(a) => match a.checked_add(px) {
            Some(b) => match b.checked_mul(4) {
                Some(c) => c,
                None => return ,
            },
            None => return ,
        },
        None => return ,
    };
    if idx < dest.len() && dest.len() - idx > 3 {
        let under: [u8; 4] = [dest[idx], dest[idx + 1], dest[idx + 2], dest[idx + 3]];
        let over = blend_pixel(under, color);
        dest[idx] = over[0];
        dest[idx + 1] = over[1];
        dest[idx + 2] = over[2];
        dest[idx + 3] = over[3];
        assert(read_px(old(dest)@, idx as int) =~= under);
        assert(dest@ =~= write_px(old(dest)@, idx as int, over));
    }
}

/// Bytes before offset `lo` are the same in `a` and `b`.
pub open spec fn same_before(a: Seq<u8>, b: Seq<u8>, lo: int) -> bool {
    a.len() == b.len() && forall|i: int| 0 <= i < lo && i < a.len() ==> #[trigger] a[i] == b[i]
}

/// Pixels in columns at or right of `ww` are the same in `a` and `b`.
pub open spec fn same_right_of(a: Seq<u8>, b: Seq<u8>, stride: int, ww: int) -> bool {
    a.len() == b.len() && forall|i: int|
        0 <= i < a.len() && (i / 4) % stride >= ww ==> #[trigger] a[i] == b[i]
}

/// Pixels in columns left of `x0` are the same in `a` and `b`.
pub open spec fn same_left_of(a: Seq<u8>, b: Seq<u8>, stride: int, x0: int) -> bool {
    a.len() == b.len() && forall|i: int|
        0 <= i < a.len() && (i / 4) % stride < x0 ==> #[trigger] a[i] == b[i]
}

proof fn lemma_write_px_right_of(buf: Seq<u8>, stride: int, x0: int, px: int, py: int, c: [u8; 4])
    requires
        0 <= x0 <= px < stride,
        0 <= py,
        pixel_index(stride, px, py) + 3 < buf.len(),
    ensures
        same_left_of(buf, write_px(buf, pixel_index(stride, px, py), c), stride, x0),
{
    let idx = pixel_index(stride, px, py);
    let out = write_px(buf, idx, c);
    assert forall|i: int| 0 <= i < buf.len() && (i / 4) % stride < x0 implies #[trigger] buf[i]
        == out[i] by {
        if idx <= i < idx + 4 {
            assert((i / 4) == py * stride + px) by (nonlinear_arith)
                requires
                    idx == (py * stride + px) * 4,
                    idx <= i < idx + 4,
            ;
            assert((py * stride + px) % stride == px) by (nonlinear_arith)
                requires
                    0 <= px < stride,
                    0 <= py,
            ;
        }
    }
}

proof fn lemma_write_px_left_of(buf: Seq<u8>, stride: int, ww: int, px: int, py: int, c: [u8; 4])
    requires
        0 <= px < ww <= stride,
        0 <= py,
        pixel_index(stride, px, py) + 3 < buf.len(),
    ensures
        same_right_of(buf, write_px(buf, pixel_index(stride, px, py), c), stride, ww),
{
    let idx = pixel_index(stride, px, py);
    let out = write_px(buf, idx, c);
    assert forall|i: int| 0 <= i < buf.len() && (i / 4) % stride >= ww implies #[trigger] buf[i]
        == out[i] by {
        if idx <= i < idx + 4 {
            assert((i / 4) == py * stride + px) by (nonlinear_arith)
                requires
                    idx == (py * stride + px) * 4,
                    idx <= i < idx + 4,
            ;
            assert((py * stride + px) % stride == px) by (nonlinear_arith)
                requires
                    0 <= px < stride,
                    0 <= py,
            ;
        }
    }
}

/// Side of the block drawn for a character no font could draw: six tenths
/// of the cell height, rounded down, and at least four pixels.
pub open spec fn fallback_size(fh: int) -> int {
    if fh * 3 / 5 >= 4 { fh * 3 / 5 } else { 4 }
}

/// Every pixel of the `w` by `h` rectangle at `(px, py)` that lies inside
/// the `ww` by `wh` window and inside `buf` holds `color`.
pub open spec fn rect_filled(
    buf: Seq<u8>,
    stride: int,
    ww: int,
    wh: int,
    px: int,
    py: int,
    w: int,
    h: int,
    color: [u8; 4],
) -> bool {
    forall|x: int, y: int|
        px <= x < px + w && x < ww && py <= y < py + h && y < wh && 0 <= pixel_index(stride, x, y)
            && pixel_index(stride, x, y) + 3 < buf.len() ==> #[trigger] read_px(buf, pixel_index(stride, x, y))
            == color
}

pub(crate) proof fn lemma_pixels_apart(stride: int, x: int, y: int, x2: int, y2: int)
    requires
        0 <= x < stride,
        0 <= x2 < stride,
        0 <= y,
        0 <= y2,
        x != x2 || y != y2,
    ensures
        pixel_index(stride, x, y) + 4 <= pixel_index(stride, x2, y2) || pixel_index(stride, x2, y2) + 4
            <= pixel_index(stride, x, y),
{
    if y < y2 {
        assert(y * stride + x < y2 * stride + x2) by (nonlinear_arith)
            requires
                y < y2,
                0 <= x < stride,
                0 <= x2,
        ;
    } else if y2 < y {
        assert(y2 * stride + x2 < y * stride + x) by (nonlinear_arith)
            requires
                y2 < y,
                0 <= x2 < stride,
                0 <= x,
        ;
    }
}

/// Writing `color` at `(x, y)` keeps a filled rectangle filled.
proof fn lemma_fill_step(
    before: Seq<u8>,
    after: Seq<u8>,
    stride: int,
    ww: int,
    wh: int,
    px: int,
    py: int,
    w: int,
    h: int,
    x: int,
    y: int,
    color: [u8; 4],
)
    requires
        0 <= x < ww <= stride,
        0 <= y,
        rect_filled(before, stride, ww, wh, px, py, w, h, color),
        pixel_index(stride, x, y) + 3 < before.len() ==> after == write_px(before, pixel_index(stride, x, y), color),
        pixel_index(stride, x, y) + 3 >= before.len() ==> after == before,
    ensures
        rect_filled(after, stride, ww, wh, px, py, w, h, color),
{
    let i = pixel_index(stride, x, y);
    assert forall|x2: int, y2: int|
        px <= x2 < px + w && x2 < ww && py <= y2 < py + h && y2 < wh && 0 <= pixel_index(stride, x2, y2)
            && pixel_index(stride, x2, y2) + 3 < after.len() implies #[trigger] read_px(
        after,
        pixel_index(stride, x2, y2),
    ) == color by {
        let j = pixel_index(stride, x2, y2);
        assert(read_px(before, j) == color);
        if i + 3 < before.len() {
            if x2 == x && y2 == y {
                assert(read_px(after, j) =~= color);
            } else {
                if x2 >= 0 && y2 >= 0 {
                    lemma_pixels_apart(stride, x, y, x2, y2);
                } else {
                    assert(0 <= pixel_index(stride, x2, y2));
                }
                assert(read_px(after, j) =~= read_px(before, j));
            }
        }
    }
}

proof fn lemma_fill_grow_col(
    buf: Seq<u8>,
    stride: int,
    ww: int,
    wh: int,
    px: int,
    y: int,
    w: int,
    x: int,
    y0: int,
    color: [u8; 4],
)
    requires
        x == px + w,
        y0 == y,
        0 <= x,
        0 <= y,
        rect_filled(buf, stride, ww, wh, px, y, w, 1, color),
        pixel_index(stride, x, y) + 3 < buf.len() ==> read_px(buf, pixel_index(stride, x, y)) == color,
    ensures
        rect_filled(buf, stride, ww, wh, px, y, w + 1, 1, color),
{
}

proof fn lemma_fill_grow_row(
    buf: Seq<u8>,
    stride: int,
    ww: int,
    wh: int,
    px: int,
    py: int,
    w: int,
    h: int,
    color: [u8; 4],
)
    requires
        rect_filled(buf, stride, ww, wh, px, py, w, h, color),
        rect_filled(buf, stride, ww, wh, px, py + h, w, 1, color),
    ensures
        rect_filled(buf, stride, ww, wh, px, py, w, h + 1, color),
{
    assert forall|x: int, y: int|
        px <= x < px + w && x < ww && py <= y < py + h + 1 && y < wh && 0 <= pixel_index(stride, x, y)
            && pixel_index(stride, x, y) + 3 < buf.len() implies #[trigger] read_px(
        buf,
        pixel_index(stride, x, y),
    ) == color by {
        if y == py + h {
            assert(py + h <= y < py + h + 1);
        }
    }
}

proof fn lemma_fill_clip(
    buf: Seq<u8>,
    stride: int,
    ww: int,
    wh: int,
    px: int,
    py: int,
    w: int,
    h: int,
    x_end: int,
    y_end: int,
    color: [u8; 4],
)
    requires
        0 < stride,
        0 <= px,
        0 <= py,
        0 <= w,
        0 <= h,
        buf.len() <= usize::MAX,
        x_end == (if px + w <= usize::MAX { px + w } else { usize::MAX as int }) || x_end == ww,
        x_end <= ww,
        x_end >= ww || x_end >= px + w || x_end == usize::MAX,
        y_end == (if py + h <= usize::MAX { py + h } else { usize::MAX as int }) || y_end == wh,
        y_end <= wh,
        y_end >= wh || y_end >= py + h || y_end == usize::MAX,
        ww <= usize::MAX,
        wh <= usize::MAX,
        rect_filled(buf, stride, ww, wh, px, py, x_end - px, y_end - py, color),
    ensures
        rect_filled(buf, stride, ww, wh, px, py, w, h, color),
{
    assert forall|x: int, y: int|
        px <= x < px + w && x < ww && py <= y < py + h && y < wh && 0 <= pixel_index(stride, x, y)
            && pixel_index(stride, x, y) + 3 < buf.len() implies #[trigger] read_px(
        buf,
        pixel_index(stride, x, y),
    ) == color by {
        assert(x < x_end);
        assert(y < y_end);
    }
}

impl Rasterizer {
    /// A rasterizer for a font size given in thousandths of a pixel: cells are
    /// six tenths of the size wide and the size high, both rounded up.
    pub fn new(size_milli: u32) -> (r: Rasterizer)
        ensures
            r.spec_font_width() == narrow_cell_width(size_milli),
            r.spec_font_height() == cell_height(size_milli),
            r.spec_font_size() == size_milli,
    {
        Rasterizer {
            font_width: narrow_width_px(size_milli),
            font_height: cell_height_px(size_milli),
            font_size: size_milli,
        }
    }

    pub closed spec fn spec_font_width(&self) -> int {
        self.font_width as int
    }

    pub closed spec fn spec_font_height(&self) -> int {
        self.font_height as int
    }

    pub closed spec fn spec_font_size(&self) -> int {
        self.font_size as int
    }

    /// Cell width in pixels.
    pub fn font_width(&self) -> (r: u32)
        ensures
            r == self.spec_font_width(),
    {
        self.font_width
    }

    /// Cell height in pixels.
    pub fn font_height(&self) -> (r: u32)
        ensures
            r == self.spec_font_height(),
    {
        self.font_height
    }

    /// The font size, in thousandths of a pixel.
    pub fn font_size(&self) -> (r: u32)
        ensures
            r == self.spec_font_size(),
    {
        self.font_size
    }

    /// Lays out row `y` of the buffer for a window `window_width` pixels wide.
    pub fn layout_row(&self, backend: &AndroidBackend, y: u16, window_width: usize) -> (r: Vec<
        CellSpan,
    >)
        requires
            backend.wf(),
            y < backend.height,
        ensures
            r@ == row_spans(*backend, y as int, self.spec_font_width(), window_width as int),
    {
        let fw = self.font_width as usize;
        let ghost b = *backend;
        let ghost ww = window_width as int;
        let mut spans: Vec<CellSpan> = Vec::new();
        let mut skip_until_x: u32 = 0;
        let mut x: u16 = 0;
        while x < backend.width
            invariant
                backend.wf(),
                b == *backend,
                y < backend.height,
                x <= backend.width,
                fw == self.spec_font_width(),
                ww == window_width,
                skip_until_x <= x + 2,
                spans@ + row_walk(b, y as int, fw as int, ww, x as int, skip_until_x as int)
                    == row_spans(b, y as int, fw as int, ww),
            decreases backend.width - x,
        {
            let ghost before = row_walk(b, y as int, fw as int, ww, x as int, skip_until_x as int);
            if (x as u32) < skip_until_x {
                x = x + 1;
                continue;
            }
            assert((x as int) * (fw as int) <= 65535 * 0xffff_ffff) by (nonlinear_arith)
                requires
                    x <= 65535,
                    fw <= 0xffff_ffff,
            ;
            let px_start: u64 = (x as u64) * (fw as u64);
            if px_start >= window_width as u64 {
                x = x + 1;
                continue;
            }
            let cell = backend.get_cell(x, y).unwrap();
            let wide = is_wide_char(cell.first_char());
            let full: u64 = if wide {
                2 * (fw as u64)
            } else {
                fw as u64
            };
            let room: u64 = (window_width as u64) - px_start;
            let width: u64 = if full <= room {
                full
            } else {
                room
            };
            if width == 0 {
                x = x + 1;
                continue;
            }
            let span = CellSpan {
                column: x,
                px_start: px_start as usize,
                width: width as usize,
                wide,
            };
            spans.push(span);
            if wide {
                skip_until_x = (x as u32) + 2;
            }
            assert(before == seq![span] + row_walk(
                b,
                y as int,
                fw as int,
                ww,
                x as int + 1,
                skip_until_x as int,
            ));
            assert(spans@ + row_walk(b, y as int, fw as int, ww, x as int + 1, skip_until_x as int)
                =~= spans@.drop_last() + before);
            x = x + 1;
        }
        assert(spans@ =~= spans@ + Seq::<CellSpan>::empty());
        spans
    }

    /// Paints the `width` by `height` rectangle at `(px, py)` with `color`,
    /// clipped to the window and to `dest`.
    pub(crate) fn fill_rect(
        dest: &mut [u8],
        stride: usize,
        window_width: usize,
        window_height: usize,
        px: usize,
        py: usize,
        width: usize,
        height: usize,
        color: [u8; 4],
        Ghost(lo): Ghost<int>,
    )
        requires
            0 <= lo <= py * stride * 4,
        ensures
            same_before(old(dest)@, final(dest)@, lo),
            0 < stride && window_width <= stride ==> same_from(
                old(dest)@,
                final(dest)@,
                (if py + height <= window_height { py + height } else { window_height as int }) * stride * 4,
            ),
            window_width <= stride ==> same_right_of(old(dest)@, final(dest)@, stride as int, window_width as int),
            0 < stride && window_width <= stride ==> same_left_of(old(dest)@, final(dest)@, stride as int, px as int),
            0 < stride && window_width <= stride ==> rect_kept_outside(old(dest)@, final(dest)@, stride as int, px as int, py as int, width as int, height as int),
            0 < stride && window_width <= stride ==> rect_filled(
                final(dest)@,
                stride as int,
                window_width as int,
                window_height as int,
                px as int,
                py as int,
                width as int,
                height as int,
                color,
            ),
    {
        let _n = dest.len();
        let xs = px.saturating_add(width);
        let x_end = if xs <= window_width {
            xs
        } else {
            window_width
        };
        let ys = py.saturating_add(height);
        let y_end = if ys <= window_height {
            ys
        } else {
            window_height
        };
        let ghost s = stride as int;
        let ghost ww = window_width as int;
        let ghost wh = window_height as int;
        let ghost yb: int = if py + height <= window_height { py + height } else { window_height as int };
        let mut y: usize = py;
        while y < y_end
            invariant
                s == stride,
                ww == window_width,
                wh == window_height,
                0 <= lo <= py * stride * 4,
                py <= y,
                y_end <= yb,
                0 <= yb,
                0 < stride && window_width <= stride ==> same_from(old(dest)@, dest@, yb * s * 4),
                y_end <= window_height,
                x_end <= window_width,
                same_before(old(dest)@, dest@, lo),
                window_width <= stride ==> same_right_of(old(dest)@, dest@, s, ww),
                0 < stride && window_width <= stride ==> same_left_of(old(dest)@, dest@, stride as int, px as int),
                0 < stride && window_width <= stride ==> rect_filled(dest@, s, ww, wh, px as int, py as int, x_end - px, y - py, color),
                x_end <= px + width,
                y_end <= py + height,
                y <= y_end || y == py,
                0 < stride && window_width <= stride ==> rect_kept_outside(old(dest)@, dest@, s, px as int, py as int, x_end - px, y - py),
            decreases y_end - y,
        {
            let mut x: usize = px;
            while x < x_end
                invariant
                    s == stride,
                    ww == window_width,
                    wh == window_height,
                    0 <= lo <= py * stride * 4,
                    py <= y < y_end,
                    y_end <= yb,
                    0 <= yb,
                    0 < stride && window_width <= stride ==> same_from(old(dest)@, dest@, yb * s * 4),
                    y_end <= window_height,
                    x_end <= window_width,
                    px <= x,
                    same_before(old(dest)@, dest@, lo),
                    window_width <= stride ==> same_right_of(old(dest)@, dest@, s, ww),
                    0 < stride && window_width <= stride ==> same_left_of(old(dest)@, dest@, stride as int, px as int),
                    0 < stride && window_width <= stride ==> rect_filled(dest@, s, ww, wh, px as int, py as int, x_end - px, y - py, color),
                    0 < stride && window_width <= stride ==> rect_filled(dest@, s, ww, wh, px as int, y as int, x - px, 1, color),
                    x_end <= px + width,
                    y_end <= py + height,
                    x <= x_end || x == px,
                    0 < stride && window_width <= stride ==> rect_kept_outside2(old(dest)@, dest@, s, px as int, py as int, x_end - px, y - py, x - px),
                decreases x_end - x,
            {
                proof {
                    lemma_row_start_monotone(stride as int, py as int, x as int, y as int);
                }
                let ghost before = dest@;
                put_px(dest, stride, x, y, color);
                proof {
                    if window_width <= stride && pixel_index(s, x as int, y as int) + 3 < before.len() {
                        lemma_write_px_left_of(before, s, ww, x as int, y as int, color);
                    }
                    if 0 < stride && window_width <= stride && pixel_index(s, x as int, y as int) + 3 < before.len() {
                        lemma_write_px_right_of(before, s, px as int, x as int, y as int, color);
                    }
                    if 0 < stride && window_width <= stride && pixel_index(s, x as int, y as int) + 3 < before.len() {
                        lemma_write_px_above(before, s, x as int, y as int, yb, color);
                    }
                    if 0 < stride && window_width <= stride {
                        lemma_kept_write(old(dest)@, before, dest@, s, px as int, py as int, x_end - px, y - py, x - px, color);
                        lemma_fill_step(before, dest@, s, ww, wh, px as int, py as int, x_end - px, y - py, x as int, y as int, color);
                        lemma_fill_step(before, dest@, s, ww, wh, px as int, y as int, x - px, 1, x as int, y as int, color);
                        if pixel_index(s, x as int, y as int) + 3 < before.len() {
                            assert(read_px(dest@, pixel_index(s, x as int, y as int)) =~= color);
                        }
                        assert(rect_filled(dest@, s, ww, wh, px as int, y as int, x + 1 - px, 1, color)) by {
                            lemma_fill_grow_col(dest@, s, ww, wh, px as int, y as int, x - px, x as int, y as int, color);
                        }
                    }
                }
                x = x + 1;
            }
            proof {
                if 0 < stride && window_width <= stride {
                    lemma_kept_row(old(dest)@, dest@, s, px as int, py as int, x_end - px, y - py, x - px);
                    lemma_fill_grow_row(dest@, s, ww, wh, px as int, py as int, x_end - px, y - py, color);
                }
            }
            y = y + 1;
        }
        proof {
            if 0 < stride && window_width <= stride {
                lemma_fill_clip(dest@, s, ww, wh, px as int, py as int, width as int, height as int, x_end as int, y_end as int, color);
                lemma_kept_widen(old(dest)@, dest@, s, px as int, py as int, x_end - px, y - py, width as int, height as int);
            }
        }
    }

    /// Paints a cell's background: the `cell_width` by `row_height`
    /// rectangle at `(px_start, py_start)` becomes `bg_color` wherever it lies
    /// inside the window and `dest`, whatever was there before. Nothing above
    /// its first row, nor right of the window, is written.
    pub fn render_cell_background(
        &self,
        dest: &mut [u8],
        stride: usize,
        window_width: usize,
        window_height: usize,
        px_start: usize,
        py_start: usize,
        cell_width: usize,
        row_height: usize,
        bg_color: [u8; 4],
    )
        ensures
            same_before(old(dest)@, final(dest)@, py_start * stride * 4),
            window_width <= stride ==> same_right_of(old(dest)@, final(dest)@, stride as int, window_width as int),
            0 < stride && window_width <= stride ==> same_left_of(old(dest)@, final(dest)@, stride as int, px_start as int),
            0 < stride && window_width <= stride ==> rect_kept_outside(
                old(dest)@,
                final(dest)@,
                stride as int,
                px_start as int,
                py_start as int,
                cell_width as int,
                row_height as int,
            ),
            0 < stride && window_width <= stride ==> same_from(
                old(dest)@,
                final(dest)@,
                (if py_start + row_height <= window_height { py_start + row_height } else { window_height as int }) * stride * 4,
            ),
            0 < stride && window_width <= stride ==> rect_filled(
                final(dest)@,
                stride as int,
                window_width as int,
                window_height as int,
                px_start as int,
                py_start as int,
                cell_width as int,
                row_height as int,
                bg_color,
            ),
    {
        Self::fill_rect(
            dest,
            stride,
            window_width,
            window_height,
            px_start,
            py_start,
            cell_width,
            row_height,
            bg_color,
            Ghost(py_start * stride * 4),
        );
    }

    /// The nearest-neighbour scale that fits a `bw` by `bh` bitmap into a
    /// `cw` by `ch` cell without enlarging it, as `num / den`.
    fn fit_scale(cw: u64, ch: u64, bw: u64, bh: u64) -> (r: (u64, u64))
        requires
            bw > 0,
            bh > 0,
            cw <= 0x1_ffff_fffe,
            ch <= 0xffff_ffff,
            bw <= 0xffff_ffff,
            bh <= 0xffff_ffff,
        ensures
            (r.0 as int, r.1 as int) == fit_scale_of(cw as int, ch as int, bw as int, bh as int),
            r.1 > 0,
            r.0 <= r.1,
            r.1 <= 0xffff_ffff,
    {
        assert((cw as u128) * (bh as u128) <= 0x1_ffff_fffe * 0xffff_ffff && (ch as u128) * (bw as u128)
            <= 0xffff_ffff * 0xffff_ffff) by (nonlinear_arith)
            requires
                cw <= 0x1_ffff_fffe,
                ch <= 0xffff_ffff,
                bw <= 0xffff_ffff,
                bh <= 0xffff_ffff,
        ;
        let a: u128 = (cw as u128) * (bh as u128);
        let b: u128 = (ch as u128) * (bw as u128);
        if a <= b {
            if cw < bw {
                (cw, bw)
            } else {
                (1, 1)
            }
        } else {
            if ch < bh {
                (ch, bh)
            } else {
                (1, 1)
            }
        }
    }

    /// Composites a `width` by `height` RGBA bitmap onto the cell whose top
    /// left pixel is `(px, py)`: scaled down to fit one or two cell widths
    /// (never up), centred horizontally, sampled nearest-neighbour, each
    /// pixel laid over the destination by its alpha. Data shorter than the
    /// bitmap leaves `dest` as it was.
    fn render_bitmap(
        &self,
        width: u32,
        height: u32,
        rgba_data: &Vec<u8>,
        px: usize,
        py: usize,
        dest: &mut [u8],
        stride: usize,
        window_width: usize,
        window_height: usize,
        wide: bool,
        Ghost(lo): Ghost<int>,
    )
        requires
            0 <= lo <= py * stride * 4,
        ensures
            same_before(old(dest)@, final(dest)@, lo),
            0 < stride && window_width <= stride ==> same_from(old(dest)@, final(dest)@, window_height * stride * 4),
            window_width <= stride ==> same_right_of(old(dest)@, final(dest)@, stride as int, window_width as int),
            0 < stride && window_width <= stride ==> same_left_of(old(dest)@, final(dest)@, stride as int, px as int),
            rgba_data@.len() < width * height * 4 ==> final(dest)@ == old(dest)@,
            0 < stride && window_width <= stride && rgba_data@.len() >= width * height * 4 ==> bitmap_painted(
                old(dest)@,
                final(dest)@,
                stride as int,
                window_width as int,
                window_height as int,
                px as int,
                py as int,
                width as int,
                height as int,
                rgba_data@,
                cell_span_width(self.spec_font_width(), wide),
                self.spec_font_height(),
            ),
    {
        let ghost s = stride as int;
        let ghost ww = window_width as int;
        let ghost wh = window_height as int;
        let ghost cond = 0 < stride && window_width <= stride;
        let ghost d0 = dest@;
        let _n = dest.len();
        let bw = width as u64;
        let bh = height as u64;
        assert(bw * bh <= 0xffff_ffff * 0xffff_ffff) by (nonlinear_arith)
            requires
                bw <= 0xffff_ffff,
                bh <= 0xffff_ffff,
        ;
        if width == 0 || height == 0 {
            return ;
        }
        if rgba_data.len() as u64 / 4 < bw * bh {
            return ;
        }
        let fw = self.font_width as u64;
        let cw: u64 = if wide {
            2 * fw
        } else {
            fw
        };
        let ch = self.font_height as u64;
        let (num, den) = Self::fit_scale(cw, ch, bw, bh);
        assert(bw * num <= 0xffff_ffff * 0xffff_ffff && bh * num <= 0xffff_ffff * 0xffff_ffff)
            by (nonlinear_arith)
            requires
                bw <= 0xffff_ffff,
                bh <= 0xffff_ffff,
                num <= 0xffff_ffff,
        ;
        let scaled_w: u64 = bw * num / den;
        let scaled_h: u64 = bh * num / den;
        assert(scaled_w <= bw && scaled_h <= bh) by (nonlinear_arith)
            requires
                scaled_w == (bw * num) as int / den as int,
                scaled_h == (bh * num) as int / den as int,
                num <= den,
                den > 0,
        ;
        let offset_x: u64 = if cw >= scaled_w {
            (cw - scaled_w) / 2
        } else {
            0
        };
        let ghost x0 = px + offset_x;
        let ghost sw = scaled_w as int;
        let mut dy: u64 = 0;
        while dy < scaled_h
            invariant
                s == stride,
                ww == window_width,
                wh == window_height,
                cond == (0 < stride && window_width <= stride),
                x0 == px + offset_x,
                sw == scaled_w,
                0 <= lo <= py * stride * 4,
                same_before(d0, dest@, lo),
                window_width <= stride ==> same_right_of(d0, dest@, s, ww),
                cond ==> same_left_of(d0, dest@, s, px as int),
                cond ==> same_from(d0, dest@, wh * s * 4),
                bw * bh <= rgba_data@.len() / 4,
                bw == width,
                bh == height,
                bw <= 0xffff_ffff,
                bh <= 0xffff_ffff,
                den <= 0xffff_ffff,
                den > 0,
                num <= den,
                scaled_w == (bw * num) as int / den as int,
                scaled_h == (bh * num) as int / den as int,
                scaled_h <= bh,
                scaled_w <= bw,
                offset_x <= 0x1_ffff_fffe,
                dy <= scaled_h,
                dest@.len() == d0.len(),
                cond ==> bitmap_done(d0, dest@, s, ww, wh, x0, py as int, sw, dy as int, 0, rgba_data@, bw as int, num as int, den as int),
            decreases scaled_h - dy,
        {
            let y_rel = dy;
            let ghost row_begin = dest@;
            dy = dy + 1;
            if py as u64 > usize::MAX as u64 - y_rel {
                proof {
                    if cond {
                        lemma_done_skip_row(d0, dest@, s, ww, wh, x0, py as int, sw, y_rel as int, rgba_data@, bw as int, num as int, den as int);
                    }
                }
                continue;
            }
            let dest_y: usize = py + y_rel as usize;
            if dest_y >= window_height {
                proof {
                    if cond {
                        lemma_done_skip_row(d0, dest@, s, ww, wh, x0, py as int, sw, y_rel as int, rgba_data@, bw as int, num as int, den as int);
                    }
                }
                continue;
            }
            assert(num > 0) by (nonlinear_arith)
                requires
                    y_rel < scaled_h,
                    scaled_h == (bh * num) as int / den as int,
                    den > 0,
                    num >= 0,
            ;
            proof {
                lemma_sample_in_range(y_rel as int, bh as int, num as int, den as int);
            }
            assert(y_rel * den <= 0xffff_ffff * 0xffff_ffff) by (nonlinear_arith)
                requires
                    y_rel <= 0xffff_ffff,
                    den <= 0xffff_ffff,
            ;
            let src_y: u64 = y_rel * den / num;
            let mut dx: u64 = 0;
            while dx < scaled_w
                invariant
                    s == stride,
                    ww == window_width,
                    wh == window_height,
                    cond == (0 < stride && window_width <= stride),
                    x0 == px + offset_x,
                    sw == scaled_w,
                    0 <= lo <= py * stride * 4,
                    dest_y == py + y_rel,
                    dest_y < window_height,
                    y_rel < scaled_h,
                    dy == y_rel + 1,
                    same_before(d0, dest@, lo),
                    window_width <= stride ==> same_right_of(d0, dest@, s, ww),
                    cond ==> same_left_of(d0, dest@, s, px as int),
                    cond ==> same_from(d0, dest@, wh * s * 4),
                    bw * bh <= rgba_data@.len() / 4,
                    bw <= 0xffff_ffff,
                    bh <= 0xffff_ffff,
                    den <= 0xffff_ffff,
                    num > 0,
                    num <= den,
                    scaled_w == (bw * num) as int / den as int,
                    src_y == (y_rel * den) as int / num as int,
                    src_y < bh,
                    scaled_w <= bw,
                    offset_x <= 0x1_ffff_fffe,
                    dx <= scaled_w,
                    dest@.len() == d0.len(),
                    cond ==> bitmap_done(d0, dest@, s, ww, wh, x0, py as int, sw, y_rel as int, dx as int, rgba_data@, bw as int, num as int, den as int),
                decreases scaled_w - dx,
            {
                let x_rel = dx;
                dx = dx + 1;
                let shift: u64 = offset_x + x_rel;
                if shift > usize::MAX as u64 || px as u64 > usize::MAX as u64 - shift {
                    proof {
                        if cond {
                            lemma_done_skip_px(d0, dest@, s, ww, wh, x0, py as int, sw, y_rel as int, x_rel as int, rgba_data@, bw as int, num as int, den as int);
                        }
                    }
                    continue;
                }
                let dest_x: usize = px + shift as usize;
                if dest_x >= window_width {
                    proof {
                        if cond {
                            lemma_done_skip_px(d0, dest@, s, ww, wh, x0, py as int, sw, y_rel as int, x_rel as int, rgba_data@, bw as int, num as int, den as int);
                        }
                    }
                    continue;
                }
                proof {
                    lemma_sample_in_range(x_rel as int, bw as int, num as int, den as int);
                }
                assert(x_rel * den <= 0xffff_ffff * 0xffff_ffff) by (nonlinear_arith)
                    requires
                        x_rel <= 0xffff_ffff,
                        den <= 0xffff_ffff,
                ;
                let src_x: u64 = x_rel * den / num;
                let _len = rgba_data.len();
                assert(src_y * bw + src_x < bw * bh && (src_y * bw + src_x) * 4 + 3
                    < rgba_data@.len()) by (nonlinear_arith)
                    requires
                        src_y < bh,
                        src_x < bw,
                        bw * bh <= rgba_data@.len() / 4,
                ;
                let src_idx: usize = ((src_y * bw + src_x) * 4) as usize;
                let src: [u8; 4] = [
                    rgba_data[src_idx],
                    rgba_data[src_idx + 1],
                    rgba_data[src_idx + 2],
                    rgba_data[src_idx + 3],
                ];
                proof {
                    assert(src =~= read_px(rgba_data@, (src_y * bw + src_x) * 4));
                    lemma_row_start_monotone(stride as int, py as int, dest_x as int, dest_y as int);
                }
                let ghost before = dest@;
                if src[3] != 0 {
                    blend_px(dest, stride, dest_x, dest_y, src);
                }
                proof {
                    let i = pixel_index(s, dest_x as int, dest_y as int);
                    if src[3] == 0 {
                        crate::glyph::lemma_blend_bounds(read_px(before, i), src);
                    }
                    if window_width <= stride && i + 3 < before.len() && src[3] != 0 {
                        lemma_write_px_left_of(before, s, ww, dest_x as int, dest_y as int, blend_over(read_px(before, i), src));
                    }
                    if cond && i + 3 < before.len() && src[3] != 0 {
                        lemma_write_px_above(before, s, dest_x as int, dest_y as int, wh, blend_over(read_px(before, i), src));
                    }
                    if cond && i + 3 < before.len() && src[3] != 0 {
                        lemma_write_px_right_of(before, s, px as int, dest_x as int, dest_y as int, blend_over(read_px(before, i), src));
                    }
                    if cond {
                        lemma_done_write(d0, before, dest@, s, ww, wh, x0, py as int, sw, y_rel as int, x_rel as int, rgba_data@, bw as int, num as int, den as int, src, src[3] != 0);
                    }
                }
            }
            proof {
                if cond {
                    lemma_done_row_complete(d0, dest@, s, ww, wh, x0, py as int, sw, y_rel as int, rgba_data@, bw as int, num as int, den as int);
                }
            }
        }
        proof {
            assert((cw as int, ch as int) == (cell_span_width(self.spec_font_width(), wide), self.spec_font_height()));
        }
    }

    /// The block painted for a character that no font could draw: a square
    /// six tenths of the cell height (at least four pixels), centred in the
    /// cell, which is two widths wide for a wide character.
    fn draw_fallback_block(
        &self,
        px: usize,
        py: usize,
        wide: bool,
        color: [u8; 4],
        dest: &mut [u8],
        stride: usize,
        window_width: usize,
        window_height: usize,
        Ghost(lo): Ghost<int>,
    )
        requires
            0 <= lo <= py * stride * 4,
        ensures
            same_before(old(dest)@, final(dest)@, lo),
            window_width <= stride ==> same_right_of(old(dest)@, final(dest)@, stride as int, window_width as int),
            0 < stride && window_width <= stride ==> same_left_of(old(dest)@, final(dest)@, stride as int, px as int),
            0 < stride && window_width <= stride ==> same_from(old(dest)@, final(dest)@, window_height * stride * 4),
            0 < stride && window_width <= stride ==> fallback_painted(
                old(dest)@,
                final(dest)@,
                stride as int,
                window_width as int,
                window_height as int,
                px as int,
                py as int,
                self.spec_font_width(),
                self.spec_font_height(),
                wide,
                color,
            ),
    {
        let fh = self.font_height as usize;
        let fw = self.font_width as u64;
        let cw: u64 = if wide {
            2 * fw
        } else {
            fw
        };
        let b = fh / 5 * 3 + fh % 5 * 3 / 5;
        let block: usize = if b < 4 {
            4
        } else {
            b
        };
        let ox: u64 = if cw >= block as u64 {
            (cw - block as u64) / 2
        } else {
            0
        };
        let oy = if fh >= block {
            (fh - block) / 2
        } else {
            0
        };
        if ox > usize::MAX as u64 || px > usize::MAX - ox as usize || py > usize::MAX - oy {
            return ;
        }
        let start_x = px + ox as usize;
        let start_y = py + oy;
        if start_x >= window_width || start_y >= window_height {
            return ;
        }
        proof {
            lemma_row_start_monotone(stride as int, py as int, 0, start_y as int);
        }
        Self::fill_rect(
            dest,
            stride,
            window_width,
            window_height,
            start_x,
            start_y,
            block,
            block,
            color,
            Ghost(lo),
        );
        proof {
            let yb: int = if start_y + block <= window_height { start_y + block } else { window_height as int };
            assert(yb * stride * 4 <= window_height * stride * 4) by (nonlinear_arith)
                requires
                    yb <= window_height,
                    0 <= stride,
            ;
        }
    }

    /// Draws one character with its top left at `(px, py)`: the glyph from
    /// the cache or the shaping engine, else the host platform's, else the
    /// fallback block in `color`. A glyph whose bitmap is empty or shorter
    /// than its size is passed over. Afterwards the cache names what was
    /// drawn: the usable glyph under the character's key, else the usable
    /// glyph under its host key, else the block.
    fn draw_char<S: GlyphShaper>(
        &self,
        cache: &mut GlyphCache,
        shaper: &mut S,
        c: char,
        px: usize,
        py: usize,
        color: [u8; 4],
        dest: &mut [u8],
        stride: usize,
        window_width: usize,
        window_height: usize,
        Ghost(lo): Ghost<int>,
    )
        requires
            0 <= lo <= py * stride * 4,
            old(cache).wf(),
        ensures
            same_before(old(dest)@, final(dest)@, lo),
            window_width <= stride ==> same_right_of(old(dest)@, final(dest)@, stride as int, window_width as int),
            0 < stride && window_width <= stride ==> same_left_of(old(dest)@, final(dest)@, stride as int, px as int),
            0 < stride && window_width <= stride ==> same_from(old(dest)@, final(dest)@, window_height * stride * 4),
            final(cache).wf(),
            final(cache).capacity() == old(cache).capacity(),
            0 < stride && window_width <= stride ==> char_drawn(
                old(dest)@,
                final(dest)@,
                stride as int,
                window_width as int,
                window_height as int,
                px as int,
                py as int,
                self.spec_font_width(),
                self.spec_font_height(),
                c,
                color,
            ),
            ({
                let k = glyph_key_of(c, self.spec_font_size() as u32, color);
                let kn = native_key_of(c, self.spec_font_size() as u32, color);
                let e = final(cache).entries();
                let args = (stride as int, window_width as int, window_height as int, px as int, py as int);
                let cw = cell_span_width(self.spec_font_width(), wide_char(c));
                let fh = self.spec_font_height();
                &&& 0 < stride && window_width <= stride && held_usable(e, k) ==> bitmap_painted(
                    old(dest)@,
                    final(dest)@,
                    args.0,
                    args.1,
                    args.2,
                    args.3,
                    args.4,
                    held(e, k).unwrap().0 as int,
                    held(e, k).unwrap().1 as int,
                    held(e, k).unwrap().3,
                    cw,
                    fh,
                )
                &&& 0 < stride && window_width <= stride && !held_usable(e, k) && held_usable(e, kn) ==> bitmap_painted(
                    old(dest)@,
                    final(dest)@,
                    args.0,
                    args.1,
                    args.2,
                    args.3,
                    args.4,
                    held(e, kn).unwrap().0 as int,
                    held(e, kn).unwrap().1 as int,
                    held(e, kn).unwrap().3,
                    cw,
                    fh,
                )
                &&& 0 < stride && window_width <= stride && !held_usable(e, k) && !held_usable(e, kn) ==> fallback_painted(
                    old(dest)@,
                    final(dest)@,
                    args.0,
                    args.1,
                    args.2,
                    args.3,
                    args.4,
                    self.spec_font_width(),
                    fh,
                    wide_char(c),
                    color,
                )
            }),
    {
        let wide = is_wide_char(c);
        let ghost fwi = self.spec_font_width();
        let ghost fhi = self.spec_font_height();
        let ghost k = glyph_key_of(c, self.spec_font_size() as u32, color);
        let ghost kn = native_key_of(c, self.spec_font_size() as u32, color);
        proof {
            lemma_native_key_differs(c, self.spec_font_size() as u32, color);
        }
        match render_glyph(cache, shaper, c, self.font_size, color) {
            Some(g) => {
                if glyph_usable(&g) {
                    self.render_bitmap(
                        g.0,
                        g.1,
                        &g.3,
                        px,
                        py,
                        dest,
                        stride,
                        window_width,
                        window_height,
                        wide,
                        Ghost(lo),
                    );
                    proof {
                        assert(usable_glyph(glyph_view(g)));
                        if 0 < stride && window_width <= stride {
                            assert(bitmap_painted(old(dest)@, dest@, stride as int, window_width as int, window_height as int, px as int, py as int, glyph_view(g).0 as int, glyph_view(g).1 as int, glyph_view(g).3, cell_span_width(fwi, wide_char(c)), fhi));
                        }
                    }
                    return ;
                }
            },
            None => {},
        }
        proof {
            let key = glyph_key_of(c, self.spec_font_size() as u32, color);
            crate::glyph_cache::lemma_key_pos(old(cache).entries(), key);
        }
        let ghost e1 = cache.entries();
        assert(!held_usable(e1, k));
        match render_char_android(cache, shaper, c, self.font_size, color) {
            Some(g) => {
                if glyph_usable(&g) {
                    self.render_bitmap(
                        g.0,
                        g.1,
                        &g.3,
                        px,
                        py,
                        dest,
                        stride,
                        window_width,
                        window_height,
                        wide,
                        Ghost(lo),
                    );
                    proof {
                        if 0 < stride && window_width <= stride {
                            assert(bitmap_painted(old(dest)@, dest@, stride as int, window_width as int, window_height as int, px as int, py as int, glyph_view(g).0 as int, glyph_view(g).1 as int, glyph_view(g).3, cell_span_width(fwi, wide_char(c)), fhi));
                        }
                    }
                    return ;
                }
            },
            None => {},
        }
        self.draw_fallback_block(px, py, wide, color, dest, stride, window_width, window_height, Ghost(lo));
    }

    /// Paints the cell buffer into `dest`, an RGBA8888 buffer of `stride`
    /// pixels per row, inside a `window_width` by `window_height` window; see
    /// [`Rasterizer::render_to_surface_with_offset`] with no offsets. Each
    /// painted cell's span (two cell widths for a wide character, whose right
    /// neighbour gets none; see [`row_spans`]) ends opaque, a blank cell's
    /// exactly its background, and a one-character cell's its character drawn
    /// over its background. When every cell holds at most one character and
    /// the fallback block fits a cell, no byte outside the painted spans
    /// changes.
    pub fn render_to_surface<S: GlyphShaper>(
        &self,
        backend: &AndroidBackend,
        cache: &mut GlyphCache,
        shaper: &mut S,
        dest: &mut [u8],
        stride: usize,
        window_width: usize,
        window_height: usize,
    )
        requires
            backend.wf(),
            old(cache).wf(),
        ensures
            final(cache).wf(),
            final(cache).capacity() == old(cache).capacity(),
            final(dest)@.len() == old(dest)@.len(),
            old(dest)@.len() < stride * window_height * 4 ==> final(dest)@ == old(dest)@,
            window_width <= stride ==> same_right_of(old(dest)@, final(dest)@, stride as int, window_width as int),
            0 < stride && window_width <= stride && old(dest)@.len() >= stride * window_height * 4 ==> forall|
                y: int,
                k: int,
            |
                0 <= y < backend.height ==> #[trigger] blank_cell_painted(
                    *backend,
                    final(dest)@,
                    stride as int,
                    window_width as int,
                    window_height as int,
                    self.spec_font_width(),
                    self.spec_font_height(),
                    0,
                    0,
                    y,
                    k,
                ) && span_opaque(
                    *backend,
                    final(dest)@,
                    stride as int,
                    window_width as int,
                    window_height as int,
                    self.spec_font_width(),
                    self.spec_font_height(),
                    0,
                    0,
                    y,
                    k,
                ) && span_char_drawn(
                    *backend,
                    final(dest)@,
                    stride as int,
                    window_width as int,
                    window_height as int,
                    self.spec_font_width(),
                    self.spec_font_height(),
                    0,
                    0,
                    y,
                    k,
                ),
            0 < stride && window_width <= stride && old(dest)@.len() >= stride * window_height * 4 && single_char_cells(
                *backend,
            ) && fallback_size(self.spec_font_height()) <= self.spec_font_width() && fallback_size(
                self.spec_font_height(),
            ) <= self.spec_font_height() ==> kept_outside_spans(
                *backend,
                old(dest)@,
                final(dest)@,
                stride as int,
                window_width as int,
                window_height as int,
                self.spec_font_width(),
                self.spec_font_height(),
                0,
                0,
                backend.height as int,
                0,
            ),
    {
        self.render_to_surface_with_offset(
            backend,
            cache,
            shaper,
            dest,
            stride,
            window_width,
            window_height,
            0,
            0,
        );
    }

    /// Paints the cell buffer into `dest` with its first row `top_offset_px`
    /// pixels down, leaving the bottom `bottom_offset_px` rows of the window
    /// to the keyboard and navigation bar: a row starting there is not drawn,
    /// and the backgrounds and glyphs of the others are clipped there, so
    /// those rows keep their bytes. A buffer shorter
    /// than `stride * window_height * 4` bytes is left untouched, the rows
    /// above the top offset are never written, and neither are columns right
    /// of the window when the window fits in the stride. Every painted cell's
    /// span of its row's band ends opaque (its background, with its glyphs
    /// laid over it), a cell whose symbol is blank ends up as exactly its
    /// background color there, and a cell holding one other character shows
    /// that character drawn ([`char_drawn`]: its glyph or the fallback block)
    /// over its background. When every cell holds at most one character and
    /// the fallback block fits a cell, no byte outside the painted spans
    /// changes ([`kept_outside_spans`]).
    pub fn render_to_surface_with_offset<S: GlyphShaper>(
        &self,
        backend: &AndroidBackend,
        cache: &mut GlyphCache,
        shaper: &mut S,
        dest: &mut [u8],
        stride: usize,
        window_width: usize,
        window_height: usize,
        top_offset_px: usize,
        bottom_offset_px: usize,
    )
        requires
            backend.wf(),
            old(cache).wf(),
        ensures
            final(cache).wf(),
            final(cache).capacity() == old(cache).capacity(),
            final(dest)@.len() == old(dest)@.len(),
            old(dest)@.len() < stride * window_height * 4 ==> final(dest)@ == old(dest)@,
            same_before(old(dest)@, final(dest)@, top_offset_px * stride * 4),
            0 < stride && window_width <= stride ==> same_from(
                old(dest)@,
                final(dest)@,
                render_limit(window_height as int, bottom_offset_px as int) * stride * 4,
            ),
            window_width <= stride ==> same_right_of(old(dest)@, final(dest)@, stride as int, window_width as int),
            0 < stride && window_width <= stride && old(dest)@.len() >= stride * window_height * 4 ==> forall|
                y: int,
                k: int,
            |
                0 <= y < backend.height ==> #[trigger] blank_cell_painted(
                    *backend,
                    final(dest)@,
                    stride as int,
                    window_width as int,
                    window_height as int,
                    self.spec_font_width(),
                    self.spec_font_height(),
                    top_offset_px as int,
                    bottom_offset_px as int,
                    y,
                    k,
                ),
            0 < stride && window_width <= stride && old(dest)@.len() >= stride * window_height * 4 ==> forall|
                y: int,
                k: int,
            |
                0 <= y < backend.height ==> #[trigger] span_opaque(
                    *backend,
                    final(dest)@,
                    stride as int,
                    window_width as int,
                    window_height as int,
                    self.spec_font_width(),
                    self.spec_font_height(),
                    top_offset_px as int,
                    bottom_offset_px as int,
                    y,
                    k,
                ),
            0 < stride && window_width <= stride && old(dest)@.len() >= stride * window_height * 4 ==> forall|
                y: int,
                k: int,
            |
                0 <= y < backend.height ==> #[trigger] span_char_drawn(
                    *backend,
                    final(dest)@,
                    stride as int,
                    window_width as int,
                    window_height as int,
                    self.spec_font_width(),
                    self.spec_font_height(),
                    top_offset_px as int,
                    bottom_offset_px as int,
                    y,
                    k,
                ),
            0 < stride && window_width <= stride && old(dest)@.len() >= stride * window_height * 4 && single_char_cells(
                *backend,
            ) && fallback_size(self.spec_font_height()) <= self.spec_font_width() && fallback_size(
                self.spec_font_height(),
            ) <= self.spec_font_height() ==> kept_outside_spans(
                *backend,
                old(dest)@,
                final(dest)@,
                stride as int,
                window_width as int,
                window_height as int,
                self.spec_font_width(),
                self.spec_font_height(),
                top_offset_px as int,
                bottom_offset_px as int,
                backend.height as int,
                0,
            ),
            cells_painted(
                *backend,
                self.spec_font_width(),
                self.spec_font_height(),
                old(dest)@,
                final(dest)@,
                stride as int,
                window_width as int,
                window_height as int,
                top_offset_px as int,
                bottom_offset_px as int,
            ),
    {
        let _n = dest.len();
        let expected = match stride.checked_mul(window_height) {
            Some(a) => match a.checked_mul(4) {
                Some(b) => b,
                None => return ,
            },
            None => return ,
        };
        if dest.len() < expected {
            return ;
        }
        let ghost lo = top_offset_px * stride * 4;
        let ghost b = *backend;
        let ghost s = stride as int;
        let ghost ww = window_width as int;
        let ghost wh = window_height as int;
        let ghost top = top_offset_px as int;
        let ghost bot = bottom_offset_px as int;
        let ghost cond = 0 < stride && window_width <= stride;
        let max_render_height = if window_height > bottom_offset_px {
            window_height - bottom_offset_px
        } else {
            0
        };
        let fh = self.font_height as usize;
        let fw = self.font_width as usize;
        let ghost fwi = fw as int;
        let ghost fhi = fh as int;
        let ghost F = cond && single_char_cells(b) && fallback_size(fhi) <= fwi && fallback_size(fhi) <= fhi;
        let mut term_y: u16 = 0;
        while term_y < backend.height
            invariant
                backend.wf(),
                b == *backend,
                s == stride,
                ww == window_width,
                wh == window_height,
                top == top_offset_px,
                bot == bottom_offset_px,
                cond == (0 < stride && window_width <= stride),
                fwi == fw,
                fhi == fh,
                fh == self.spec_font_height(),
                max_render_height == render_limit(wh, bot),
                cache.wf(),
                cache.capacity() == old(cache).capacity(),
                lo == top_offset_px * stride * 4,
                same_before(old(dest)@, dest@, lo),
                cond ==> same_from(old(dest)@, dest@, max_render_height * stride * 4),
                window_width <= stride ==> same_right_of(old(dest)@, dest@, stride as int, window_width as int),
                fw == self.spec_font_width(),
                cond ==> forall|yy: int, kk: int|
                    0 <= yy < term_y ==> #[trigger] blank_cell_painted(b, dest@, s, ww, wh, fwi, fhi, top, bot, yy, kk),
                cond ==> forall|yy: int, kk: int|
                    0 <= yy < term_y ==> #[trigger] span_opaque(b, dest@, s, ww, wh, fwi, fhi, top, bot, yy, kk),
                cond ==> forall|yy: int, kk: int|
                    0 <= yy < term_y ==> #[trigger] span_char_drawn(b, dest@, s, ww, wh, fwi, fhi, top, bot, yy, kk),
                F == (cond && single_char_cells(b) && fallback_size(fhi) <= fwi && fallback_size(fhi) <= fhi),
                F ==> kept_outside_spans(b, old(dest)@, dest@, s, ww, wh, fwi, fhi, top, bot, term_y as int, 0),
                term_y <= backend.height,
            decreases backend.height - term_y,
        {
            let y = term_y;
            term_y = term_y + 1;
            let py_start: usize = match (y as usize).checked_mul(fh) {
                Some(a) => match a.checked_add(top_offset_px) {
                    Some(b) => b,
                    None => {
                        proof {
                            if F {
                                lemma_kept_next_row(b, old(dest)@, dest@, s, ww, wh, fwi, fhi, top, bot, y as int, 0);
                            }
                        }
                        continue;
                    },
                },
                None => {
                    assert((y as int) * fhi <= (y as int) * fhi + top);
                    proof {
                        if F {
                            lemma_kept_next_row(b, old(dest)@, dest@, s, ww, wh, fwi, fhi, top, bot, y as int, 0);
                        }
                    }
                    continue;
                },
            };
            if py_start >= max_render_height {
                proof {
                    if F {
                        lemma_kept_next_row(b, old(dest)@, dest@, s, ww, wh, fwi, fhi, top, bot, y as int, 0);
                    }
                }
                continue;
            }
            let room = max_render_height - py_start;
            let row_height = if fh <= room {
                fh
            } else {
                room
            };
            if row_height == 0 {
                proof {
                    if F {
                        lemma_kept_next_row(b, old(dest)@, dest@, s, ww, wh, fwi, fhi, top, bot, y as int, 0);
                    }
                }
                continue;
            }
            proof {
                lemma_row_start_monotone(stride as int, top_offset_px as int, 0, py_start as int);
                lemma_walk_columns(b, y as int, fwi, ww, 0, 0);
                lemma_span_bounds(b, y as int, fwi, ww, 0, 0);
                lemma_spans_ordered(b, y as int, fwi, ww);
                lemma_wide_consumes_next(b, y as int, fwi, ww, 0, 0);
            }
            let ghost row_lo = py_start * stride * 4;
            let ghost row_begin = dest@;
            let spans = self.layout_row(backend, y, window_width);
            let mut k: usize = 0;
            while k < spans.len()
                invariant
                    backend.wf(),
                    b == *backend,
                    s == stride,
                    ww == window_width,
                    wh == window_height,
                    top == top_offset_px,
                    bot == bottom_offset_px,
                    cond == (0 < stride && window_width <= stride),
                    fwi == fw,
                    fhi == fh,
                    fh == self.spec_font_height(),
                    cache.wf(),
                    cache.capacity() == old(cache).capacity(),
                    0 <= lo <= py_start * stride * 4,
                    row_lo == py_start * stride * 4,
                    same_before(old(dest)@, row_begin, lo),
                    same_before(row_begin, dest@, row_lo),
                    max_render_height == render_limit(wh, bot),
                    max_render_height <= window_height,
                    cond ==> same_from(old(dest)@, dest@, max_render_height * stride * 4),
                    window_width <= stride ==> same_right_of(old(dest)@, dest@, stride as int, window_width as int),
                    fw == self.spec_font_width(),
                    y < backend.height,
                    py_start == row_start(fhi, top, y as int),
                    row_height == row_band(fhi, top, wh, bot, y as int),
                    row_painted(fhi, top, wh, bot, y as int),
                    spans@ == row_spans(b, y as int, fwi, ww),
                    forall|i: int| 0 <= i < spans@.len() ==> (#[trigger] spans@[i]).column < b.width,
                    forall|i: int|
                        0 <= i < spans@.len() ==> (#[trigger] spans@[i]).px_start + spans@[i].width <= ww,
                    forall|j: int, i: int|
                        0 <= j < i < spans@.len() ==> #[trigger] spans@[j].px_start + spans@[j].width
                            <= #[trigger] spans@[i].px_start,
                    cond ==> forall|yy: int, kk: int|
                        0 <= yy < y ==> #[trigger] blank_cell_painted(b, row_begin, s, ww, wh, fwi, fhi, top, bot, yy, kk),
                    cond ==> forall|kk: int|
                        0 <= kk < k ==> #[trigger] blank_cell_painted(b, dest@, s, ww, wh, fwi, fhi, top, bot, y as int, kk),
                    cond ==> forall|yy: int, kk: int|
                        0 <= yy < y ==> #[trigger] span_opaque(b, row_begin, s, ww, wh, fwi, fhi, top, bot, yy, kk),
                    cond ==> forall|kk: int|
                        0 <= kk < k ==> #[trigger] span_opaque(b, dest@, s, ww, wh, fwi, fhi, top, bot, y as int, kk),
                    cond ==> forall|yy: int, kk: int|
                        0 <= yy < y ==> #[trigger] span_char_drawn(b, row_begin, s, ww, wh, fwi, fhi, top, bot, yy, kk),
                    cond ==> forall|kk: int|
                        0 <= kk < k ==> #[trigger] span_char_drawn(b, dest@, s, ww, wh, fwi, fhi, top, bot, y as int, kk),
                    forall|i: int| 0 <= i < spans@.len() ==> 1 <= #[trigger] spans@[i].width,
                    F == (cond && single_char_cells(b) && fallback_size(fhi) <= fwi && fallback_size(fhi) <= fhi),
                    F ==> kept_outside_spans(b, old(dest)@, dest@, s, ww, wh, fwi, fhi, top, bot, y as int, k as int),
                    row_start(fhi, top, y as int) + row_band(fhi, top, wh, bot, y as int) <= max_render_height,
                    k <= spans@.len(),
                decreases spans@.len() - k,
            {
                let span = spans[k];
                let ghost kk0 = k as int;
                let ghost before_k = dest@;
                k = k + 1;
                let blank = Cell::blank();
                let cell = match backend.get_cell(span.column, y) {
                    Some(c) => c,
                    None => &blank,
                };
                let fg = color_to_rgba(cell.fg);
                let bg = color_to_rgba_bg(cell.bg);
                self.render_cell_background(
                    dest,
                    stride,
                    window_width,
                    window_height,
                    span.px_start,
                    py_start,
                    span.width,
                    row_height,
                    bg,
                );
                proof {
                    let yb: int = if py_start + row_height <= window_height { py_start + row_height } else { window_height as int };
                    assert(yb * stride * 4 <= max_render_height * stride * 4) by (nonlinear_arith)
                        requires
                            yb <= max_render_height,
                            0 <= stride,
                    ;
                }
                let ghost after_bg = dest@;
                proof {
                    crate::color::lemma_colors_opaque(cell.fg, cell.bg);
                    if cond {
                        lemma_filled_opaque(dest@, s, ww, wh, span.px_start as int, py_start as int, span.width as int, row_height as int, bg);
                        lemma_opaque_wh(dest@, s, ww, wh, max_render_height as int, span.px_start as int, py_start as int, span.width as int, row_height as int);
                    }
                }
                let first = cell.first_char();
                if cell.symbol.len() > 0 && first != ' ' {
                    let limit: usize = if span.px_start <= usize::MAX - span.width {
                        span.px_start + span.width
                    } else {
                        usize::MAX
                    };
                    let mut char_x: usize = span.px_start;
                    let mut i: usize = 0;
                    while i < cell.symbol.len()
                        invariant
                            cache.wf(),
                            cache.capacity() == old(cache).capacity(),
                            0 <= lo <= py_start * stride * 4,
                            row_lo == py_start * stride * 4,
                            same_before(after_bg, dest@, row_lo),
                            cond == (0 < stride && window_width <= stride),
                            cond ==> same_from(old(dest)@, dest@, max_render_height * stride * 4),
                            window_width <= stride ==> same_right_of(old(dest)@, dest@, stride as int, window_width as int),
                            0 < stride && window_width <= stride ==> same_left_of(after_bg, dest@, stride as int, span.px_start as int),
                            char_x >= span.px_start,
                            s == stride,
                            ww == window_width,
                            fg[3] == 255,
                            fwi == self.spec_font_width(),
                            fhi == self.spec_font_height(),
                            0 <= py_start,
                            cond ==> rect_opaque(dest@, s, ww, max_render_height as int, span.px_start as int, py_start as int, span.width as int, row_height as int),
                            i == 0 ==> dest@ == after_bg && char_x == span.px_start,
                            cell.symbol@.len() > 0 && cell.symbol@[0] != ' ',
                            i <= cell.symbol@.len(),
                            limit > span.px_start,
                            cond && cell.symbol@.len() == 1 && i >= 1 ==> char_drawn(after_bg, dest@, s, ww, max_render_height as int, span.px_start as int, py_start as int, fwi, fhi, cell.symbol@[0], fg),
                            cond && cell.symbol@.len() == 1 && i >= 1 ==> same_right_of(after_bg, dest@, s, ww) && same_from(after_bg, dest@, max_render_height * s * 4),
                        decreases cell.symbol@.len() - i,
                    {
                        let ch = cell.symbol[i];
                        i = i + 1;
                        if ch == ' ' {
                            char_x = char_x.saturating_add(fw);
                            continue;
                        }
                        if char_x >= limit {
                            // The rest of the symbol lies past the cell.
                            i = cell.symbol.len();
                            continue;
                        }
                        let ghost before_c = dest@;
                        self.draw_char(
                            cache,
                            shaper,
                            ch,
                            char_x,
                            py_start,
                            fg,
                            dest,
                            stride,
                            window_width,
                            max_render_height,
                            Ghost(row_lo),
                        );
                        proof {
                            if 0 < stride && window_width <= stride {
                                lemma_char_keeps_opaque(before_c, dest@, s, ww, max_render_height as int, char_x as int, py_start as int, fwi, fhi, ch, fg, span.px_start as int, py_start as int, span.width as int, row_height as int);
                            }
                        }
                        let advance = if is_wide_char(ch) {
                            fw.saturating_add(fw)
                        } else {
                            fw
                        };
                        char_x = char_x.saturating_add(advance);
                    }
                }
                proof {
                    if cond {
                        assert(same_left_of(before_k, dest@, s, span.px_start as int));
                        lemma_opaque_wh(dest@, s, ww, max_render_height as int, wh, span.px_start as int, py_start as int, span.width as int, row_height as int);
                        assert(span_opaque(b, dest@, s, ww, wh, fwi, fhi, top, bot, y as int, kk0));
                        if F {
                            lemma_wide_consumes_next(b, y as int, fwi, ww, 0, 0);
                            lemma_span_bounds(b, y as int, fwi, ww, 0, 0);
                            let sp = row_spans(b, y as int, fwi, ww);
                            assert(sp[kk0] == span);
                            let cl = b.cell_at(sp[kk0].column as int, y as int);
                            assert(cell@ == cl);
                            let lead = lead_char(cl.symbol);
                            let drew = cl.symbol.len() > 0 && cl.symbol[0] != ' ';
                            if drew {
                                assert(cl.symbol.len() <= 1);
                                assert(lead == cl.symbol[0]);
                            }
                            assert(sp[kk0].wide == cell_is_wide(b, sp[kk0].column as int, y as int));
                            assert forall|q: int|
                                0 <= q < before_k.len() && !in_span(b, ww, wh, fwi, fhi, top, bot, y as int, kk0, px_x(q, s), px_y(q, s))
                                implies #[trigger] dest@[q] == before_k[q] by {
                                lemma_span_kept(
                                    before_k,
                                    after_bg,
                                    dest@,
                                    s,
                                    ww,
                                    max_render_height as int,
                                    span.px_start as int,
                                    py_start as int,
                                    span.width as int,
                                    row_height as int,
                                    fwi,
                                    fhi,
                                    lead,
                                    fg,
                                    drew,
                                    q,
                                );
                            }
                            lemma_kept_next_span(b, old(dest)@, before_k, dest@, s, ww, wh, fwi, fhi, top, bot, y as int, kk0);
                        }
                        assert(span_char_drawn(b, dest@, s, ww, wh, fwi, fhi, top, bot, y as int, kk0)) by {
                            let sp = row_spans(b, y as int, fwi, ww);
                            let cl = b.cell_at(sp[kk0].column as int, y as int);
                            if row_painted(fhi, top, wh, bot, y as int) && cl.symbol.len() == 1 && cl.symbol[0] != ' ' {
                                assert(cell@ == cl);
                                assert(char_drawn(after_bg, dest@, s, ww, render_limit(wh, bot), sp[kk0].px_start as int, row_start(fhi, top, y as int), fwi, fhi, cl.symbol[0], fg_rgba(cl.fg)));
                                assert(rect_same(dest@, dest@, s, ww, wh, sp[kk0].px_start as int, row_start(fhi, top, y as int), sp[kk0].width as int, row_band(fhi, top, wh, bot, y as int)));
                            }
                        }
                        assert forall|kk: int| 0 <= kk < k implies #[trigger] span_char_drawn(b, dest@, s, ww, wh, fwi, fhi, top, bot, y as int, kk) by {
                            let sp = row_spans(b, y as int, fwi, ww);
                            if kk < kk0 {
                                assert(span_char_drawn(b, before_k, s, ww, wh, fwi, fhi, top, bot, y as int, kk));
                                let cl = b.cell_at(sp[kk].column as int, y as int);
                                if row_painted(fhi, top, wh, bot, y as int) && cl.symbol.len() == 1 && cl.symbol[0] != ' ' {
                                    let (mid, z) = choose|mid: Seq<u8>, z: Seq<u8>|
                                        #[trigger] char_drawn(mid, z, s, ww, render_limit(wh, bot), sp[kk].px_start as int, row_start(fhi, top, y as int), fwi, fhi, cl.symbol[0], fg_rgba(cl.fg))
                                        && rect_filled(mid, s, ww, wh, sp[kk].px_start as int, row_start(fhi, top, y as int), sp[kk].width as int, row_band(fhi, top, wh, bot, y as int), bg_rgba(cl.bg))
                                        && rect_same(before_k, z, s, ww, wh, sp[kk].px_start as int, row_start(fhi, top, y as int), sp[kk].width as int, row_band(fhi, top, wh, bot, y as int));
                                    assert(sp[kk].px_start + sp[kk].width <= sp[kk0].px_start);
                                    lemma_same_kept_left(before_k, dest@, z, s, ww, wh, sp[kk].px_start as int, row_start(fhi, top, y as int), sp[kk].width as int, row_band(fhi, top, wh, bot, y as int), span.px_start as int);
                                }
                            }
                        }
                        assert forall|kk: int| 0 <= kk < k implies #[trigger] span_opaque(b, dest@, s, ww, wh, fwi, fhi, top, bot, y as int, kk) by {
                            let sp = row_spans(b, y as int, fwi, ww);
                            if kk < kk0 {
                                assert(span_opaque(b, before_k, s, ww, wh, fwi, fhi, top, bot, y as int, kk));
                                assert(sp[kk].px_start + sp[kk].width <= sp[kk0].px_start);
                                lemma_opaque_kept_left(before_k, dest@, s, ww, wh, sp[kk].px_start as int, row_start(fhi, top, y as int), sp[kk].width as int, row_band(fhi, top, wh, bot, y as int), span.px_start as int);
                            }
                        }
                        assert forall|kk: int| 0 <= kk < k implies #[trigger] blank_cell_painted(
                            b,
                            dest@,
                            s,
                            ww,
                            wh,
                            fwi,
                            fhi,
                            top,
                            bot,
                            y as int,
                            kk,
                        ) by {
                            let sp = row_spans(b, y as int, fwi, ww);
                            if kk < kk0 {
                                assert(blank_cell_painted(b, before_k, s, ww, wh, fwi, fhi, top, bot, y as int, kk));
                                if blank_symbol(b.cell_at(sp[kk].column as int, y as int).symbol) {
                                    assert(sp[kk].px_start + sp[kk].width <= sp[kk0].px_start);
                                    lemma_rect_kept_left(
                                        before_k,
                                        dest@,
                                        s,
                                        ww,
                                        wh,
                                        sp[kk].px_start as int,
                                        row_start(fhi, top, y as int),
                                        sp[kk].width as int,
                                        row_band(fhi, top, wh, bot, y as int),
                                        bg_rgba(b.cell_at(sp[kk].column as int, y as int).bg),
                                        span.px_start as int,
                                    );
                                }
                            }
                        }
                    }
                }
            }
            proof {
                if cond {
                    assert forall|yy: int, kk: int| 0 <= yy < term_y implies #[trigger] span_char_drawn(
                        b,
                        dest@,
                        s,
                        ww,
                        wh,
                        fwi,
                        fhi,
                        top,
                        bot,
                        yy,
                        kk,
                    ) by {
                        if yy < y {
                            assert(span_char_drawn(b, row_begin, s, ww, wh, fwi, fhi, top, bot, yy, kk));
                            let sp = row_spans(b, yy, fwi, ww);
                            if row_painted(fhi, top, wh, bot, yy) && 0 <= kk < sp.len() {
                                let cl = b.cell_at(sp[kk].column as int, yy);
                                if cl.symbol.len() == 1 && cl.symbol[0] != ' ' {
                                    let (mid, z) = choose|mid: Seq<u8>, z: Seq<u8>|
                                        #[trigger] char_drawn(mid, z, s, ww, render_limit(wh, bot), sp[kk].px_start as int, row_start(fhi, top, yy), fwi, fhi, cl.symbol[0], fg_rgba(cl.fg))
                                        && rect_filled(mid, s, ww, wh, sp[kk].px_start as int, row_start(fhi, top, yy), sp[kk].width as int, row_band(fhi, top, wh, bot, yy), bg_rgba(cl.bg))
                                        && rect_same(row_begin, z, s, ww, wh, sp[kk].px_start as int, row_start(fhi, top, yy), sp[kk].width as int, row_band(fhi, top, wh, bot, yy));
                                    assert(row_start(fhi, top, yy) + fhi <= py_start) by (nonlinear_arith)
                                        requires
                                            0 <= yy < y,
                                            fhi >= 0,
                                            py_start == y * fhi + top,
                                    ;
                                    assert(0 <= row_start(fhi, top, yy)) by (nonlinear_arith)
                                        requires
                                            0 <= yy,
                                            fhi >= 0,
                                            top >= 0,
                                    ;
                                    lemma_same_kept_above(row_begin, dest@, z, s, ww, wh, sp[kk].px_start as int, row_start(fhi, top, yy), sp[kk].width as int, row_band(fhi, top, wh, bot, yy), py_start as int);
                                }
                            }
                        }
                    }
                    assert forall|yy: int, kk: int| 0 <= yy < term_y implies #[trigger] span_opaque(
                        b,
                        dest@,
                        s,
                        ww,
                        wh,
                        fwi,
                        fhi,
                        top,
                        bot,
                        yy,
                        kk,
                    ) by {
                        if yy < y {
                            assert(span_opaque(b, row_begin, s, ww, wh, fwi, fhi, top, bot, yy, kk));
                            let sp = row_spans(b, yy, fwi, ww);
                            if row_painted(fhi, top, wh, bot, yy) && 0 <= kk < sp.len() {
                                assert(row_start(fhi, top, yy) + fhi <= py_start) by (nonlinear_arith)
                                    requires
                                        0 <= yy < y,
                                        fhi >= 0,
                                        py_start == y * fhi + top,
                                ;
                                assert(0 <= row_start(fhi, top, yy)) by (nonlinear_arith)
                                    requires
                                        0 <= yy,
                                        fhi >= 0,
                                        top >= 0,
                                ;
                                lemma_opaque_kept_above(row_begin, dest@, s, ww, wh, sp[kk].px_start as int, row_start(fhi, top, yy), sp[kk].width as int, row_band(fhi, top, wh, bot, yy), py_start as int);
                            }
                        }
                    }
                }
            }
            proof {
                if cond {
                    assert forall|yy: int, kk: int| 0 <= yy < term_y implies #[trigger] blank_cell_painted(
                        b,
                        dest@,
                        s,
                        ww,
                        wh,
                        fwi,
                        fhi,
                        top,
                        bot,
                        yy,
                        kk,
                    ) by {
                        if yy < y {
                            assert(blank_cell_painted(b, row_begin, s, ww, wh, fwi, fhi, top, bot, yy, kk));
                            let sp = row_spans(b, yy, fwi, ww);
                            if row_painted(fhi, top, wh, bot, yy) && 0 <= kk < sp.len() && blank_symbol(
                                b.cell_at(sp[kk].column as int, yy).symbol,
                            ) {
                                assert(row_start(fhi, top, yy) + fhi <= py_start) by (nonlinear_arith)
                                    requires
                                        0 <= yy < y,
                                        fhi >= 0,
                                        py_start == y * fhi + top,
                                ;
                                assert(0 <= row_start(fhi, top, yy)) by (nonlinear_arith)
                                    requires
                                        0 <= yy,
                                        fhi >= 0,
                                        top >= 0,
                                ;
                                lemma_rect_kept_above(
                                    row_begin,
                                    dest@,
                                    s,
                                    ww,
                                    wh,
                                    sp[kk].px_start as int,
                                    row_start(fhi, top, yy),
                                    sp[kk].width as int,
                                    row_band(fhi, top, wh, bot, yy),
                                    bg_rgba(b.cell_at(sp[kk].column as int, yy).bg),
                                    py_start as int,
                                );
                            }
                        }
                    }
                }
            }
        }
    }
}

} // verus!
