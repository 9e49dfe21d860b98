//! Glyph production: the wide-character table, cell sizes, cache keys,
//! per-pixel alpha blending, and turning a shaping engine's coverage report
//! into an RGBA bitmap that the cache keeps.
use vstd::prelude::*;

use crate::lifecycle::{le_value, read_le};

use crate::glyph_cache::{
    after_get, after_put, glyph_view, has_key, held, key_pos, CachedChar, GlyphCache, GlyphKey, GlyphView,
    MILLI_PER_PX,
};

verus! {

/// Whether a character takes two terminal columns: Hangul, CJK, fullwidth
/// forms, emoji, symbols, dingbats and flags.
pub open spec fn wide_char(c: char) -> bool {
    let code = c as u32;
    ||| 0x1100 <= code <= 0x115F
    ||| 0x2E80 <= code <= 0x9FFF
    ||| 0xAC00 <= code <= 0xD7A3
    ||| 0xF900 <= code <= 0xFAFF
    ||| 0xFE10 <= code <= 0xFE1F
    ||| 0xFF00 <= code <= 0xFFEF
    ||| 0x1F300 <= code <= 0x1F9FF
    ||| 0x1FA00 <= code <= 0x1FAFF
    ||| 0x2600 <= code <= 0x26FF
    ||| 0x2700 <= code <= 0x27BF
    ||| 0x1F1E0 <= code <= 0x1F1FF
}

/// Checks if a character is wide (takes two terminal cells).
pub fn is_wide_char(c: char) -> (r: bool)
    ensures
        r == wide_char(c),
{
    let code = c as u32;
    (0x1100 <= code && code <= 0x115F) || (0x2E80 <= code && code <= 0x9FFF) || (0xAC00 <= code
        && code <= 0xD7A3) || (0xF900 <= code && code <= 0xFAFF) || (0xFE10 <= code && code
        <= 0xFE1F) || (0xFF00 <= code && code <= 0xFFEF) || (0x1F300 <= code && code <= 0x1F9FF)
        || (0x1FA00 <= code && code <= 0x1FAFF) || (0x2600 <= code && code <= 0x26FF) || (0x2700
        <= code && code <= 0x27BF) || (0x1F1E0 <= code && code <= 0x1F1FF)
}

/// Width in pixels of a narrow cell at a font size given in thousandths of a
/// pixel: six tenths of the size, rounded up.
pub open spec fn narrow_cell_width(size_milli: u32) -> int {
    (size_milli * 6 + 9999) / 10000
}

/// Height in pixels of a cell: the font size rounded up.
pub open spec fn cell_height(size_milli: u32) -> int {
    (size_milli + 999) / 1000
}

/// The bitmap size a glyph is shaped into: one or two cell widths by one cell
/// height, at least four pixels each way.
pub open spec fn glyph_box(c: char, size_milli: u32) -> (int, int) {
    let base = narrow_cell_width(size_milli);
    let w = if wide_char(c) { 2 * base } else { base };
    (if w < 4 { 4 } else { w }, if cell_height(size_milli) < 4 { 4 } else { cell_height(size_milli) })
}

/// The narrow cell width for a font size.
pub fn narrow_width_px(size_milli: u32) -> (r: u32)
    ensures
        r == narrow_cell_width(size_milli),
{
    let w: u64 = ((size_milli as u64) * 6 + 9999) / 10000;
    w as u32
}

/// The cell height for a font size.
pub fn cell_height_px(size_milli: u32) -> (r: u32)
    ensures
        r == cell_height(size_milli),
{
    let h: u64 = ((size_milli as u64) + 999) / 1000;
    h as u32
}

/// The bitmap size a glyph is shaped into.
pub fn glyph_box_size(c: char, size_milli: u32) -> (r: (u32, u32))
    ensures
        (r.0 as int, r.1 as int) == glyph_box(c, size_milli),
{
    let base = narrow_width_px(size_milli);
    let w: u32 = if is_wide_char(c) {
        base * 2
    } else {
        base
    };
    let h = cell_height_px(size_milli);
    (if w < 4 {
        4
    } else {
        w
    }, if h < 4 {
        4
    } else {
        h
    })
}

/// A color packed into 32 bits: alpha, red, green, blue, eight bits each.
pub open spec fn packed_argb(c: [u8; 4]) -> u32 {
    ((c[3] as u32) << 24u32) | ((c[0] as u32) << 16u32) | ((c[1] as u32) << 8u32) | (c[2] as u32)
}

/// The cache key of a character drawn at a size and in a color: the size is
/// truncated to whole pixels and the color packed.
pub open spec fn glyph_key_of(c: char, size_milli: u32, color: [u8; 4]) -> GlyphKey {
    (c as u32, size_milli / MILLI_PER_PX, packed_argb(color))
}

/// Packs an RGBA color into one ARGB integer.
pub fn pack_argb(color: [u8; 4]) -> (r: u32)
    ensures
        r == packed_argb(color),
{
    ((color[3] as u32) << 24u32) | ((color[0] as u32) << 16u32) | ((color[1] as u32) << 8u32) | (
    color[2] as u32)
}

/// The cache key for a character at a size and color.
pub fn glyph_key(c: char, size_milli: u32, color: [u8; 4]) -> (r: GlyphKey)
    ensures
        r == glyph_key_of(c, size_milli, color),
{
    (c as u32, size_milli / MILLI_PER_PX, pack_argb(color))
}

/// Two sizes that truncate to the same whole pixel give the same key, and
/// distinct colors give distinct keys.
pub proof fn lemma_key_quantization(
    c: char,
    s1: u32,
    s2: u32,
    col1: [u8; 4],
    col2: [u8; 4],
)
    ensures
        s1 / MILLI_PER_PX == s2 / MILLI_PER_PX ==> glyph_key_of(c, s1, col1) == glyph_key_of(
            c,
            s2,
            col1,
        ),
        glyph_key_of(c, s1, col1) == glyph_key_of(c, s2, col2) ==> col1 == col2 && s1
            / MILLI_PER_PX == s2 / MILLI_PER_PX,
{
    if packed_argb(col1) == packed_argb(col2) {
        lemma_unpack(col1);
        lemma_unpack(col2);
        assert(col1 =~= col2);
    }
}

/// A glyph stored for one size is found again for any size that truncates
/// to the same whole pixel: the two share one cache entry.
pub proof fn lemma_quantized_sizes_share_entry(
    entries: Seq<(GlyphKey, GlyphView)>,
    cap: nat,
    c: char,
    s1: u32,
    s2: u32,
    color: [u8; 4],
    g: GlyphView,
)
    requires
        s1 / MILLI_PER_PX == s2 / MILLI_PER_PX,
    ensures
        has_key(after_put(entries, cap, glyph_key_of(c, s1, color), g), glyph_key_of(c, s2, color)),
{
    let k = glyph_key_of(c, s1, color);
    crate::glyph_cache::lemma_key_pos(entries, k);
    let t = after_put(entries, cap, k, g);
    assert(t[t.len() - 1].0 == k);
}

proof fn lemma_unpack(c: [u8; 4])
    ensures
        (packed_argb(c) >> 24u32) & 0xffu32 == c[3] as u32,
        (packed_argb(c) >> 16u32) & 0xffu32 == c[0] as u32,
        (packed_argb(c) >> 8u32) & 0xffu32 == c[1] as u32,
        packed_argb(c) & 0xffu32 == c[2] as u32,
{
    let a = c[3] as u32;
    let r = c[0] as u32;
    let g = c[1] as u32;
    let b = c[2] as u32;
    assert(((((a << 24u32) | (r << 16u32) | (g << 8u32) | b) >> 24u32) & 0xffu32 == a) && ((((a
        << 24u32) | (r << 16u32) | (g << 8u32) | b) >> 16u32) & 0xffu32 == r) && ((((a << 24u32)
        | (r << 16u32) | (g << 8u32) | b) >> 8u32) & 0xffu32 == g) && ((((a << 24u32) | (r
        << 16u32) | (g << 8u32) | b)) & 0xffu32 == b)) by (bit_vector)
        requires
            a < 256,
            r < 256,
            g < 256,
            b < 256,
    ;
}

/// One color channel of `src` laid over `dst` with coverage `alpha`.
pub open spec fn blend_channel(dst: u8, src: u8, alpha: u8) -> u8 {
    ((dst as int * (255 - alpha as int) + src as int * alpha as int) / 255) as u8
}

/// `src` laid over `dst`: each color channel is mixed by the source alpha,
/// the alpha is the larger of the two.
pub open spec fn blend_over(dst: [u8; 4], src: [u8; 4]) -> [u8; 4] {
    [
        blend_channel(dst[0], src[0], src[3]),
        blend_channel(dst[1], src[1], src[3]),
        blend_channel(dst[2], src[2], src[3]),
        if dst[3] >= src[3] { dst[3] } else { src[3] },
    ]
}

fn blend_byte(dst: u8, src: u8, alpha: u8) -> (r: u8)
    ensures
        r == blend_channel(dst, src, alpha),
{
    let inv: u32 = 255 - alpha as u32;
    assert((dst as u32) * inv <= 255 * 255 && (src as u32) * (alpha as u32) <= 255 * 255
        && (dst as u32) * inv + (src as u32) * (alpha as u32) <= 255 * 255) by (nonlinear_arith)
        requires
            inv == 255 - alpha,
            dst <= 255,
            src <= 255,
            alpha <= 255,
    ;
    let v: u32 = ((dst as u32) * inv + (src as u32) * (alpha as u32)) / 255;
    v as u8
}

/// Lays the pixel `src` over the pixel `dst`.
pub fn blend_pixel(dst: [u8; 4], src: [u8; 4]) -> (r: [u8; 4])
    ensures
        r == blend_over(dst, src),
{
    let a = src[3];
    [
        blend_byte(dst[0], src[0], a),
        blend_byte(dst[1], src[1], a),
        blend_byte(dst[2], src[2], a),
        if dst[3] >= a {
            dst[3]
        } else {
            a
        },
    ]
}

/// An opaque pixel replaces the color underneath exactly; a fully
/// transparent one leaves it as it was.
pub proof fn lemma_blend_bounds(dst: [u8; 4], src: [u8; 4])
    ensures
        src[3] == 255 ==> blend_over(dst, src) == [src[0], src[1], src[2], 255u8],
        src[3] == 0 ==> blend_over(dst, src) == dst,
{
    if src[3] == 255 {
        assert(blend_over(dst, src) =~= [src[0], src[1], src[2], 255u8]);
    }
    if src[3] == 0 {
        assert(blend_over(dst, src) =~= dst);
    }
}

/// A pixel that the shaping engine covered while drawing a glyph.
#[derive(Clone, Copy, Debug)]
pub struct GlyphPixel {
    pub x: i32,
    pub y: i32,
    pub color: [u8; 4],
}

/// The engines that draw glyphs: a shaping engine, and optionally the host
/// platform's own text renderer as the next fallback.
pub trait GlyphShaper {
    /// Shapes `c` at `size_milli` thousandths of a pixel in `color`, laid out
    /// in a `width` by `height` box, and returns each covered pixel in drawing
    /// order.
    fn shape(&mut self, c: char, size_milli: u32, width: u32, height: u32, color: [u8; 4]) -> Vec<
        GlyphPixel,
    >;

    /// Asks the host platform to draw `c` at `size_milli` in the ARGB color
    /// `argb`. The reply is `width` and `height` as little-endian 32-bit
    /// integers, a wide flag byte, then RGBA pixels; `None` when the host
    /// cannot draw text.
    fn render_native(&mut self, c: char, size_milli: u32, argb: u32) -> Option<Vec<u8>>;
}

/// Whether a reported pixel lies in the `w` by `h` box and is not fully
/// transparent.
pub open spec fn lands(p: GlyphPixel, w: int, h: int) -> bool {
    0 <= p.x < w && 0 <= p.y < h && p.color[3] != 0
}

/// The four bytes of a pixel at byte offset `i`.
pub open spec fn read_px(buf: Seq<u8>, i: int) -> [u8; 4] {
    [buf[i], buf[i + 1], buf[i + 2], buf[i + 3]]
}

/// `buf` with the pixel at byte offset `i` replaced.
pub open spec fn write_px(buf: Seq<u8>, i: int, px: [u8; 4]) -> Seq<u8> {
    buf.update(i, px[0]).update(i + 1, px[1]).update(i + 2, px[2]).update(i + 3, px[3])
}

/// The `w` by `h` RGBA bitmap after laying each landing pixel of `pixels`
/// over a transparent one, in order.
pub open spec fn composed(pixels: Seq<GlyphPixel>, w: int, h: int) -> Seq<u8>
    decreases pixels.len(),
{
    if pixels.len() == 0 {
        Seq::new((w * h * 4) as nat, |i: int| 0u8)
    } else {
        let before = composed(pixels.drop_last(), w, h);
        let p = pixels.last();
        if lands(p, w, h) {
            let i = (p.y * w + p.x) * 4;
            write_px(before, i, blend_over(read_px(before, i), p.color))
        } else {
            before
        }
    }
}

/// How many pixels of `pixels` land in the box.
pub open spec fn landed(pixels: Seq<GlyphPixel>, w: int, h: int) -> nat
    decreases pixels.len(),
{
    if pixels.len() == 0 {
        0
    } else {
        landed(pixels.drop_last(), w, h) + if lands(pixels.last(), w, h) {
            1nat
        } else {
            0nat
        }
    }
}

/// The glyph built from a coverage report: none when no pixel landed.
pub open spec fn glyph_from(c: char, size_milli: u32, pixels: Seq<GlyphPixel>) -> Option<GlyphView> {
    let (w, h) = glyph_box(c, size_milli);
    if landed(pixels, w, h) == 0 {
        None
    } else {
        Some((w as u32, h as u32, wide_char(c), composed(pixels, w, h)))
    }
}

proof fn lemma_px_index(x: int, y: int, w: int, h: int)
    requires
        0 <= x < w,
        0 <= y < h,
    ensures
        0 <= (y * w + x) * 4,
        (y * w + x) * 4 + 3 < w * h * 4,
{
    assert(y * w + x < w * h) by (nonlinear_arith)
        requires
            0 <= x < w,
            0 <= y < h,
    ;
    assert(0 <= y * w) by (nonlinear_arith)
        requires
            0 <= y,
            0 <= w,
    ;
}

proof fn lemma_composed_len(pixels: Seq<GlyphPixel>, w: int, h: int)
    requires
        w >= 0,
        h >= 0,
    ensures
        composed(pixels, w, h).len() == w * h * 4,
    decreases pixels.len(),
{
    assert(w * h * 4 >= 0) by (nonlinear_arith)
        requires
            w >= 0,
            h >= 0,
    ;
    if pixels.len() > 0 {
        lemma_composed_len(pixels.drop_last(), w, h);
        let p = pixels.last();
        if lands(p, w, h) {
            lemma_px_index(p.x as int, p.y as int, w, h);
        }
    }
}

/// Lays every landing pixel of a coverage report over a transparent
/// `width` by `height` bitmap. Returns the bitmap and how many pixels landed.
pub fn compose_pixels(pixels: &Vec<GlyphPixel>, width: u32, height: u32) -> (r: Option<(Vec<u8>, usize)>)
    ensures
        (width as int) * (height as int) * 4 <= usize::MAX ==> r.is_some(),
        r.is_some() ==> r.unwrap().0@ == composed(pixels@, width as int, height as int) && r.unwrap().1
            == landed(pixels@, width as int, height as int),
{
    let n = match (width as usize).checked_mul(height as usize) {
        Some(a) => match a.checked_mul(4) {
            Some(b) => b,
            None => return None,
        },
        None => return None,
    };
    let ghost w = width as int;
    let ghost h = height as int;
    let mut data: Vec<u8> = Vec::new();
    let mut k: usize = 0;
    while k < n
        invariant
            k <= n,
            n == w * h * 4,
            data@.len() == k,
            forall|j: int| 0 <= j < k ==> data@[j] == 0u8,
        decreases n - k,
    {
        data.push(0);
        k = k + 1;
    }
    assert(data@ =~= composed(pixels@.take(0), w, h));
    let mut count: usize = 0;
    let mut i: usize = 0;
    while i < pixels.len()
        invariant
            i <= pixels@.len(),
            n == w * h * 4,
            w == width,
            h == height,
            data@ == composed(pixels@.take(i as int), w, h),
            data@.len() == n,
            count == landed(pixels@.take(i as int), w, h),
            count <= i,
        decreases pixels@.len() - i,
    {
        let p = pixels[i];
        let ghost pre = pixels@.take(i as int);
        assert(pixels@.take(i as int + 1).drop_last() =~= pre);
        if p.x >= 0 && p.y >= 0 && (p.x as u32) < width && (p.y as u32) < height && p.color[3] != 0 {
            proof {
                lemma_px_index(p.x as int, p.y as int, w, h);
            }
            let idx: usize = ((p.y as usize) * (width as usize) + (p.x as usize)) * 4;
            let under: [u8; 4] = [data[idx], data[idx + 1], data[idx + 2], data[idx + 3]];
            let over = blend_pixel(under, p.color);
            data.set(idx, over[0]);
            data.set(idx + 1, over[1]);
            data.set(idx + 2, over[2]);
            data.set(idx + 3, over[3]);
            count = count + 1;
            proof {
                assert(read_px(composed(pre, w, h), idx as int) =~= under);
            }
        }
        i = i + 1;
    }
    assert(pixels@.take(pixels@.len() as int) =~= pixels@);
    Some((data, count))
}

/// Builds the glyph for `c` from a shaping engine's coverage report: the
/// composed bitmap in the glyph's box, or none when nothing landed or the
/// bitmap would not fit in memory.
pub fn glyph_from_pixels(c: char, size_milli: u32, pixels: &Vec<GlyphPixel>) -> (r: Option<CachedChar>)
    ensures
        ({
            let (w, h) = glyph_box(c, size_milli);
            w * h * 4 <= usize::MAX ==> (r.is_some() <==> glyph_from(c, size_milli, pixels@).is_some())
        }),
        r.is_some() ==> r.unwrap().3@.len() == r.unwrap().0 * r.unwrap().1 * 4,
        r.is_some() ==> glyph_from(c, size_milli, pixels@) == Some(glyph_view(r.unwrap())),
{
    let (w, h) = glyph_box_size(c, size_milli);
    match compose_pixels(pixels, w, h) {
        None => None,
        Some((data, count)) => {
            proof {
                lemma_composed_len(pixels@, w as int, h as int);
            }
            if count == 0 {
                None
            } else {
                Some((w, h, is_wide_char(c), data))
            }
        },
    }
}

/// The glyph for `c` at a size and color: from the cache when it holds one,
/// else shaped, composed and stored. Returns none when the shaping engine
/// covered no pixel.
pub fn render_glyph<S: GlyphShaper>(
    cache: &mut GlyphCache,
    shaper: &mut S,
    c: char,
    size_milli: u32,
    color: [u8; 4],
) -> (r: Option<CachedChar>)
    requires
        old(cache).wf(),
    ensures
        final(cache).wf(),
        final(cache).capacity() == old(cache).capacity(),
        r.is_some() ==> held(final(cache).entries(), glyph_key_of(c, size_milli, color)) == Some(glyph_view(r.unwrap())),
        r.is_none() ==> !has_key(final(cache).entries(), glyph_key_of(c, size_milli, color)),
        forall|k2: GlyphKey|
            k2 != glyph_key_of(c, size_milli, color) && has_key(final(cache).entries(), k2) ==> #[trigger] held(final(cache).entries(), k2)
                == held(old(cache).entries(), k2),
        ({
            let key = glyph_key_of(c, size_milli, color);
            let before = old(cache).entries();
            if has_key(before, key) {
                &&& r.is_some()
                &&& glyph_view(r.unwrap()) == before[key_pos(before, key)].1
                &&& final(cache).entries() == after_get(before, key)
            } else {
                &&& r.is_none() ==> final(cache).entries() == before
                &&& r.is_some() ==> final(cache).entries() == after_put(
                    before,
                    old(cache).capacity(),
                    key,
                    glyph_view(r.unwrap()),
                )
                &&& r.is_some() ==> exists|pixels: Seq<GlyphPixel>| #[trigger]
                    glyph_from(c, size_milli, pixels) == Some(glyph_view(r.unwrap()))
                &&& r.is_some() ==> (r.unwrap().0 as int, r.unwrap().1 as int) == glyph_box(c, size_milli)
                    && r.unwrap().2 == wide_char(c)
            }
        }),
{
    let key = glyph_key(c, size_milli, color);
    let ghost e0 = cache.entries();
    let ghost cap = cache.capacity();
    match cache.get(key) {
        Some(g) => {
            proof {
                crate::glyph_cache::lemma_key_pos(e0, key);
                assert forall|k2: GlyphKey| #[trigger] held(cache.entries(), k2) == held(e0, k2) by {
                    crate::glyph_cache::lemma_held_after(e0, cap, key, e0[0].1, k2);
                }
                crate::glyph_cache::lemma_key_pos(cache.entries(), key);
                assert(held(cache.entries(), key) == held(e0, key));
            }
            Some(g)
        },
        None => {
            proof {
                assert(after_get(old(cache).entries(), key) == old(cache).entries()) by {
                    crate::glyph_cache::lemma_key_pos(old(cache).entries(), key);
                }
            }
            let (w, h) = glyph_box_size(c, size_milli);
            let pixels = shaper.shape(c, size_milli, w, h, color);
            match glyph_from_pixels(c, size_milli, &pixels) {
                None => None,
                Some(g) => {
                    let stored: CachedChar = (g.0, g.1, g.2, g.3.clone());
                    cache.put(key, stored);
                    proof {
                        assert forall|k2: GlyphKey| k2 != key && has_key(cache.entries(), k2) implies #[trigger] held(cache.entries(), k2) == held(e0, k2) by {
                            crate::glyph_cache::lemma_held_after(e0, cap, key, glyph_view(stored), k2);
                        }
                        crate::glyph_cache::lemma_held_after(e0, cap, key, glyph_view(stored), key);
                    }
                    assert(glyph_view(stored) == glyph_view(g));
                    Some(g)
                },
            }
        },
    }
}

/// Marks cache keys of glyphs drawn by the host platform, so they never
/// collide with shaped ones.
pub const NATIVE_KEY_MARK: u32 = 0x1000_0000;

/// The cache key of a glyph drawn by the host platform.
pub open spec fn native_key_of(c: char, size_milli: u32, color: [u8; 4]) -> GlyphKey {
    ((c as u32) | NATIVE_KEY_MARK, size_milli / MILLI_PER_PX, packed_argb(color))
}

/// The glyph a host reply describes: none when it is shorter than its
/// header or than the pixels the header announces. The bitmap is everything
/// after the header.
pub open spec fn native_glyph(reply: Seq<u8>) -> Option<GlyphView> {
    if reply.len() < 9 {
        None
    } else {
        let w = le_value(reply.subrange(0, 4));
        let h = le_value(reply.subrange(4, 8));
        if reply.len() - 9 < w * h * 4 {
            None
        } else {
            Some((w as u32, h as u32, reply[8] != 0, reply.subrange(9, reply.len() as int)))
        }
    }
}

/// Reads a host reply into a glyph; see [`native_glyph`].
pub fn parse_native_glyph(reply: &[u8]) -> (r: Option<CachedChar>)
    ensures
        r.is_some() == native_glyph(reply@).is_some(),
        r.is_some() ==> Some(glyph_view(r.unwrap())) == native_glyph(reply@),
{
    let len = reply.len();
    if len < 9 {
        return None;
    }
    let w = read_le(reply, 0);
    let h = read_le(reply, 4);
    assert((w as u64) * (h as u64) <= 0xffff_ffff * 0xffff_ffff) by (nonlinear_arith)
        requires
            w <= 0xffff_ffff,
            h <= 0xffff_ffff,
    ;
    let wh: u64 = (w as u64) * (h as u64);
    let room: usize = len - 9;
    if wh > (room / 4) as u64 {
        return None;
    }
    assert(w * h * 4 <= room) by (nonlinear_arith)
        requires
            wh == w * h,
            wh <= room / 4,
    ;
    let mut data: Vec<u8> = Vec::new();
    let mut i: usize = 9;
    while i < len
        invariant
            9 <= i <= len,
            len == reply@.len(),
            data@ == reply@.subrange(9, i as int),
        decreases len - i,
    {
        data.push(reply[i]);
        i = i + 1;
        assert(data@ =~= reply@.subrange(9, i as int));
    }
    let wide = reply[8] != 0;
    Some((w, h, wide, data))
}

/// A character drawn by the host platform: from the cache when it holds one
/// under the host's marker key, else asked for, read and stored. Returns none
/// when the host gives no usable reply.
pub fn render_char_android<S: GlyphShaper>(
    cache: &mut GlyphCache,
    shaper: &mut S,
    c: char,
    size_milli: u32,
    color: [u8; 4],
) -> (r: Option<CachedChar>)
    requires
        old(cache).wf(),
    ensures
        final(cache).wf(),
        final(cache).capacity() == old(cache).capacity(),
        r.is_some() ==> held(final(cache).entries(), native_key_of(c, size_milli, color)) == Some(glyph_view(r.unwrap())),
        r.is_none() ==> !has_key(final(cache).entries(), native_key_of(c, size_milli, color)),
        forall|k2: GlyphKey|
            k2 != native_key_of(c, size_milli, color) && has_key(final(cache).entries(), k2) ==> #[trigger] held(final(cache).entries(), k2)
                == held(old(cache).entries(), k2),
        ({
            let key = native_key_of(c, size_milli, color);
            let before = old(cache).entries();
            if has_key(before, key) {
                &&& r.is_some()
                &&& glyph_view(r.unwrap()) == before[key_pos(before, key)].1
                &&& final(cache).entries() == after_get(before, key)
            } else {
                &&& r.is_none() ==> final(cache).entries() == before
                &&& r.is_some() ==> final(cache).entries() == after_put(
                    before,
                    old(cache).capacity(),
                    key,
                    glyph_view(r.unwrap()),
                )
                &&& r.is_some() ==> exists|reply: Seq<u8>| #[trigger]
                    native_glyph(reply) == Some(glyph_view(r.unwrap()))
            }
        }),
{
    let key: GlyphKey = ((c as u32) | NATIVE_KEY_MARK, size_milli / MILLI_PER_PX, pack_argb(color));
    let ghost e0 = cache.entries();
    let ghost cap = cache.capacity();
    match cache.get(key) {
        Some(g) => {
            proof {
                crate::glyph_cache::lemma_key_pos(e0, key);
                assert forall|k2: GlyphKey| #[trigger] held(cache.entries(), k2) == held(e0, k2) by {
                    crate::glyph_cache::lemma_held_after(e0, cap, key, e0[0].1, k2);
                }
                crate::glyph_cache::lemma_key_pos(cache.entries(), key);
                assert(held(cache.entries(), key) == held(e0, key));
            }
            Some(g)
        },
        None => {
            proof {
                crate::glyph_cache::lemma_key_pos(old(cache).entries(), key);
            }
            let argb = pack_argb(color);
            let reply = match shaper.render_native(c, size_milli, argb) {
                Some(b) => b,
                None => return None,
            };
            match parse_native_glyph(reply.as_slice()) {
                None => None,
                Some(g) => {
                    let stored: CachedChar = (g.0, g.1, g.2, g.3.clone());
                    cache.put(key, stored);
                    proof {
                        assert forall|k2: GlyphKey| k2 != key && has_key(cache.entries(), k2) implies #[trigger] held(cache.entries(), k2) == held(e0, k2) by {
                            crate::glyph_cache::lemma_held_after(e0, cap, key, glyph_view(stored), k2);
                        }
                        crate::glyph_cache::lemma_held_after(e0, cap, key, glyph_view(stored), key);
                    }
                    Some(g)
                },
            }
        },
    }
}

} // verus!
