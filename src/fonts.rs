//! The font database and shaping caches that glyphs are drawn with, and the
//! start-up pass that fills the glyph cache.
use vstd::prelude::*;

use crate::glyph::{render_glyph, GlyphShaper};
use crate::glyph::glyph_key_of;
use crate::glyph_cache::{after_get, after_put, has_key, lemma_keys_kept, lemma_new_keys, GlyphCache, GlyphKey, GlyphView};

verus! {

/// `cosmic_text::FontSystem`: the font database and shaping context, opaque.
#[verifier::external_type_specification]
#[verifier::external_body]
pub struct ExFontSystem(cosmic_text::FontSystem);

/// `cosmic_text::SwashCache`: cached glyph outlines, opaque.
#[verifier::external_type_specification]
#[verifier::external_body]
pub struct ExSwashCache(cosmic_text::SwashCache);

/// A font file of this many bytes or fewer is taken to be empty or truncated
/// and is not loaded.
pub const MIN_FONT_BYTES: usize = 100;

/// Relies on `cosmic_text::FontSystem::new`: a font system over whatever
/// fonts the platform has installed.
#[verifier::external_body]
fn new_font_system() -> cosmic_text::FontSystem {
    cosmic_text::FontSystem::new()
}

/// Relies on `cosmic_text::SwashCache::new`: an empty rasterization cache.
#[verifier::external_body]
fn new_swash_cache() -> cosmic_text::SwashCache {
    cosmic_text::SwashCache::new()
}

/// Relies on `fontdb::Database::load_font_data`, reached through
/// `cosmic_text::FontSystem::db_mut`: adds the faces found in `data`; data
/// that does not parse adds none.
#[verifier::external_body]
fn add_font_bytes(fs: &mut cosmic_text::FontSystem, data: Vec<u8>) {
    fs.db_mut().load_font_data(data)
}

/// The font database and the outline rasterization cache, created once and
/// reused for every glyph.
pub struct ShapingEngine {
    pub font_system: cosmic_text::FontSystem,
    pub swash_cache: cosmic_text::SwashCache,
}

/// Whether a font file of `len` bytes is worth handing to the font database.
pub open spec fn font_size_ok(len: int) -> bool {
    len > MIN_FONT_BYTES
}

impl ShapingEngine {
    /// A shaping engine over the platform's installed fonts.
    pub fn new() -> (r: ShapingEngine) {
        ShapingEngine { font_system: new_font_system(), swash_cache: new_swash_cache() }
    }

    /// Loads the font in `data` unless it is too short to be a font file.
    /// Returns whether it was handed to the font database.
    pub fn load_font_data(&mut self, data: Vec<u8>) -> (r: bool)
        ensures
            r == font_size_ok(data@.len() as int),
            !r ==> *final(self) == *old(self),
    {
        if data.len() > MIN_FONT_BYTES {
            add_font_bytes(&mut self.font_system, data);
            true
        } else {
            false
        }
    }
}

/// Loads custom font data into a shaping engine; see
/// [`ShapingEngine::load_font_data`].
pub fn load_font_data(engine: &mut ShapingEngine, data: Vec<u8>) -> (r: bool)
    ensures
        r == font_size_ok(data@.len() as int),
        !r ==> *final(engine) == *old(engine),
{
    engine.load_font_data(data)
}

/// The box-drawing characters that the start-up pass renders.
pub open spec fn box_chars() -> Seq<char> {
    seq![
        '─', '│', '┌', '┐', '└', '┘', '├', '┤', '┬', '┴', '┼', '═', '║', '╔', '╗', '╚', '╝', '╠', '╣',
        '╦', '╩', '╬',
    ]
}

/// Opaque white, the colour the start-up pass renders in.
pub open spec fn white_rgba() -> [u8; 4] {
    [255u8, 255u8, 255u8, 255u8]
}

/// Whether the start-up pass renders `c`: printable ASCII or a box-drawing
/// character.
pub open spec fn warmed_char(c: char) -> bool {
    (0x20 <= c as u32 <= 0x7e) || box_chars().contains(c)
}

/// Whether `k` is the key of a character the start-up pass renders at the
/// given size, in white.
pub open spec fn warmed_key(k: GlyphKey, size_milli: u32) -> bool {
    exists|c: char| warmed_char(c) && k == #[trigger] glyph_key_of(c, size_milli, white_rgba())
}

/// Every key of `after` that `before` lacks is a warmed key.
pub open spec fn only_warmed_added(before: Seq<(GlyphKey, GlyphView)>, after: Seq<(GlyphKey, GlyphView)>, size_milli: u32) -> bool {
    forall|k: GlyphKey| #[trigger] has_key(after, k) && !has_key(before, k) ==> warmed_key(k, size_milli)
}

/// The box-drawing characters that the start-up pass renders besides
/// printable ASCII.
fn box_drawing_chars() -> (r: Vec<char>)
    ensures
        r@ == box_chars(),
{
    vec![
        '─', '│', '┌', '┐', '└', '┘', '├', '┤', '┬', '┴', '┼', '═', '║', '╔', '╗', '╚', '╝', '╠', '╣',
        '╦', '╩', '╬',
    ]
}

/// How many characters the start-up pass renders.
pub const WARMED_COUNT: usize = 117;

proof fn lemma_step_kept(
    e0: Seq<(GlyphKey, GlyphView)>,
    before: Seq<(GlyphKey, GlyphView)>,
    after: Seq<(GlyphKey, GlyphView)>,
    cap: nat,
    c: char,
    size_milli: u32,
)
    requires
        before.len() < cap,
        forall|k: GlyphKey| #[trigger] has_key(e0, k) ==> has_key(before, k),
        ({
            let key = glyph_key_of(c, size_milli, white_rgba());
            ||| after == before
            ||| after == after_get(before, key)
            ||| exists|v: GlyphView| after == #[trigger] after_put(before, cap, key, v)
        }),
    ensures
        forall|k: GlyphKey| #[trigger] has_key(e0, k) ==> has_key(after, k),
        after.len() <= before.len() + 1,
{
    let key = glyph_key_of(c, size_milli, white_rgba());
    if after == after_get(before, key) {
        lemma_keys_kept(before, cap, key, before[0].1, key);
    } else if after != before {
        let v = choose|v: GlyphView| after == #[trigger] after_put(before, cap, key, v);
        lemma_keys_kept(before, cap, key, v, key);
    }
    assert forall|k: GlyphKey| #[trigger] has_key(e0, k) implies has_key(after, k) by {
        assert(has_key(before, k));
        if after == after_get(before, key) {
            lemma_keys_kept(before, cap, key, before[0].1, k);
        } else if after != before {
            let v = choose|v: GlyphView| after == #[trigger] after_put(before, cap, key, v);
            lemma_keys_kept(before, cap, key, v, k);
        }
    }
}

proof fn lemma_step_warmed(
    e0: Seq<(GlyphKey, GlyphView)>,
    before: Seq<(GlyphKey, GlyphView)>,
    after: Seq<(GlyphKey, GlyphView)>,
    cap: nat,
    c: char,
    size_milli: u32,
)
    requires
        cap > 0,
        only_warmed_added(e0, before, size_milli),
        warmed_char(c),
        ({
            let key = glyph_key_of(c, size_milli, white_rgba());
            ||| after == before
            ||| after == after_get(before, key)
            ||| exists|v: GlyphView| after == #[trigger] after_put(before, cap, key, v)
        }),
    ensures
        only_warmed_added(e0, after, size_milli),
{
    let key = glyph_key_of(c, size_milli, white_rgba());
    assert forall|k: GlyphKey| #[trigger] has_key(after, k) && !has_key(e0, k) implies warmed_key(k, size_milli) by {
        if after == after_get(before, key) {
            lemma_new_keys(before, cap, key, before[0].1, k);
        } else if after != before {
            let v = choose|v: GlyphView| after == #[trigger] after_put(before, cap, key, v);
            lemma_new_keys(before, cap, key, v, k);
        }
        if k == key {
            assert(warmed_char(c) && k == glyph_key_of(c, size_milli, white_rgba()));
        } else {
            assert(has_key(before, k));
        }
    }
}

/// Renders printable ASCII and the common box-drawing characters in white at
/// the given size, so that the first frame finds them in the cache. No
/// other key is added, and when the cache has room for all of them no key
/// already cached is evicted.
pub fn warm_cache<S: GlyphShaper>(cache: &mut GlyphCache, shaper: &mut S, size_milli: u32)
    requires
        old(cache).wf(),
    ensures
        final(cache).wf(),
        final(cache).capacity() == old(cache).capacity(),
        only_warmed_added(old(cache).entries(), final(cache).entries(), size_milli),
        old(cache).entries().len() + WARMED_COUNT <= old(cache).capacity() ==> forall|k: GlyphKey|
            #[trigger] has_key(old(cache).entries(), k) ==> has_key(final(cache).entries(), k),
{
    let white: [u8; 4] = [255, 255, 255, 255];
    let ghost e0 = cache.entries();
    let ghost roomy = e0.len() + WARMED_COUNT <= cache.capacity();
    let ghost mut count: int = 0;
    let mut b: u8 = 0x20;
    while b <= 0x7e
        invariant
            cache.wf(),
            cache.capacity() == old(cache).capacity(),
            e0 == old(cache).entries(),
            white == white_rgba(),
            0x20 <= b <= 0x7f,
            only_warmed_added(e0, cache.entries(), size_milli),
            count == b - 0x20,
            roomy == (e0.len() + WARMED_COUNT <= old(cache).capacity()),
            roomy ==> cache.entries().len() <= e0.len() + count,
            roomy ==> forall|k: GlyphKey| #[trigger] has_key(e0, k) ==> has_key(cache.entries(), k),
        decreases 0x7f - b,
    {
        let ghost before = cache.entries();
        let ch = b as char;
        let _ = render_glyph(cache, shaper, ch, size_milli, white);
        proof {
            assert(warmed_char(ch));
            lemma_step_warmed(e0, before, cache.entries(), cache.capacity(), ch, size_milli);
            if roomy {
                lemma_step_kept(e0, before, cache.entries(), cache.capacity(), ch, size_milli);
            }
            count = count + 1;
        }
        b = b + 1;
    }
    let boxes = box_drawing_chars();
    let mut i: usize = 0;
    while i < boxes.len()
        invariant
            cache.wf(),
            cache.capacity() == old(cache).capacity(),
            e0 == old(cache).entries(),
            white == white_rgba(),
            boxes@ == box_chars(),
            only_warmed_added(e0, cache.entries(), size_milli),
            count == 95 + i,
            i <= 22,
            roomy == (e0.len() + WARMED_COUNT <= old(cache).capacity()),
            roomy ==> cache.entries().len() <= e0.len() + count,
            roomy ==> forall|k: GlyphKey| #[trigger] has_key(e0, k) ==> has_key(cache.entries(), k),
        decreases boxes@.len() - i,
    {
        let ghost before = cache.entries();
        let ch = boxes[i];
        let _ = render_glyph(cache, shaper, ch, size_milli, white);
        proof {
            assert(box_chars().contains(ch)) by {
                assert(box_chars()[i as int] == ch);
            }
            lemma_step_warmed(e0, before, cache.entries(), cache.capacity(), ch, size_milli);
            if roomy {
                lemma_step_kept(e0, before, cache.entries(), cache.capacity(), ch, size_milli);
            }
            count = count + 1;
        }
        i = i + 1;
    }
}

} // verus!
