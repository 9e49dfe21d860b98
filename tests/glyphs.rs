use ratatui_android::glyph::{
    blend_pixel, compose_pixels, glyph_box_size, glyph_from_pixels, glyph_key, parse_native_glyph,
    render_char_android, render_glyph,
};
use ratatui_android::{color_to_rgba, color_to_rgba_bg, is_wide_char, load_font_data, Color, GlyphCache, GlyphPixel, GlyphShaper, ShapingEngine};

struct NoFont;

impl GlyphShaper for NoFont {
    fn shape(&mut self, _c: char, _s: u32, _w: u32, _h: u32, _color: [u8; 4]) -> Vec<GlyphPixel> {
        Vec::new()
    }

    fn render_native(&mut self, _c: char, _s: u32, _argb: u32) -> Option<Vec<u8>> {
        None
    }
}

struct OnePixel {
    calls: usize,
}

impl GlyphShaper for OnePixel {
    fn shape(&mut self, _c: char, _s: u32, _w: u32, _h: u32, color: [u8; 4]) -> Vec<GlyphPixel> {
        self.calls += 1;
        vec![GlyphPixel { x: 1, y: 2, color }]
    }

    fn render_native(&mut self, _c: char, _s: u32, _argb: u32) -> Option<Vec<u8>> {
        None
    }
}

#[test]
fn test_is_wide_char() {
    assert!(is_wide_char('中'));
    assert!(is_wide_char('日'));
    assert!(is_wide_char('🎉'));
    assert!(!is_wide_char('a'));
    assert!(!is_wide_char('1'));
}

#[test]
fn wide_char_table_edges() {
    assert!(is_wide_char('\u{1100}'));
    assert!(is_wide_char('\u{115F}'));
    assert!(!is_wide_char('\u{1160}'));
    assert!(is_wide_char('\u{AC00}'));
    assert!(is_wide_char('\u{FF01}'));
    assert!(is_wide_char('\u{2600}'));
    assert!(is_wide_char('\u{1F1E6}'));
    assert!(!is_wide_char('─'));
}

#[test]
fn test_color_to_rgba() {
    assert_eq!(color_to_rgba(Color::Red), [255, 0, 0, 255]);
    assert_eq!(color_to_rgba(Color::Rgb(100, 150, 200)), [100, 150, 200, 255]);
}

#[test]
fn reset_background_is_black() {
    assert_eq!(color_to_rgba_bg(Color::Reset), [0, 0, 0, 255]);
    assert_eq!(color_to_rgba(Color::Reset), [255, 255, 255, 255]);
    assert_eq!(color_to_rgba_bg(Color::Gray), [128, 128, 128, 255]);
    assert_eq!(color_to_rgba(Color::Indexed(3)), [255, 255, 255, 255]);
}

#[test]
fn key_quantization_truncates_size_and_packs_color() {
    let white = [255, 255, 255, 255];
    assert_eq!(glyph_key('a', 16000, white), glyph_key('a', 16900, white));
    assert_eq!(glyph_key('a', 16900, white).1, 16);
    assert_ne!(glyph_key('a', 16900, white), glyph_key('a', 17000, white));
    assert_eq!(glyph_key('a', 16000, [1, 2, 3, 4]).2, 0x04010203);
    assert_ne!(glyph_key('a', 16000, [1, 2, 3, 4]), glyph_key('a', 16000, [1, 2, 3, 5]));
}

#[test]
fn opaque_and_transparent_blending() {
    let dst = [10, 20, 30, 40];
    assert_eq!(blend_pixel(dst, [200, 100, 50, 255]), [200, 100, 50, 255]);
    assert_eq!(blend_pixel(dst, [200, 100, 50, 0]), dst);
    // Half coverage: (0 * 127 + 255 * 128) / 255 = 128.
    assert_eq!(blend_pixel([0, 0, 0, 0], [255, 255, 255, 128]), [128, 128, 128, 128]);
}

#[test]
fn glyph_box_follows_font_size() {
    assert_eq!(glyph_box_size('a', 48000), (29, 48));
    assert_eq!(glyph_box_size('中', 48000), (58, 48));
    assert_eq!(glyph_box_size('a', 1000), (4, 4));
}

#[test]
fn composing_blends_landing_pixels_only() {
    let px = vec![
        GlyphPixel { x: 1, y: 0, color: [255, 0, 0, 255] },
        GlyphPixel { x: 5, y: 0, color: [255, 0, 0, 255] },
        GlyphPixel { x: -1, y: 0, color: [255, 0, 0, 255] },
        GlyphPixel { x: 0, y: 1, color: [9, 9, 9, 0] },
    ];
    let (data, n) = compose_pixels(&px, 2, 2).unwrap();
    assert_eq!(n, 1);
    assert_eq!(data.len(), 16);
    assert_eq!(&data[4..8], &[255, 0, 0, 255]);
    assert!(data[0..4].iter().all(|b| *b == 0));
    assert!(data[8..16].iter().all(|b| *b == 0));
}

#[test]
fn glyph_from_pixels_needs_a_landing_pixel() {
    assert!(glyph_from_pixels('a', 48000, &Vec::new()).is_none());
    let g = glyph_from_pixels('a', 48000, &vec![GlyphPixel { x: 0, y: 0, color: [1, 2, 3, 255] }]).unwrap();
    assert_eq!((g.0, g.1, g.2), (29, 48, false));
    assert_eq!(g.3.len(), 29 * 48 * 4);
    assert_eq!(&g.3[0..4], &[1, 2, 3, 255]);
}

#[test]
fn cache_lru_scenario() {
    let mut cache = GlyphCache::new(2);
    let a = (65, 16, 0);
    let b = (66, 16, 0);
    let c = (67, 16, 0);
    cache.put(a, (1, 1, false, vec![1, 1, 1, 1]));
    cache.put(b, (1, 1, false, vec![2, 2, 2, 2]));
    assert_eq!(cache.get(a).unwrap().3, vec![1, 1, 1, 1]);
    cache.put(c, (1, 1, false, vec![3, 3, 3, 3]));
    assert_eq!(cache.len(), 2);
    assert!(!cache.contains(b));
    assert!(cache.contains(a));
    assert!(cache.contains(c));
    assert!(cache.get(b).is_none());
}

#[test]
fn cache_evicts_oldest_without_lookup() {
    let mut cache = GlyphCache::new(2);
    cache.put((1, 0, 0), (1, 1, false, vec![0; 4]));
    cache.put((2, 0, 0), (1, 1, false, vec![0; 4]));
    cache.put((3, 0, 0), (1, 1, false, vec![0; 4]));
    assert!(!cache.contains((1, 0, 0)));
    assert!(cache.contains((2, 0, 0)));
    cache.put((2, 0, 0), (2, 2, true, vec![7; 16]));
    assert_eq!(cache.len(), 2);
    let got = cache.get((2, 0, 0)).unwrap();
    assert_eq!((got.0, got.1, got.2), (2, 2, true));
}

#[test]
fn render_glyph_uses_cache_after_first_shape() {
    let mut cache = GlyphCache::new(10);
    let mut shaper = OnePixel { calls: 0 };
    let first = render_glyph(&mut cache, &mut shaper, 'x', 20000, [9, 8, 7, 255]).unwrap();
    let second = render_glyph(&mut cache, &mut shaper, 'x', 20500, [9, 8, 7, 255]).unwrap();
    assert_eq!(shaper.calls, 1);
    assert_eq!(first.3, second.3);
    assert_eq!(cache.len(), 1);
    let mut none = NoFont;
    assert!(render_glyph(&mut cache, &mut none, 'y', 20000, [9, 8, 7, 255]).is_none());
    assert_eq!(cache.len(), 1);
}

#[test]
fn font_data_needs_more_than_a_hundred_bytes() {
    let mut engine = ShapingEngine::new();
    assert!(!load_font_data(&mut engine, vec![0u8; 100]));
    assert!(load_font_data(&mut engine, vec![0u8; 101]));
}

struct Host {
    calls: usize,
}

impl GlyphShaper for Host {
    fn shape(&mut self, _c: char, _s: u32, _w: u32, _h: u32, _color: [u8; 4]) -> Vec<GlyphPixel> {
        Vec::new()
    }

    fn render_native(&mut self, _c: char, _s: u32, argb: u32) -> Option<Vec<u8>> {
        self.calls += 1;
        let mut reply = vec![1, 0, 0, 0, 1, 0, 0, 0, 1];
        reply.extend_from_slice(&[(argb >> 16) as u8, (argb >> 8) as u8, argb as u8, (argb >> 24) as u8]);
        Some(reply)
    }
}

#[test]
fn native_reply_parsing() {
    assert!(parse_native_glyph(&[1, 0, 0, 0, 1, 0, 0, 0]).is_none());
    assert!(parse_native_glyph(&[1, 0, 0, 0, 1, 0, 0, 0, 0, 9, 9, 9]).is_none());
    let g = parse_native_glyph(&[2, 0, 0, 0, 1, 0, 0, 0, 1, 1, 2, 3, 4, 5, 6, 7, 8, 99]).unwrap();
    assert_eq!((g.0, g.1, g.2), (2, 1, true));
    assert_eq!(g.3, vec![1, 2, 3, 4, 5, 6, 7, 8, 99]);
    let empty = parse_native_glyph(&[0, 0, 0, 0, 0, 0, 0, 0, 0]).unwrap();
    assert_eq!((empty.0, empty.1, empty.2, empty.3.len()), (0, 0, false, 0));
}

#[test]
fn native_glyphs_are_cached_apart_from_shaped_ones() {
    let mut cache = GlyphCache::new(10);
    let mut host = Host { calls: 0 };
    let g = render_char_android(&mut cache, &mut host, 'x', 20000, [10, 20, 30, 255]).unwrap();
    assert_eq!(g.3, vec![10, 20, 30, 255]);
    let again = render_char_android(&mut cache, &mut host, 'x', 20000, [10, 20, 30, 255]).unwrap();
    assert_eq!(again.3, g.3);
    assert_eq!(host.calls, 1);
    assert!(cache.contains(('x' as u32 | 0x1000_0000, 20, 0xff0a141e)));
    assert!(!cache.contains(('x' as u32, 20, 0xff0a141e)));
    assert!(render_char_android(&mut cache, &mut NoFont, 'y', 20000, [1, 1, 1, 255]).is_none());
}

#[test]
fn filling_past_capacity_evicts_least_recent_only() {
    let mut cache = GlyphCache::new(3);
    for k in 0..3u32 {
        cache.put((k, 0, 0), (1, 1, false, vec![k as u8; 4]));
    }
    assert!(cache.get((0, 0, 0)).is_some());
    cache.put((3, 0, 0), (1, 1, false, vec![3; 4]));
    assert_eq!(cache.len(), 3);
    assert!(!cache.contains((1, 0, 0)));
    for k in [0u32, 2, 3] {
        assert!(cache.contains((k, 0, 0)));
    }
}
