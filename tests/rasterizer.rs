use ratatui_android::{
    draw_frame, keyboard_geometry, resize_for_layout, AndroidBackend, AndroidConfig, Cell, Color,
    DirectKeyboard, DirectKeyboardState, GlyphCache, GlyphPixel, GlyphShaper, Rasterizer, ScreenLayout,
};

struct NoFont;

impl GlyphShaper for NoFont {
    fn shape(&mut self, _c: char, _s: u32, _w: u32, _h: u32, _color: [u8; 4]) -> Vec<GlyphPixel> {
        Vec::new()
    }

    fn render_native(&mut self, _c: char, _s: u32, _argb: u32) -> Option<Vec<u8>> {
        None
    }
}

struct Dot;

impl GlyphShaper for Dot {
    fn shape(&mut self, _c: char, _s: u32, _w: u32, _h: u32, color: [u8; 4]) -> Vec<GlyphPixel> {
        vec![GlyphPixel { x: 10, y: 10, color }]
    }

    fn render_native(&mut self, _c: char, _s: u32, _argb: u32) -> Option<Vec<u8>> {
        None
    }
}

fn px(buf: &[u8], stride: usize, x: usize, y: usize) -> [u8; 4] {
    let i = (y * stride + x) * 4;
    [buf[i], buf[i + 1], buf[i + 2], buf[i + 3]]
}

#[test]
fn test_rasterizer_new() {
    let rasterizer = Rasterizer::new(48000);
    assert_eq!(rasterizer.font_height(), 48);
    assert_eq!(rasterizer.font_width(), 29); // ceil(48 * 0.6) = ceil(28.8) = 29
}

#[test]
fn fractional_sizes_round_cells_up() {
    let r = Rasterizer::new(16900);
    assert_eq!(r.font_height(), 17);
    assert_eq!(r.font_width(), 11);
    assert_eq!(r.font_size(), 16900);
}

#[test]
fn wide_cell_takes_two_columns() {
    let mut backend = AndroidBackend::new(3, 1);
    backend.draw(vec![(0, 0, Cell::from_char('中', Color::Reset, Color::Reset))]);
    let r = Rasterizer::new(48000);
    let spans = r.layout_row(&backend, 0, 1080);
    assert_eq!(spans.len(), 2);
    assert_eq!((spans[0].column, spans[0].px_start, spans[0].width, spans[0].wide), (0, 0, 58, true));
    assert_eq!((spans[1].column, spans[1].px_start, spans[1].width), (2, 58, 29));
    assert!(spans.iter().all(|s| s.column != 1));
}

#[test]
fn spans_clip_at_window_edge() {
    let backend = AndroidBackend::new(4, 1);
    let r = Rasterizer::new(10000);
    let spans = r.layout_row(&backend, 0, 15);
    assert_eq!(spans.len(), 3);
    assert_eq!((spans[2].px_start, spans[2].width), (12, 3));
}

#[test]
fn wide_char_without_font_draws_background_and_block() {
    let mut backend = AndroidBackend::new(2, 1);
    backend.draw(vec![(0, 0, Cell::from_char('中', Color::Reset, Color::Reset))]);
    let r = Rasterizer::new(48000);
    let mut cache = GlyphCache::new(1000);
    let (w, h) = (1080usize, 1920usize);
    let mut dest = vec![0u8; w * h * 4];
    r.render_to_surface(&backend, &mut cache, &mut NoFont, &mut dest, w, w, h);
    // Background spans two cell widths by one cell height.
    assert_eq!(px(&dest, w, 40, 2), [0, 0, 0, 255]);
    assert_eq!(px(&dest, w, 57, 47), [0, 0, 0, 255]);
    assert_eq!(px(&dest, w, 58, 0), [0, 0, 0, 0]);
    assert_eq!(px(&dest, w, 0, 48), [0, 0, 0, 0]);
    // A 28 pixel white block, centred in the 58 by 48 cell: x 15..43, y 10..38.
    assert_eq!(px(&dest, w, 15, 10), [255, 255, 255, 255]);
    assert_eq!(px(&dest, w, 42, 37), [255, 255, 255, 255]);
    assert_eq!(px(&dest, w, 14, 10), [0, 0, 0, 255]);
    assert_eq!(px(&dest, w, 43, 10), [0, 0, 0, 255]);
    assert_eq!(px(&dest, w, 29, 9), [0, 0, 0, 255]);
    assert_eq!(px(&dest, w, 29, 38), [0, 0, 0, 255]);
    // Nothing outside the cell's rectangle is written.
    for y in 0..60 {
        for x in 0..120 {
            if x >= 58 || y >= 48 {
                assert_eq!(px(&dest, w, x, y), [0, 0, 0, 0]);
            }
        }
    }
}

#[test]
fn shaped_glyph_is_composited() {
    let mut backend = AndroidBackend::new(2, 1);
    backend.draw(vec![(0, 0, Cell::from_char('中', Color::Reset, Color::Reset))]);
    let r = Rasterizer::new(48000);
    let mut cache = GlyphCache::new(1000);
    let (w, h) = (1080usize, 1920usize);
    let mut dest = vec![0u8; w * h * 4];
    r.render_to_surface(&backend, &mut cache, &mut Dot, &mut dest, w, w, h);
    assert_eq!(px(&dest, w, 10, 10), [255, 255, 255, 255]);
    assert_eq!(px(&dest, w, 11, 10), [0, 0, 0, 255]);
    assert_eq!(cache.len(), 1);
}

#[test]
fn small_buffer_is_left_alone() {
    let backend = AndroidBackend::new(2, 1);
    let r = Rasterizer::new(48000);
    let mut cache = GlyphCache::new(10);
    let mut dest = vec![7u8; 100];
    r.render_to_surface(&backend, &mut cache, &mut NoFont, &mut dest, 10, 10, 10);
    assert!(dest.iter().all(|b| *b == 7));
}

#[test]
fn offsets_keep_top_rows_and_skip_bottom_rows() {
    let mut backend = AndroidBackend::new(1, 3);
    for y in 0..3 {
        backend.draw(vec![(0, y, Cell::from_char(' ', Color::Reset, Color::Red))]);
    }
    let r = Rasterizer::new(10000);
    let mut cache = GlyphCache::new(10);
    let (w, h) = (20usize, 40usize);
    let mut dest = vec![0u8; w * h * 4];
    r.render_to_surface_with_offset(&backend, &mut cache, &mut NoFont, &mut dest, w, w, h, 5, 12);
    assert_eq!(px(&dest, w, 0, 4), [0, 0, 0, 0]);
    assert_eq!(px(&dest, w, 0, 5), [255, 0, 0, 255]);
    // Cells are 6 by 10 pixels; the third row starts at pixel 25 and is cut
    // off at 40 - 12 = 28.
    assert_eq!(px(&dest, w, 5, 27), [255, 0, 0, 255]);
    assert_eq!(px(&dest, w, 6, 27), [0, 0, 0, 0]);
    assert_eq!(px(&dest, w, 0, 28), [0, 0, 0, 0]);
    assert_eq!(px(&dest, w, 10, 5), [0, 0, 0, 0]);
}

#[test]
fn frame_clears_draws_cells_and_keyboard() {
    let mut backend = AndroidBackend::new(2, 2);
    backend.draw(vec![(0, 1, Cell::from_char(' ', Color::Reset, Color::Blue))]);
    let r = Rasterizer::new(10000);
    let mut cache = GlyphCache::new(10);
    let kb = DirectKeyboard::new();
    let state = DirectKeyboardState::new();
    let (w, h) = (200usize, 300usize);
    let mut dest = vec![7u8; w * h * 4];
    draw_frame(&r, &backend, &mut cache, &mut NoFont, &kb, &state, &mut dest, w, w, h, 1, 0, 20);
    assert_eq!(keyboard_geometry(h, 20), (160, 56));
    // Above the first cell row: cleared to black.
    assert_eq!(px(&dest, w, 3, 9), [0, 0, 0, 255]);
    // Second cell row, blue background, one row down from the top offset.
    assert_eq!(px(&dest, w, 3, 25), [0, 0, 255, 255]);
    // Keyboard strip.
    assert_eq!(px(&dest, w, 0, 160), [20, 20, 20, 255]);
    assert_eq!(keyboard_geometry(50, 20), (0, 56));
}

#[test]
fn resizing_to_layout() {
    let mut backend = AndroidBackend::new(1, 1);
    let r = Rasterizer::new(48000);
    let layout = ScreenLayout::calculate(1080, 1920, 1920, &AndroidConfig::new(), &r);
    assert!(resize_for_layout(&mut backend, &layout));
    assert_eq!(backend.size(), (layout.cols, layout.rows));
    let tiny = ScreenLayout::calculate(10, 10, 10, &AndroidConfig::new(), &r);
    assert!(!resize_for_layout(&mut backend, &tiny));
    assert_eq!(backend.size(), (layout.cols, layout.rows));
}

struct HostOnly;

impl GlyphShaper for HostOnly {
    fn shape(&mut self, _c: char, _s: u32, _w: u32, _h: u32, _color: [u8; 4]) -> Vec<GlyphPixel> {
        Vec::new()
    }

    fn render_native(&mut self, _c: char, _s: u32, _argb: u32) -> Option<Vec<u8>> {
        // A 1 by 1 opaque green pixel.
        Some(vec![1, 0, 0, 0, 1, 0, 0, 0, 0, 0, 255, 0, 255])
    }
}

#[test]
fn host_rendering_is_the_second_fallback() {
    let mut backend = AndroidBackend::new(1, 1);
    backend.draw(vec![(0, 0, Cell::from_char('a', Color::Reset, Color::Reset))]);
    let r = Rasterizer::new(10000);
    let mut cache = GlyphCache::new(10);
    let (w, h) = (20usize, 20usize);
    let mut dest = vec![0u8; w * h * 4];
    r.render_to_surface(&backend, &mut cache, &mut HostOnly, &mut dest, w, w, h);
    // The 1 pixel bitmap sits centred in the 6 pixel cell: column (6 - 1) / 2.
    assert_eq!(px(&dest, w, 2, 0), [0, 255, 0, 255]);
    // No fallback block: the centre of the cell keeps its background.
    assert_eq!(px(&dest, w, 3, 5), [0, 0, 0, 255]);
}

#[test]
fn glyphs_stay_out_of_reserved_rows() {
    let mut backend = AndroidBackend::new(1, 1);
    backend.draw(vec![(0, 0, Cell::from_char('a', Color::Reset, Color::Reset))]);
    let r = Rasterizer::new(10000);
    let mut cache = GlyphCache::new(10);
    let (w, h) = (20usize, 20usize);
    let mut dest = vec![0u8; w * h * 4];
    // Only 4 rows are left above the reserved 16: the background is cut there,
    // and so is the 6 pixel fallback block, which starts at row 2.
    r.render_to_surface_with_offset(&backend, &mut cache, &mut NoFont, &mut dest, w, w, h, 0, 16);
    assert_eq!(px(&dest, w, 0, 1), [0, 0, 0, 255]);
    assert_eq!(px(&dest, w, 0, 3), [255, 255, 255, 255]);
    assert!(dest[4 * w * 4..].iter().all(|b| *b == 0));
}
