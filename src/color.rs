//! Terminal colors and their RGBA8888 encoding.
use vstd::prelude::*;

verus! {

/// A terminal color, as a cell's foreground or background.
#[derive(Clone, Copy, Debug, PartialEq, Eq, Structural)]
pub enum Color {
    Reset,
    Black,
    Red,
    Green,
    Yellow,
    Blue,
    Magenta,
    Cyan,
    Gray,
    DarkGray,
    LightRed,
    LightGreen,
    LightYellow,
    LightBlue,
    LightMagenta,
    LightCyan,
    White,
    Rgb(u8, u8, u8),
    Indexed(u8),
}

/// The RGBA value of a color used as a foreground.
pub open spec fn fg_rgba(c: Color) -> [u8; 4] {
    match c {
        Color::Reset => [255u8, 255u8, 255u8, 255u8],
        Color::Black => [0u8, 0u8, 0u8, 255u8],
        Color::Red => [255u8, 0u8, 0u8, 255u8],
        Color::Green => [0u8, 255u8, 0u8, 255u8],
        Color::Yellow => [255u8, 255u8, 0u8, 255u8],
        Color::Blue => [0u8, 0u8, 255u8, 255u8],
        Color::Magenta => [255u8, 0u8, 255u8, 255u8],
        Color::Cyan => [0u8, 255u8, 255u8, 255u8],
        Color::White => [255u8, 255u8, 255u8, 255u8],
        Color::Gray => [128u8, 128u8, 128u8, 255u8],
        Color::DarkGray => [64u8, 64u8, 64u8, 255u8],
        Color::LightRed => [255u8, 128u8, 128u8, 255u8],
        Color::LightGreen => [128u8, 255u8, 128u8, 255u8],
        Color::LightYellow => [255u8, 255u8, 128u8, 255u8],
        Color::LightBlue => [128u8, 128u8, 255u8, 255u8],
        Color::LightMagenta => [255u8, 128u8, 255u8, 255u8],
        Color::LightCyan => [128u8, 255u8, 255u8, 255u8],
        Color::Rgb(r, g, b) => [r, g, b, 255u8],
        Color::Indexed(_) => [255u8, 255u8, 255u8, 255u8],
    }
}

/// The RGBA value of a color used as a background: `Reset` is opaque black.
pub open spec fn bg_rgba(c: Color) -> [u8; 4] {
    match c {
        Color::Reset => [0u8, 0u8, 0u8, 255u8],
        _ => fg_rgba(c),
    }
}

/// Converts a foreground color to RGBA.
pub fn color_to_rgba(color: Color) -> (r: [u8; 4])
    ensures
        r == fg_rgba(color),
{
    match color {
        Color::Reset => [255, 255, 255, 255],
        Color::Black => [0, 0, 0, 255],
        Color::Red => [255, 0, 0, 255],
        Color::Green => [0, 255, 0, 255],
        Color::Yellow => [255, 255, 0, 255],
        Color::Blue => [0, 0, 255, 255],
        Color::Magenta => [255, 0, 255, 255],
        Color::Cyan => [0, 255, 255, 255],
        Color::White => [255, 255, 255, 255],
        Color::Gray => [128, 128, 128, 255],
        Color::DarkGray => [64, 64, 64, 255],
        Color::LightRed => [255, 128, 128, 255],
        Color::LightGreen => [128, 255, 128, 255],
        Color::LightYellow => [255, 255, 128, 255],
        Color::LightBlue => [128, 128, 255, 255],
        Color::LightMagenta => [255, 128, 255, 255],
        Color::LightCyan => [128, 255, 255, 255],
        Color::Rgb(r, g, b) => [r, g, b, 255],
        Color::Indexed(_) => [255, 255, 255, 255],
    }
}

/// Converts a background color to RGBA.
pub fn color_to_rgba_bg(color: Color) -> (r: [u8; 4])
    ensures
        r == bg_rgba(color),
{
    match color {
        Color::Reset => [0, 0, 0, 255],
        _ => color_to_rgba(color),
    }
}

fn probe(dest: &mut [u8], i: usize)
    requires
        i < old(dest)@.len(),
    ensures
        final(dest)@ == old(dest)@.update(i as int, 7u8),
{
    dest[i] = 7;
}

/// Every color is opaque, as foreground and as background.
pub proof fn lemma_colors_opaque(fg: Color, bg: Color)
    ensures
        fg_rgba(fg)[3] == 255,
        bg_rgba(bg)[3] == 255,
{
}

} // verus!
