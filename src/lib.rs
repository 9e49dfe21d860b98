//! Rendering core for text user interfaces on Android: an in-memory cell
//! buffer, a glyph cache, a software rasterizer and an on-screen keyboard
//! overlay, all writing RGBA8888 pixels into a caller-owned buffer.

pub mod backend;
pub mod color;
pub mod direct_keyboard;
pub mod fonts;
pub mod frame;
pub mod glyph;
pub mod glyph_cache;
pub mod input;
pub mod keyboard_widget;
pub mod layout;
pub mod lifecycle;
pub mod rasterizer;
pub mod visibility;

pub use backend::{AndroidBackend, Cell, CellView, Rect, WindowSize};
pub use color::{color_to_rgba, color_to_rgba_bg, Color};
pub use direct_keyboard::{DirectKeyboard, DirectKeyboardState, KeyRect};
pub use fonts::{load_font_data, warm_cache, ShapingEngine};
pub use frame::{draw_frame, keyboard_geometry, resize_for_layout};
pub use glyph::{is_wide_char, GlyphPixel, GlyphShaper};
pub use glyph_cache::{CachedChar, GlyphCache, GlyphKey, GLYPH_CACHE_CAPACITY};
pub use input::{
    cell_at_pixel, key_event_for_name, Button, InputState, KeyCode, KeyPress, TouchAction,
};
pub use keyboard_widget::{KeyboardState, KeyboardWidget};
pub use layout::{AndroidConfig, ScreenLayout};
pub use lifecycle::{Orientation, SavedState};
pub use rasterizer::{CellSpan, Rasterizer};
pub use visibility::{
    check_keyboard_visibility_changed, detect_keyboard_visibility, get_visible_height,
    hide_soft_keyboard, is_soft_keyboard_visible, show_soft_keyboard, KeyboardVisibility,
};
