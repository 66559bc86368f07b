//! Text compositing on a raster canvas: a two-color gradient background, a
//! foreground color chosen to contrast with it, the bounding box of a run of
//! glyphs, and the compositing of glyph coverage onto the canvas.
pub mod background;
pub mod canvas;
pub mod color;
pub mod compositor;
pub mod layout;
pub mod sample;
