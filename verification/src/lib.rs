//! Scanline polygon rasterization over an RGB pixel buffer.
//!
//! The crate draws straight segments with Bresenham's integer stepping
//! algorithm and fills closed polygons with the even-odd scanline rule.
//! Both operations clip per pixel: coordinates outside the buffer are
//! skipped, never an error.

pub mod canvas;
pub mod fill;
pub mod geom;
pub mod laws;
pub mod line;
