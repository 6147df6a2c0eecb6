//! Rendering primitives: the canvas, the PPM image format and the order of scanlines.

pub mod canvas;
pub mod ppm;
pub mod scanlines;

pub use canvas::Canvas;
pub use scanlines::Scanlines;
