//! Raster core of a small ray tracer: a pixel buffer addressed by (x, y)
//! and a verified encoder for the textual PPM image format.
//!
//! Colors are carried as opaque 64-bit channel encodings; the buffer stores
//! and returns them unchanged. Scaling a channel to its 0..=255 output value
//! is split in two: the caller multiplies and rounds, and [`ppm::clamp_srgb`]
//! clamps the rounded value. Assembling the PPM text, with its line-length
//! cap and per-row line breaks, is fully verified in [`ppm`].

pub mod canvas;
pub mod color;
pub mod decimal;
pub mod ppm;

pub use canvas::{canvas, pixel_at, write_pixel, Canvas, RangeError};
pub use color::{color, Color};
pub use decimal::to_decimal;
pub use ppm::{build_ppm_body, clamp_srgb, convert_srgb_channel_to_ppm_string, encode_ppm};
