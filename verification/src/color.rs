//! Colors as triples of channel encodings.

use vstd::prelude::*;

verus! {

/// A color: red, green and blue channels, each held as the 64-bit encoding
/// of the channel's intensity. The raster layer stores and returns these
/// encodings unchanged; producing and interpreting them is the caller's
/// concern, so arithmetic on colors lives with the caller too.
#[derive(Clone, Copy, PartialEq, Eq, Structural, Debug)]
pub struct Color {
    pub red: u64,
    pub green: u64,
    pub blue: u64,
}

/// The color whose three channel encodings are all zero: black, the
/// initial fill of a canvas.
pub open spec fn black() -> Color {
    Color { red: 0, green: 0, blue: 0 }
}

/// Builds a color from three channel encodings.
pub fn color(red: u64, green: u64, blue: u64) -> (c: Color)
    ensures
        c == (Color { red, green, blue }),
{
    Color { red, green, blue }
}

} // verus!
