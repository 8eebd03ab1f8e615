//! A fixed-size two-dimensional pixel buffer.

use vstd::prelude::*;

use crate::color::{black, Color};

verus! {

/// Error reported when a pixel coordinate lies outside the canvas.
#[derive(Clone, Copy, PartialEq, Eq, Structural, Debug)]
pub struct RangeError;

/// A pixel buffer of fixed width and height, holding one [`Color`] per
/// coordinate pair in row-major order: the pixel at (x, y) sits at
/// index `x + width * y`.
#[derive(Debug)]
pub struct Canvas {
    pub width: usize,
    pub height: usize,
    pub pixels: Vec<Color>,
}

impl Canvas {
    /// The buffer holds exactly one color per coordinate pair.
    pub open spec fn wf(&self) -> bool {
        self.pixels@.len() == self.width * self.height
    }

    /// Whether (x, y) addresses a pixel of this canvas.
    pub open spec fn in_bounds(&self, x: int, y: int) -> bool {
        0 <= x < self.width && 0 <= y < self.height
    }

    /// Row-major position of the pixel at (x, y).
    pub open spec fn index_of(&self, x: int, y: int) -> int {
        x + self.width * y
    }
}

/// Creates a canvas of the given dimensions with every pixel black.
pub fn canvas(width: usize, height: usize) -> (c: Canvas)
    requires
        width * height <= usize::MAX,
    ensures
        c.wf(),
        c.width == width,
        c.height == height,
        forall|i: int| 0 <= i < c.pixels@.len() ==> c.pixels@[i] == black(),
{
    let len: usize = width * height;
    let mut pixels: Vec<Color> = Vec::new();
    let mut i: usize = 0;
    while i < len
        invariant
            i <= len,
            pixels@.len() == i,
            forall|j: int| 0 <= j < i ==> pixels@[j] == black(),
        decreases len - i,
    {
        pixels.push(Color { red: 0, green: 0, blue: 0 });
        i = i + 1;
    }
    Canvas { width, height, pixels }
}

/// Sets the pixel at (x, y) to the given color. An out-of-range coordinate
/// leaves the canvas unchanged: the write is silently ignored.
pub fn write_pixel(canvas: &mut Canvas, x: usize, y: usize, color: Color)
    requires
        old(canvas).wf(),
    ensures
        final(canvas).wf(),
        final(canvas).width == old(canvas).width,
        final(canvas).height == old(canvas).height,
        old(canvas).in_bounds(x as int, y as int) ==> final(canvas).pixels@
            == old(canvas).pixels@.update(old(canvas).index_of(x as int, y as int), color),
        !old(canvas).in_bounds(x as int, y as int) ==> final(canvas).pixels@
            == old(canvas).pixels@,
{
    if x < canvas.width && y < canvas.height {
        // a Vec's length is a machine integer, so the index below fits in usize
        let _pixel_count: usize = canvas.pixels.len();
        proof {
            assert(x + canvas.width * y < canvas.width * canvas.height) by (nonlinear_arith)
                requires
                    x < canvas.width,
                    y < canvas.height,
            ;
        }
        let index: usize = x + canvas.width * y;
        canvas.pixels.set(index, color);
    }
}

/// Reads the pixel at (x, y); an out-of-range coordinate is reported as
/// a [`RangeError`].
pub fn pixel_at(canvas: &Canvas, x: usize, y: usize) -> (r: Result<Color, RangeError>)
    requires
        canvas.wf(),
    ensures
        canvas.in_bounds(x as int, y as int) ==> r
            == Ok::<Color, RangeError>(canvas.pixels@[canvas.index_of(x as int, y as int)]),
        !canvas.in_bounds(x as int, y as int) ==> r == Err::<Color, RangeError>(RangeError),
{
    if x < canvas.width && y < canvas.height {
        // a Vec's length is a machine integer, so the index below fits in usize
        let _pixel_count: usize = canvas.pixels.len();
        proof {
            assert(x + canvas.width * y < canvas.width * canvas.height) by (nonlinear_arith)
                requires
                    x < canvas.width,
                    y < canvas.height,
            ;
        }
        let index: usize = x + canvas.width * y;
        Ok(canvas.pixels[index])
    } else {
        Err(RangeError)
    }
}

/// Law: writing an in-range pixel and then reading the same coordinate
/// back yields exactly the color written. The sequence below is the pixel
/// buffer after the write, as [`write_pixel`] describes it, and the indexed
/// element is what [`pixel_at`] returns for the same coordinate.
pub proof fn lemma_write_read_round_trip(
    pixels: Seq<Color>,
    width: nat,
    height: nat,
    x: int,
    y: int,
    color: Color,
)
    requires
        pixels.len() == width * height,
        0 <= x < width,
        0 <= y < height,
    ensures
        pixels.update(x + width * y, color)[x + width * y] == color,
{
    assert(x + width * y < width * height) by (nonlinear_arith)
        requires
            0 <= x < width,
            0 <= y < height,
    ;
}

} // verus!
