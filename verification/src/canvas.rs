//! A width x height grid of colors, stored row by row.

use crate::color::Color;
use vstd::prelude::*;

verus! {

/// A grid of colors in row-major order: the cell `(x, y)` is stored at index
/// `width * y + x`.
pub struct Canvas {
    pub width: usize,
    pub height: usize,
    pub pixels: Vec<Color>,
}

/// The mathematical content of a [`Canvas`].
pub struct CanvasView {
    pub width: nat,
    pub height: nat,
    pub pixels: Seq<Color>,
}

impl CanvasView {
    /// Index of the cell `(x, y)` in `pixels`.
    pub open spec fn index(self, x: int, y: int) -> int {
        self.width * y + x
    }

    /// The stored sequence holds exactly one color per cell.
    pub open spec fn well_formed(self) -> bool {
        self.pixels.len() == self.width * self.height
    }

    /// The stored sequence holds at least one color per cell, so that every
    /// cell of the grid can be read.
    pub open spec fn covers_grid(self) -> bool {
        self.width * self.height <= self.pixels.len()
    }
}

impl View for Canvas {
    type V = CanvasView;

    open spec fn view(&self) -> CanvasView {
        CanvasView {
            width: self.width as nat,
            height: self.height as nat,
            pixels: self.pixels@,
        }
    }
}

/// In a grid that stores a color for each cell, every cell's index is in range.
pub proof fn lemma_cell_in_range(canvas: CanvasView, x: int, y: int)
    requires
        canvas.covers_grid(),
        0 <= x < canvas.width,
        0 <= y < canvas.height,
    ensures
        0 <= canvas.index(x, y) < canvas.pixels.len(),
        canvas.index(x, y) < canvas.width * canvas.height,
{
    let w = canvas.width as int;
    let h = canvas.height as int;
    assert(w * y + w <= w * h) by (nonlinear_arith)
        requires
            0 <= y < h,
            0 <= w,
    ;
}

impl Canvas {
    /// Whether the stored sequence holds exactly `width * height` colors.
    pub open spec fn well_formed(&self) -> bool {
        self@.well_formed()
    }

    /// The bounds test of [`Canvas::pixel_at`]. It admits `x == width`: such
    /// a coordinate names the first cell of the next row.
    pub open spec fn index_is_valid_spec(&self, x: usize, y: usize) -> bool {
        x <= self.width && y < self.height
    }

    /// A canvas of `width * height` cells, all black.
    pub fn new(width: usize, height: usize) -> (canvas: Canvas)
        requires
            width * height <= usize::MAX,
        ensures
            canvas.width == width,
            canvas.height == height,
            canvas.pixels@ == Seq::new((width * height) as nat, |i: int| Color::black()),
            canvas.well_formed(),
    {
        let pixels = vec![Color::new(0, 0, 0); width * height];
        Canvas { width, height, pixels }
    }

    /// The same canvas with its colors replaced by `pixels`. The length is
    /// not checked: the result is well formed only if `pixels` holds
    /// `width * height` colors.
    pub fn with_pixels(self, pixels: Vec<Color>) -> (canvas: Canvas)
        ensures
            canvas.width == self.width,
            canvas.height == self.height,
            canvas.pixels == pixels,
    {
        let mut canvas = self;
        canvas.pixels = pixels;
        canvas
    }

    /// The color at `(x, y)`, or `None` if `x > width` or `y >= height`.
    ///
    /// The column test is permissive: with `x == width` the result is the
    /// color stored at `width * y + width`, the first cell of row `y + 1`.
    /// The caller must know that a coordinate which passes the test is
    /// backed by a stored color; on a well-formed canvas that excludes only
    /// `x == width` in the last row.
    pub fn pixel_at(&self, x: usize, y: usize) -> (pixel: Option<&Color>)
        requires
            self.index_is_valid_spec(x, y) ==> self.width * y + x < self.pixels.len(),
        ensures
            y >= self.height ==> pixel is None,
            x > self.width ==> pixel is None,
            self.index_is_valid_spec(x, y) ==> pixel == Some(
                &self.pixels[self.width * y + x],
            ),
    {
        if !self.index_is_valid(x, y) {
            return None;
        }
        Some(&self.pixels[self.width * y + x])
    }

    /// Stores `color` at `(x, y)`; every other cell keeps its color.
    pub fn set_pixel(&mut self, x: usize, y: usize, color: Color)
        requires
            old(self).width * y + x < old(self).pixels.len(),
        ensures
            final(self).width == old(self).width,
            final(self).height == old(self).height,
            final(self).pixels@ == old(self).pixels@.update(old(self).width * y + x, color),
    {
        let index = self.width * y + x;
        self.pixels.set(index, color);
    }

    /// Whether `(x, y)` passes the bounds test of [`Canvas::pixel_at`].
    pub fn index_is_valid(&self, x: usize, y: usize) -> (valid: bool)
        ensures
            valid == self.index_is_valid_spec(x, y),
    {
        x <= self.width && y < self.height
    }
}

} // verus!
