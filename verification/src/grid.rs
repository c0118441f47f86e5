use vstd::prelude::*;

verus! {

/// A rectangular grid of 8-bit RGB pixels, stored row-major. This is the
/// compiler's input: an external raster decoder produces it, the pipeline
/// only reads it.
pub struct Grid {
    pub width: u32,
    pub height: u32,
    pub pixels: Vec<(u8, u8, u8)>,
}

impl Grid {
    /// Well-formedness: at least one pixel, a pixel value for every cell,
    /// and dimensions small enough that every cell can contribute its 16
    /// automaton states to an index that fits a `usize`.
    pub open spec fn wf(self) -> bool {
        &&& self.width >= 1
        &&& self.height >= 1
        &&& self.pixels@.len() == self.width * self.height
        &&& self.width * self.height * 16 <= usize::MAX
    }

    pub open spec fn in_bounds(self, x: int, y: int) -> bool {
        0 <= x < self.width && 0 <= y < self.height
    }

    /// The RGB value at a cell.
    pub open spec fn spec_rgb(self, x: int, y: int) -> (u8, u8, u8) {
        self.pixels@[y * self.width + x]
    }

    pub fn new(width: u32, height: u32, pixels: Vec<(u8, u8, u8)>) -> (g: Grid)
        requires
            width >= 1,
            height >= 1,
            pixels@.len() == width * height,
            width * height * 16 <= usize::MAX,
        ensures
            g.wf(),
            g.width == width,
            g.height == height,
            g.pixels == pixels,
    {
        Grid { width, height, pixels }
    }

    pub fn rgb(&self, x: u32, y: u32) -> (p: (u8, u8, u8))
        requires
            self.wf(),
            self.in_bounds(x as int, y as int),
        ensures
            p == self.spec_rgb(x as int, y as int),
    {
        proof {
            lemma_row_major_index(self.width as int, self.height as int, x as int, y as int);
        }
        let idx: usize = (y as usize) * (self.width as usize) + (x as usize);
        self.pixels[idx]
    }
}

/// A row-major index lies strictly below `width * height`.
pub proof fn lemma_row_major_index(width: int, height: int, x: int, y: int)
    requires
        0 <= x < width,
        0 <= y < height,
    ensures
        0 <= y * width + x < width * height,
{
    assert(y * width + x < width * height) by (nonlinear_arith)
        requires
            0 <= x < width,
            0 <= y < height,
    ;
    assert(y * width >= 0) by (nonlinear_arith)
        requires
            y >= 0,
            width > 0,
    ;
}

} // verus!
