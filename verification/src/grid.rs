//! Row-major grids of pixels, labels and scores.

use vstd::prelude::*;

verus! {

/// The position of the cell `(x, y)` in a row-major buffer of the given width.
pub open spec fn cell_index(width: int, x: int, y: int) -> int {
    y * width + x
}

/// Whether `(x, y)` lies inside a grid of the given size.
pub open spec fn in_grid(width: int, height: int, x: int, y: int) -> bool {
    0 <= x < width && 0 <= y < height
}

/// Whether `(x1, y1)` comes strictly before `(x2, y2)` when rows are read
/// top to bottom and each row left to right.
pub open spec fn raster_before(x1: int, y1: int, x2: int, y2: int) -> bool {
    y1 < y2 || (y1 == y2 && x1 < x2)
}

/// Cells of one row-major grid have distinct positions in its buffer, and
/// every position lies inside the buffer.
pub proof fn lemma_cell_index_bounds(width: int, height: int, x: int, y: int)
    requires
        in_grid(width, height, x, y),
    ensures
        0 <= cell_index(width, x, y) < width * height,
{
    assert(y * width + x < width * height) by (nonlinear_arith)
        requires
            0 <= x < width,
            0 <= y < height,
    ;
    assert(0 <= y * width + x) by (nonlinear_arith)
        requires
            0 <= x,
            0 <= y,
            0 < width,
    ;
}

/// Two cells with the same buffer position are the same cell.
pub proof fn lemma_cell_index_injective(width: int, x1: int, y1: int, x2: int, y2: int)
    requires
        0 <= x1 < width,
        0 <= x2 < width,
        cell_index(width, x1, y1) == cell_index(width, x2, y2),
    ensures
        x1 == x2,
        y1 == y2,
{
    assert(y1 == y2) by (nonlinear_arith)
        requires
            0 <= x1 < width,
            0 <= x2 < width,
            y1 * width + x1 == y2 * width + x2,
    ;
    assert(y1 * width == y2 * width);
}

/// Every position of the buffer is the position of a cell of the grid.
pub proof fn lemma_cell_of_index(width: int, height: int, i: int)
    requires
        0 < width,
        0 <= i < width * height,
    ensures
        in_grid(width, height, i % width, i / width),
        cell_index(width, i % width, i / width) == i,
{
    vstd::arithmetic::div_mod::lemma_fundamental_div_mod(i, width);
    vstd::arithmetic::div_mod::lemma_mod_bound(i, width);
    let q = i / width;
    assert(width * q == q * width) by (nonlinear_arith);
    assert(0 <= q) by (nonlinear_arith)
        requires
            0 <= i,
            0 < width,
            q == i / width,
    ;
    assert(q < height) by (nonlinear_arith)
        requires
            q * width + i % width == i,
            0 <= i % width,
            i < width * height,
            0 < width,
    ;
}

/// A cell at a smaller position comes earlier in the row-by-row reading.
pub proof fn lemma_raster_order(width: int, x1: int, y1: int, x2: int, y2: int)
    requires
        0 <= x1 < width,
        0 <= x2 < width,
        cell_index(width, x1, y1) < cell_index(width, x2, y2),
    ensures
        raster_before(x1, y1, x2, y2),
{
    assert(y1 <= y2) by (nonlinear_arith)
        requires
            0 <= x1 < width,
            0 <= x2 < width,
            y1 * width + x1 < y2 * width + x2,
    ;
    if y1 == y2 {
        assert(y1 * width == y2 * width);
    }
}

/// A cell that comes earlier in the row-by-row reading has a smaller position.
pub proof fn lemma_index_order(width: int, x1: int, y1: int, x2: int, y2: int)
    requires
        0 <= x1 < width,
        0 <= x2 < width,
        raster_before(x1, y1, x2, y2),
    ensures
        cell_index(width, x1, y1) < cell_index(width, x2, y2),
{
    if y1 < y2 {
        assert(y1 * width + x1 < y2 * width + x2) by (nonlinear_arith)
            requires
                0 <= x1 < width,
                0 <= x2 < width,
                y1 + 1 <= y2,
        ;
    }
}

/// An 8-bit single-channel image.
#[derive(Debug)]
pub struct GrayGrid {
    pub width: u32,
    pub height: u32,
    pub pixels: Vec<u8>,
}

impl GrayGrid {
    /// The buffer holds exactly one byte per cell.
    pub open spec fn wf(&self) -> bool {
        self.pixels@.len() == self.width as int * self.height as int
    }

    /// Whether `(x, y)` is a cell of this grid.
    pub open spec fn has(&self, x: int, y: int) -> bool {
        in_grid(self.width as int, self.height as int, x, y)
    }

    /// The value of the cell `(x, y)`.
    pub open spec fn at(&self, x: int, y: int) -> u8 {
        self.pixels@[cell_index(self.width as int, x, y)]
    }
}

/// A grid of component labels; label 0 is the background.
#[derive(Debug)]
pub struct LabelGrid {
    pub width: u32,
    pub height: u32,
    pub labels: Vec<u32>,
}

impl LabelGrid {
    /// The buffer holds exactly one label per cell.
    pub open spec fn wf(&self) -> bool {
        self.labels@.len() == self.width as int * self.height as int
    }

    /// Whether `(x, y)` is a cell of this grid.
    pub open spec fn has(&self, x: int, y: int) -> bool {
        in_grid(self.width as int, self.height as int, x, y)
    }

    /// The label of the cell `(x, y)`.
    pub open spec fn at(&self, x: int, y: int) -> u32 {
        self.labels@[cell_index(self.width as int, x, y)]
    }
}

} // verus!
