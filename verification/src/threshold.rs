//! Turning score grids into binary masks.

use crate::grid::GrayGrid;
use vstd::prelude::*;

verus! {

/// A grid of scores. A score is held as an unsigned integer whose order is
/// the order of the scores it stands for; which encoding that is, is the
/// caller's choice, as long as thresholds use the same one.
#[derive(Debug)]
pub struct ScoreGrid {
    pub width: u32,
    pub height: u32,
    pub scores: Vec<u32>,
}

impl ScoreGrid {
    /// The buffer holds exactly one score per cell.
    pub open spec fn wf(&self) -> bool {
        self.scores@.len() == self.width as int * self.height as int
    }
}

/// The mask value of a score under a cutoff: 1 when the score reaches it.
pub open spec fn mask_bit(score: u32, cutoff: u32) -> u8 {
    if score >= cutoff {
        1
    } else {
        0
    }
}

/// The mask of `scores` under `cutoff`, cell by cell.
pub open spec fn thresholded(scores: Seq<u32>, cutoff: u32) -> Seq<u8> {
    Seq::new(scores.len(), |i: int| mask_bit(scores[i], cutoff))
}

/// The sum of two mask values, clamped to 1.
pub open spec fn either_bit(a: u8, b: u8) -> u8 {
    if a + b >= 1 {
        1
    } else {
        0
    }
}

/// The cell-wise clamped sum of two masks of one length.
pub open spec fn combined(a: Seq<u8>, b: Seq<u8>) -> Seq<u8> {
    Seq::new(a.len(), |i: int| either_bit(a[i], b[i]))
}

/// Builds the binary mask of the cells whose score is at least `cutoff`.
pub fn threshold(grid: &ScoreGrid, cutoff: u32) -> (mask: GrayGrid)
    requires
        grid.wf(),
    ensures
        mask.width == grid.width,
        mask.height == grid.height,
        mask.wf(),
        mask.pixels@ == thresholded(grid.scores@, cutoff),
{
    let n = grid.scores.len();
    let mut pixels: Vec<u8> = Vec::with_capacity(n);
    let mut i: usize = 0;
    while i < n
        invariant
            n == grid.scores@.len(),
            i <= n,
            pixels@.len() == i,
            forall|j: int| 0 <= j < i ==> pixels@[j] == mask_bit(grid.scores@[j], cutoff),
        decreases n - i,
    {
        let bit: u8 = if grid.scores[i] >= cutoff {
            1
        } else {
            0
        };
        pixels.push(bit);
        i = i + 1;
    }
    assert(pixels@ =~= thresholded(grid.scores@, cutoff));
    GrayGrid { width: grid.width, height: grid.height, pixels }
}

/// Adds two masks of one shape cell by cell and clamps the sums to 1, so a
/// cell of the result is set when it is set in either mask.
pub fn combine(a: &GrayGrid, b: &GrayGrid) -> (mask: GrayGrid)
    requires
        a.wf(),
        b.wf(),
        a.width == b.width,
        a.height == b.height,
    ensures
        mask.width == a.width,
        mask.height == a.height,
        mask.wf(),
        mask.pixels@ == combined(a.pixels@, b.pixels@),
{
    let n = a.pixels.len();
    let mut pixels: Vec<u8> = Vec::with_capacity(n);
    let mut i: usize = 0;
    while i < n
        invariant
            n == a.pixels@.len(),
            n == b.pixels@.len(),
            i <= n,
            pixels@.len() == i,
            forall|j: int| 0 <= j < i ==> pixels@[j] == either_bit(a.pixels@[j], b.pixels@[j]),
        decreases n - i,
    {
        let sum: u16 = a.pixels[i] as u16 + b.pixels[i] as u16;
        let bit: u8 = if sum >= 1 {
            1
        } else {
            0
        };
        pixels.push(bit);
        i = i + 1;
    }
    assert(pixels@ =~= combined(a.pixels@, b.pixels@));
    GrayGrid { width: a.width, height: a.height, pixels }
}

} // verus!
