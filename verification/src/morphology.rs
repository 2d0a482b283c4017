//! How far a component's mask is grown, and the growing itself.

use crate::grid::{cell_index, in_grid, GrayGrid};
use image::GrayImage;
use imageproc::distance_transform::Norm;
use vstd::prelude::*;

verus! {

/// The smaller of two numbers.
pub open spec fn smaller(a: int, b: int) -> int {
    if a <= b {
        a
    } else {
        b
    }
}

/// `n` is the whole part of `2 * sqrt(area * min(w, h) / (w * h))`, written
/// without roots and fractions.
pub open spec fn is_rounds(area: int, w: int, h: int, n: int) -> bool {
    &&& n >= 0
    &&& n * n * (w * h) <= 4 * area * smaller(w, h)
    &&& 4 * area * smaller(w, h) < (n + 1) * (n + 1) * (w * h)
}

/// The number of extra growing rounds for a component of `area` cells whose
/// box is `w` cells wide and `h` cells high: the whole part of
/// `2 * sqrt(area * min(w, h) / (w * h))`. A box is at least one cell wide
/// and one cell high.
pub open spec fn rounds(area: int, w: int, h: int) -> int {
    choose|n: int| is_rounds(area, w, h, n)
}

/// At most one number is the whole part of the root.
pub proof fn lemma_rounds_unique(area: int, w: int, h: int, n1: int, n2: int)
    requires
        w > 0,
        h > 0,
        is_rounds(area, w, h, n1),
        is_rounds(area, w, h, n2),
    ensures
        n1 == n2,
{
    let wh = w * h;
    assert(wh > 0) by (nonlinear_arith)
        requires
            w > 0,
            h > 0,
            wh == w * h,
    ;
    if n1 < n2 {
        assert((n1 + 1) * (n1 + 1) * wh <= n2 * n2 * wh) by (nonlinear_arith)
            requires
                0 <= n1,
                n1 + 1 <= n2,
                wh > 0,
        ;
    }
    if n2 < n1 {
        assert((n2 + 1) * (n2 + 1) * wh <= n1 * n1 * wh) by (nonlinear_arith)
            requires
                0 <= n2,
                n2 + 1 <= n1,
                wh > 0,
        ;
    }
}

/// Computes the number of extra growing rounds for a component of `area`
/// cells whose box is `w` cells wide and `h` cells high.
pub fn dilation_rounds(area: u32, w: u32, h: u32) -> (n: u32)
    requires
        w >= 1,
        h >= 1,
    ensures
        n == rounds(area as int, w as int, h as int),
        is_rounds(area as int, w as int, h as int, n as int),
        n < 0x2_0000,
{
    let longer: u64 = if w >= h {
        w as u64
    } else {
        h as u64
    };
    let shorter: u64 = if w >= h {
        h as u64
    } else {
        w as u64
    };
    let q: u64 = (4 * (area as u64)) / longer;
    let mut lo: u64 = 0;
    let mut hi: u64 = 0x2_0000;
    while hi - lo > 1
        invariant
            lo < hi <= 0x2_0000,
            lo * lo <= q,
            q < hi * hi,
        decreases hi - lo,
    {
        let mid: u64 = lo + (hi - lo) / 2;
        assert(mid * mid <= 0x2_0000 * 0x2_0000) by (nonlinear_arith)
            requires
                0 <= mid <= 0x2_0000,
        ;
        if mid * mid <= q {
            lo = mid;
        } else {
            hi = mid;
        }
    }
    proof {
        let a = area as int;
        let n = lo as int;
        let l = longer as int;
        let s = shorter as int;
        let qi = q as int;
        assert(s == smaller(w as int, h as int));
        assert(w as int * h as int == l * s) by (nonlinear_arith)
            requires
                (l == w && s == h) || (l == h && s == w),
        ;
        assert(qi * l <= 4 * a && 4 * a < (qi + 1) * l) by {
            vstd::arithmetic::div_mod::lemma_fundamental_div_mod(4 * a, l);
            vstd::arithmetic::div_mod::lemma_mod_bound(4 * a, l);
            assert(l * qi == qi * l) by (nonlinear_arith);
            assert((qi + 1) * l == qi * l + l) by (nonlinear_arith);
        }
        assert(n * n * l <= 4 * a) by (nonlinear_arith)
            requires
                n * n <= qi,
                qi * l <= 4 * a,
                l > 0,
        ;
        assert(4 * a < (n + 1) * (n + 1) * l) by (nonlinear_arith)
            requires
                qi + 1 <= (n + 1) * (n + 1),
                4 * a < (qi + 1) * l,
                l > 0,
        ;
        assert(n * n * (l * s) <= 4 * a * s) by (nonlinear_arith)
            requires
                n * n * l <= 4 * a,
                s > 0,
        ;
        assert(4 * a * s < (n + 1) * (n + 1) * (l * s)) by (nonlinear_arith)
            requires
                4 * a < (n + 1) * (n + 1) * l,
                s > 0,
        ;
        assert(is_rounds(a, w as int, h as int, n));
        lemma_rounds_unique(a, w as int, h as int, n, rounds(a, w as int, h as int));
    }
    lo as u32
}

/// The reach of the growing for a component: one round more than
/// [`rounds`], kept in the eight bits that the growing takes.
pub open spec fn reach(area: int, w: int, h: int) -> int {
    (1 + rounds(area, w, h)) % 256
}

/// Computes the reach of the growing for a component of `area` cells whose
/// box is `w` cells wide and `h` cells high.
pub fn dilation_reach(area: u32, w: u32, h: u32) -> (k: u8)
    requires
        w >= 1,
        h >= 1,
    ensures
        k == reach(area as int, w as int, h as int),
{
    let n = dilation_rounds(area, w, h);
    ((1 + n) % 256) as u8
}

/// The distance between two cells when only steps along rows and columns
/// count.
pub open spec fn l1_distance(x1: int, y1: int, x2: int, y2: int) -> int {
    (if x1 >= x2 {
        x1 - x2
    } else {
        x2 - x1
    }) + (if y1 >= y2 {
        y1 - y2
    } else {
        y2 - y1
    })
}

/// Some cell of the grid that is not 0 lies within `k` steps of `(x, y)`.
pub open spec fn near_foreground(
    pixels: Seq<u8>,
    width: int,
    height: int,
    x: int,
    y: int,
    k: int,
) -> bool {
    exists|x2: int, y2: int|
        in_grid(width, height, x2, y2) && pixels[#[trigger] cell_index(width, x2, y2)] != 0
            && l1_distance(x, y, x2, y2) <= k
}

/// The largest distance that the growing can tell apart in a grid.
pub open spec fn distance_cap(width: int, height: int) -> int {
    smaller(width + height, 255)
}

/// The value of the cell `(x, y)` after growing the grid by `k`: 255 when a
/// cell that is not 0 lies within `k` steps, and also when `k` is no smaller
/// than the largest distance that can be told apart; else 0.
pub open spec fn grown_value(
    pixels: Seq<u8>,
    width: int,
    height: int,
    x: int,
    y: int,
    k: int,
) -> u8 {
    if near_foreground(pixels, width, height, x, y, k) || distance_cap(width, height) <= k {
        255
    } else {
        0
    }
}

/// The grid grown by `k`, cell by cell in row-major order.
pub open spec fn grown_pixels(pixels: Seq<u8>, width: int, height: int, k: int) -> Seq<u8> {
    Seq::new(
        pixels.len(),
        |i: int| grown_value(pixels, width, height, i % width, i / width, k),
    )
}

/// `imageproc::morphology::dilate_mut` with the L1 norm. It computes for
/// every cell the distance to the nearest cell that is not 0, counted in
/// steps along rows and columns and cut off at `min(width + height, 255)`,
/// and sets the cell to 255 when that distance is at most `k`, else to 0.
#[verifier::external_body]
pub(crate) fn dilate(image: &GrayGrid, k: u8) -> (out: GrayGrid)
    requires
        image.wf(),
        image.width as int + image.height as int <= u32::MAX,
    ensures
        out.width == image.width,
        out.height == image.height,
        out.pixels@ == grown_pixels(
            image.pixels@,
            image.width as int,
            image.height as int,
            k as int,
        ),
{
    let mut buffer = GrayImage::from_raw(image.width, image.height, image.pixels.clone()).unwrap();
    imageproc::morphology::dilate_mut(&mut buffer, Norm::L1, k);
    GrayGrid { width: image.width, height: image.height, pixels: buffer.into_raw() }
}

} // verus!
