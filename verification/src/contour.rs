//! Tracing the border of a grown mask and fitting a rectangle around it.

use crate::grid::{cell_index, in_grid, GrayGrid};
use image::GrayImage;
use vstd::prelude::*;

verus! {

/// A cell position, or a corner of a fitted rectangle.
#[derive(Clone, Copy, Debug, PartialEq, Eq, Structural)]
pub struct Point {
    pub x: i32,
    pub y: i32,
}

/// The four corners of a fitted rectangle.
#[derive(Clone, Copy, Debug, PartialEq, Eq, Structural)]
pub struct Quad {
    pub top_left: Point,
    pub top_right: Point,
    pub bottom_right: Point,
    pub bottom_left: Point,
}

/// The largest coordinate of a point that a rectangle is fitted around: the
/// fitter multiplies differences of coordinates in 32 bits.
pub const MAX_COORDINATE: i32 = 32767;

/// The borders that `imageproc::contours::find_contours` finds in a grid, in
/// the order in which it finds them, each as the cells it passes. The
/// tracer works on whole numbers only.
pub uninterp spec fn traced_contours(pixels: Seq<u8>, width: int, height: int) -> Seq<Seq<Point>>;

/// Every point lies in a grid of the given size.
pub open spec fn points_within(points: Seq<Point>, width: int, height: int) -> bool {
    forall|j: int|
        0 <= j < points.len() ==> 0 <= (#[trigger] points[j]).x < width && 0 <= points[j].y
            < height
}

/// Every point is a cell of the grid that is not 0.
pub open spec fn points_set(points: Seq<Point>, pixels: Seq<u8>, width: int) -> bool {
    forall|j: int|
        0 <= j < points.len() ==> pixels[cell_index(
            width,
            (#[trigger] points[j]).x as int,
            points[j].y as int,
        )] != 0
}

/// No point occurs twice.
pub open spec fn no_repeats(points: Seq<Point>) -> bool {
    forall|i: int, j: int| 0 <= i < j < points.len() ==> points[i] != points[j]
}

/// The points of `points` in the order of their first occurrence.
pub open spec fn first_occurrences(points: Seq<Point>) -> Seq<Point>
    decreases points.len(),
{
    if points.len() == 0 {
        Seq::empty()
    } else {
        let rest = first_occurrences(points.drop_last());
        if rest.contains(points.last()) {
            rest
        } else {
            rest.push(points.last())
        }
    }
}

/// Some cell that is not 0 has a cell that is 0 directly to its left or
/// directly to its right.
pub open spec fn has_border(pixels: Seq<u8>, width: int, height: int) -> bool {
    exists|x: int, y: int|
        in_grid(width, height, x, y) && pixels[#[trigger] cell_index(width, x, y)] != 0 && ((x
            > 0 && pixels[cell_index(width, x - 1, y)] == 0) || (x + 1 < width && pixels[cell_index(
            width,
            x + 1,
            y,
        )] == 0))
}

/// `imageproc::contours::find_contours`: follows the borders of the regions
/// of cells that are not 0.
///
/// It reads the grid row by row and starts a border at a cell that is not 0
/// and has a cell that is 0 directly to its left or right, so it returns at
/// least one border exactly when there is such a cell. Every border passes
/// at least one cell, and all cells it passes lie in the grid and are not 0.
/// It counts the borders in 32 bits and starts at most one per cell, which
/// bounds the number of cells.
#[verifier::external_body]
pub(crate) fn find_contours(image: &GrayGrid) -> (contours: Vec<Vec<Point>>)
    requires
        image.wf(),
        image.width <= 0x7fff_ffff,
        image.height <= 0x7fff_ffff,
        (image.width as int) * (image.height as int) < 0x7fff_ffff,
    ensures
        contours@.len() == traced_contours(
            image.pixels@,
            image.width as int,
            image.height as int,
        ).len(),
        contours@.len() > 0 <==> has_border(
            image.pixels@,
            image.width as int,
            image.height as int,
        ),
        forall|i: int|
            0 <= i < contours@.len() ==> {
                &&& (#[trigger] contours@[i])@ == traced_contours(
                    image.pixels@,
                    image.width as int,
                    image.height as int,
                )[i]
                &&& contours@[i]@.len() > 0
                &&& points_within(contours@[i]@, image.width as int, image.height as int)
                &&& points_set(contours@[i]@, image.pixels@, image.width as int)
            },
{
    let buffer = GrayImage::from_raw(image.width, image.height, image.pixels.clone()).unwrap();
    imageproc::contours::find_contours::<i32>(&buffer)
        .into_iter()
        .map(|c| c.points.into_iter().map(|p| Point { x: p.x, y: p.y }).collect())
        .collect()
}

/// `imageproc::geometry::min_area_rect`: the corners of the rectangle of
/// least area, of any orientation, around the points, in the order top
/// left, top right, bottom right, bottom left.
///
/// Nothing is stated of the corners. The fitter turns the points with
/// `atan2` and `sin_cos` and rounds the turned corners to whole cells, and
/// the standard library leaves the last bits of those functions open, so
/// the same points need not give the same corners everywhere.
///
/// It panics on an empty list. It multiplies differences of coordinates in
/// 32 bits, which coordinates up to [`MAX_COORDINATE`] keep from
/// overflowing. It sorts the points around the lowest one with a comparison
/// that never answers "equal": of two points in one direction the one that
/// is not nearer comes later, so of two equal points each comes after the
/// other. The standard library's sort does not promise to return on such a
/// comparison, so the points are asked to differ; on points that differ the
/// comparison is a strict order.
#[verifier::external_body]
pub(crate) fn min_area_rect(points: &Vec<Point>) -> (rect: Quad)
    requires
        points@.len() > 0,
        points_within(points@, MAX_COORDINATE as int + 1, MAX_COORDINATE as int + 1),
        no_repeats(points@),
{
    let given: Vec<imageproc::point::Point<i32>> =
        points.iter().map(|p| imageproc::point::Point::new(p.x, p.y)).collect();
    let [a, b, c, d] = imageproc::geometry::min_area_rect(&given);
    Quad {
        top_left: Point { x: a.x, y: a.y },
        top_right: Point { x: b.x, y: b.y },
        bottom_right: Point { x: c.x, y: c.y },
        bottom_left: Point { x: d.x, y: d.y },
    }
}

/// Whether `points` holds `p`.
fn holds_point(points: &Vec<Point>, p: Point) -> (found: bool)
    ensures
        found == points@.contains(p),
{
    let mut i: usize = 0;
    while i < points.len()
        invariant
            i <= points.len(),
            forall|j: int| 0 <= j < i ==> points@[j] != p,
        decreases points.len() - i,
    {
        if points[i].x == p.x && points[i].y == p.y {
            assert(points@[i as int] == p);
            return true;
        }
        i = i + 1;
    }
    false
}

/// Keeps the first occurrence of every point, in order.
pub fn distinct_points(points: &Vec<Point>) -> (kept: Vec<Point>)
    ensures
        kept@ == first_occurrences(points@),
{
    let mut kept: Vec<Point> = Vec::new();
    let mut i: usize = 0;
    while i < points.len()
        invariant
            i <= points.len(),
            kept@ == first_occurrences(points@.take(i as int)),
        decreases points.len() - i,
    {
        proof {
            let upto = points@.take(i + 1);
            assert(upto.drop_last() =~= points@.take(i as int));
            assert(upto.last() == points@[i as int]);
        }
        let p = points[i];
        if !holds_point(&kept, p) {
            kept.push(p);
        }
        i = i + 1;
    }
    assert(points@.take(points@.len() as int) =~= points@);
    kept
}

/// The first occurrences of a list's points hold the same points, none of
/// them twice, and at least one when the list is not empty.
pub proof fn lemma_first_occurrences(points: Seq<Point>)
    ensures
        no_repeats(first_occurrences(points)),
        forall|p: Point| first_occurrences(points).contains(p) <==> points.contains(p),
        points.len() > 0 ==> first_occurrences(points).len() > 0,
    decreases points.len(),
{
    if points.len() > 0 {
        let init = points.drop_last();
        let last = points.last();
        let rest = first_occurrences(init);
        let all = first_occurrences(points);
        lemma_first_occurrences(init);
        assert forall|p: Point| all.contains(p) <==> points.contains(p) by {
            if points.contains(p) {
                let j = choose|j: int| 0 <= j < points.len() && points[j] == p;
                if j < points.len() - 1 {
                    assert(init[j] == p);
                    assert(init.contains(p));
                    assert(rest.contains(p));
                    let m = choose|m: int| 0 <= m < rest.len() && rest[m] == p;
                    assert(all[m] == p);
                } else {
                    if !rest.contains(last) {
                        assert(all[all.len() - 1] == p);
                    }
                }
            }
            if all.contains(p) {
                let m = choose|m: int| 0 <= m < all.len() && all[m] == p;
                if m < rest.len() {
                    assert(rest[m] == p);
                    assert(rest.contains(p));
                    assert(init.contains(p));
                    let j = choose|j: int| 0 <= j < init.len() && init[j] == p;
                    assert(points[j] == p);
                } else {
                    assert(p == last);
                    assert(points[points.len() - 1] == p);
                }
            }
        }
        assert(no_repeats(all)) by {
            assert forall|i: int, j: int| 0 <= i < j < all.len() implies all[i] != all[j] by {
                if j < rest.len() {
                    assert(rest[i] != rest[j]);
                } else {
                    assert(rest[i] == all[i]);
                    assert(rest.contains(all[i]));
                }
            }
        }
    }
}

} // verus!
