//! Connected-component labelling with per-component statistics.

use crate::connectivity::{connected, Connectivity};
use crate::grid::{raster_before, GrayGrid, LabelGrid};
use crate::relabel::relabel;
use crate::scan::scan_cells;
use imageproc::union_find::DisjointSetForest;
use vstd::prelude::*;

verus! {

/// The bounding box and the area of every component, indexed by label.
/// Entry 0 belongs to the background and is never filled in.
#[derive(Debug)]
pub struct Stats {
    pub left: Vec<u32>,
    pub top: Vec<u32>,
    pub right: Vec<u32>,
    pub bottom: Vec<u32>,
    pub area: Vec<u32>,
}

impl Default for Stats {
    fn default() -> (stats: Stats)
        ensures
            stats.left@.len() == 0,
            stats.top@.len() == 0,
            stats.right@.len() == 0,
            stats.bottom@.len() == 0,
            stats.area@.len() == 0,
    {
        Stats {
            left: Vec::new(),
            top: Vec::new(),
            right: Vec::new(),
            bottom: Vec::new(),
            area: Vec::new(),
        }
    }
}

/// What the labeler returns.
#[derive(Debug)]
pub struct ConnectedComponentsResult {
    pub stats: Stats,
    /// One more than the number of components: label 0 is the background.
    /// On an image without cells it is 0.
    pub num_labels: usize,
    pub labels: LabelGrid,
}

/// Why an image cannot be labelled.
#[derive(Clone, Copy, Debug, PartialEq, Eq, Structural)]
pub enum LabelError {
    /// The image has 2^32 cells or more.
    CapacityExceeded,
}

/// The number of cells among the first `upto` of `labels` that hold `label`.
pub open spec fn count_upto(labels: Seq<u32>, label: int, upto: int) -> int
    decreases upto,
{
    if upto <= 0 {
        0
    } else {
        count_upto(labels, label, upto - 1) + if labels[upto - 1] == label {
            1int
        } else {
            0int
        }
    }
}

/// The number of cells of `labels` that hold `label`.
pub open spec fn occurrences(labels: Seq<u32>, label: int) -> int {
    count_upto(labels, label, labels.len() as int)
}

/// The labels are those of `image`: background cells hold 0, foreground cells
/// hold a label from 1 up to `num_labels - 1`, two foreground cells hold the
/// same label exactly when they are connected, every label is in use, and
/// labels are numbered in the order in which a row-by-row reading of the
/// image first meets the components.
pub open spec fn labels_of(
    image: GrayGrid,
    conn: Connectivity,
    background: u8,
    labels: LabelGrid,
    num_labels: int,
) -> bool {
    &&& labels.width == image.width
    &&& labels.height == image.height
    &&& labels.wf()
    &&& num_labels >= 1
    &&& forall|x: int, y: int|
        image.has(x, y) ==> 0 <= #[trigger] labels.at(x, y) < num_labels && (image.at(x, y)
            == background <==> labels.at(x, y) == 0)
    &&& forall|x1: int, y1: int, x2: int, y2: int|
        image.has(x1, y1) && image.has(x2, y2) && image.at(x1, y1) != background && image.at(
            x2,
            y2,
        ) != background ==> (#[trigger] labels.at(x1, y1) == #[trigger] labels.at(x2, y2)
            <==> connected(image, conn, (x1, y1), (x2, y2)))
    &&& forall|k: int| 1 <= k < num_labels ==> #[trigger] label_in_use(labels, k)
    &&& forall|x: int, y: int, k: int|
        image.has(x, y) && 1 <= k < labels.at(x, y) ==> #[trigger] label_seen_before(
            labels,
            k,
            x,
            y,
        )
}

/// Some cell holds `label`.
pub open spec fn label_in_use(labels: LabelGrid, label: int) -> bool {
    exists|x: int, y: int| labels.has(x, y) && #[trigger] labels.at(x, y) == label
}

/// Some cell that a row-by-row reading meets before `(x, y)` holds `label`.
pub open spec fn label_seen_before(labels: LabelGrid, label: int, x: int, y: int) -> bool {
    exists|x2: int, y2: int|
        labels.has(x2, y2) && raster_before(x2, y2, x, y) && #[trigger] labels.at(x2, y2) == label
}

/// `left`, `top`, `right` and `bottom` are the sides of the tightest
/// axis-aligned box around the cells that hold `label`, and `area` is the
/// number of those cells.
pub open spec fn component_stats(
    labels: LabelGrid,
    label: int,
    left: int,
    top: int,
    right: int,
    bottom: int,
    area: int,
) -> bool {
    &&& forall|x: int, y: int|
        labels.has(x, y) && #[trigger] labels.at(x, y) == label ==> left <= x <= right && top
            <= y <= bottom
    &&& exists|y: int| labels.has(left, y) && #[trigger] labels.at(left, y) == label
    &&& exists|y: int| labels.has(right, y) && #[trigger] labels.at(right, y) == label
    &&& exists|x: int| labels.has(x, top) && #[trigger] labels.at(x, top) == label
    &&& exists|x: int| labels.has(x, bottom) && #[trigger] labels.at(x, bottom) == label
    &&& area == occurrences(labels.labels@, label)
    &&& area > 0
}

/// The statistics are those of `labels`: one entry for each label below
/// `num_labels`, the entry of the background left empty.
pub open spec fn stats_of(labels: LabelGrid, stats: Stats, num_labels: int) -> bool {
    &&& stats.left@.len() == num_labels
    &&& stats.top@.len() == num_labels
    &&& stats.right@.len() == num_labels
    &&& stats.bottom@.len() == num_labels
    &&& stats.area@.len() == num_labels
    &&& num_labels > 0 ==> {
        &&& stats.left@[0] == u32::MAX
        &&& stats.top@[0] == u32::MAX
        &&& stats.right@[0] == 0
        &&& stats.bottom@[0] == 0
        &&& stats.area@[0] == 0
    }
    &&& forall|k: int|
        1 <= k < num_labels ==> component_stats(
            labels,
            k,
            #[trigger] stats.left@[k] as int,
            stats.top@[k] as int,
            stats.right@[k] as int,
            stats.bottom@[k] as int,
            stats.area@[k] as int,
        )
}

/// `r` is the labelling of `image`: labels and statistics as described by
/// [`labels_of`] and [`stats_of`]. An image without cells has no labels at
/// all, not even the background's.
pub open spec fn labelling_of(
    image: GrayGrid,
    conn: Connectivity,
    background: u8,
    r: ConnectedComponentsResult,
) -> bool {
    if image.width == 0 || image.height == 0 {
        &&& r.num_labels == 0
        &&& r.labels.width == image.width
        &&& r.labels.height == image.height
        &&& r.labels.labels@.len() == 0
        &&& stats_of(r.labels, r.stats, 0)
    } else {
        &&& labels_of(image, conn, background, r.labels, r.num_labels as int)
        &&& stats_of(r.labels, r.stats, r.num_labels as int)
    }
}

/// Labels the connected components of `image`.
///
/// Cells that hold `background` get label 0. Two other cells belong to one
/// component when a walk through neighbouring cells of one value joins them;
/// `conn` says which cells are neighbours. Components are numbered from 1 in
/// the order in which a row-by-row reading first meets them.
///
/// An image of 2^32 cells or more is refused. An image without cells has no
/// labels at all, not even the background's.
pub fn connected_components_with_stats(
    image: &GrayGrid,
    conn: Connectivity,
    background: u8,
) -> (result: Result<ConnectedComponentsResult, LabelError>)
    requires
        image.wf(),
    ensures
        result is Err <==> image.width as int * image.height as int >= 0x1_0000_0000,
        result is Err ==> result->Err_0 == LabelError::CapacityExceeded,
        result is Ok ==> labelling_of(*image, conn, background, result->Ok_0),
{
    proof {
        assert(image.width as int * image.height as int <= 0xffff_ffff * 0xffff_ffff)
            by (nonlinear_arith)
            requires
                0 <= image.width <= 0xffff_ffff,
                0 <= image.height <= 0xffff_ffff,
        ;
    }
    let cells: u64 = image.width as u64 * image.height as u64;
    if cells >= 0x1_0000_0000u64 {
        return Err(LabelError::CapacityExceeded);
    }
    if image.width == 0 || image.height == 0 {
        return Ok(
            ConnectedComponentsResult {
                stats: Stats::default(),
                num_labels: 0,
                labels: LabelGrid {
                    width: image.width,
                    height: image.height,
                    labels: Vec::new(),
                },
            },
        );
    }
    let mut forest = DisjointSetForest::new(image.pixels.len());
    let prov = scan_cells(image, conn, background, &mut forest);
    Ok(relabel(image, Ghost(conn), background, prov, &mut forest))
}

} // verus!
