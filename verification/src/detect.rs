//! From two score grids to the rectangles around the text regions.

use crate::connectivity::Connectivity;
use crate::contour::{
    distinct_points, find_contours, first_occurrences, has_border, lemma_first_occurrences,
    min_area_rect, no_repeats, points_within, traced_contours, Point, Quad,
};
use crate::grid::{cell_index, in_grid, lemma_cell_index_bounds, GrayGrid, LabelGrid};
use crate::labeling::{
    component_stats, connected_components_with_stats, label_in_use, labelling_of, labels_of,
    stats_of, ConnectedComponentsResult, Stats,
};
use crate::laws::lemma_labelling_unique;
use crate::morphology::{
    dilate, dilation_reach, distance_cap, grown_pixels, grown_value, near_foreground, reach,
};
use crate::region::{
    is_kept, lemma_peak_decides, peak_score, seg_map, seg_mask, survives, MIN_REGION_AREA,
};
use crate::threshold::{combine, combined, threshold, thresholded, ScoreGrid};
use std::collections::HashMap;
use vstd::prelude::*;

verus! {

broadcast use vstd::std_specs::hash::group_hash_axioms;

/// The longest side of a grid that regions are extracted from.
pub const MAX_SIDE: u32 = 32768;

/// Why no regions can be extracted from a pair of score grids.
#[derive(Clone, Copy, Debug, PartialEq, Eq, Structural)]
pub enum DetectError {
    /// A side of the grids is longer than [`MAX_SIDE`] cells.
    CapacityExceeded,
}

/// Why a component gets no rectangle.
#[derive(Clone, Copy, Debug, PartialEq, Eq, Structural)]
pub enum Dropped {
    /// The component is too small, or its highest score is too low.
    Filtered,
    /// The component passed the filter, but no border was found in its grown
    /// mask.
    NoBorder,
}

/// What becomes of one component.
#[derive(Clone, Copy, Debug, PartialEq, Eq, Structural)]
pub enum RegionOutcome {
    /// The component is too small, or its highest score is too low.
    Filtered,
    /// The component passed the filter, but no border was found in its grown
    /// mask, so there is nothing to fit a rectangle around.
    NoBorder,
    /// The rectangle fitted around the component.
    Fitted(Quad),
}

/// The component `label` of a labelling survives the filter.
pub open spec fn survivor_of(
    text: ScoreGrid,
    labelling: ConnectedComponentsResult,
    label: u32,
    cutoff: u32,
) -> bool {
    survives(
        labelling.labels.labels@,
        text.scores@,
        labelling.stats.area@[label as int],
        label,
        cutoff,
        MIN_REGION_AREA,
    )
}

/// The reach by which the mask of the component `label` is grown. The box
/// of a component holds the columns from its left to its right side and the
/// rows from its top to its bottom, both sides included, so a component in
/// one column has a box of width 1.
pub open spec fn reach_of(labelling: ConnectedComponentsResult, label: u32) -> int {
    let k = label as int;
    reach(
        labelling.stats.area@[k] as int,
        labelling.stats.right@[k] - labelling.stats.left@[k] + 1,
        labelling.stats.bottom@[k] - labelling.stats.top@[k] + 1,
    )
}

/// The grown mask of the component `label`: the cells that hold the label
/// and are not link-only, grown by the component's reach.
pub open spec fn grown_mask_of(
    text_mask: GrayGrid,
    link_mask: GrayGrid,
    labelling: ConnectedComponentsResult,
    label: u32,
) -> Seq<u8> {
    grown_pixels(
        seg_mask(labelling.labels.labels@, label, text_mask.pixels@, link_mask.pixels@),
        labelling.labels.width as int,
        labelling.labels.height as int,
        reach_of(labelling, label),
    )
}

/// A border is found in the grown mask of the component `label`.
pub open spec fn border_of(
    text_mask: GrayGrid,
    link_mask: GrayGrid,
    labelling: ConnectedComponentsResult,
    label: u32,
) -> bool {
    has_border(
        grown_mask_of(text_mask, link_mask, labelling, label),
        labelling.labels.width as int,
        labelling.labels.height as int,
    )
}

/// The component `label` gets a rectangle: it survives the filter and a
/// border is found in its grown mask.
pub open spec fn fitted_of(
    text: ScoreGrid,
    text_mask: GrayGrid,
    link_mask: GrayGrid,
    labelling: ConnectedComponentsResult,
    label: u32,
    cutoff: u32,
) -> bool {
    survivor_of(text, labelling, label, cutoff) && border_of(
        text_mask,
        link_mask,
        labelling,
        label,
    )
}

/// The points that the rectangle of the component `label` is fitted
/// around: the distinct cells of the first border of its grown mask.
pub open spec fn border_points_of(
    text_mask: GrayGrid,
    link_mask: GrayGrid,
    labelling: ConnectedComponentsResult,
    label: u32,
) -> Seq<Point> {
    first_occurrences(
        traced_contours(
            grown_mask_of(text_mask, link_mask, labelling, label),
            labelling.labels.width as int,
            labelling.labels.height as int,
        )[0],
    )
}

/// The labels below `upto` whose components get a rectangle.
pub open spec fn keys_upto(
    text: ScoreGrid,
    text_mask: GrayGrid,
    link_mask: GrayGrid,
    labelling: ConnectedComponentsResult,
    cutoff: u32,
    upto: int,
) -> Set<u32> {
    Set::new(
        |k: u32| 1 <= k < upto && fitted_of(text, text_mask, link_mask, labelling, k, cutoff),
    )
}

/// The labels of all components of a labelling that get a rectangle.
pub open spec fn region_keys(
    text: ScoreGrid,
    text_mask: GrayGrid,
    link_mask: GrayGrid,
    labelling: ConnectedComponentsResult,
    cutoff: u32,
) -> Set<u32> {
    keys_upto(text, text_mask, link_mask, labelling, cutoff, labelling.num_labels as int)
}

/// No cell of the mask of the component `label` is set: all its cells are
/// link-only.
pub open spec fn mask_blank(
    labels: Seq<u32>,
    label: u32,
    text_mask: Seq<u8>,
    link_mask: Seq<u8>,
) -> bool {
    forall|i: int|
        0 <= i < labels.len() ==> #[trigger] seg_mask(labels, label, text_mask, link_mask)[i]
            == 0
}

/// The mask of the component `label` is blank and stays blank when it is
/// grown: its reach is below the largest distance that the growing can tell
/// apart in the grid.
pub open spec fn nothing_to_grow(
    text_mask: GrayGrid,
    link_mask: GrayGrid,
    labelling: ConnectedComponentsResult,
    label: u32,
) -> bool {
    &&& mask_blank(labelling.labels.labels@, label, text_mask.pixels@, link_mask.pixels@)
    &&& reach_of(labelling, label) < distance_cap(
        labelling.labels.width as int,
        labelling.labels.height as int,
    )
}

/// A blank grid stays blank when it is grown by less than the largest
/// distance that the growing can tell apart.
pub proof fn lemma_blank_stays_blank(pixels: Seq<u8>, width: int, height: int, k: int)
    requires
        0 < width,
        0 < height,
        pixels.len() == width * height,
        forall|i: int| 0 <= i < pixels.len() ==> pixels[i] == 0,
        k < distance_cap(width, height),
    ensures
        forall|i: int|
            0 <= i < pixels.len() ==> #[trigger] grown_pixels(pixels, width, height, k)[i] == 0,
{
    assert forall|i: int| 0 <= i < pixels.len() implies #[trigger] grown_pixels(
        pixels,
        width,
        height,
        k,
    )[i] == 0 by {
        let x = i % width;
        let y = i / width;
        assert(!near_foreground(pixels, width, height, x, y, k)) by {
            assert forall|x2: int, y2: int| in_grid(width, height, x2, y2) implies pixels[
                #[trigger] cell_index(width, x2, y2)] == 0 by {
                lemma_cell_index_bounds(width, height, x2, y2);
            }
        }
        assert(grown_value(pixels, width, height, x, y, k) == 0);
    }
}

/// A component whose mask is blank and stays blank when grown shows no
/// border, so it gets no rectangle.
pub proof fn lemma_blank_has_no_border(
    text_mask: GrayGrid,
    link_mask: GrayGrid,
    labelling: ConnectedComponentsResult,
    label: u32,
)
    requires
        labelling.labels.wf(),
        nothing_to_grow(text_mask, link_mask, labelling, label),
    ensures
        !border_of(text_mask, link_mask, labelling, label),
{
    let w = labelling.labels.width as int;
    let h = labelling.labels.height as int;
    let mask = seg_mask(labelling.labels.labels@, label, text_mask.pixels@, link_mask.pixels@);
    let big = grown_mask_of(text_mask, link_mask, labelling, label);
    if w > 0 && h > 0 {
        lemma_blank_stays_blank(mask, w, h, reach_of(labelling, label));
    }
    assert forall|x: int, y: int| in_grid(w, h, x, y) implies big[#[trigger] cell_index(w, x, y)]
        == 0 by {
        lemma_cell_index_bounds(w, h, x, y);
    }
}

/// The statistics hold an entry for every label, and every box lies in a
/// grid of the given size, with its left side not right of its right side
/// and its top not below its bottom.
pub open spec fn stats_usable(stats: Stats, num_labels: int, width: int, height: int) -> bool {
    &&& stats.left@.len() >= num_labels
    &&& stats.top@.len() >= num_labels
    &&& stats.right@.len() >= num_labels
    &&& stats.bottom@.len() >= num_labels
    &&& stats.area@.len() >= num_labels
    &&& num_labels <= u32::MAX + 1
    &&& forall|k: int|
        1 <= k < num_labels ==> #[trigger] stats.left@[k] <= stats.right@[k] && stats.right@[k]
            < width && stats.top@[k] <= stats.bottom@[k] && stats.bottom@[k] < height
}

/// The scores, the two masks and the labelling belong to grids of one shape
/// with no side longer than [`MAX_SIDE`], and the statistics can be used.
pub open spec fn regions_ready(
    text: ScoreGrid,
    text_mask: GrayGrid,
    link_mask: GrayGrid,
    labelling: ConnectedComponentsResult,
) -> bool {
    &&& text.wf()
    &&& text_mask.wf()
    &&& link_mask.wf()
    &&& labelling.labels.wf()
    &&& text_mask.width == text.width
    &&& text_mask.height == text.height
    &&& link_mask.width == text.width
    &&& link_mask.height == text.height
    &&& labelling.labels.width == text.width
    &&& labelling.labels.height == text.height
    &&& text.width <= MAX_SIDE
    &&& text.height <= MAX_SIDE
    &&& stats_usable(
        labelling.stats,
        labelling.num_labels as int,
        text.width as int,
        text.height as int,
    )
}

/// Fits a rectangle around every component of `labelling` that survives the
/// filter: its mask is built without link-only cells and grown, the borders
/// of the grown mask are traced, and the rectangle of least area is fitted
/// around the distinct cells of the first border. A component whose grown
/// mask shows no border is skipped, and the others are still fitted.
///
/// The result holds a rectangle for exactly the labels in [`region_keys`].
pub fn extract_boxes(
    text: &ScoreGrid,
    text_mask: &GrayGrid,
    link_mask: &GrayGrid,
    labelling: &ConnectedComponentsResult,
    text_threshold: u32,
) -> (boxes: HashMap<u32, Quad>)
    requires
        regions_ready(*text, *text_mask, *link_mask, *labelling),
    ensures
        boxes@.dom() == region_keys(*text, *text_mask, *link_mask, *labelling, text_threshold),
{
    let mut boxes: HashMap<u32, Quad> = HashMap::new();
    let mut k: usize = 1;
    assert(boxes@.dom() =~= keys_upto(
        *text,
        *text_mask,
        *link_mask,
        *labelling,
        text_threshold,
        1,
    ));
    while k < labelling.num_labels
        invariant
            1 <= k,
            k <= labelling.num_labels || k == 1,
            regions_ready(*text, *text_mask, *link_mask, *labelling),
            boxes@.dom() == keys_upto(
                *text,
                *text_mask,
                *link_mask,
                *labelling,
                text_threshold,
                k as int,
            ),
        decreases labelling.num_labels - k,
    {
        let label: u32 = k as u32;
        match fit_region(text, text_mask, link_mask, labelling, label, text_threshold) {
            RegionOutcome::Fitted(rect) => {
                boxes.insert(label, rect);
            },
            RegionOutcome::Filtered => {},
            RegionOutcome::NoBorder => {},
        }
        assert(boxes@.dom() =~= keys_upto(
            *text,
            *text_mask,
            *link_mask,
            *labelling,
            text_threshold,
            k + 1,
        ));
        k = k + 1;
    }
    assert(keys_upto(*text, *text_mask, *link_mask, *labelling, text_threshold, k as int)
        =~= region_keys(*text, *text_mask, *link_mask, *labelling, text_threshold));
    boxes
}

/// Finds the points that the rectangle of one component is fitted around,
/// or says why the component gets no rectangle.
///
/// The mask of a component that survives the filter is built without
/// link-only cells and grown, and the borders of the grown mask are traced.
/// The points are the distinct cells of the first border.
pub fn region_border(
    text: &ScoreGrid,
    text_mask: &GrayGrid,
    link_mask: &GrayGrid,
    labelling: &ConnectedComponentsResult,
    label: u32,
    text_threshold: u32,
) -> (found: Result<Vec<Point>, Dropped>)
    requires
        regions_ready(*text, *text_mask, *link_mask, *labelling),
        1 <= label < labelling.num_labels,
    ensures
        found == Err::<Vec<Point>, Dropped>(Dropped::Filtered) <==> !survivor_of(
            *text,
            *labelling,
            label,
            text_threshold,
        ),
        found == Err::<Vec<Point>, Dropped>(Dropped::NoBorder) <==> survivor_of(
            *text,
            *labelling,
            label,
            text_threshold,
        ) && !border_of(*text_mask, *link_mask, *labelling, label),
        found is Ok <==> fitted_of(
            *text,
            *text_mask,
            *link_mask,
            *labelling,
            label,
            text_threshold,
        ),
        found is Ok ==> {
            let points = found->Ok_0@;
            &&& points == border_points_of(*text_mask, *link_mask, *labelling, label)
            &&& points.len() > 0
            &&& no_repeats(points)
            &&& points_within(points, text.width as int, text.height as int)
        },
{
    let k: usize = label as usize;
    let area: u32 = labelling.stats.area[k];
    let peak = peak_score(&labelling.labels, text, label);
    proof {
        lemma_peak_decides(
            labelling.labels.labels@,
            text.scores@,
            label,
            peak,
            text_threshold,
        );
    }
    if !is_kept(area, peak, text_threshold) {
        return Err(Dropped::Filtered);
    }
    let mask = seg_map(&labelling.labels, label, text_mask, link_mask);
    let box_width: u32 = labelling.stats.right[k] - labelling.stats.left[k] + 1;
    let box_height: u32 = labelling.stats.bottom[k] - labelling.stats.top[k] + 1;
    let big = dilate(&mask, dilation_reach(area, box_width, box_height));
    proof {
        assert(big.pixels@ == grown_mask_of(*text_mask, *link_mask, *labelling, label));
        assert(big.width as int * big.height as int <= 32768 * 32768) by (nonlinear_arith)
            requires
                0 <= big.width <= 32768,
                0 <= big.height <= 32768,
        ;
    }
    let borders = find_contours(&big);
    if borders.len() == 0 {
        return Err(Dropped::NoBorder);
    }
    let border = distinct_points(&borders[0]);
    proof {
        let traced = borders@[0]@;
        lemma_first_occurrences(traced);
        assert forall|j: int| 0 <= j < border@.len() implies 0 <= (#[trigger] border@[j]).x
            < text.width && 0 <= border@[j].y < text.height by {
            let p = border@[j];
            assert(border@.contains(p));
            assert(traced.contains(p));
            let i = choose|i: int| 0 <= i < traced.len() && traced[i] == p;
            assert(0 <= traced[i].x < text.width);
        }
    }
    Ok(border)
}

/// Fits the rectangle of one component, or says why it has none.
///
/// Which of the three outcomes it is, is fixed by the inputs. The corners
/// of a fitted rectangle are those that the fitter gives for the points of
/// [`border_points_of`]; nothing is stated of them.
pub fn fit_region(
    text: &ScoreGrid,
    text_mask: &GrayGrid,
    link_mask: &GrayGrid,
    labelling: &ConnectedComponentsResult,
    label: u32,
    text_threshold: u32,
) -> (found: RegionOutcome)
    requires
        regions_ready(*text, *text_mask, *link_mask, *labelling),
        1 <= label < labelling.num_labels,
    ensures
        found is Filtered <==> !survivor_of(*text, *labelling, label, text_threshold),
        found is NoBorder <==> survivor_of(*text, *labelling, label, text_threshold)
            && !border_of(*text_mask, *link_mask, *labelling, label),
        found is Fitted <==> fitted_of(
            *text,
            *text_mask,
            *link_mask,
            *labelling,
            label,
            text_threshold,
        ),
{
    match region_border(text, text_mask, link_mask, labelling, label, text_threshold) {
        Err(Dropped::Filtered) => RegionOutcome::Filtered,
        Err(Dropped::NoBorder) => RegionOutcome::NoBorder,
        Ok(border) => RegionOutcome::Fitted(min_area_rect(&border)),
    }
}

/// The masks, the labelling and the labels with a rectangle that belong to
/// a pair of score grids: `text_mask` and `link_mask` are the grids under
/// their cutoffs, `both` is their clamped sum, `labelling` is the
/// four-connected labelling of `both` with 0 as background, and `keys`
/// holds the labels of the components that get a rectangle.
pub open spec fn explains(
    text: ScoreGrid,
    link: ScoreGrid,
    text_threshold: u32,
    link_threshold: u32,
    low_text: u32,
    text_mask: GrayGrid,
    link_mask: GrayGrid,
    both: GrayGrid,
    labelling: ConnectedComponentsResult,
    keys: Set<u32>,
) -> bool {
    &&& text_mask.width == text.width
    &&& text_mask.height == text.height
    &&& text_mask.pixels@ == thresholded(text.scores@, low_text)
    &&& link_mask.width == text.width
    &&& link_mask.height == text.height
    &&& link_mask.pixels@ == thresholded(link.scores@, link_threshold)
    &&& both.width == text.width
    &&& both.height == text.height
    &&& both.pixels@ == combined(text_mask.pixels@, link_mask.pixels@)
    &&& labelling_of(both, Connectivity::Four, 0, labelling)
    &&& keys == region_keys(text, text_mask, link_mask, labelling, text_threshold)
}

/// `keys` holds the labels of the text regions of a pair of score grids:
/// the labels that a detection maps to a rectangle.
pub open spec fn detected(
    text: ScoreGrid,
    link: ScoreGrid,
    text_threshold: u32,
    link_threshold: u32,
    low_text: u32,
    keys: Set<u32>,
) -> bool {
    exists|
        text_mask: GrayGrid,
        link_mask: GrayGrid,
        both: GrayGrid,
        labelling: ConnectedComponentsResult,
    |
        #[trigger] explains(
            text,
            link,
            text_threshold,
            link_threshold,
            low_text,
            text_mask,
            link_mask,
            both,
            labelling,
            keys,
        )
}

/// The statistics of a labelling can be used to size the growing of every
/// component.
pub proof fn lemma_labelling_usable(
    image: GrayGrid,
    conn: Connectivity,
    background: u8,
    r: ConnectedComponentsResult,
)
    requires
        labelling_of(image, conn, background, r),
    ensures
        stats_usable(r.stats, r.num_labels as int, image.width as int, image.height as int),
        r.labels.wf(),
        r.labels.width == image.width,
        r.labels.height == image.height,
{
    let n = r.num_labels as int;
    let w = image.width as int;
    let h = image.height as int;
    if image.width > 0 && image.height > 0 {
        lemma_label_count_fits(image, conn, background, r.labels, n);
        assert forall|k: int| 1 <= k < n implies #[trigger] r.stats.left@[k] <= r.stats.right@[k]
            && r.stats.right@[k] < w && r.stats.top@[k] <= r.stats.bottom@[k]
            && r.stats.bottom@[k] < h by {
            lemma_box_sides(r.labels, r.stats, n, k);
        }
        assert(stats_usable(r.stats, n, w, h));
    } else {
        assert(image.width as int * image.height as int == 0) by (nonlinear_arith)
            requires
                image.width == 0 || image.height == 0,
        ;
        assert(stats_usable(r.stats, n, w, h));
    }
}

/// The labels of an image fit 32 bits, so there are at most 2^32 of them.
pub proof fn lemma_label_count_fits(
    image: GrayGrid,
    conn: Connectivity,
    background: u8,
    labels: LabelGrid,
    num_labels: int,
)
    requires
        labels_of(image, conn, background, labels, num_labels),
    ensures
        num_labels <= u32::MAX + 1,
{
    if num_labels > u32::MAX + 1 {
        assert(label_in_use(labels, u32::MAX + 1));
        let (x, y) = choose|x: int, y: int|
            labels.has(x, y) && #[trigger] labels.at(x, y) == u32::MAX + 1;
        assert(labels.at(x, y) <= u32::MAX);
    }
}

/// The box of a component lies in the grid, with its left side not right of
/// its right side and its top not below its bottom: it holds at least one
/// cell.
pub proof fn lemma_box_sides(labels: LabelGrid, stats: Stats, num_labels: int, k: int)
    requires
        stats_of(labels, stats, num_labels),
        1 <= k < num_labels,
    ensures
        stats.left@[k] <= stats.right@[k],
        stats.right@[k] < labels.width,
        stats.top@[k] <= stats.bottom@[k],
        stats.bottom@[k] < labels.height,
{
    let left = stats.left@[k] as int;
    let top = stats.top@[k] as int;
    let right = stats.right@[k] as int;
    let bottom = stats.bottom@[k] as int;
    assert(component_stats(labels, k, left, top, right, bottom, stats.area@[k] as int));
    let y = choose|y: int| labels.has(left, y) && #[trigger] labels.at(left, y) == k;
    assert(labels.has(left, y) && labels.at(left, y) == k);
    assert(left <= left <= right && top <= y <= bottom);
    let y2 = choose|y: int| labels.has(right, y) && #[trigger] labels.at(right, y) == k;
    assert(labels.has(right, y2));
    let x2 = choose|x: int| labels.has(x, bottom) && #[trigger] labels.at(x, bottom) == k;
    assert(labels.has(x2, bottom));
}

/// Finds the text regions of a pair of score grids.
///
/// `text_map` scores how likely each cell lies on a character, `link_map`
/// how likely it lies between two characters of one word. Cells whose text
/// score reaches `low_text` or whose link score reaches `link_threshold`
/// are grouped into four-connected components. A component is kept when it
/// has at least [`MIN_REGION_AREA`] cells and its highest text score reaches
/// `text_threshold`. The result maps the label of every kept component in
/// whose grown mask a border is found to the rectangle fitted around it.
///
/// Which labels the result holds is fixed by the grids and the cutoffs. The
/// corners of a rectangle are those that the fitter gives.
///
/// Grids with a side longer than [`MAX_SIDE`] are refused: the fitter
/// multiplies differences of coordinates in 32 bits.
pub fn get_det_boxes(
    text_map: &ScoreGrid,
    link_map: &ScoreGrid,
    text_threshold: u32,
    link_threshold: u32,
    low_text: u32,
) -> (result: Result<HashMap<u32, Quad>, DetectError>)
    requires
        text_map.wf(),
        link_map.wf(),
        text_map.width == link_map.width,
        text_map.height == link_map.height,
    ensures
        result is Err <==> text_map.width > MAX_SIDE || text_map.height > MAX_SIDE,
        result is Err ==> result->Err_0 == DetectError::CapacityExceeded,
        result is Ok ==> detected(
            *text_map,
            *link_map,
            text_threshold,
            link_threshold,
            low_text,
            result->Ok_0@.dom(),
        ),
{
    if text_map.width > MAX_SIDE || text_map.height > MAX_SIDE {
        return Err(DetectError::CapacityExceeded);
    }
    let text_score = threshold(text_map, low_text);
    let link_score = threshold(link_map, link_threshold);
    let both = combine(&text_score, &link_score);
    proof {
        assert(both.width as int * both.height as int <= 32768 * 32768) by (nonlinear_arith)
            requires
                0 <= both.width <= 32768,
                0 <= both.height <= 32768,
        ;
    }
    match connected_components_with_stats(&both, Connectivity::Four, 0) {
        Err(_) => Err(DetectError::CapacityExceeded),
        Ok(labelling) => {
            proof {
                lemma_labelling_usable(both, Connectivity::Four, 0, labelling);
            }
            let boxes = extract_boxes(
                text_map,
                &text_score,
                &link_score,
                &labelling,
                text_threshold,
            );
            proof {
                assert(explains(
                    *text_map,
                    *link_map,
                    text_threshold,
                    link_threshold,
                    low_text,
                    text_score,
                    link_score,
                    both,
                    labelling,
                    boxes@.dom(),
                ));
            }
            Ok(boxes)
        },
    }
}

/// Which regions a detection finds is a function of its inputs: two results
/// for the same grids and cutoffs hold rectangles under the same labels.
/// Nothing is said of the corners, which the fitter gives.
pub proof fn lemma_detection_deterministic(
    text: ScoreGrid,
    link: ScoreGrid,
    text_threshold: u32,
    link_threshold: u32,
    low_text: u32,
    first: Set<u32>,
    second: Set<u32>,
)
    requires
        detected(text, link, text_threshold, link_threshold, low_text, first),
        detected(text, link, text_threshold, link_threshold, low_text, second),
    ensures
        first == second,
{
    let (tm1, lm1, both1, r1) = choose|
        text_mask: GrayGrid,
        link_mask: GrayGrid,
        both: GrayGrid,
        labelling: ConnectedComponentsResult,
    |
        #[trigger] explains(
            text,
            link,
            text_threshold,
            link_threshold,
            low_text,
            text_mask,
            link_mask,
            both,
            labelling,
            first,
        );
    let (tm2, lm2, both2, r2) = choose|
        text_mask: GrayGrid,
        link_mask: GrayGrid,
        both: GrayGrid,
        labelling: ConnectedComponentsResult,
    |
        #[trigger] explains(
            text,
            link,
            text_threshold,
            link_threshold,
            low_text,
            text_mask,
            link_mask,
            both,
            labelling,
            second,
        );
    lemma_labelling_unique(both1, both2, Connectivity::Four, 0, r1, r2);
    lemma_labelling_usable(both1, Connectivity::Four, 0, r1);
    lemma_labelling_usable(both2, Connectivity::Four, 0, r2);
    lemma_keys_same(text, tm1, lm1, r1, tm2, lm2, r2, text_threshold);
}

/// Raising the text cutoff never adds a region to a detection: every label
/// with a rectangle under the higher cutoff has one under the lower cutoff.
pub proof fn lemma_detection_monotone(
    text: ScoreGrid,
    link: ScoreGrid,
    low_cutoff: u32,
    high_cutoff: u32,
    link_threshold: u32,
    low_text: u32,
    under_low: Set<u32>,
    under_high: Set<u32>,
)
    requires
        low_cutoff <= high_cutoff,
        detected(text, link, low_cutoff, link_threshold, low_text, under_low),
        detected(text, link, high_cutoff, link_threshold, low_text, under_high),
    ensures
        under_high.subset_of(under_low),
{
    let (tm1, lm1, both1, r1) = choose|
        text_mask: GrayGrid,
        link_mask: GrayGrid,
        both: GrayGrid,
        labelling: ConnectedComponentsResult,
    |
        #[trigger] explains(
            text,
            link,
            low_cutoff,
            link_threshold,
            low_text,
            text_mask,
            link_mask,
            both,
            labelling,
            under_low,
        );
    let (tm2, lm2, both2, r2) = choose|
        text_mask: GrayGrid,
        link_mask: GrayGrid,
        both: GrayGrid,
        labelling: ConnectedComponentsResult,
    |
        #[trigger] explains(
            text,
            link,
            high_cutoff,
            link_threshold,
            low_text,
            text_mask,
            link_mask,
            both,
            labelling,
            under_high,
        );
    lemma_labelling_unique(both1, both2, Connectivity::Four, 0, r1, r2);
    lemma_labelling_usable(both1, Connectivity::Four, 0, r1);
    lemma_labelling_usable(both2, Connectivity::Four, 0, r2);
    lemma_keys_same(text, tm1, lm1, r1, tm2, lm2, r2, low_cutoff);
    lemma_keys_shrink(text, tm2, lm2, r2, low_cutoff, high_cutoff);
}

/// Which components get a rectangle depends on the cells of the masks and
/// on the entries of the labelling only.
pub proof fn lemma_keys_same(
    text: ScoreGrid,
    tm1: GrayGrid,
    lm1: GrayGrid,
    r1: ConnectedComponentsResult,
    tm2: GrayGrid,
    lm2: GrayGrid,
    r2: ConnectedComponentsResult,
    cutoff: u32,
)
    requires
        tm1.pixels@ == tm2.pixels@,
        lm1.pixels@ == lm2.pixels@,
        r1.labels.width == r2.labels.width,
        r1.labels.height == r2.labels.height,
        r1.labels.labels@ == r2.labels.labels@,
        r1.num_labels == r2.num_labels,
        r1.stats.left@ == r2.stats.left@,
        r1.stats.top@ == r2.stats.top@,
        r1.stats.right@ == r2.stats.right@,
        r1.stats.bottom@ == r2.stats.bottom@,
        r1.stats.area@ == r2.stats.area@,
    ensures
        region_keys(text, tm1, lm1, r1, cutoff) == region_keys(text, tm2, lm2, r2, cutoff),
{
    assert forall|k: u32|
        fitted_of(text, tm1, lm1, r1, k, cutoff) == fitted_of(text, tm2, lm2, r2, k, cutoff) by {}
    assert(region_keys(text, tm1, lm1, r1, cutoff) =~= region_keys(text, tm2, lm2, r2, cutoff));
}

/// A component that survives a cutoff and a smallest area survives every
/// lower cutoff and every smaller smallest area.
pub proof fn lemma_survives_monotone(
    labels: Seq<u32>,
    scores: Seq<u32>,
    area: u32,
    label: u32,
    low_cutoff: u32,
    high_cutoff: u32,
    low_area: u32,
    high_area: u32,
)
    requires
        low_cutoff <= high_cutoff,
        low_area <= high_area,
        survives(labels, scores, area, label, high_cutoff, high_area),
    ensures
        survives(labels, scores, area, label, low_cutoff, low_area),
{
    let i = choose|i: int|
        0 <= i < labels.len() && #[trigger] labels[i] == label && scores[i] >= high_cutoff;
    assert(labels[i] == label && scores[i] >= low_cutoff);
}

/// The labels below `num_labels` whose components survive the filter.
pub open spec fn survivors(
    labels: Seq<u32>,
    scores: Seq<u32>,
    areas: Seq<u32>,
    num_labels: int,
    cutoff: u32,
    min_area: u32,
) -> Set<int> {
    Set::new(
        |k: int|
            1 <= k < num_labels && k <= u32::MAX && survives(
                labels,
                scores,
                areas[k],
                k as u32,
                cutoff,
                min_area,
            ),
    )
}

/// Raising the cutoff or the smallest area never adds a survivor: the
/// survivors under the higher values are among those under the lower ones,
/// and there are no more of them.
pub proof fn lemma_survivors_shrink(
    labels: Seq<u32>,
    scores: Seq<u32>,
    areas: Seq<u32>,
    num_labels: int,
    low_cutoff: u32,
    high_cutoff: u32,
    low_area: u32,
    high_area: u32,
)
    requires
        low_cutoff <= high_cutoff,
        low_area <= high_area,
    ensures
        survivors(labels, scores, areas, num_labels, high_cutoff, high_area).subset_of(
            survivors(labels, scores, areas, num_labels, low_cutoff, low_area),
        ),
        survivors(labels, scores, areas, num_labels, low_cutoff, low_area).finite(),
        survivors(labels, scores, areas, num_labels, high_cutoff, high_area).len() <= survivors(
            labels,
            scores,
            areas,
            num_labels,
            low_cutoff,
            low_area,
        ).len(),
{
    let high = survivors(labels, scores, areas, num_labels, high_cutoff, high_area);
    let low = survivors(labels, scores, areas, num_labels, low_cutoff, low_area);
    assert forall|k: int| high.contains(k) implies low.contains(k) by {
        lemma_survives_monotone(
            labels,
            scores,
            areas[k],
            k as u32,
            low_cutoff,
            high_cutoff,
            low_area,
            high_area,
        );
    }
    let all = vstd::set_lib::set_int_range(1, if num_labels >= 1 {
        num_labels
    } else {
        1
    });
    vstd::set_lib::lemma_int_range(1, if num_labels >= 1 {
        num_labels
    } else {
        1
    });
    assert(low.subset_of(all));
    vstd::set_lib::lemma_len_subset(low, all);
    vstd::set_lib::lemma_len_subset(high, low);
}

/// Raising the text cutoff never adds a region to the result: every label
/// with a rectangle under the higher cutoff has one under the lower cutoff.
pub proof fn lemma_keys_shrink(
    text: ScoreGrid,
    text_mask: GrayGrid,
    link_mask: GrayGrid,
    labelling: ConnectedComponentsResult,
    low_cutoff: u32,
    high_cutoff: u32,
)
    requires
        low_cutoff <= high_cutoff,
    ensures
        region_keys(text, text_mask, link_mask, labelling, high_cutoff).subset_of(
            region_keys(text, text_mask, link_mask, labelling, low_cutoff),
        ),
{
    let high = region_keys(text, text_mask, link_mask, labelling, high_cutoff);
    let low = region_keys(text, text_mask, link_mask, labelling, low_cutoff);
    assert forall|k: u32| high.contains(k) implies low.contains(k) by {
        lemma_survives_monotone(
            labelling.labels.labels@,
            text.scores@,
            labelling.stats.area@[k as int],
            k,
            low_cutoff,
            high_cutoff,
            MIN_REGION_AREA,
            MIN_REGION_AREA,
        );
    }
}

} // verus!
