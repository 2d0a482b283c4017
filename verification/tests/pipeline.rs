use craft_burn::contour::{distinct_points, Point, Quad};
use craft_burn::detect::{
    extract_boxes, fit_region, get_det_boxes, region_border, DetectError, Dropped,
    RegionOutcome, MAX_SIDE,
};
use craft_burn::connectivity::Connectivity;
use craft_burn::grid::{GrayGrid, LabelGrid};
use craft_burn::labeling::connected_components_with_stats;
use craft_burn::morphology::{dilation_reach, dilation_rounds};
use craft_burn::region::{is_kept, peak_score, seg_map, MIN_REGION_AREA};
use craft_burn::threshold::{combine, threshold, ScoreGrid};

/// An encoding of scores whose integer order is the order of the floats.
fn key(score: f32) -> u32 {
    let bits = (score + 0.0).to_bits();
    if bits & 0x8000_0000 == 0 {
        bits | 0x8000_0000
    } else {
        !bits
    }
}

fn grid_of(width: u32, height: u32, value: f32) -> ScoreGrid {
    ScoreGrid { width, height, scores: vec![key(value); (width * height) as usize] }
}

fn fill(grid: &mut ScoreGrid, x0: u32, y0: u32, x1: u32, y1: u32, value: f32) {
    for y in y0..y1 {
        for x in x0..x1 {
            grid.scores[(y * grid.width + x) as usize] = key(value);
        }
    }
}

/// Whether two rectangles agree up to one cell in every coordinate. The
/// fitter rounds the results of floating-point functions whose last bits
/// differ between platforms, so a corner may come out one cell away.
fn near(found: Quad, expected: Quad) -> bool {
    let pairs = [
        (found.top_left, expected.top_left),
        (found.top_right, expected.top_right),
        (found.bottom_right, expected.bottom_right),
        (found.bottom_left, expected.bottom_left),
    ];
    pairs.iter().all(|(a, b)| (a.x - b.x).abs() <= 1 && (a.y - b.y).abs() <= 1)
}

fn quad(tl: (i32, i32), tr: (i32, i32), br: (i32, i32), bl: (i32, i32)) -> Quad {
    Quad {
        top_left: Point { x: tl.0, y: tl.1 },
        top_right: Point { x: tr.0, y: tr.1 },
        bottom_right: Point { x: br.0, y: br.1 },
        bottom_left: Point { x: bl.0, y: bl.1 },
    }
}

#[test]
fn key_orders_scores_as_a_total_order_on_floats_does() {
    let samples = [-3.5f32, -0.25, 0.0, 1e-9, 0.39, 0.4, 0.7, 0.99, 1.0, 7.0, f32::INFINITY];
    for &a in &samples {
        for &b in &samples {
            assert_eq!(key(a).cmp(&key(b)), float_ord::FloatOrd(a).cmp(&float_ord::FloatOrd(b)));
            assert_eq!(key(a) >= key(b), a >= b);
        }
    }
}

#[test]
fn key_keeps_the_order_of_scores() {
    assert!(key(0.0) < key(0.4));
    assert!(key(0.4) < key(0.7));
    assert!(key(0.7) < key(0.9));
    assert!(key(-0.5) < key(0.0));
    assert_eq!(key(-0.0), key(0.0));
}

#[test]
fn all_background_gives_no_regions() {
    let text = grid_of(32, 32, 0.0);
    let link = grid_of(32, 32, 0.0);
    let boxes = get_det_boxes(&text, &link, key(0.7), key(0.4), key(0.4)).unwrap();
    assert!(boxes.is_empty());
}

#[test]
fn grids_without_cells_give_no_regions() {
    let text = ScoreGrid { width: 0, height: 5, scores: vec![] };
    let link = ScoreGrid { width: 0, height: 5, scores: vec![] };
    let boxes = get_det_boxes(&text, &link, key(0.7), key(0.4), key(0.4)).unwrap();
    assert!(boxes.is_empty());
}

#[test]
fn single_square_gives_one_region() {
    let mut text = grid_of(32, 32, 0.0);
    let link = grid_of(32, 32, 0.0);
    fill(&mut text, 10, 10, 15, 15, 0.9);
    let boxes = get_det_boxes(&text, &link, key(0.7), key(0.4), key(0.4)).unwrap();
    assert_eq!(boxes.len(), 1);
    // 25 cells in a box of 5 by 5 grow by 1 + 4 steps: 2 * sqrt(25 * 5 / 25)
    // is 4.47.. The grown square has cut corners, and the rectangle of least
    // area around it stands on a corner.
    assert!(near(boxes[&1], quad((12, 3), (21, 12), (12, 21), (3, 12))));
    let q = boxes[&1];
    let xs = [q.top_left.x, q.top_right.x, q.bottom_right.x, q.bottom_left.x];
    let ys = [q.top_left.y, q.top_right.y, q.bottom_right.y, q.bottom_left.y];
    assert!(*xs.iter().min().unwrap() <= 10 && *xs.iter().max().unwrap() >= 14);
    assert!(*ys.iter().min().unwrap() <= 10 && *ys.iter().max().unwrap() >= 14);
    assert!(*xs.iter().min().unwrap() >= 10 - 7 && *xs.iter().max().unwrap() <= 14 + 7);
    assert!(*ys.iter().min().unwrap() >= 10 - 7 && *ys.iter().max().unwrap() <= 14 + 7);
}

#[test]
fn two_squares_give_two_regions() {
    let mut text = grid_of(64, 32, 0.0);
    let link = grid_of(64, 32, 0.0);
    fill(&mut text, 10, 10, 15, 15, 0.9);
    fill(&mut text, 40, 12, 48, 16, 0.8);
    let boxes = get_det_boxes(&text, &link, key(0.7), key(0.4), key(0.4)).unwrap();
    assert_eq!(boxes.len(), 2);
    assert!(near(boxes[&1], quad((12, 3), (21, 12), (12, 21), (3, 12))));
    // 32 cells in a box of 8 by 4 grow by 1 + 4 steps.
    assert!(near(boxes[&2], quad((43, 3), (54, 14), (44, 24), (33, 14))));
}

#[test]
fn detection_gives_the_same_result_twice() {
    let mut text = grid_of(64, 32, 0.0);
    let mut link = grid_of(64, 32, 0.0);
    fill(&mut text, 10, 10, 15, 15, 0.9);
    fill(&mut text, 40, 12, 48, 16, 0.8);
    fill(&mut link, 15, 12, 20, 13, 0.5);
    let first = get_det_boxes(&text, &link, key(0.7), key(0.4), key(0.4)).unwrap();
    let second = get_det_boxes(&text, &link, key(0.7), key(0.4), key(0.4)).unwrap();
    assert_eq!(first, second);
    assert_eq!(first.len(), 2);
}

#[test]
fn region_below_the_smallest_area_is_dropped() {
    let mut text = grid_of(32, 32, 0.0);
    let link = grid_of(32, 32, 0.0);
    fill(&mut text, 10, 10, 13, 13, 0.9);
    let boxes = get_det_boxes(&text, &link, key(0.7), key(0.4), key(0.4)).unwrap();
    assert!(boxes.is_empty());
    // One more cell makes ten.
    fill(&mut text, 13, 10, 14, 11, 0.9);
    let boxes = get_det_boxes(&text, &link, key(0.7), key(0.4), key(0.4)).unwrap();
    assert_eq!(boxes.len(), 1);
}

#[test]
fn raising_the_text_cutoff_never_adds_a_region() {
    let mut text = grid_of(64, 32, 0.0);
    let link = grid_of(64, 32, 0.0);
    fill(&mut text, 10, 10, 15, 15, 0.9);
    fill(&mut text, 40, 12, 48, 16, 0.6);
    let low = get_det_boxes(&text, &link, key(0.5), key(0.4), key(0.4)).unwrap();
    let mid = get_det_boxes(&text, &link, key(0.7), key(0.4), key(0.4)).unwrap();
    let high = get_det_boxes(&text, &link, key(0.95), key(0.4), key(0.4)).unwrap();
    assert_eq!(low.len(), 2);
    assert_eq!(mid.len(), 1);
    assert_eq!(high.len(), 0);
    assert!(mid.contains_key(&1));
    for (k, v) in &mid {
        assert_eq!(low[k], *v);
    }
}

#[test]
fn peak_equal_to_the_cutoff_is_kept() {
    let mut text = grid_of(32, 32, 0.0);
    let link = grid_of(32, 32, 0.0);
    fill(&mut text, 10, 10, 15, 15, 0.7);
    let boxes = get_det_boxes(&text, &link, key(0.7), key(0.4), key(0.4)).unwrap();
    assert_eq!(boxes.len(), 1);
}

#[test]
fn link_bridge_joins_regions_but_stays_out_of_the_mask() {
    let mut text = grid_of(32, 16, 0.0);
    let mut link = grid_of(32, 16, 0.0);
    fill(&mut text, 4, 4, 8, 8, 0.9);
    fill(&mut text, 12, 4, 16, 8, 0.9);
    fill(&mut link, 8, 5, 12, 6, 0.9);
    let text_mask = threshold(&text, key(0.4));
    let link_mask = threshold(&link, key(0.4));
    let both = combine(&text_mask, &link_mask);
    let labelling = connected_components_with_stats(&both, Connectivity::Four, 0).unwrap();
    // The bridge makes one component of the two squares.
    assert_eq!(labelling.num_labels, 2);
    assert_eq!(labelling.stats.area[1], 16 + 16 + 4);
    let mask = seg_map(&labelling.labels, 1, &text_mask, &link_mask);
    for x in 8..12 {
        assert_eq!(labelling.labels.labels[5 * 32 + x], 1);
        assert_eq!(mask.pixels[5 * 32 + x], 0);
    }
    assert_eq!(mask.pixels[5 * 32 + 7], 255);
    assert_eq!(mask.pixels[5 * 32 + 12], 255);
    assert_eq!(mask.pixels.iter().filter(|&&p| p == 255).count(), 32);
    let boxes = get_det_boxes(&text, &link, key(0.7), key(0.4), key(0.4)).unwrap();
    assert_eq!(boxes.len(), 1);
}

#[test]
fn link_only_component_is_dropped() {
    let text = grid_of(32, 16, 0.0);
    let mut link = grid_of(32, 16, 0.0);
    fill(&mut link, 4, 4, 12, 8, 0.9);
    let boxes = get_det_boxes(&text, &link, key(0.7), key(0.4), key(0.4)).unwrap();
    assert!(boxes.is_empty());
}

#[test]
fn region_whose_grown_mask_has_no_border_is_skipped() {
    // The one component fills the grid; grown, it leaves no cell unset, and
    // no border is found.
    let text = grid_of(4, 4, 0.9);
    let link = grid_of(4, 4, 0.0);
    let boxes = get_det_boxes(&text, &link, key(0.7), key(0.4), key(0.4)).unwrap();
    assert!(boxes.is_empty());
}

#[test]
fn too_long_side_is_refused() {
    let text = ScoreGrid { width: MAX_SIDE + 1, height: 0, scores: vec![] };
    let link = ScoreGrid { width: MAX_SIDE + 1, height: 0, scores: vec![] };
    assert_eq!(
        get_det_boxes(&text, &link, key(0.7), key(0.4), key(0.4)),
        Err(DetectError::CapacityExceeded)
    );
    let text = ScoreGrid { width: MAX_SIDE, height: 0, scores: vec![] };
    let link = ScoreGrid { width: MAX_SIDE, height: 0, scores: vec![] };
    assert!(get_det_boxes(&text, &link, key(0.7), key(0.4), key(0.4)).is_ok());
}

#[test]
fn extract_boxes_agrees_with_fit_region() {
    let mut text = grid_of(64, 32, 0.0);
    let link = grid_of(64, 32, 0.0);
    fill(&mut text, 10, 10, 15, 15, 0.9);
    fill(&mut text, 40, 12, 48, 16, 0.6);
    let text_mask = threshold(&text, key(0.4));
    let link_mask = threshold(&link, key(0.4));
    let both = combine(&text_mask, &link_mask);
    let labelling = connected_components_with_stats(&both, Connectivity::Four, 0).unwrap();
    let boxes = extract_boxes(&text, &text_mask, &link_mask, &labelling, key(0.7));
    assert_eq!(boxes.len(), 1);
    let first = fit_region(&text, &text_mask, &link_mask, &labelling, 1, key(0.7));
    let second = fit_region(&text, &text_mask, &link_mask, &labelling, 2, key(0.7));
    assert!(matches!(first, RegionOutcome::Fitted(rect) if near(rect, boxes[&1])));
    assert_eq!(second, RegionOutcome::Filtered);
}

#[test]
fn fit_region_tells_a_missing_border_from_a_filtered_region() {
    let text = grid_of(4, 4, 0.9);
    let link = grid_of(4, 4, 0.0);
    let text_mask = threshold(&text, key(0.4));
    let link_mask = threshold(&link, key(0.4));
    let both = combine(&text_mask, &link_mask);
    let labelling = connected_components_with_stats(&both, Connectivity::Four, 0).unwrap();
    assert_eq!(
        fit_region(&text, &text_mask, &link_mask, &labelling, 1, key(0.7)),
        RegionOutcome::NoBorder
    );
    assert_eq!(
        fit_region(&text, &text_mask, &link_mask, &labelling, 1, key(0.95)),
        RegionOutcome::Filtered
    );
}

#[test]
fn threshold_sets_cells_that_reach_the_cutoff() {
    let grid = ScoreGrid { width: 3, height: 1, scores: vec![key(0.39), key(0.4), key(0.41)] };
    let mask = threshold(&grid, key(0.4));
    assert_eq!(mask.width, 3);
    assert_eq!(mask.height, 1);
    assert_eq!(mask.pixels, vec![0, 1, 1]);
}

#[test]
fn combine_adds_and_clamps() {
    let a = GrayGrid { width: 4, height: 1, pixels: vec![0, 1, 0, 1] };
    let b = GrayGrid { width: 4, height: 1, pixels: vec![0, 0, 1, 1] };
    let both = combine(&a, &b);
    assert_eq!(both.pixels, vec![0, 1, 1, 1]);
    assert_eq!((both.width, both.height), (4, 1));
}

#[test]
fn peak_score_is_the_highest_score_of_the_label() {
    let labels = LabelGrid { width: 5, height: 1, labels: vec![1, 2, 1, 0, 2] };
    let scores = ScoreGrid { width: 5, height: 1, scores: vec![5, 90, 70, 99, 30] };
    assert_eq!(peak_score(&labels, &scores, 1), Some(70));
    assert_eq!(peak_score(&labels, &scores, 2), Some(90));
    assert_eq!(peak_score(&labels, &scores, 0), Some(99));
    assert_eq!(peak_score(&labels, &scores, 3), None);
}

#[test]
fn is_kept_needs_area_and_peak() {
    assert_eq!(MIN_REGION_AREA, 10);
    assert!(is_kept(10, Some(70), 70));
    assert!(!is_kept(9, Some(70), 70));
    assert!(!is_kept(10, Some(69), 70));
    assert!(!is_kept(10, None, 0));
    assert!(is_kept(11, Some(71), 70));
}

#[test]
fn seg_map_leaves_out_other_labels_and_link_only_cells() {
    let labels = LabelGrid { width: 6, height: 1, labels: vec![1, 1, 1, 1, 2, 0] };
    let text = GrayGrid { width: 6, height: 1, pixels: vec![1, 0, 1, 0, 1, 0] };
    let link = GrayGrid { width: 6, height: 1, pixels: vec![0, 1, 1, 0, 0, 0] };
    let mask = seg_map(&labels, 1, &text, &link);
    assert_eq!(mask.pixels, vec![255, 0, 255, 255, 0, 0]);
    assert_eq!((mask.width, mask.height), (6, 1));
}

#[test]
fn dilation_rounds_is_the_whole_part_of_twice_the_root() {
    // 2 * sqrt(25 * 5 / 25) = 4.47..
    assert_eq!(dilation_rounds(25, 5, 5), 4);
    // 2 * sqrt(100 * 10 / 100) = 6.32..
    assert_eq!(dilation_rounds(100, 10, 10), 6);
    // 2 * sqrt(32 * 4 / 32) = 4
    assert_eq!(dilation_rounds(32, 8, 4), 4);
    assert_eq!(dilation_rounds(32, 4, 8), 4);
    // 2 * sqrt(12 * 1 / 12) = 2
    assert_eq!(dilation_rounds(12, 12, 1), 2);
    assert_eq!(dilation_rounds(12, 1, 12), 2);
    // 2 * sqrt(1 * 1 / 4) = 1
    assert_eq!(dilation_rounds(1, 1, 4), 1);
    // 2 * sqrt(15 * 4 / 16) = 3.87..
    assert_eq!(dilation_rounds(15, 4, 4), 3);
    assert_eq!(dilation_rounds(16, 4, 4), 4);
    assert_eq!(dilation_rounds(0, 4, 4), 0);
    assert_eq!(dilation_rounds(1, 1, 1), 2);
    assert_eq!(dilation_rounds(u32::MAX, 1, 1), 131071);
}

#[test]
fn dilation_reach_is_one_more_and_wraps_at_256() {
    assert_eq!(dilation_reach(25, 5, 5), 5);
    assert_eq!(dilation_reach(12, 12, 1), 3);
    // 2 * sqrt(16256 * 1) = 254.9..; one more is 255
    assert_eq!(dilation_reach(16256, 1, 1), 255);
    // 2 * sqrt(16257) = 255.007..; one more is 256, which wraps to 0
    assert_eq!(dilation_reach(16257, 1, 1), 0);
}

#[test]
fn distinct_points_keeps_first_occurrences() {
    let p = |x: i32, y: i32| Point { x, y };
    let points = vec![p(1, 1), p(2, 1), p(1, 1), p(3, 1), p(2, 1), p(1, 2)];
    assert_eq!(distinct_points(&points), vec![p(1, 1), p(2, 1), p(3, 1), p(1, 2)]);
    assert_eq!(distinct_points(&Vec::new()), Vec::<Point>::new());
}

#[test]
fn row_of_twelve_cells_grows_by_three() {
    // The box of the row is 12 cells wide and 1 cell high:
    // 2 * sqrt(12 * 1 / 12) = 2, so the row grows by 1 + 2 steps.
    let mut text = grid_of(32, 16, 0.0);
    let link = grid_of(32, 16, 0.0);
    fill(&mut text, 10, 8, 22, 9, 0.9);
    let boxes = get_det_boxes(&text, &link, key(0.7), key(0.4), key(0.4)).unwrap();
    assert_eq!(boxes.len(), 1);
    assert!(near(boxes[&1], quad((7, 5), (24, 5), (24, 11), (7, 11))));
}

#[test]
fn column_of_twelve_cells_grows_by_three() {
    let mut text = grid_of(16, 32, 0.0);
    let link = grid_of(16, 32, 0.0);
    fill(&mut text, 8, 10, 9, 22, 0.9);
    let boxes = get_det_boxes(&text, &link, key(0.7), key(0.4), key(0.4)).unwrap();
    assert_eq!(boxes.len(), 1);
    let q = boxes[&1];
    let xs = [q.top_left.x, q.top_right.x, q.bottom_right.x, q.bottom_left.x];
    let ys = [q.top_left.y, q.top_right.y, q.bottom_right.y, q.bottom_left.y];
    assert!((*xs.iter().min().unwrap() - 5).abs() <= 1);
    assert!((*xs.iter().max().unwrap() - 11).abs() <= 1);
    assert!((*ys.iter().min().unwrap() - 7).abs() <= 1);
    assert!((*ys.iter().max().unwrap() - 24).abs() <= 1);
}

#[test]
fn component_with_a_blank_mask_gets_no_rectangle() {
    // The component comes from the link map alone. Its text scores stay
    // below the cutoff of the text mask and yet reach the text cutoff, so
    // it passes the filter with a mask in which no cell is set.
    let mut text = grid_of(32, 16, 0.0);
    let mut link = grid_of(32, 16, 0.0);
    fill(&mut text, 4, 4, 12, 8, 0.3);
    fill(&mut link, 4, 4, 12, 8, 0.9);
    let text_mask = threshold(&text, key(0.4));
    let link_mask = threshold(&link, key(0.4));
    let both = combine(&text_mask, &link_mask);
    let labelling = connected_components_with_stats(&both, Connectivity::Four, 0).unwrap();
    assert_eq!(labelling.num_labels, 2);
    let mask = seg_map(&labelling.labels, 1, &text_mask, &link_mask);
    assert!(mask.pixels.iter().all(|&p| p == 0));
    assert_eq!(
        fit_region(&text, &text_mask, &link_mask, &labelling, 1, key(0.2)),
        RegionOutcome::NoBorder
    );
    let boxes = get_det_boxes(&text, &link, key(0.2), key(0.4), key(0.4)).unwrap();
    assert!(boxes.is_empty());
}

#[test]
fn region_border_gives_the_distinct_cells_of_the_first_border() {
    let mut text = grid_of(32, 16, 0.0);
    let link = grid_of(32, 16, 0.0);
    fill(&mut text, 10, 8, 22, 9, 0.9);
    let text_mask = threshold(&text, key(0.4));
    let link_mask = threshold(&link, key(0.4));
    let both = combine(&text_mask, &link_mask);
    let labelling = connected_components_with_stats(&both, Connectivity::Four, 0).unwrap();
    let points =
        region_border(&text, &text_mask, &link_mask, &labelling, 1, key(0.7)).unwrap();
    assert!(!points.is_empty());
    assert_eq!(distinct_points(&points), points);
    // The row of twelve cells in row 8 is grown by three steps: the border
    // runs through cells at most three steps away from the row, and it
    // reaches the four cells that lie farthest out.
    let away = |p: &Point| {
        let dx = if p.x < 10 { 10 - p.x } else if p.x > 21 { p.x - 21 } else { 0 };
        dx + (p.y - 8).abs()
    };
    assert!(points.iter().all(|p| away(p) <= 3));
    for far in [(7, 8), (24, 8), (10, 5), (21, 11)] {
        assert!(points.contains(&Point { x: far.0, y: far.1 }), "{far:?}");
    }
    assert_eq!(points.iter().map(|p| p.x).min(), Some(7));
    assert_eq!(points.iter().map(|p| p.x).max(), Some(24));
    assert_eq!(points.iter().map(|p| p.y).min(), Some(5));
    assert_eq!(points.iter().map(|p| p.y).max(), Some(11));
}

#[test]
fn region_border_says_why_a_component_is_dropped() {
    let text = grid_of(4, 4, 0.9);
    let link = grid_of(4, 4, 0.0);
    let text_mask = threshold(&text, key(0.4));
    let link_mask = threshold(&link, key(0.4));
    let both = combine(&text_mask, &link_mask);
    let labelling = connected_components_with_stats(&both, Connectivity::Four, 0).unwrap();
    assert_eq!(
        region_border(&text, &text_mask, &link_mask, &labelling, 1, key(0.7)),
        Err(Dropped::NoBorder)
    );
    assert_eq!(
        region_border(&text, &text_mask, &link_mask, &labelling, 1, key(0.95)),
        Err(Dropped::Filtered)
    );
}
