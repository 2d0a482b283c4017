use craft_burn::connectivity::Connectivity;
use craft_burn::grid::GrayGrid;
use craft_burn::labeling::{connected_components_with_stats, LabelError, Stats};

fn grid(width: u32, height: u32, rows: &[&[u8]]) -> GrayGrid {
    let mut pixels = Vec::new();
    for row in rows {
        assert_eq!(row.len(), width as usize);
        pixels.extend_from_slice(row);
    }
    assert_eq!(rows.len(), height as usize);
    GrayGrid { width, height, pixels }
}

#[test]
fn all_background_has_no_components() {
    let image = GrayGrid { width: 32, height: 32, pixels: vec![0; 32 * 32] };
    let r = connected_components_with_stats(&image, Connectivity::Four, 0).unwrap();
    assert_eq!(r.num_labels, 1);
    assert!(r.labels.labels.iter().all(|&l| l == 0));
    assert_eq!(r.stats.area, vec![0]);
    assert_eq!(r.stats.left, vec![u32::MAX]);
    assert_eq!(r.stats.top, vec![u32::MAX]);
    assert_eq!(r.stats.right, vec![0]);
    assert_eq!(r.stats.bottom, vec![0]);
}

#[test]
fn image_without_cells_has_no_labels() {
    let image = GrayGrid { width: 0, height: 7, pixels: vec![] };
    let r = connected_components_with_stats(&image, Connectivity::Four, 0).unwrap();
    assert_eq!(r.num_labels, 0);
    assert!(r.labels.labels.is_empty());
    assert!(r.stats.area.is_empty());
    assert_eq!(r.labels.width, 0);
    assert_eq!(r.labels.height, 7);
}

#[test]
fn single_cell_image_is_labelled() {
    let image = GrayGrid { width: 1, height: 1, pixels: vec![1] };
    let r = connected_components_with_stats(&image, Connectivity::Four, 0).unwrap();
    assert_eq!(r.num_labels, 2);
    assert_eq!(r.labels.labels, vec![1]);
    assert_eq!(r.stats.area, vec![0, 1]);
    assert_eq!(r.stats.left[1], 0);
    assert_eq!(r.stats.right[1], 0);
}

#[test]
fn u_shape_is_one_component() {
    // The two arms get different provisional labels and meet in the last row.
    let image = grid(
        5,
        4,
        &[
            &[1, 0, 0, 0, 1],
            &[1, 0, 0, 0, 1],
            &[1, 0, 0, 0, 1],
            &[1, 1, 1, 1, 1],
        ],
    );
    let r = connected_components_with_stats(&image, Connectivity::Four, 0).unwrap();
    assert_eq!(r.num_labels, 2);
    assert_eq!(
        r.labels.labels,
        vec![1, 0, 0, 0, 1, 1, 0, 0, 0, 1, 1, 0, 0, 0, 1, 1, 1, 1, 1, 1]
    );
    assert_eq!(r.stats.area, vec![0, 11]);
    assert_eq!(r.stats.left[1], 0);
    assert_eq!(r.stats.top[1], 0);
    assert_eq!(r.stats.right[1], 4);
    assert_eq!(r.stats.bottom[1], 3);
}

#[test]
fn diagonal_cells_join_only_under_eight_connectivity() {
    let image = grid(3, 3, &[&[1, 0, 0], &[0, 1, 0], &[0, 0, 1]]);
    let four = connected_components_with_stats(&image, Connectivity::Four, 0).unwrap();
    assert_eq!(four.num_labels, 4);
    assert_eq!(four.labels.labels, vec![1, 0, 0, 0, 2, 0, 0, 0, 3]);
    assert_eq!(four.stats.area, vec![0, 1, 1, 1]);
    let eight = connected_components_with_stats(&image, Connectivity::Eight, 0).unwrap();
    assert_eq!(eight.num_labels, 2);
    assert_eq!(eight.labels.labels, vec![1, 0, 0, 0, 1, 0, 0, 0, 1]);
    assert_eq!(eight.stats.area, vec![0, 3]);
    assert_eq!(eight.stats.right[1], 2);
    assert_eq!(eight.stats.bottom[1], 2);
}

#[test]
fn north_east_neighbour_joins_under_eight_connectivity() {
    let image = grid(3, 2, &[&[0, 0, 1], &[0, 1, 0]]);
    let r = connected_components_with_stats(&image, Connectivity::Eight, 0).unwrap();
    assert_eq!(r.num_labels, 2);
    assert_eq!(r.labels.labels, vec![0, 0, 1, 0, 1, 0]);
    assert_eq!(r.stats.left[1], 1);
    assert_eq!(r.stats.right[1], 2);
}

#[test]
fn two_squares_get_two_labels_in_reading_order() {
    let mut pixels = vec![0u8; 16 * 8];
    for y in 1..4 {
        for x in 9..12 {
            pixels[y * 16 + x] = 1;
        }
    }
    for y in 2..7 {
        for x in 1..6 {
            pixels[y * 16 + x] = 1;
        }
    }
    let image = GrayGrid { width: 16, height: 8, pixels };
    let r = connected_components_with_stats(&image, Connectivity::Four, 0).unwrap();
    assert_eq!(r.num_labels, 3);
    // The square on the right starts in an earlier row, so it is met first.
    assert_eq!(r.labels.labels[1 * 16 + 9], 1);
    assert_eq!(r.labels.labels[2 * 16 + 1], 2);
    assert_eq!(r.stats.area, vec![0, 9, 25]);
    assert_eq!((r.stats.left[1], r.stats.top[1], r.stats.right[1], r.stats.bottom[1]), (9, 1, 11, 3));
    assert_eq!((r.stats.left[2], r.stats.top[2], r.stats.right[2], r.stats.bottom[2]), (1, 2, 5, 6));
}

#[test]
fn cells_of_different_values_are_not_joined() {
    let image = grid(4, 1, &[&[1, 1, 2, 2]]);
    let r = connected_components_with_stats(&image, Connectivity::Four, 0).unwrap();
    assert_eq!(r.num_labels, 3);
    assert_eq!(r.labels.labels, vec![1, 1, 2, 2]);
}

#[test]
fn background_value_is_a_parameter() {
    let image = grid(3, 1, &[&[0, 7, 0]]);
    let r = connected_components_with_stats(&image, Connectivity::Four, 7).unwrap();
    assert_eq!(r.num_labels, 3);
    assert_eq!(r.labels.labels, vec![1, 0, 2]);
}

#[test]
fn too_many_cells_are_refused() {
    // The size is judged before any cell is read, so the 2^32 cells are not
    // allocated here.
    let image = GrayGrid { width: 65536, height: 65536, pixels: Vec::new() };
    assert_eq!(
        connected_components_with_stats(&image, Connectivity::Four, 0).err(),
        Some(LabelError::CapacityExceeded)
    );
}

#[test]
fn default_stats_are_empty() {
    let stats = Stats::default();
    assert!(stats.left.is_empty());
    assert!(stats.top.is_empty());
    assert!(stats.right.is_empty());
    assert!(stats.bottom.is_empty());
    assert!(stats.area.is_empty());
}

#[test]
fn labelling_is_the_same_twice() {
    let image = grid(
        6,
        4,
        &[
            &[1, 1, 0, 1, 0, 1],
            &[0, 1, 0, 1, 1, 1],
            &[1, 0, 0, 0, 0, 0],
            &[1, 1, 1, 0, 1, 1],
        ],
    );
    let first = connected_components_with_stats(&image, Connectivity::Four, 0).unwrap();
    let second = connected_components_with_stats(&image, Connectivity::Four, 0).unwrap();
    assert_eq!(first.num_labels, 5);
    assert_eq!(first.num_labels, second.num_labels);
    assert_eq!(first.labels.labels, second.labels.labels);
    assert_eq!(first.stats.area, second.stats.area);
    assert_eq!(first.stats.left, second.stats.left);
    assert_eq!(first.stats.top, second.stats.top);
    assert_eq!(first.stats.right, second.stats.right);
    assert_eq!(first.stats.bottom, second.stats.bottom);
    assert_eq!(
        first.labels.labels,
        vec![1, 1, 0, 2, 0, 2, 0, 1, 0, 2, 2, 2, 3, 0, 0, 0, 0, 0, 3, 3, 3, 0, 4, 4]
    );
    assert_eq!(first.stats.area, vec![0, 3, 5, 4, 2]);
}
