//! The outside functions that the library relies on, held against what the
//! library states of them.

use craft_burn::contour::{distinct_points, Point};
use image::GrayImage;
use imageproc::contours::find_contours;
use imageproc::distance_transform::Norm;
use imageproc::morphology::dilate;
use imageproc::union_find::DisjointSetForest;

struct Lcg(u64);

impl Lcg {
    fn next(&mut self) -> u64 {
        self.0 = self.0.wrapping_mul(6364136223846793005).wrapping_add(1442695040888963407);
        self.0 >> 33
    }
}

fn random_image(rng: &mut Lcg, width: u32, height: u32, one_in: u64) -> GrayImage {
    let pixels: Vec<u8> = (0..width * height)
        .map(|_| if rng.next() % one_in == 0 { 1 + (rng.next() % 255) as u8 } else { 0 })
        .collect();
    GrayImage::from_raw(width, height, pixels).unwrap()
}

fn grown_value(image: &GrayImage, x: i64, y: i64, k: i64) -> u8 {
    let (w, h) = (image.width() as i64, image.height() as i64);
    let mut near = false;
    for y2 in 0..h {
        for x2 in 0..w {
            if image.get_pixel(x2 as u32, y2 as u32).0[0] != 0
                && (x - x2).abs() + (y - y2).abs() <= k
            {
                near = true;
            }
        }
    }
    let cap = (w + h).min(255);
    if near || cap <= k {
        255
    } else {
        0
    }
}

fn check_dilate(image: &GrayImage, k: u8) {
    let out = dilate(image, Norm::L1, k);
    assert_eq!(out.dimensions(), image.dimensions());
    for y in 0..image.height() {
        for x in 0..image.width() {
            assert_eq!(
                out.get_pixel(x, y).0[0],
                grown_value(image, x as i64, y as i64, k as i64),
                "cell ({x}, {y}) of a {}x{} image grown by {k}",
                image.width(),
                image.height()
            );
        }
    }
}

#[test]
fn dilate_sets_cells_within_reach_of_foreground() {
    let mut rng = Lcg(7);
    for &(w, h) in &[(1u32, 1u32), (1, 9), (9, 1), (5, 7), (16, 12), (23, 31)] {
        for &one_in in &[2u64, 7, 40] {
            let image = random_image(&mut rng, w, h, one_in);
            for &k in &[0u8, 1, 2, 3, 6, 11, 40, 254, 255] {
                check_dilate(&image, k);
            }
        }
    }
}

#[test]
fn dilate_of_an_empty_image_depends_on_the_distance_cap() {
    let image = GrayImage::new(5, 7);
    check_dilate(&image, 11);
    check_dilate(&image, 12);
    check_dilate(&image, 13);
    assert!(dilate(&image, Norm::L1, 11).pixels().all(|p| p.0[0] == 0));
    assert!(dilate(&image, Norm::L1, 12).pixels().all(|p| p.0[0] == 255));
}

#[test]
fn dilate_beyond_255_steps_is_cut_off() {
    // One set cell at the left end of a row of 300 cells.
    let mut image = GrayImage::new(300, 1);
    image.put_pixel(0, 0, image::Luma([9]));
    check_dilate(&image, 254);
    check_dilate(&image, 255);
    let out = dilate(&image, Norm::L1, 254);
    assert_eq!(out.get_pixel(254, 0).0[0], 255);
    assert_eq!(out.get_pixel(255, 0).0[0], 0);
    let out = dilate(&image, Norm::L1, 255);
    assert_eq!(out.get_pixel(299, 0).0[0], 255);
}

fn roots(forest: &mut DisjointSetForest, n: usize) -> Vec<usize> {
    (0..n).map(|i| forest.root(i)).collect()
}

#[test]
fn forest_union_moves_both_trees_under_one_of_the_two_roots() {
    let n = 12;
    let mut rng = Lcg(11);
    let mut forest = DisjointSetForest::new(n);
    assert_eq!(roots(&mut forest, n), (0..n).collect::<Vec<_>>());
    for _ in 0..40 {
        let i = (rng.next() % n as u64) as usize;
        let j = (rng.next() % n as u64) as usize;
        let before = roots(&mut forest, n);
        forest.union(i, j);
        let after = roots(&mut forest, n);
        let (ri, rj) = (before[i], before[j]);
        let r = after[i];
        assert!(r == ri || r == rj);
        for k in 0..n {
            if before[k] == ri || before[k] == rj {
                assert_eq!(after[k], r);
            } else {
                assert_eq!(after[k], before[k]);
            }
        }
        // Asking for a root moves no element to another tree.
        assert_eq!(roots(&mut forest, n), after);
    }
}

#[test]
fn contours_pass_cells_of_the_image() {
    let mut rng = Lcg(3);
    for &(w, h) in &[(1u32, 1u32), (6, 4), (17, 13)] {
        for &one_in in &[2u64, 5] {
            let image = random_image(&mut rng, w, h, one_in);
            for contour in find_contours::<i32>(&image) {
                assert!(!contour.points.is_empty());
                for p in &contour.points {
                    assert!(0 <= p.x && (p.x as u32) < w);
                    assert!(0 <= p.y && (p.y as u32) < h);
                    assert_ne!(image.get_pixel(p.x as u32, p.y as u32).0[0], 0);
                }
            }
        }
    }
}

#[test]
fn contour_of_a_thin_line_passes_its_inner_cells_twice() {
    let mut image = GrayImage::new(5, 3);
    for x in 1..4 {
        image.put_pixel(x, 1, image::Luma([255]));
    }
    let contours = find_contours::<i32>(&image);
    assert_eq!(contours.len(), 1);
    let points: Vec<Point> =
        contours[0].points.iter().map(|p| Point { x: p.x, y: p.y }).collect();
    let p = |x: i32, y: i32| Point { x, y };
    assert_eq!(points, vec![p(1, 1), p(2, 1), p(3, 1), p(2, 1)]);
    assert_eq!(distinct_points(&points), vec![p(1, 1), p(2, 1), p(3, 1)]);
}

fn has_border(image: &GrayImage) -> bool {
    let (w, h) = image.dimensions();
    let set = |x: u32, y: u32| image.get_pixel(x, y).0[0] != 0;
    (0..h).any(|y| {
        (0..w).any(|x| set(x, y) && ((x > 0 && !set(x - 1, y)) || (x + 1 < w && !set(x + 1, y))))
    })
}

#[test]
fn a_border_is_found_when_a_set_cell_has_an_unset_cell_beside_it() {
    let mut rng = Lcg(17);
    for &(w, h) in &[(1u32, 1u32), (1, 6), (6, 1), (2, 2), (3, 5), (9, 7), (20, 14)] {
        for &one_in in &[1u64, 2, 3, 9, 50, 1000] {
            for _ in 0..20 {
                let image = random_image(&mut rng, w, h, one_in);
                assert_eq!(
                    !find_contours::<i32>(&image).is_empty(),
                    has_border(&image),
                    "a {w}x{h} image with cells {:?}",
                    image.as_raw()
                );
            }
        }
    }
}

#[test]
fn full_rows_show_no_border() {
    // Every set cell has set cells or the edge of the grid beside it.
    let mut image = GrayImage::new(6, 5);
    for y in 1..4 {
        for x in 0..6 {
            image.put_pixel(x, y, image::Luma([255]));
        }
    }
    assert!(!has_border(&image));
    assert!(find_contours::<i32>(&image).is_empty());
    assert!(find_contours::<i32>(&GrayImage::new(4, 4)).is_empty());
}
