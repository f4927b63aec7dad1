use sahi::annotation::contour::bool_mask_to_polygons;
use sahi::annotation::mask::{union_into, MaskFormat, RleData};
use sahi::annotation::FullShape;

#[test]
fn test_rle_decode() {
    // Simple RLE: 2 background, 3 foreground, 2 background
    let rle = RleData::new(vec![2, 3, 2], [1, 7]);
    let mask = rle.to_bool_mask();

    assert_eq!(mask, vec![false, false, true, true, true, false, false]);
    assert_eq!(rle.area(), 3);
}

#[test]
fn test_full_shape() {
    let shape = FullShape::new(480, 640);
    assert_eq!(shape.to_hw(), [480, 640]);
    assert_eq!(shape.to_wh(), (640, 480));

    let from_arr: FullShape = [480, 640].into();
    assert_eq!(from_arr, shape);
}

#[test]
fn full_shape_from_tuple_and_repr() {
    let shape: FullShape = (480u32, 640u32).into();
    assert_eq!(shape, FullShape::py_new(480, 640));
    assert_eq!(shape.__repr__(), "FullShape(height=480, width=640)");
    assert_eq!(FullShape::from_hw([7, 0]).__repr__(), "FullShape(height=7, width=0)");
}

#[test]
fn rle_width_height_and_default_format() {
    let rle = RleData::new(vec![1, 1], [3, 5]);
    assert_eq!(rle.height(), 3);
    assert_eq!(rle.width(), 5);
    assert_eq!(MaskFormat::default(), MaskFormat::Polygon);
}

#[test]
fn rle_runs_past_the_end_are_cut_off() {
    // Two rows of three pixels; the foreground run of 5 reaches past the 6th pixel.
    let rle = RleData::new(vec![4, 5], [2, 3]);
    let mask = rle.to_bool_mask();
    assert_eq!(mask, vec![false, false, false, false, true, true]);
    // The area counts the whole run, beyond the mask.
    assert_eq!(rle.area(), 5);
}

#[test]
fn rle_area_equals_foreground_pixels_when_runs_fit() {
    let rle = RleData::new(vec![1, 2, 3, 4, 2], [3, 4]);
    let mask = rle.to_bool_mask();
    let on = mask.iter().filter(|&&b| b).count() as u32;
    assert_eq!(rle.area(), 6);
    assert_eq!(on, rle.area());
}

#[test]
fn rle_starting_with_foreground_uses_zero_background_run() {
    let rle = RleData::new(vec![0, 2, 1, 1], [1, 4]);
    assert_eq!(rle.to_bool_mask(), vec![true, true, false, true]);
    assert_eq!(rle.area(), 3);
}

#[test]
fn contour_of_a_square_block_is_its_ring() {
    // 4x4 grid with a 2x2 block at (1,1)..(2,2).
    let mut mask = vec![false; 16];
    for (x, y) in [(1, 1), (2, 1), (1, 2), (2, 2)] {
        mask[y * 4 + x] = true;
    }
    let polys = bool_mask_to_polygons(&mask, 4, 4);
    assert_eq!(polys, vec![vec![(1, 1), (2, 1), (2, 2), (1, 2)]]);
}

#[test]
fn contour_skips_components_of_fewer_than_three_pixels() {
    // A single pixel and a horizontal pair: neither yields a polygon.
    let mut mask = vec![false; 5 * 3];
    mask[0] = true;
    mask[2 * 5 + 2] = true;
    mask[2 * 5 + 3] = true;
    assert!(bool_mask_to_polygons(&mask, 5, 3).is_empty());
}

#[test]
fn contour_separates_components_in_raster_order() {
    // Two 2x2 blocks that do not touch, even diagonally.
    let mut mask = vec![false; 6 * 2];
    for (x, y) in [(0, 0), (1, 0), (0, 1), (1, 1), (4, 0), (5, 0), (4, 1), (5, 1)] {
        mask[y * 6 + x] = true;
    }
    let polys = bool_mask_to_polygons(&mask, 6, 2);
    assert_eq!(polys.len(), 2);
    assert_eq!(polys[0][0], (0, 0));
    assert_eq!(polys[1][0], (4, 0));
}

#[test]
fn contour_joins_diagonal_neighbours() {
    // A diagonal line of three pixels is one 8-connected component.
    let mut mask = vec![false; 9];
    mask[0] = true;
    mask[4] = true;
    mask[8] = true;
    let polys = bool_mask_to_polygons(&mask, 3, 3);
    assert_eq!(polys.len(), 1);
    assert_eq!(polys[0][0], (0, 0));
    assert!(polys[0].contains(&(1, 1)));
    assert!(polys[0].contains(&(2, 2)));
    // Out along the line and back, stopping before the first step repeats.
    assert_eq!(polys[0], vec![(0, 0), (1, 1), (2, 2), (1, 1)]);
}

#[test]
fn contour_of_horizontal_line_lists_its_cycle_once() {
    let mask = vec![true, true, true];
    let polys = bool_mask_to_polygons(&mask, 3, 1);
    assert_eq!(polys, vec![vec![(0, 0), (1, 0), (2, 0), (1, 0)]]);
}

fn mask_of(width: usize, height: usize, cells: &[(usize, usize)]) -> Vec<bool> {
    let mut mask = vec![false; width * height];
    for &(x, y) in cells {
        mask[y * width + x] = true;
    }
    mask
}

#[test]
fn contour_of_rectangle_runs_clockwise_round_its_border() {
    let cells: Vec<(usize, usize)> =
        (1..4).flat_map(|x| (1..3).map(move |y| (x, y))).collect();
    let polys = bool_mask_to_polygons(&mask_of(5, 4, &cells), 5, 4);
    assert_eq!(polys, vec![vec![(1, 1), (2, 1), (3, 1), (3, 2), (2, 2), (1, 2)]]);
}

#[test]
fn contour_of_l_shape() {
    let mask = mask_of(4, 4, &[(0, 0), (0, 1), (0, 2), (1, 2), (2, 2)]);
    let polys = bool_mask_to_polygons(&mask, 4, 4);
    assert_eq!(polys, vec![vec![(0, 0), (0, 1), (1, 2), (2, 2), (1, 2), (0, 2), (0, 1)]]);
}

#[test]
fn contour_ignores_holes() {
    // A 3x3 ring: only the outer boundary is traced.
    let cells: Vec<(usize, usize)> = (0..3)
        .flat_map(|x| (0..3).map(move |y| (x, y)))
        .filter(|&c| c != (1, 1))
        .collect();
    let polys = bool_mask_to_polygons(&mask_of(3, 3, &cells), 3, 3);
    assert_eq!(
        polys,
        vec![vec![(0, 0), (1, 0), (2, 0), (2, 1), (2, 2), (1, 2), (0, 2), (0, 1)]]
    );
}

#[test]
fn contour_of_plus_and_of_vertical_line() {
    let plus = mask_of(3, 3, &[(1, 0), (0, 1), (1, 1), (2, 1), (1, 2)]);
    assert_eq!(bool_mask_to_polygons(&plus, 3, 3), vec![vec![(1, 0), (2, 1), (1, 2), (0, 1)]]);
    let line = mask_of(1, 3, &[(0, 0), (0, 1), (0, 2)]);
    assert_eq!(bool_mask_to_polygons(&line, 1, 3), vec![vec![(0, 0), (0, 1), (0, 2), (0, 1)]]);
}

#[test]
fn contour_of_empty_mask_is_empty() {
    assert!(bool_mask_to_polygons(&vec![false; 12], 4, 3).is_empty());
    assert!(bool_mask_to_polygons(&Vec::new(), 0, 0).is_empty());
}

#[test]
fn union_into_ors_the_common_pixels() {
    let mut acc = vec![true, false, false, false];
    union_into(&mut acc, &vec![false, true, false]);
    assert_eq!(acc, vec![true, true, false, false]);
    union_into(&mut acc, &vec![false, false, false, true, true]);
    assert_eq!(acc, vec![true, true, false, true]);
}

#[test]
fn annotation_defaults() {
    assert_eq!(FullShape::default(), FullShape::new(0, 0));
    assert_eq!(MaskFormat::default(), MaskFormat::Polygon);
    let rle = RleData::default();
    assert!(rle.counts.is_empty());
    assert_eq!(rle.size, [0, 0]);
    assert!(rle.to_bool_mask().is_empty());
}

#[test]
fn contours_close_into_rings() {
    // Each traced contour ends next to its first vertex.
    let cells: Vec<(usize, usize)> = (1..4).flat_map(|x| (1..3).map(move |y| (x, y))).collect();
    for (mask, w, h) in [
        (mask_of(5, 4, &cells), 5u32, 4u32),
        (mask_of(4, 4, &[(0, 0), (0, 1), (0, 2), (1, 2), (2, 2)]), 4, 4),
        (mask_of(3, 3, &[(0, 0), (1, 1), (2, 2)]), 3, 3),
    ] {
        for ring in bool_mask_to_polygons(&mask, w, h) {
            let (a, b) = (ring[0], ring[ring.len() - 1]);
            assert!(a != b);
            assert!((a.0 as i64 - b.0 as i64).abs() <= 1 && (a.1 as i64 - b.1 as i64).abs() <= 1);
        }
    }
}
