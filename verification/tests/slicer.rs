use sahi::slicer::{axis_starts, slice_grid, Slice};

/// The grid a slicer with these settings produces: steps are the slice size scaled by one
/// minus the overlap ratio (clamped to `[0, 0.9]`), truncated, and at least 1.
fn slices_for(
    image_width: u32,
    image_height: u32,
    slice_width: u32,
    slice_height: u32,
    overlap: (f32, f32),
    fixed_size: bool,
) -> Vec<Slice> {
    let ow = overlap.0.clamp(0.0, 0.9);
    let oh = overlap.1.clamp(0.0, 0.9);
    let step_x = ((slice_width as f32 * (1.0 - ow)) as u32).max(1);
    let step_y = ((slice_height as f32 * (1.0 - oh)) as u32).max(1);
    slice_grid(image_width, image_height, slice_width, slice_height, step_x, step_y, fixed_size)
}

#[test]
fn test_single_slice_small_image() {
    let slices: Vec<Slice> = slices_for(320, 320, 640, 640, (0.2, 0.2), false);

    assert_eq!(slices.len(), 1);
    assert_eq!(slices[0].x, 0);
    assert_eq!(slices[0].y, 0);
    assert_eq!(slices[0].width, 320);
    assert_eq!(slices[0].height, 320);
}

#[test]
fn test_multiple_slices_no_overlap() {
    let slices: Vec<Slice> = slices_for(200, 200, 100, 100, (0.0, 0.0), false);

    assert_eq!(slices.len(), 4);
}

#[test]
fn test_overlap_creates_more_slices() {
    let count_no: usize = slices_for(200, 200, 100, 100, (0.0, 0.0), false).len();
    let count_yes: usize = slices_for(200, 200, 100, 100, (0.5, 0.5), false).len();

    assert!(count_yes > count_no);
}

#[test]
fn test_slice_indices_sequential() {
    let slices: Vec<Slice> = slices_for(300, 300, 100, 100, (0.2, 0.2), false);

    for (i, slice) in slices.iter().enumerate() {
        assert_eq!(slice.index, i);
    }
}

#[test]
fn test_fixed_size_keeps_full_tiles_and_shifts_last() {
    // 250x100: clip mode gives widths 100,100,50; fixed gives three 100-wide tiles.
    let slices = slices_for(250, 100, 100, 100, (0.0, 0.0), true);

    assert_eq!(slices.len(), 3);
    assert!(slices.iter().all(|s| s.width == 100 && s.height == 100));
    // Last column tile is flush to the right edge: x = 250 - 100 = 150.
    assert_eq!(slices.iter().map(|s| s.x).max().unwrap(), 150);
    // Every tile stays within the image.
    assert!(slices.iter().all(|s| s.x + s.width <= 250 && s.y + s.height <= 100));
}

#[test]
fn test_fixed_size_small_image_single_clipped_tile() {
    // Image smaller than a slice -> can't shift; one image-sized tile.
    let slices = slices_for(50, 50, 100, 100, (0.2, 0.2), true);
    assert_eq!(slices.len(), 1);
    assert_eq!((slices[0].width, slices[0].height), (50, 50));
}

#[test]
fn test_default_clips_edge_tiles() {
    // Default (clip) behavior is unchanged: the last tile is smaller.
    let slices = slices_for(250, 100, 100, 100, (0.0, 0.0), false);
    assert_eq!(slices.len(), 3);
    assert_eq!(slices.iter().map(|s| s.width).min().unwrap(), 50); // clipped last tile
}

#[test]
fn axis_starts_step_until_the_end_is_reached() {
    // (1000 - 300 + 239) / 240 + 1 = 4 starts.
    assert_eq!(axis_starts(1000, 300, 240, false), vec![0, 240, 480, 720]);
    assert_eq!(axis_starts(1000, 300, 240, true), vec![0, 240, 480, 700]);
    assert_eq!(axis_starts(300, 300, 240, true), vec![0]);
    assert_eq!(axis_starts(301, 300, 1, false), vec![0, 1]);
}

#[test]
fn grid_is_row_major_and_clipped() {
    let slices = slice_grid(250, 150, 100, 100, 100, 100, false);
    let expected = vec![
        Slice::new(0, 0, 100, 100, 0),
        Slice::new(100, 0, 100, 100, 1),
        Slice::new(200, 0, 50, 100, 2),
        Slice::new(0, 100, 100, 50, 3),
        Slice::new(100, 100, 100, 50, 4),
        Slice::new(200, 100, 50, 50, 5),
    ];
    assert_eq!(slices, expected);
}

#[test]
fn grid_covers_every_pixel_with_overlap() {
    let (w, h) = (1000u32, 700u32);
    let slices = slices_for(w, h, 320, 320, (0.25, 0.1), false);
    for y in (0..h).step_by(7) {
        for x in (0..w).step_by(7) {
            assert!(slices
                .iter()
                .any(|s| s.x <= x && x < s.x + s.width && s.y <= y && y < s.y + s.height));
        }
    }
    assert!(slices.iter().all(|s| s.x + s.width <= w && s.y + s.height <= h));
}
