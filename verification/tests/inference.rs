use sahi::backend::extract_slices;
use sahi::inference::ImageData;
use sahi::slicer::Slice;

#[test]
fn test_image_extract_slice() {
    // 4x4 RGB image (48 bytes)
    let data: Vec<u8> = (0..48).collect();
    let img: ImageData = ImageData::from_rgb(data, 4, 4);

    let slice: ImageData = img.extract_slice(1, 1, 2, 2);

    assert_eq!(slice.width, 2);
    assert_eq!(slice.height, 2);
    assert_eq!(slice.data.len(), 12); // 2x2x3
}

#[test]
fn test_extract_slice_pads_out_of_bounds_rows() {
    // 4x4 RGB (values 0..48). A 4x4 slice at (2,2) overruns both edges; only a
    // 2x2 region is in-bounds.
    let data: Vec<u8> = (0..48).collect();
    let img = ImageData::from_rgb(data, 4, 4);
    let slice = img.extract_slice(2, 2, 4, 4);

    assert_eq!(slice.width, 4);
    assert_eq!(slice.height, 4);
    assert_eq!(slice.data.len(), 4 * 4 * 3); // always w*h*channels (zero-padded)

    // Top-left of the slice is source pixel (2,2) = byte offset (2*4+2)*3 = 30.
    assert_eq!(&slice.data[0..3], &[30, 31, 32]);
    // A row beyond the source bottom stays zero.
    let row3 = 3 * 4 * 3;
    assert_eq!(&slice.data[row3..row3 + 3], &[0, 0, 0]);
}

#[test]
fn test_extract_slice_x_beyond_width_is_zero() {
    let data: Vec<u8> = (0..48).collect();
    let img = ImageData::from_rgb(data, 4, 4);
    // x past the right edge: no source columns -> all zeros, and no panic.
    let slice = img.extract_slice(5, 0, 2, 2);
    assert_eq!(slice.data.len(), 2 * 2 * 3);
    assert!(slice.data.iter().all(|&b| b == 0));
}

#[test]
fn extract_slice_copies_interior_bytes_exactly() {
    let data: Vec<u8> = (0..48).collect();
    let img = ImageData::from_rgb(data, 4, 4);
    let slice = img.extract_slice(1, 1, 2, 2);
    // Rows 1 and 2, columns 1 and 2 of the source.
    assert_eq!(slice.data, vec![15, 16, 17, 18, 19, 20, 27, 28, 29, 30, 31, 32]);
    assert_eq!(slice.channels, 3);
}

#[test]
fn extract_slice_from_short_buffer_pads_missing_bytes() {
    // The buffer holds only the first row of a 2x2 single-channel image.
    let img = ImageData::new(vec![7, 8], 2, 2, 1);
    let slice = img.extract_slice(0, 0, 2, 2);
    assert_eq!(slice.data, vec![7, 8, 0, 0]);
}

#[test]
fn extract_slices_keeps_slice_order() {
    let image = ImageData::from_rgb((0..300).map(|i| (i % 256) as u8).collect(), 10, 10);
    let slices = vec![
        Slice::new(0, 0, 5, 5, 0),
        Slice::new(3, 3, 5, 5, 1),
        Slice::new(5, 5, 5, 5, 2),
    ];
    let images = extract_slices(&image, &slices);
    assert_eq!(images.len(), 3);
    for (s, img) in slices.iter().zip(images.iter()) {
        let direct = image.extract_slice(s.x, s.y, s.width, s.height);
        assert_eq!(img.data, direct.data);
        assert_eq!((img.width, img.height), (s.width, s.height));
    }
}

#[test]
fn image_data_repr_lists_dimensions() {
    let img = ImageData::new(vec![0; 12], 2, 2, 3);
    assert_eq!(img.__repr__(), "ImageData(width=2, height=2, channels=3)");
    let wide = ImageData::new(Vec::new(), 1920, 0, 1);
    assert_eq!(wide.__repr__(), "ImageData(width=1920, height=0, channels=1)");
}

#[test]
fn extraction_of_inconsistent_images_pads_with_zeros() {
    // Dimensions far beyond the buffer: nothing is copied, so nothing overflows.
    let img = ImageData::new(Vec::new(), u32::MAX, u32::MAX, 3);
    assert!(img.can_extract(0, 0, 2, 2));
    assert_eq!(img.extract_slice(0, 0, 2, 2).data, vec![0; 12]);
    assert!(img.can_extract(u32::MAX, 5, 1, 1));
    assert_eq!(img.extract_slice(u32::MAX, 5, 1, 1).data, vec![0; 3]);
    // A slice buffer that cannot be addressed is refused.
    let wide = ImageData::new(Vec::new(), 1, 1, u32::MAX);
    assert!(!wide.can_extract(0, 0, u32::MAX, u32::MAX));
    // Ordinary slices are always extractable.
    let small = ImageData::from_rgb(vec![1; 12], 2, 2);
    assert!(small.can_extract(1, 1, 4, 4));
}
