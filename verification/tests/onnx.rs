use sahi::onnx::processor::Preprocessor;
use sahi::onnx::session::{
    parse_device, provider_from_lowercase, DeviceNameError, ExecutionProvider, ONNX_CUDA,
};
use sahi::onnx::yolov8::processor::{
    check_output_shape, detect_output_format, OutputLayout, OutputShapeError, YOLOv8OutputFormat,
};
use sahi::onnx::yolov8::seg::{
    pick_seg_outputs,
    check_mask_resolution, check_seg_shapes, detect_seg_output_format, SegLayout, SegShapeError,
    DEFAULT_NUM_MASKS, MAX_MASK_PIXELS,
};

#[test]
fn test_detect_output_format() {
    // Standard: (1, 84, 8400)
    assert_eq!(detect_output_format(&[1, 84, 8400], 80), YOLOv8OutputFormat::Standard);

    // Transposed: (1, 8400, 84)
    assert_eq!(detect_output_format(&[1, 8400, 84], 80), YOLOv8OutputFormat::Transposed);
}

#[test]
fn detect_output_format_falls_back_to_standard() {
    assert_eq!(detect_output_format(&[1, 5, 7], 80), YOLOv8OutputFormat::Standard);
    assert_eq!(detect_output_format(&[84, 8400], 80), YOLOv8OutputFormat::Standard);
    assert_eq!(YOLOv8OutputFormat::default(), YOLOv8OutputFormat::Standard);
}

#[test]
fn check_output_shape_accepts_both_layouts() {
    assert_eq!(
        check_output_shape(&[1, 6, 1], 2),
        Ok(OutputLayout {
            format: YOLOv8OutputFormat::Standard,
            rows: 6,
            cols: 1,
            num_boxes: 1,
            box_dim: 6,
        })
    );
    assert_eq!(
        check_output_shape(&[1, 1, 6], 2),
        Ok(OutputLayout {
            format: YOLOv8OutputFormat::Transposed,
            rows: 1,
            cols: 6,
            num_boxes: 1,
            box_dim: 6,
        })
    );
}

#[test]
fn check_output_shape_errors() {
    assert_eq!(check_output_shape(&[1, 84], 80), Err(OutputShapeError::NotThreeDimensional));
    assert_eq!(check_output_shape(&[2, 84, 8400], 80), Err(OutputShapeError::BatchSize { batch: 2 }));
    assert_eq!(
        check_output_shape(&[1, 5, 7], 80),
        Err(OutputShapeError::BoxDim { expected: 84, found: 5 })
    );
}

#[test]
fn test_detect_seg_output_format_standard_and_transposed() {
    // num_classes=1, num_masks=1 -> box_dim = 4 + 1 + 1 = 6
    assert_eq!(detect_seg_output_format(&[1, 6, 7], 1, 1), YOLOv8OutputFormat::Standard);
    assert_eq!(detect_seg_output_format(&[1, 7, 6], 1, 1), YOLOv8OutputFormat::Transposed);
}

#[test]
fn check_seg_shapes_accepts_consistent_outputs() {
    assert_eq!(
        check_seg_shapes(6, &[1, 1, 6], 64, &[1, 1, 8, 8], 1, 1),
        Ok(SegLayout {
            format: YOLOv8OutputFormat::Transposed,
            rows: 1,
            cols: 6,
            num_boxes: 1,
            box_dim: 6,
            num_masks: 1,
            mask_height: 8,
            mask_width: 8,
        })
    );
}

#[test]
fn check_seg_shapes_errors_in_order() {
    let proto = [1i64, 1, 8, 8];
    assert_eq!(check_seg_shapes(6, &[1, 6], 64, &proto, 1, 1), Err(SegShapeError::NotThreeDimensional));
    assert_eq!(check_seg_shapes(6, &[3, 6, 1], 64, &proto, 1, 1), Err(SegShapeError::BatchSize { batch: 3 }));
    assert_eq!(check_seg_shapes(6, &[1, 6, 1], 64, &[1, 1, 8], 1, 1), Err(SegShapeError::PrototypeShape));
    assert_eq!(check_seg_shapes(6, &[1, 6, 1], 64, &[2, 1, 8, 8], 1, 1), Err(SegShapeError::PrototypeShape));
    assert_eq!(
        check_seg_shapes(5, &[1, 6, 1], 64, &proto, 1, 1),
        Err(SegShapeError::DetectionLength { len: 5, expected: 6 })
    );
    // Box dim matches neither dimension: (1, 5, 3) with a 6-feature configuration.
    assert_eq!(
        check_seg_shapes(15, &[1, 5, 3], 64, &proto, 1, 1),
        Err(SegShapeError::BoxDim { expected: 6, found: 5 })
    );
    assert_eq!(
        check_seg_shapes(6, &[1, 6, 1], 128, &[1, 2, 8, 8], 1, 1),
        Err(SegShapeError::PrototypeChannels { found: 2, expected: 1 })
    );
    assert_eq!(
        check_seg_shapes(6, &[1, 6, 1], 63, &proto, 1, 1),
        Err(SegShapeError::PrototypeLength { len: 63, expected: 64 })
    );
}

#[test]
fn mask_resolution_cap() {
    assert_eq!(DEFAULT_NUM_MASKS, 32);
    assert_eq!(MAX_MASK_PIXELS, 67_108_864);
    assert_eq!(check_mask_resolution(8, 8), Ok(64));
    assert_eq!(check_mask_resolution(8192, 8192), Ok(67_108_864));
    assert_eq!(check_mask_resolution(8192, 8193), Err(67_117_056));
    assert_eq!(check_mask_resolution(100_000, 100_000), Err(10_000_000_000));
}

#[test]
fn preprocessor_builders() {
    let p = Preprocessor::default();
    assert_eq!((p.target_width, p.target_height, p.normalize, p.pad_value), (640, 640, true, 114));
    let q = Preprocessor::new(320, 256).with_normalize(false).with_pad_value(0).with_size(64, 32);
    assert_eq!(q, Preprocessor { target_width: 64, target_height: 32, normalize: false, pad_value: 0 });
}

#[test]
fn parse_device_selects_execution_providers() {
    assert_eq!(parse_device("cpu"), Ok(ExecutionProvider::Cpu));
    assert_eq!(parse_device("CUDA"), Ok(ExecutionProvider::Cuda { device_id: 0 }));
    assert_eq!(parse_device("cuda:3"), Ok(ExecutionProvider::Cuda { device_id: 3 }));
    assert_eq!(parse_device("cuda:+4"), Ok(ExecutionProvider::Cuda { device_id: 4 }));
    assert_eq!(parse_device("cuda:-1"), Ok(ExecutionProvider::Cuda { device_id: -1 }));
    assert_eq!(
        parse_device("cuda:-2147483648"),
        Ok(ExecutionProvider::Cuda { device_id: i32::MIN })
    );
    assert_eq!(
        parse_device("cuda:2147483648"),
        Err(DeviceNameError::InvalidCudaIndex("cuda:2147483648".to_string()))
    );
    assert_eq!(
        parse_device("Cuda:x"),
        Err(DeviceNameError::InvalidCudaIndex("cuda:x".to_string()))
    );
    assert_eq!(parse_device("MPS"), Err(DeviceNameError::UnknownDevice("mps".to_string())));
}

#[test]
fn parse_device_index_edges() {
    assert_eq!(parse_device("cuda:2147483647"), Ok(ExecutionProvider::Cuda { device_id: i32::MAX }));
    assert_eq!(parse_device("cuda:-0"), Ok(ExecutionProvider::Cuda { device_id: 0 }));
    assert!(parse_device("cuda:-2147483649").is_err());
    assert!(parse_device("cuda:--1").is_err());
    assert!(parse_device("cuda:-").is_err());
}

#[test]
fn provider_selection_from_lowercased_names() {
    assert!(ONNX_CUDA);
    assert_eq!(provider_from_lowercase("cpu"), Ok(ExecutionProvider::Cpu));
    assert_eq!(provider_from_lowercase("cuda"), Ok(ExecutionProvider::Cuda { device_id: 0 }));
    assert_eq!(provider_from_lowercase("cuda:5"), Ok(ExecutionProvider::Cuda { device_id: 5 }));
    // Already lowercased names only: upper case is not folded here.
    assert_eq!(
        provider_from_lowercase("CPU"),
        Err(DeviceNameError::UnknownDevice("CPU".to_string()))
    );
    assert_eq!(
        provider_from_lowercase("cuda:"),
        Err(DeviceNameError::InvalidCudaIndex("cuda:".to_string()))
    );
}

#[test]
fn seg_outputs_are_picked_by_rank() {
    assert_eq!(pick_seg_outputs(&vec![Some(3), Some(4)]), (Some(0), Some(1)));
    assert_eq!(pick_seg_outputs(&vec![Some(4), Some(3)]), (Some(1), Some(0)));
    assert_eq!(pick_seg_outputs(&vec![Some(3), None, Some(2), Some(3)]), (Some(3), None));
    assert_eq!(pick_seg_outputs(&vec![]), (None, None));
}
