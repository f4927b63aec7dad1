use sahi::backend::cpu::CpuBackendConfig;
use sahi::backend::cuda::kernels;
use sahi::backend::cuda::{batch_bounds, slice_launch, CudaBackendConfig, BLOCK_SIDE};
use sahi::slicer::Slice;

#[test]
fn test_ptx_source_validity() {
    assert!(kernels::SLICE_EXTRACT_PTX.contains("extract_slice_kernel"));
    assert!(kernels::SLICE_EXTRACT_PTX.contains("channel_loop"));
    assert!(kernels::SLICE_EXTRACT_PTX.contains(".entry"));
    assert!(kernels::SLICE_EXTRACT_PTX.contains("ld.global.u8"));
    assert!(kernels::SLICE_EXTRACT_PTX.contains("st.global.u8"));
}

#[test]
fn test_default_config() {
    let config = CpuBackendConfig::default();
    assert_eq!(config.num_threads, 0);
    assert!(!config.parallel_inference);
}

#[test]
fn cuda_default_config() {
    let c = CudaBackendConfig::default();
    assert_eq!((c.device_id, c.num_streams, c.max_batch_size), (0, 2, 8));
}

#[test]
fn slice_launch_covers_every_pixel() {
    let l = slice_launch(&Slice::new(3, 4, 33, 16, 0), 3);
    assert_eq!(l.output_len, 33 * 16 * 3);
    assert_eq!(l.block_dim, (BLOCK_SIDE, BLOCK_SIDE, 1));
    assert_eq!(l.grid_dim, (3, 1, 1));
    let empty = slice_launch(&Slice::new(0, 0, 0, 5, 0), 3);
    assert_eq!(empty.output_len, 0);
    assert_eq!(empty.grid_dim, (0, 1, 1));
}

#[test]
fn batch_bounds_split_into_consecutive_batches() {
    assert_eq!(batch_bounds(10, 4), vec![(0, 4), (4, 8), (8, 10)]);
    assert_eq!(batch_bounds(8, 4), vec![(0, 4), (4, 8)]);
    assert_eq!(batch_bounds(3, 8), vec![(0, 3)]);
    assert!(batch_bounds(0, 8).is_empty());
}
