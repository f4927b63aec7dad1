//! Settings and launch geometry of the CUDA backend.

use vstd::prelude::*;

use crate::slicer::Slice;

pub mod kernels;

verus! {

/// CUDA backend configuration.
#[derive(Debug, Clone, Copy, PartialEq, Eq, Structural)]
pub struct CudaBackendConfig {
    /// GPU device index
    pub device_id: usize,
    /// Number of CUDA streams for concurrent kernel execution
    pub num_streams: usize,
    /// Maximum batch size for inference
    pub max_batch_size: usize,
}

impl Default for CudaBackendConfig {
    fn default() -> (c: Self)
        ensures
            c == (CudaBackendConfig { device_id: 0, num_streams: 2, max_batch_size: 8 }),
    {
        CudaBackendConfig { device_id: 0, num_streams: 2, max_batch_size: 8 }
    }
}

/// Side of the square thread block of the slice extraction kernel: one thread per pixel.
pub const BLOCK_SIDE: u32 = 16;

/// `a / b` rounded up.
pub open spec fn ceil_div(a: int, b: int) -> int {
    (a + b - 1) / b
}

/// How the slice extraction kernel is launched for one slice.
#[derive(Debug, Clone, Copy)]
pub struct SliceLaunch {
    /// Bytes of the zeroed output buffer: `width * height * channels`.
    pub output_len: usize,
    /// Threads per block.
    pub block_dim: (u32, u32, u32),
    /// Blocks per grid: enough blocks to give each pixel of the slice a thread.
    pub grid_dim: (u32, u32, u32),
}

/// The launch of the slice extraction kernel for `slice` with `channels` channels per pixel:
/// one thread per pixel in 16x16 blocks, writing into a buffer of one byte per channel and
/// pixel.
pub fn slice_launch(slice: &Slice, channels: u32) -> (l: SliceLaunch)
    requires
        slice.width * slice.height <= u32::MAX,
        slice.width * slice.height * channels <= u32::MAX,
    ensures
        l.output_len == slice.width * slice.height * channels,
        l.block_dim == (BLOCK_SIDE, BLOCK_SIDE, 1u32),
        l.grid_dim.0 == ceil_div(slice.width as int, BLOCK_SIDE as int),
        l.grid_dim.1 == ceil_div(slice.height as int, BLOCK_SIDE as int),
        l.grid_dim.2 == 1,
{
    let output_size = slice.width * slice.height * channels;
    let gx = slice.width / BLOCK_SIDE + if slice.width % BLOCK_SIDE == 0 {
        0
    } else {
        1
    };
    let gy = slice.height / BLOCK_SIDE + if slice.height % BLOCK_SIDE == 0 {
        0
    } else {
        1
    };
    SliceLaunch {
        output_len: output_size as usize,
        block_dim: (BLOCK_SIDE, BLOCK_SIDE, 1),
        grid_dim: (gx, gy, 1),
    }
}

/// Split `len` items into consecutive batches of `max_batch_size`, the last one possibly
/// shorter: batch `k` is the half-open range `[k * max_batch_size, min((k + 1) * max_batch_size,
/// len))`, and there are just enough batches to reach `len`.
pub fn batch_bounds(len: usize, max_batch_size: usize) -> (b: Vec<(usize, usize)>)
    requires
        max_batch_size > 0,
    ensures
        b@.len() * max_batch_size >= len,
        b@.len() == 0 || (b@.len() - 1) * max_batch_size < len,
        forall|k: int|
            0 <= k < b@.len() ==> (#[trigger] b@[k]).0 == k * max_batch_size && b@[k].1 == if (k
                + 1) * max_batch_size <= len {
                (k + 1) * max_batch_size
            } else {
                len as int
            },
{
    let mut b: Vec<(usize, usize)> = Vec::new();
    let mut start: usize = 0;
    assert(0 * max_batch_size == 0) by (nonlinear_arith);
    while start < len
        invariant
            max_batch_size > 0,
            start == if b@.len() * max_batch_size <= len {
                b@.len() * max_batch_size
            } else {
                len as int
            },
            start <= len,
            b@.len() == 0 || (b@.len() - 1) * max_batch_size < len,
            forall|k: int|
                0 <= k < b@.len() ==> (#[trigger] b@[k]).0 == k * max_batch_size && b@[k].1 == if (
                k + 1) * max_batch_size <= len {
                    (k + 1) * max_batch_size
                } else {
                    len as int
                },
        decreases len - start,
    {
        let ghost k = b@.len();
        let end = if len - start < max_batch_size {
            len
        } else {
            start + max_batch_size
        };
        proof {
            assert((k + 1) * max_batch_size == k * max_batch_size + max_batch_size)
                by (nonlinear_arith);
        }
        b.push((start, end));
        start = end;
    }
    b
}

} // verus!
