//! Settings of the CPU backend.

use vstd::prelude::*;

verus! {

/// CPU backend configuration.
#[derive(Debug, Clone, Copy, PartialEq, Eq, Structural)]
pub struct CpuBackendConfig {
    /// Number of threads for parallel processing (0 = auto).
    pub num_threads: usize,
    /// Enable parallel inference calls across slices.
    ///
    /// **Warning:** Not safe with Python/GIL-bound callbacks, as they will
    /// contend for the GIL and may serialize with extra overhead.
    /// Only enable this for pure-Rust callbacks.
    pub parallel_inference: bool,
}

impl Default for CpuBackendConfig {
    fn default() -> (c: Self)
        ensures
            c == (CpuBackendConfig { num_threads: 0, parallel_inference: false }),
    {
        CpuBackendConfig { num_threads: 0, parallel_inference: false }
    }
}

} // verus!
