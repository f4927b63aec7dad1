//! ONNX Runtime execution providers.

use vstd::prelude::*;

use crate::model::{all_digits, digits_value, lowercase, lowercase_of, parse_digits, str_is, Device};

verus! {

/// Execution provider for ONNX Runtime.
#[derive(Debug, Clone, Copy, PartialEq, Eq, Structural)]
pub enum ExecutionProvider {
    /// CPU execution (default).
    Cpu,
    /// CUDA GPU execution.
    Cuda {
        /// GPU device ID.
        device_id: i32,
    },
    /// TensorRT execution (requires CUDA).
    TensorRT {
        /// GPU device ID.
        device_id: i32,
    },
}

impl ExecutionProvider {
    /// Create a CPU execution provider.
    pub fn cpu() -> (ep: Self)
        ensures
            ep == ExecutionProvider::Cpu,
    {
        ExecutionProvider::Cpu
    }

    /// Create a CUDA execution provider with device 0.
    pub fn cuda() -> (ep: Self)
        ensures
            ep == (ExecutionProvider::Cuda { device_id: 0 }),
    {
        ExecutionProvider::Cuda { device_id: 0 }
    }

    /// Create a CUDA execution provider with a specific device.
    pub fn cuda_with_device(device_id: i32) -> (ep: Self)
        ensures
            ep == (ExecutionProvider::Cuda { device_id }),
    {
        ExecutionProvider::Cuda { device_id }
    }

    /// Create a TensorRT execution provider with device 0.
    pub fn tensorrt() -> (ep: Self)
        ensures
            ep == (ExecutionProvider::TensorRT { device_id: 0 }),
    {
        ExecutionProvider::TensorRT { device_id: 0 }
    }

    /// Create a TensorRT execution provider with a specific device.
    pub fn tensorrt_with_device(device_id: i32) -> (ep: Self)
        ensures
            ep == (ExecutionProvider::TensorRT { device_id }),
    {
        ExecutionProvider::TensorRT { device_id }
    }
}

/// Whether this build runs ONNX models on CUDA (the `onnx-cuda` build feature). It is on: the
/// crate is built with the CUDA runtime, and device selection and device names depend on it.
pub const ONNX_CUDA: bool = true;

/// The execution provider for a device: with ONNX CUDA support ([`ONNX_CUDA`]) CUDA devices
/// keep their index and automatic selection prefers CUDA device 0, without it both run on the
/// CPU; MPS (which ONNX Runtime does not support) always runs on the CPU.
pub open spec fn provider_for(device: Device) -> ExecutionProvider {
    match device {
        Device::Cpu => ExecutionProvider::Cpu,
        Device::Cuda(id) => if ONNX_CUDA {
            ExecutionProvider::Cuda { device_id: id as i32 }
        } else {
            ExecutionProvider::Cpu
        },
        Device::Mps => ExecutionProvider::Cpu,
        Device::Auto => if ONNX_CUDA {
            ExecutionProvider::Cuda { device_id: 0 }
        } else {
            ExecutionProvider::Cpu
        },
    }
}

impl From<Device> for ExecutionProvider {
    fn from(device: Device) -> (ep: Self) {
        match device {
            Device::Cpu => ExecutionProvider::Cpu,
            Device::Cuda(id) => {
                if ONNX_CUDA {
                    ExecutionProvider::Cuda { device_id: id as i32 }
                } else {
                    ExecutionProvider::Cpu
                }
            },
            Device::Mps => ExecutionProvider::Cpu,
            Device::Auto => {
                if ONNX_CUDA {
                    ExecutionProvider::Cuda { device_id: 0 }
                } else {
                    ExecutionProvider::Cpu
                }
            },
        }
    }
}

impl vstd::std_specs::convert::FromSpecImpl<Device> for ExecutionProvider {
    open spec fn obeys_from_spec() -> bool {
        true
    }

    open spec fn from_spec(device: Device) -> Self {
        provider_for(device)
    }
}

/// The value of a string under `i32::from_str`: an optional `+` or `-` sign followed by at
/// least one ASCII digit and nothing else, with a value that fits in an `i32`.
pub open spec fn signed_decimal_value(s: Seq<char>) -> Option<i32> {
    let negative = s.len() > 0 && s[0] == '-';
    let digits = if s.len() > 0 && (s[0] == '-' || s[0] == '+') {
        s.drop_first()
    } else {
        s
    };
    let value: int = if negative {
        -digits_value(digits)
    } else {
        digits_value(digits) as int
    };
    if digits.len() > 0 && all_digits(digits) && i32::MIN <= value <= i32::MAX {
        Some(value as i32)
    } else {
        None
    }
}

/// `i32::from_str`: an optional `+` or `-` followed by the ASCII digits of a value that fits in
/// an `i32`.
fn parse_i32(s: &str) -> (r: Option<i32>)
    ensures
        r == signed_decimal_value(s@),
{
    let n = s.unicode_len();
    let first = if n > 0 {
        s.get_char(0)
    } else {
        ' '
    };
    let negative = n > 0 && first == '-';
    let from: usize = if n > 0 && (first == '-' || first == '+') {
        1
    } else {
        0
    };
    let ghost d = s@.subrange(from as int, s@.len() as int);
    proof {
        if from == 1 {
            assert(d =~= s@.drop_first());
        } else {
            assert(d =~= s@);
        }
        assert(from == 1 <==> (s@.len() > 0 && (s@[0] == '-' || s@[0] == '+')));
        assert(negative <==> (s@.len() > 0 && s@[0] == '-'));
    }
    if negative {
        match parse_digits(s, from, 2147483648) {
            Some(v) => Some((0 - (v as i64)) as i32),
            None => None,
        }
    } else {
        match parse_digits(s, from, 2147483647) {
            Some(v) => Some(v as i32),
            None => None,
        }
    }
}

/// Why a device name names no execution provider; each carries the lowercased name.
#[derive(Debug, Clone, PartialEq, Eq)]
pub enum DeviceNameError {
    /// `cuda:` followed by something that is not a device index.
    InvalidCudaIndex(String),
    /// Neither `cpu`, `cuda` nor `cuda:N`.
    UnknownDevice(String),
    /// `cuda` or `cuda:...` in a build without ONNX CUDA support.
    CudaNotEnabled,
}

/// The execution provider an already lowercased device name selects: `cpu`, `cuda` (device 0)
/// or `cuda:N`; `None` with whether the name started with `cuda:` otherwise.
pub open spec fn provider_from_name(l: Seq<char>) -> Result<ExecutionProvider, bool> {
    if l == seq!['c', 'p', 'u'] {
        Ok(ExecutionProvider::Cpu)
    } else if l == seq!['c', 'u', 'd', 'a'] {
        Ok(ExecutionProvider::Cuda { device_id: 0 })
    } else if l.len() >= 5 && l.subrange(0, 5) == seq!['c', 'u', 'd', 'a', ':'] {
        match signed_decimal_value(l.subrange(5, l.len() as int)) {
            Some(i) => Ok(ExecutionProvider::Cuda { device_id: i }),
            None => Err(true),
        }
    } else {
        Err(false)
    }
}

/// `l` names a CUDA device: `cuda`, or `cuda:` followed by anything.
pub open spec fn names_cuda(l: Seq<char>) -> bool {
    l == seq!['c', 'u', 'd', 'a'] || (l.len() >= 5 && l.subrange(0, 5) == seq![
        'c',
        'u',
        'd',
        'a',
        ':',
    ])
}

/// What selecting an execution provider by the lowercased name `l` gives: without ONNX CUDA
/// support a CUDA name is refused as such; otherwise the provider the name selects, or the
/// error that carries `l`.
pub open spec fn provider_outcome(l: Seq<char>, r: Result<ExecutionProvider, DeviceNameError>) -> bool {
    if !ONNX_CUDA && names_cuda(l) {
        r matches Err(DeviceNameError::CudaNotEnabled)
    } else {
        match provider_from_name(l) {
            Ok(ep) => r == Ok::<ExecutionProvider, DeviceNameError>(ep),
            Err(true) => r matches Err(DeviceNameError::InvalidCudaIndex(m)) && m@ == l,
            Err(false) => r matches Err(DeviceNameError::UnknownDevice(m)) && m@ == l,
        }
    }
}

/// Parse a device name into an execution provider, case-insensitively: `cpu`, `cuda`
/// (device 0) or `cuda:N` with a signed 32-bit index. An index that does not parse and any
/// other name are errors that carry the lowercased name.
pub fn parse_device(device: &str) -> (r: Result<ExecutionProvider, DeviceNameError>)
    ensures
        provider_outcome(lowercase_of(device@), r),
{
    let lowered = lowercase(device);
    provider_from_lowercase(lowered.as_str())
}

/// Select an execution provider by an already lowercased device name: `cpu`, `cuda`
/// (device 0) or `cuda:N` with a signed 32-bit index.
pub fn provider_from_lowercase(l: &str) -> (r: Result<ExecutionProvider, DeviceNameError>)
    ensures
        provider_outcome(l@, r),
{
    proof {
        reveal_strlit("cpu");
        reveal_strlit("cuda");
        reveal_strlit("cuda:");
    }
    if str_is(l, "cpu") {
        assert(l@ =~= seq!['c', 'p', 'u']);
        return Ok(ExecutionProvider::Cpu);
    }
    assert(l@ != seq!['c', 'p', 'u']) by {
        if l@ == seq!['c', 'p', 'u'] {
            assert(l@ =~= "cpu"@);
        }
    }
    if str_is(l, "cuda") {
        assert(l@ =~= seq!['c', 'u', 'd', 'a']);
        if !ONNX_CUDA {
            return Err(DeviceNameError::CudaNotEnabled);
        }
        return Ok(ExecutionProvider::Cuda { device_id: 0 });
    }
    assert(l@ != seq!['c', 'u', 'd', 'a']) by {
        if l@ == seq!['c', 'u', 'd', 'a'] {
            assert(l@ =~= "cuda"@);
        }
    }
    let n = l.unicode_len();
    if n >= 5 {
        let head = l.substring_char(0, 5);
        if str_is(head, "cuda:") {
            assert(l@.subrange(0, 5) =~= seq!['c', 'u', 'd', 'a', ':']);
            if !ONNX_CUDA {
                return Err(DeviceNameError::CudaNotEnabled);
            }
            let rest = l.substring_char(5, n);
            match parse_i32(rest) {
                Some(i) => {
                    return Ok(ExecutionProvider::Cuda { device_id: i });
                },
                None => {
                    return Err(DeviceNameError::InvalidCudaIndex(String::from_str(l)));
                },
            }
        }
        assert(l@.subrange(0, 5) != seq!['c', 'u', 'd', 'a', ':']) by {
            if l@.subrange(0, 5) == seq!['c', 'u', 'd', 'a', ':'] {
                assert(head@ =~= "cuda:"@);
            }
        }
    }
    Err(DeviceNameError::UnknownDevice(String::from_str(l)))
}

impl Default for ExecutionProvider {
    /// CPU execution is the default.
    fn default() -> (e: Self)
        ensures
            e == ExecutionProvider::Cpu,
    {
        ExecutionProvider::Cpu
    }
}

} // verus!
