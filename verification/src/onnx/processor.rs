//! Image preprocessing settings for ONNX models.

use vstd::prelude::*;

verus! {

/// Standard preprocessor with configurable options.
#[derive(Debug, Clone, PartialEq, Eq, Structural)]
pub struct Preprocessor {
    /// Target width for the model input.
    pub target_width: u32,
    /// Target height for the model input.
    pub target_height: u32,
    /// Whether to normalize pixel values (0-255 -> 0-1).
    pub normalize: bool,
    /// Padding value for letterbox (0-255).
    pub pad_value: u8,
}

impl Default for Preprocessor {
    fn default() -> (p: Self)
        ensures
            p == (Preprocessor {
                target_width: 640,
                target_height: 640,
                normalize: true,
                pad_value: 114,
            }),
    {
        Preprocessor { target_width: 640, target_height: 640, normalize: true, pad_value: 114 }
    }
}

impl Preprocessor {
    /// Create a new preprocessor with the specified target size.
    pub fn new(target_width: u32, target_height: u32) -> (p: Self)
        ensures
            p == (Preprocessor { target_width, target_height, normalize: true, pad_value: 114 }),
    {
        Preprocessor { target_width, target_height, normalize: true, pad_value: 114 }
    }

    /// Set the target size.
    pub fn with_size(self, width: u32, height: u32) -> (p: Self)
        ensures
            p == (Preprocessor { target_width: width, target_height: height, ..self }),
    {
        Preprocessor { target_width: width, target_height: height, ..self }
    }

    /// Enable or disable normalization.
    pub fn with_normalize(self, normalize: bool) -> (p: Self)
        ensures
            p == (Preprocessor { normalize, ..self }),
    {
        Preprocessor { normalize, ..self }
    }

    /// Set the padding value for letterbox.
    pub fn with_pad_value(self, value: u8) -> (p: Self)
        ensures
            p == (Preprocessor { pad_value: value, ..self }),
    {
        Preprocessor { pad_value: value, ..self }
    }
}

} // verus!
