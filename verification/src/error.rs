//! Error types for SAHI.

use vstd::prelude::*;

use crate::model::{decimal, decimal_string};

verus! {

/// Error type for SAHI operations.
#[derive(Debug)]
pub enum Error {
    /// Inference error from the model callback.
    Inference(String),
    /// Invalid image dimensions.
    InvalidDimensions { width: u32, height: u32 },
    /// GPU/CUDA error.
    Gpu(String),
    /// Configuration error.
    Config(String),
    /// Model not loaded.
    ModelNotLoaded,
    /// Model loading failed.
    ModelLoad(String),
    /// Model file not found.
    ModelNotFound(String),
    /// ONNX Runtime error.
    Onnx(String),
    /// Image preprocessing error.
    Preprocessing(String),
    /// Invalid model output format.
    InvalidOutput(String),
}

/// The message an error displays.
pub open spec fn error_text(e: Error) -> Seq<char> {
    match e {
        Error::Inference(m) => "inference error: "@ + m@,
        Error::InvalidDimensions { width, height } => "invalid image dimensions: "@ + decimal(
            width as nat,
        ) + "x"@ + decimal(height as nat),
        Error::Gpu(m) => "GPU error: "@ + m@,
        Error::Config(m) => "configuration error: "@ + m@,
        Error::ModelNotLoaded => "model not loaded: call load() before predict()"@,
        Error::ModelLoad(m) => "failed to load model: "@ + m@,
        Error::ModelNotFound(m) => "model file not found: "@ + m@,
        Error::Onnx(m) => "ONNX error: "@ + m@,
        Error::Preprocessing(m) => "preprocessing error: "@ + m@,
        Error::InvalidOutput(m) => "invalid model output: "@ + m@,
    }
}

impl Error {
    /// The message this error displays, such as `inference error: <message>`.
    pub fn message(&self) -> (s: String)
        ensures
            s@ == error_text(*self),
    {
        match self {
            Error::Inference(m) => String::from_str("inference error: ").concat(m.as_str()),
            Error::InvalidDimensions { width, height } => {
                let w = decimal_string(*width);
                let h = decimal_string(*height);
                String::from_str("invalid image dimensions: ").concat(w.as_str()).concat("x").concat(
                    h.as_str(),
                )
            },
            Error::Gpu(m) => String::from_str("GPU error: ").concat(m.as_str()),
            Error::Config(m) => String::from_str("configuration error: ").concat(m.as_str()),
            Error::ModelNotLoaded => String::from_str(
                "model not loaded: call load() before predict()",
            ),
            Error::ModelLoad(m) => String::from_str("failed to load model: ").concat(m.as_str()),
            Error::ModelNotFound(m) => String::from_str("model file not found: ").concat(
                m.as_str(),
            ),
            Error::Onnx(m) => String::from_str("ONNX error: ").concat(m.as_str()),
            Error::Preprocessing(m) => String::from_str("preprocessing error: ").concat(
                m.as_str(),
            ),
            Error::InvalidOutput(m) => String::from_str("invalid model output: ").concat(
                m.as_str(),
            ),
        }
    }

    /// Create an inference error.
    pub fn inference(msg: String) -> (e: Self)
        ensures
            e matches Error::Inference(m) && m@ == msg@,
    {
        Error::Inference(msg)
    }

    /// Create a GPU error.
    pub fn gpu(msg: String) -> (e: Self)
        ensures
            e matches Error::Gpu(m) && m@ == msg@,
    {
        Error::Gpu(msg)
    }

    /// Create a configuration error.
    pub fn config(msg: String) -> (e: Self)
        ensures
            e matches Error::Config(m) && m@ == msg@,
    {
        Error::Config(msg)
    }

    /// Create a model load error.
    pub fn model_load(msg: String) -> (e: Self)
        ensures
            e matches Error::ModelLoad(m) && m@ == msg@,
    {
        Error::ModelLoad(msg)
    }

    /// Create a model not found error.
    pub fn model_not_found(path: String) -> (e: Self)
        ensures
            e matches Error::ModelNotFound(m) && m@ == path@,
    {
        Error::ModelNotFound(path)
    }

    /// Create an ONNX error.
    pub fn onnx(msg: String) -> (e: Self)
        ensures
            e matches Error::Onnx(m) && m@ == msg@,
    {
        Error::Onnx(msg)
    }

    /// Create a preprocessing error.
    pub fn preprocessing(msg: String) -> (e: Self)
        ensures
            e matches Error::Preprocessing(m) && m@ == msg@,
    {
        Error::Preprocessing(msg)
    }

    /// Create an invalid output error.
    pub fn invalid_output(msg: String) -> (e: Self)
        ensures
            e matches Error::InvalidOutput(m) && m@ == msg@,
    {
        Error::InvalidOutput(msg)
    }
}

} // verus!
