//! Slicing Aided Hyper Inference: the integer core of sliced detection.

pub mod annotation;
pub mod combine;
pub mod slicer;
pub mod inference;
pub mod error;
pub mod model;
pub mod onnx;
pub mod backend;
pub mod postprocess;
