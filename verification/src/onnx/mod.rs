//! ONNX model support: execution providers, preprocessing settings and the shape logic of
//! YOLOv8 outputs.

pub mod processor;
pub mod session;
pub mod yolov8;
