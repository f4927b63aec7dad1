//! YOLOv8 output layouts for detection and instance segmentation.

pub mod processor;
pub mod seg;
