# sahi

Slicing Aided Hyper Inference: cut a large image into overlapping tiles, run a detector on
each tile, shift the detections back to image coordinates and merge the duplicates that the
overlaps produce (NMS, NMM or GREEDYNMM), for boxes and for instance masks.

## Layout

- `src/` is the library, verified with Verus. It holds the integer logic, each function with a
  `requires` / `ensures` contract:
  - `slicer`: the tile grid (starts along each axis, fixed-size and clipped tiles) and the
    laws that tiles stay inside the image and cover it;
  - `inference`, `backend`: slice extraction with zero padding, per slice and in bulk, and
    the launch geometry and batching of the GPU extraction kernel;
  - `combine`, `postprocess`: the match matrix, greedy fixed-anchor grouping, connected
    components, and which detections each postprocessing algorithm keeps or merges;
  - `annotation`: image shapes, run-length encoded masks, mask union, and outer-contour
    tracing of boolean masks (Moore-neighbour, 8-connected);
  - `model`, `onnx`: devices and their names, categories and id remapping, execution
    providers, preprocessing settings, and the shape checks on YOLOv8 outputs.
- `app/` is ordinary Rust around the library: floating-point geometry (boxes, IoU, polygons,
  letterboxing, mask decoding), the ONNX Runtime session, the CUDA backend, the thread-pool
  backend and the Python bindings.
- `tests/` exercises the library on concrete values.
