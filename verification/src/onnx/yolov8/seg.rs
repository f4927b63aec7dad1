//! YOLOv8-seg outputs: the shape checks on the detection and prototype tensors, and the cap
//! on the resolution of a decoded mask.

use vstd::prelude::*;

use crate::onnx::yolov8::processor::YOLOv8OutputFormat;

verus! {

/// Number of mask prototypes/coefficients in a standard YOLOv8-seg export.
pub const DEFAULT_NUM_MASKS: u32 = 32;

/// Maximum number of pixels (`orig_width * orig_height`) a single decoded mask
/// buffer may cover: one `f32` per pixel is allocated for each surviving detection, so
/// an absurd image size would request many gigabytes.
pub const MAX_MASK_PIXELS: u64 = 64 * 1024 * 1024;

/// Per-box feature dimension of a YOLOv8-seg detection tensor: 4 box values, the class
/// scores, then the mask coefficients.
pub open spec fn seg_box_dim(num_classes: u32, num_masks: u32) -> int {
    4 + num_classes + num_masks
}

/// The layout of a YOLOv8-seg detection tensor: Standard when `shape[1] == box_dim`,
/// Transposed when only `shape[2]` is, Standard otherwise and for shapes of fewer than three
/// dimensions.
pub open spec fn seg_format(shape: Seq<i64>, num_classes: u32, num_masks: u32) -> YOLOv8OutputFormat {
    if shape.len() < 3 {
        YOLOv8OutputFormat::Standard
    } else if shape[1] == seg_box_dim(num_classes, num_masks) {
        YOLOv8OutputFormat::Standard
    } else if shape[2] == seg_box_dim(num_classes, num_masks) {
        YOLOv8OutputFormat::Transposed
    } else {
        YOLOv8OutputFormat::Standard
    }
}

/// Auto-detect the detection-tensor layout from its shape: Standard when
/// `shape[1] == box_dim`, Transposed when `shape[2] == box_dim`.
pub fn detect_seg_output_format(out0_shape: &[i64], num_classes: u32, num_masks: u32) -> (f:
    YOLOv8OutputFormat)
    requires
        seg_box_dim(num_classes, num_masks) <= usize::MAX,
    ensures
        f == seg_format(out0_shape@, num_classes, num_masks),
{
    if out0_shape.len() < 3 {
        return YOLOv8OutputFormat::Standard;
    }
    let box_dim = 4 + num_classes as usize + num_masks as usize;
    let box_dim = box_dim as i64;
    if out0_shape[1] == box_dim {
        YOLOv8OutputFormat::Standard
    } else if out0_shape[2] == box_dim {
        YOLOv8OutputFormat::Transposed
    } else {
        YOLOv8OutputFormat::Standard
    }
}

/// The two YOLOv8-seg tensors once their shapes passed the checks: the detections as a
/// `rows x cols` matrix of `num_boxes` boxes with `box_dim` features each, and `num_masks`
/// prototypes of `mask_height x mask_width`.
#[derive(Debug, Clone, Copy, PartialEq, Eq, Structural)]
pub struct SegLayout {
    /// The detected layout of the detection tensor.
    pub format: YOLOv8OutputFormat,
    /// First matrix dimension of the detection tensor.
    pub rows: usize,
    /// Second matrix dimension of the detection tensor.
    pub cols: usize,
    /// Number of candidate boxes.
    pub num_boxes: usize,
    /// Features per box.
    pub box_dim: usize,
    /// Number of mask prototypes.
    pub num_masks: usize,
    /// Prototype height.
    pub mask_height: usize,
    /// Prototype width.
    pub mask_width: usize,
}

/// Why the YOLOv8-seg output tensors were refused.
#[derive(Debug, Clone, Copy, PartialEq, Eq, Structural)]
pub enum SegShapeError {
    /// The detection tensor has fewer than three dimensions.
    NotThreeDimensional,
    /// The detection tensor's batch dimension is not 1.
    BatchSize {
        /// The batch dimension found.
        batch: i64,
    },
    /// The prototype tensor is not of shape `(1, num_masks, mh, mw)`.
    PrototypeShape,
    /// The detection data does not hold `dim1 * dim2` values.
    DetectionLength {
        /// Number of values present.
        len: usize,
        /// `dim1 * dim2`.
        expected: usize,
    },
    /// The per-box dimension is not `4 + num_classes + num_masks`.
    BoxDim {
        /// `4 + num_classes + num_masks`.
        expected: usize,
        /// The dimension found in the place the layout gives it.
        found: usize,
    },
    /// The prototype tensor does not have `num_masks` channels.
    PrototypeChannels {
        /// Channels found.
        found: usize,
        /// `num_masks`.
        expected: usize,
    },
    /// The prototype data does not hold `num_masks * mh * mw` values.
    PrototypeLength {
        /// Number of values present.
        len: usize,
        /// `num_masks * mh * mw`.
        expected: usize,
    },
}

/// The detection tensor is three-dimensional with batch 1 and the prototypes are
/// four-dimensional with batch 1: the checks that come before any arithmetic on the dimensions.
pub open spec fn seg_ranks_ok(out0_shape: Seq<i64>, proto_shape: Seq<i64>) -> bool {
    &&& out0_shape.len() >= 3
    &&& out0_shape[0] == 1
    &&& proto_shape.len() == 4
    &&& proto_shape[0] == 1
}

/// The products of dimensions that the checks compute fit in a `usize`, wherever the checks
/// reach them.
pub open spec fn seg_products_fit(
    out0_len: int,
    out0_shape: Seq<i64>,
    proto_shape: Seq<i64>,
    num_classes: u32,
    num_masks: u32,
) -> bool {
    let dim1 = out0_shape[1] as usize;
    let dim2 = out0_shape[2] as usize;
    let found = if seg_format(out0_shape, num_classes, num_masks) == YOLOv8OutputFormat::Standard {
        dim1
    } else {
        dim2
    };
    seg_ranks_ok(out0_shape, proto_shape) ==> {
        &&& dim1 * dim2 <= usize::MAX
        &&& (out0_len == dim1 * dim2 && found == seg_box_dim(num_classes, num_masks)
            && proto_shape[1] as usize == num_masks) ==> {
            &&& (num_masks as usize) * (proto_shape[2] as usize) <= usize::MAX
            &&& (num_masks as usize) * (proto_shape[2] as usize) * (proto_shape[3] as usize)
                <= usize::MAX
        }
    }
}

/// What the checks on the YOLOv8-seg outputs decide, in the order they are made.
pub open spec fn seg_layout(
    out0_len: int,
    out0_shape: Seq<i64>,
    proto_len: int,
    proto_shape: Seq<i64>,
    num_classes: u32,
    num_masks: u32,
) -> Result<SegLayout, SegShapeError> {
    let box_dim = seg_box_dim(num_classes, num_masks);
    if out0_shape.len() < 3 {
        Err(SegShapeError::NotThreeDimensional)
    } else if out0_shape[0] != 1 {
        Err(SegShapeError::BatchSize { batch: out0_shape[0] })
    } else if proto_shape.len() != 4 || proto_shape[0] != 1 {
        Err(SegShapeError::PrototypeShape)
    } else {
        let dim1 = out0_shape[1] as usize;
        let dim2 = out0_shape[2] as usize;
        let format = seg_format(out0_shape, num_classes, num_masks);
        let (num_boxes, found) = if format == YOLOv8OutputFormat::Standard {
            (dim2, dim1)
        } else {
            (dim1, dim2)
        };
        let nm = proto_shape[1] as usize;
        let mh = proto_shape[2] as usize;
        let mw = proto_shape[3] as usize;
        if out0_len != dim1 * dim2 {
            Err(SegShapeError::DetectionLength { len: out0_len as usize, expected: (dim1 * dim2) as usize })
        } else if found != box_dim {
            Err(SegShapeError::BoxDim { expected: box_dim as usize, found })
        } else if nm != num_masks {
            Err(SegShapeError::PrototypeChannels { found: nm, expected: num_masks as usize })
        } else if proto_len != nm * mh * mw {
            Err(SegShapeError::PrototypeLength { len: proto_len as usize, expected: (nm * mh * mw) as usize })
        } else {
            Ok(
                SegLayout {
                    format,
                    rows: dim1,
                    cols: dim2,
                    num_boxes,
                    box_dim: found,
                    num_masks: nm,
                    mask_height: mh,
                    mask_width: mw,
                },
            )
        }
    }
}

/// `l` describes the YOLOv8-seg tensors as they are: its matrix is the detection tensor's
/// `shape[1] x shape[2]` and holds exactly `out0_len` values, one per feature of each box
/// (`num_boxes * box_dim` of them); boxes run along the last axis in the Standard layout
/// `(1, box_dim, N)` and along the middle one in the Transposed layout `(1, N, box_dim)`; each
/// box has `4 + num_classes + num_masks` features; and the prototypes are `num_masks` planes of
/// `proto_shape[2] x proto_shape[3]` holding exactly `proto_len` values.
pub open spec fn describes_seg_tensors(
    l: SegLayout,
    out0_len: int,
    out0_shape: Seq<i64>,
    proto_len: int,
    proto_shape: Seq<i64>,
    num_classes: u32,
    num_masks: u32,
) -> bool {
    &&& l.rows == out0_shape[1] as usize
    &&& l.cols == out0_shape[2] as usize
    &&& l.rows * l.cols == out0_len
    &&& l.num_boxes * l.box_dim == l.rows * l.cols
    &&& (l.format == YOLOv8OutputFormat::Standard ==> l.num_boxes == l.cols && l.box_dim == l.rows)
    &&& (l.format == YOLOv8OutputFormat::Transposed ==> l.num_boxes == l.rows && l.box_dim
        == l.cols)
    &&& l.box_dim == 4 + num_classes + num_masks
    &&& l.num_masks == num_masks
    &&& l.mask_height == proto_shape[2] as usize
    &&& l.mask_width == proto_shape[3] as usize
    &&& l.num_masks * l.mask_height * l.mask_width == proto_len
}

/// Whenever the YOLOv8-seg shape check succeeds, its layout describes the tensors as they
/// are: every one of the `num_boxes` candidate boxes, each with all its features, fills the
/// detection tensor exactly, with the boxes along the last axis in the Standard layout.
pub proof fn lemma_seg_layout_describes_tensors(
    out0_len: int,
    out0_shape: Seq<i64>,
    proto_len: int,
    proto_shape: Seq<i64>,
    num_classes: u32,
    num_masks: u32,
)
    ensures
        seg_layout(out0_len, out0_shape, proto_len, proto_shape, num_classes, num_masks) matches Ok(
            l,
        ) ==> describes_seg_tensors(
            l,
            out0_len,
            out0_shape,
            proto_len,
            proto_shape,
            num_classes,
            num_masks,
        ),
{
    if let Ok(l) = seg_layout(out0_len, out0_shape, proto_len, proto_shape, num_classes, num_masks) {
        assert(l.cols * l.rows == l.rows * l.cols) by (nonlinear_arith);
    }
}

/// Check the shapes of the two YOLOv8-seg outputs before decoding them: the detections
/// `(1, box_dim, N)` or `(1, N, box_dim)` with `out0_len` values, and the prototypes
/// `(1, num_masks, mh, mw)` with `proto_len` values.
pub fn check_seg_shapes(
    out0_len: usize,
    out0_shape: &[i64],
    proto_len: usize,
    proto_shape: &[i64],
    num_classes: u32,
    num_masks: u32,
) -> (r: Result<SegLayout, SegShapeError>)
    requires
        seg_box_dim(num_classes, num_masks) <= usize::MAX,
        seg_products_fit(out0_len as int, out0_shape@, proto_shape@, num_classes, num_masks),
    ensures
        r == seg_layout(
            out0_len as int,
            out0_shape@,
            proto_len as int,
            proto_shape@,
            num_classes,
            num_masks,
        ),
        r matches Ok(l) ==> describes_seg_tensors(
            l,
            out0_len as int,
            out0_shape@,
            proto_len as int,
            proto_shape@,
            num_classes,
            num_masks,
        ),
{
    proof {
        lemma_seg_layout_describes_tensors(
            out0_len as int,
            out0_shape@,
            proto_len as int,
            proto_shape@,
            num_classes,
            num_masks,
        );
    }
    if out0_shape.len() < 3 {
        return Err(SegShapeError::NotThreeDimensional);
    }
    if out0_shape[0] != 1 {
        return Err(SegShapeError::BatchSize { batch: out0_shape[0] });
    }
    if proto_shape.len() != 4 || proto_shape[0] != 1 {
        return Err(SegShapeError::PrototypeShape);
    }
    let dim1 = out0_shape[1] as usize;
    let dim2 = out0_shape[2] as usize;
    if out0_len != dim1 * dim2 {
        return Err(SegShapeError::DetectionLength { len: out0_len, expected: dim1 * dim2 });
    }
    let format = detect_seg_output_format(out0_shape, num_classes, num_masks);
    let (num_boxes, found_box_dim) = match format {
        YOLOv8OutputFormat::Standard => (dim2, dim1),
        YOLOv8OutputFormat::Transposed => (dim1, dim2),
    };
    let expected_box_dim = 4 + num_classes as usize + num_masks as usize;
    if found_box_dim != expected_box_dim {
        return Err(SegShapeError::BoxDim { expected: expected_box_dim, found: found_box_dim });
    }
    let nm = proto_shape[1] as usize;
    let mh = proto_shape[2] as usize;
    let mw = proto_shape[3] as usize;
    if nm != num_masks as usize {
        return Err(SegShapeError::PrototypeChannels { found: nm, expected: num_masks as usize });
    }
    if proto_len != nm * mh * mw {
        return Err(SegShapeError::PrototypeLength { len: proto_len, expected: nm * mh * mw });
    }
    Ok(
        SegLayout {
            format,
            rows: dim1,
            cols: dim2,
            num_boxes,
            box_dim: found_box_dim,
            num_masks: nm,
            mask_height: mh,
            mask_width: mw,
        },
    )
}

/// Bound the resolution of a decoded mask: `Ok` with the pixel count `orig_width * orig_height`
/// when it is at most `MAX_MASK_PIXELS`, `Err` with it otherwise.
pub fn check_mask_resolution(orig_width: u32, orig_height: u32) -> (r: Result<u64, u64>)
    ensures
        r == (if orig_width * orig_height <= MAX_MASK_PIXELS {
            Ok::<u64, u64>((orig_width * orig_height) as u64)
        } else {
            Err::<u64, u64>((orig_width * orig_height) as u64)
        }),
{
    assert(orig_width * orig_height <= u64::MAX) by (nonlinear_arith)
        requires
            orig_width <= u32::MAX,
            orig_height <= u32::MAX,
    ;
    let pixels = orig_width as u64 * orig_height as u64;
    if pixels > MAX_MASK_PIXELS {
        Err(pixels)
    } else {
        Ok(pixels)
    }
}

/// The position of the last entry of `ranks` that is `Some(rank)`, if any.
pub open spec fn last_of_rank(ranks: Seq<Option<usize>>, rank: usize) -> Option<usize>
    decreases ranks.len(),
{
    if ranks.len() == 0 {
        None
    } else if ranks.last() == Some(rank) {
        Some((ranks.len() - 1) as usize)
    } else {
        last_of_rank(ranks.drop_last(), rank)
    }
}

/// Which outputs of a YOLOv8-seg model to read, given the rank of each output in order
/// (`None` for an output the run did not return): the detections are the last output of rank
/// 3 and the prototypes the last output of rank 4.
pub fn pick_seg_outputs(ranks: &Vec<Option<usize>>) -> (r: (Option<usize>, Option<usize>))
    ensures
        r.0 == last_of_rank(ranks@, 3),
        r.1 == last_of_rank(ranks@, 4),
{
    let mut det: Option<usize> = None;
    let mut proto: Option<usize> = None;
    let mut i: usize = 0;
    while i < ranks.len()
        invariant
            i <= ranks@.len(),
            det == last_of_rank(ranks@.subrange(0, i as int), 3),
            proto == last_of_rank(ranks@.subrange(0, i as int), 4),
        decreases ranks@.len() - i,
    {
        proof {
            let next = ranks@.subrange(0, i + 1);
            assert(next.drop_last() =~= ranks@.subrange(0, i as int));
            assert(next.last() == ranks@[i as int]);
        }
        match ranks[i] {
            Some(k) => {
                if k == 3 {
                    det = Some(i);
                } else if k == 4 {
                    proto = Some(i);
                }
            },
            None => {},
        }
        i = i + 1;
    }
    proof {
        assert(ranks@.subrange(0, ranks@.len() as int) =~= ranks@);
    }
    (det, proto)
}

} // verus!
