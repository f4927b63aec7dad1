//! YOLOv8 detection output: which way round the tensor is laid out, and the shape checks that
//! precede decoding.

use vstd::prelude::*;

verus! {

/// YOLOv8 output format.
#[derive(Debug, Clone, Copy, PartialEq, Eq, Structural)]
pub enum YOLOv8OutputFormat {
    /// Standard YOLOv8 format: (1, 84, 8400) or (1, num_classes+4, num_boxes)
    /// Each column is [x_center, y_center, w, h, class_scores...]
    Standard,
    /// Transposed format: (1, 8400, 84) or (1, num_boxes, num_classes+4)
    Transposed,
}

/// The layout read off a detection tensor's shape: Standard when the second dimension
/// (truncated to 32 bits) is `4 + num_classes`, Transposed when only the third one is, and
/// Standard otherwise, including for shapes of fewer than three dimensions.
pub open spec fn detection_format(shape: Seq<i64>, num_classes: u32) -> YOLOv8OutputFormat {
    if shape.len() < 3 {
        YOLOv8OutputFormat::Standard
    } else if shape[1] as u32 == 4 + num_classes {
        YOLOv8OutputFormat::Standard
    } else if shape[2] as u32 == 4 + num_classes {
        YOLOv8OutputFormat::Transposed
    } else {
        YOLOv8OutputFormat::Standard
    }
}

/// Auto-detect the output format from the tensor shape.
pub fn detect_output_format(output_shape: &[i64], num_classes: u32) -> (f: YOLOv8OutputFormat)
    requires
        4 + num_classes <= u32::MAX,
    ensures
        f == detection_format(output_shape@, num_classes),
{
    if output_shape.len() < 3 {
        return YOLOv8OutputFormat::Standard;
    }
    let dim1 = output_shape[1] as u32;
    let dim2 = output_shape[2] as u32;
    let expected_box_dim = 4 + num_classes;
    if dim1 == expected_box_dim {
        YOLOv8OutputFormat::Standard
    } else if dim2 == expected_box_dim {
        YOLOv8OutputFormat::Transposed
    } else {
        YOLOv8OutputFormat::Standard
    }
}

/// A detection tensor whose shape passed the checks: a `rows x cols` matrix holding
/// `num_boxes` boxes of `box_dim` features each, in the given layout.
#[derive(Debug, Clone, Copy, PartialEq, Eq, Structural)]
pub struct OutputLayout {
    /// The detected layout.
    pub format: YOLOv8OutputFormat,
    /// First matrix dimension (the tensor's second dimension).
    pub rows: usize,
    /// Second matrix dimension (the tensor's third dimension).
    pub cols: usize,
    /// Number of candidate boxes.
    pub num_boxes: usize,
    /// Features per box: 4 box values followed by the class scores.
    pub box_dim: usize,
}

/// Why a detection tensor's shape was refused.
#[derive(Debug, Clone, Copy, PartialEq, Eq, Structural)]
pub enum OutputShapeError {
    /// The shape has fewer than three dimensions.
    NotThreeDimensional,
    /// The batch dimension is not 1.
    BatchSize {
        /// The batch dimension, as a `usize`.
        batch: usize,
    },
    /// The per-box dimension is not `4 + num_classes`.
    BoxDim {
        /// `4 + num_classes`.
        expected: usize,
        /// The dimension found in the place the layout gives it.
        found: usize,
    },
}

/// The layout with matrix dimensions `rows x cols`: Standard keeps boxes in columns,
/// Transposed in rows.
pub open spec fn layout_of(format: YOLOv8OutputFormat, rows: usize, cols: usize) -> OutputLayout {
    match format {
        YOLOv8OutputFormat::Standard => OutputLayout {
            format,
            rows,
            cols,
            num_boxes: cols,
            box_dim: rows,
        },
        YOLOv8OutputFormat::Transposed => OutputLayout {
            format,
            rows,
            cols,
            num_boxes: rows,
            box_dim: cols,
        },
    }
}

/// What the checks on a detection tensor's shape decide: refused when it has fewer than three
/// dimensions, when the batch dimension is not 1, or when the per-box dimension of the detected
/// layout is not `4 + num_classes`; otherwise its layout.
pub open spec fn output_layout(shape: Seq<i64>, num_classes: u32) -> Result<
    OutputLayout,
    OutputShapeError,
> {
    if shape.len() < 3 {
        Err(OutputShapeError::NotThreeDimensional)
    } else if shape[0] as usize != 1 {
        Err(OutputShapeError::BatchSize { batch: shape[0] as usize })
    } else {
        let layout = layout_of(
            detection_format(shape, num_classes),
            shape[1] as usize,
            shape[2] as usize,
        );
        if layout.box_dim != 4 + num_classes {
            Err(
                OutputShapeError::BoxDim {
                    expected: (4 + num_classes) as usize,
                    found: layout.box_dim,
                },
            )
        } else {
            Ok(layout)
        }
    }
}

/// `l` describes the detection tensor as it is: its matrix is the tensor's `shape[1] x
/// shape[2]`, filled by the `num_boxes` candidate boxes with `box_dim` features each; boxes run
/// along the last axis in the Standard layout `(1, 4 + num_classes, N)` and along the middle
/// one in the Transposed layout `(1, N, 4 + num_classes)`; and each box has `4 + num_classes`
/// features.
pub open spec fn describes_output_tensor(l: OutputLayout, shape: Seq<i64>, num_classes: u32) -> bool {
    &&& l.rows == shape[1] as usize
    &&& l.cols == shape[2] as usize
    &&& l.num_boxes * l.box_dim == l.rows * l.cols
    &&& (l.format == YOLOv8OutputFormat::Standard ==> l.num_boxes == l.cols && l.box_dim == l.rows)
    &&& (l.format == YOLOv8OutputFormat::Transposed ==> l.num_boxes == l.rows && l.box_dim
        == l.cols)
    &&& l.box_dim == 4 + num_classes
}

/// Whenever the detection shape check succeeds, its layout describes the tensor as it is:
/// the `num_boxes` candidate boxes, each with all its features, fill the whole matrix, with the
/// boxes along the last axis in the Standard layout.
pub proof fn lemma_output_layout_describes_tensor(shape: Seq<i64>, num_classes: u32)
    ensures
        output_layout(shape, num_classes) matches Ok(l) ==> describes_output_tensor(
            l,
            shape,
            num_classes,
        ),
{
    if let Ok(l) = output_layout(shape, num_classes) {
        assert(l.cols * l.rows == l.rows * l.cols) by (nonlinear_arith);
    }
}

/// Check the shape of a YOLOv8 detection tensor before decoding it.
pub fn check_output_shape(output_shape: &[i64], num_classes: u32) -> (r: Result<
    OutputLayout,
    OutputShapeError,
>)
    requires
        4 + num_classes <= u32::MAX,
    ensures
        r == output_layout(output_shape@, num_classes),
        r matches Ok(l) ==> describes_output_tensor(l, output_shape@, num_classes),
{
    proof {
        lemma_output_layout_describes_tensor(output_shape@, num_classes);
    }
    if output_shape.len() < 3 {
        return Err(OutputShapeError::NotThreeDimensional);
    }
    let batch_size = output_shape[0] as usize;
    let dim1 = output_shape[1] as usize;
    let dim2 = output_shape[2] as usize;
    if batch_size != 1 {
        return Err(OutputShapeError::BatchSize { batch: batch_size });
    }
    let format = detect_output_format(output_shape, num_classes);
    let layout = match format {
        YOLOv8OutputFormat::Standard => OutputLayout {
            format,
            rows: dim1,
            cols: dim2,
            num_boxes: dim2,
            box_dim: dim1,
        },
        YOLOv8OutputFormat::Transposed => OutputLayout {
            format,
            rows: dim1,
            cols: dim2,
            num_boxes: dim1,
            box_dim: dim2,
        },
    };
    let expected_dim = 4 + num_classes as usize;
    if layout.box_dim != expected_dim {
        return Err(OutputShapeError::BoxDim { expected: expected_dim, found: layout.box_dim });
    }
    Ok(layout)
}

impl Default for YOLOv8OutputFormat {
    /// The standard layout is the default.
    fn default() -> (f: Self)
        ensures
            f == YOLOv8OutputFormat::Standard,
    {
        YOLOv8OutputFormat::Standard
    }
}

} // verus!
