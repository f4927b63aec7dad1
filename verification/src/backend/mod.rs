//! Backends: how the slices of an image are cut out before inference, and the settings of the
//! CPU and CUDA backends.

use vstd::prelude::*;

use crate::inference::{extractable, is_extraction, ImageData};
use crate::slicer::Slice;

pub mod cpu;
pub mod cuda;

verus! {

/// Extract every slice image from `image`, in the same order as `slices`, one after another.
pub fn extract_slices(image: &ImageData, slices: &[Slice]) -> (out: Vec<ImageData>)
    requires
        forall|k: int|
            0 <= k < slices@.len() ==> extractable(
                *image,
                #[trigger] slices@[k].x,
                slices@[k].y,
                slices@[k].width,
                slices@[k].height,
            ),
    ensures
        out@.len() == slices@.len(),
        forall|k: int|
            0 <= k < slices@.len() ==> is_extraction(
                *image,
                #[trigger] slices@[k].x,
                slices@[k].y,
                slices@[k].width,
                slices@[k].height,
                out@[k],
            ),
{
    let mut out: Vec<ImageData> = Vec::new();
    let mut k: usize = 0;
    while k < slices.len()
        invariant
            k <= slices@.len(),
            out@.len() == k,
            forall|j: int|
                0 <= j < slices@.len() ==> extractable(
                    *image,
                    #[trigger] slices@[j].x,
                    slices@[j].y,
                    slices@[j].width,
                    slices@[j].height,
                ),
            forall|j: int|
                0 <= j < k ==> is_extraction(
                    *image,
                    #[trigger] slices@[j].x,
                    slices@[j].y,
                    slices@[j].width,
                    slices@[j].height,
                    out@[j],
                ),
        decreases slices@.len() - k,
    {
        let s = slices[k];
        assert(extractable(
            *image,
            slices@[k as int].x,
            slices@[k as int].y,
            slices@[k as int].width,
            slices@[k as int].height,
        ));
        let img = image.extract_slice(s.x, s.y, s.width, s.height);
        out.push(img);
        k = k + 1;
    }
    out
}

} // verus!
