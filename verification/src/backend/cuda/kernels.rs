//! CUDA kernels, as PTX source.

use vstd::prelude::*;

verus! {

/// PTX source for slice extraction kernel.
///
/// Extracts a rectangular slice from a source image, copying all channels per pixel.
/// Each thread handles one pixel (all channels).
pub const SLICE_EXTRACT_PTX: &'static str = r#"
.version 7.0
.target sm_50
.address_size 64

// extract_slice_kernel(src, dst, src_width, slice_x, slice_y, slice_width, slice_height, channels)
.visible .entry extract_slice_kernel(
    .param .u64 src_ptr,
    .param .u64 dst_ptr,
    .param .u32 src_width,
    .param .u32 slice_x,
    .param .u32 slice_y,
    .param .u32 slice_width,
    .param .u32 slice_height,
    .param .u32 channels
) {
    .reg .pred %p<2>;
    .reg .b32 %r<17>;
    .reg .b64 %rd<9>;

    // Thread coordinates
    mov.u32 %r1, %ctaid.x;
    mov.u32 %r2, %ntid.x;
    mov.u32 %r3, %tid.x;
    mad.lo.u32 %r4, %r1, %r2, %r3;  // dst_x

    mov.u32 %r5, %ctaid.y;
    mov.u32 %r6, %ntid.y;
    mov.u32 %r7, %tid.y;
    mad.lo.u32 %r8, %r5, %r6, %r7;  // dst_y

    // Load parameters
    ld.param.u32 %r9, [slice_width];
    ld.param.u32 %r10, [slice_height];

    // Bounds check
    setp.ge.u32 %p0, %r4, %r9;
    setp.ge.u32 %p1, %r8, %r10;
    or.pred %p0, %p0, %p1;
    @%p0 bra done;

    // Calculate source and destination offsets
    ld.param.u32 %r11, [slice_x];
    ld.param.u32 %r12, [slice_y];
    ld.param.u32 %r13, [src_width];
    ld.param.u32 %r14, [channels];

    // src_offset = ((slice_y + dst_y) * src_width + (slice_x + dst_x)) * channels
    add.u32 %r15, %r12, %r8;             // slice_y + dst_y
    mad.lo.u32 %r15, %r15, %r13, %r11;   // * src_width + slice_x
    add.u32 %r15, %r15, %r4;             // + dst_x
    mul.lo.u32 %r15, %r15, %r14;         // * channels

    // dst_offset = (dst_y * slice_width + dst_x) * channels
    mad.lo.u32 %r16, %r8, %r9, %r4;
    mul.lo.u32 %r16, %r16, %r14;

    // Compute base pointers for this pixel
    ld.param.u64 %rd1, [src_ptr];
    ld.param.u64 %rd2, [dst_ptr];
    cvt.u64.u32 %rd3, %r15;
    cvt.u64.u32 %rd4, %r16;
    add.u64 %rd5, %rd1, %rd3;   // src base for this pixel
    add.u64 %rd6, %rd2, %rd4;   // dst base for this pixel

    // Loop over all channels
    mov.u32 %r0, 0;
channel_loop:
    setp.ge.u32 %p0, %r0, %r14;
    @%p0 bra done;

    cvt.u64.u32 %rd7, %r0;
    add.u64 %rd3, %rd5, %rd7;   // src + channel offset
    add.u64 %rd4, %rd6, %rd7;   // dst + channel offset

    ld.global.u8 %r1, [%rd3];
    st.global.u8 [%rd4], %r1;

    add.u32 %r0, %r0, 1;
    bra channel_loop;

done:
    ret;
}
"#;

} // verus!
