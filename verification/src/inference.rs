//! Raw image data handed to inference, and slice extraction.

use vstd::prelude::*;

use crate::model::{decimal, decimal_string};

verus! {

/// Raw image data for inference.
#[derive(Debug, Clone)]
pub struct ImageData {
    /// Raw pixel data (RGB, HWC format)
    pub data: Vec<u8>,
    /// Image width
    pub width: u32,
    /// Image height
    pub height: u32,
    /// Number of channels (typically 3 for RGB)
    pub channels: u32,
}

/// Source columns available from column `x` for a slice `w` wide: none when `x` is past the
/// right edge.
pub open spec fn avail_cols(width: int, x: int, w: int) -> int {
    if x < width {
        if width - x < w {
            width - x
        } else {
            w
        }
    } else {
        0
    }
}

/// Byte `i` of the slice of `w` columns at `(x, y)`: the source byte at the same row, column
/// and channel when that lies inside the source image and its buffer, else zero.
pub open spec fn slice_byte(
    data: Seq<u8>,
    width: int,
    height: int,
    channels: int,
    x: int,
    y: int,
    w: int,
    i: int,
) -> u8 {
    let row_len = w * channels;
    let r = i / row_len;
    let k = i % row_len;
    let src = ((y + r) * width + x) * channels + k;
    if k < avail_cols(width, x, w) * channels && y + r < height && src < data.len() {
        data[src]
    } else {
        0
    }
}

/// Where the copy of slice row `r` starts in the source buffer.
pub open spec fn row_start(image: ImageData, x: u32, y: u32, r: int) -> int {
    ((y + r) * image.width + x) * image.channels
}

/// Slice row `r` is one the copy reaches: it lies within the slice and the source's height,
/// and the row before it started inside the source buffer.
pub open spec fn row_reached(image: ImageData, x: u32, y: u32, h: u32, r: int) -> bool {
    &&& 0 <= r < h
    &&& y + r < image.height
    &&& (r == 0 || row_start(image, x, y, r - 1) < image.data@.len())
}

/// The sizes in play when the `w x h` slice at `(x, y)` is cut from `image` fit in a `usize`:
/// the slice's row and buffer lengths and, when some source columns are copied, the source
/// offsets of each row the copy reaches (its start, and its end when it starts inside the
/// buffer).
pub open spec fn extractable(image: ImageData, x: u32, y: u32, w: u32, h: u32) -> bool {
    &&& w * image.channels <= usize::MAX
    &&& w * image.channels * h <= usize::MAX
    &&& avail_cols(image.width as int, x as int, w as int) > 0 ==> forall|r: int|
        #[trigger] row_reached(image, x, y, h, r) ==> {
            &&& (y + r) * image.width + x <= usize::MAX
            &&& row_start(image, x, y, r) <= usize::MAX
            &&& row_start(image, x, y, r) < image.data@.len() ==> row_start(image, x, y, r)
                + avail_cols(image.width as int, x as int, w as int) * image.channels
                <= usize::MAX
        }
}

/// `s` is the `w x h` slice of `image` at `(x, y)`: it has the slice's dimensions and the
/// source's channels, and each of its `w * channels * h` bytes is `slice_byte`.
pub open spec fn is_extraction(image: ImageData, x: u32, y: u32, w: u32, h: u32, s: ImageData) -> bool {
    &&& s.width == w
    &&& s.height == h
    &&& s.channels == image.channels
    &&& s.data@.len() == w * image.channels * h
    &&& forall|i: int|
        0 <= i < s.data@.len() ==> #[trigger] s.data@[i] == slice_byte(
            image.data@,
            image.width as int,
            image.height as int,
            image.channels as int,
            x as int,
            y as int,
            w as int,
            i,
        )
}

/// What byte `i` of a slice holds, by where it falls: it lies in slice row `i / (w * channels)`
/// and source column `x + (i % (w * channels)) / channels`; when that column is at or past the
/// source's right edge, the row at or past its bottom edge, or the byte beyond the source
/// buffer, it is zero; otherwise it is the source byte at the same row, column and channel.
pub proof fn lemma_slice_byte_by_position(
    data: Seq<u8>,
    width: int,
    height: int,
    channels: int,
    x: int,
    y: int,
    w: int,
    i: int,
)
    requires
        0 <= width,
        0 <= x,
        0 <= y,
        0 < w,
        0 < channels,
        0 <= i,
    ensures
        ({
            let row_len = w * channels;
            let r = i / row_len;
            let k = i % row_len;
            let src = ((y + r) * width + x) * channels + k;
            &&& (x + k / channels >= width || y + r >= height || src >= data.len()) ==> slice_byte(
                data,
                width,
                height,
                channels,
                x,
                y,
                w,
                i,
            ) == 0
            &&& (x + k / channels < width && y + r < height && src < data.len()) ==> slice_byte(
                data,
                width,
                height,
                channels,
                x,
                y,
                w,
                i,
            ) == data[src]
        }),
{
    assert(w * channels > 0) by (nonlinear_arith)
        requires
            0 < w,
            0 < channels,
    ;
    let row_len = w * channels;
    let k = i % row_len;
    vstd::arithmetic::div_mod::lemma_mod_pos_bound(i, row_len);
    vstd::arithmetic::div_mod::lemma_fundamental_div_mod(k, channels);
    vstd::arithmetic::div_mod::lemma_mod_pos_bound(k, channels);
    vstd::arithmetic::div_mod::lemma_div_pos_is_pos(k, channels);
    let col = k / channels;
    let avail = avail_cols(width, x, w);
    if x + col >= width {
        assert(col >= avail);
        assert(k >= avail * channels) by (nonlinear_arith)
            requires
                col >= avail,
                k == channels * col + k % channels,
                0 <= k % channels,
                0 < channels,
        ;
    } else {
        assert(col < w) by (nonlinear_arith)
            requires
                k < w * channels,
                k == channels * col + k % channels,
                0 <= k % channels,
                0 < channels,
        ;
        assert(col + 1 <= avail);
        assert(k < avail * channels) by (nonlinear_arith)
            requires
                col + 1 <= avail,
                k == channels * col + k % channels,
                k % channels < channels,
                0 < channels,
        ;
    }
}

proof fn lemma_row_offset_monotone(width: int, channels: int, x: int, r1: int, r2: int)
    requires
        0 <= r1 <= r2,
        0 <= width,
        0 <= channels,
        0 <= x,
    ensures
        (r1 * width + x) * channels <= (r2 * width + x) * channels,
{
    assert(r1 * width <= r2 * width) by (nonlinear_arith)
        requires
            r1 <= r2,
            0 <= width,
    ;
    assert((r1 * width + x) * channels <= (r2 * width + x) * channels) by (nonlinear_arith)
        requires
            r1 * width <= r2 * width,
            0 <= channels,
    ;
}

/// The text `ImageData(width=W, height=H, channels=C)` with the numbers in decimal.
pub open spec fn image_data_text(width: u32, height: u32, channels: u32) -> Seq<char> {
    "ImageData(width="@ + decimal(width as nat) + ", height="@ + decimal(height as nat)
        + ", channels="@ + decimal(channels as nat) + ")"@
}

/// The text `ImageData(width={}, height={}, channels={})`.
fn image_data_repr(width: u32, height: u32, channels: u32) -> (r: String)
    ensures
        r@ == image_data_text(width, height, channels),
{
    let w = decimal_string(width);
    let h = decimal_string(height);
    let c = decimal_string(channels);
    String::from_str("ImageData(width=").concat(w.as_str()).concat(", height=").concat(h.as_str())
        .concat(", channels=").concat(c.as_str()).concat(")")
}

impl ImageData {
    /// The text representation `ImageData(width=W, height=H, channels=C)`.
    pub fn __repr__(&self) -> (r: String)
        ensures
            r@ == image_data_text(self.width, self.height, self.channels),
    {
        image_data_repr(self.width, self.height, self.channels)
    }

    /// Create new image data.
    pub fn new(data: Vec<u8>, width: u32, height: u32, channels: u32) -> (img: Self)
        ensures
            img.data@ == data@,
            img.width == width,
            img.height == height,
            img.channels == channels,
    {
        ImageData { data, width, height, channels }
    }

    /// Create from raw RGB bytes.
    pub fn from_rgb(data: Vec<u8>, width: u32, height: u32) -> (img: Self)
        ensures
            img.data@ == data@,
            img.width == width,
            img.height == height,
            img.channels == 3,
    {
        Self::new(data, width, height, 3)
    }

    /// Whether cutting the `w x h` slice at `(x, y)` keeps every size it computes within a
    /// `usize` (see [`extractable`]).
    pub fn can_extract(&self, x: u32, y: u32, w: u32, h: u32) -> (b: bool)
        ensures
            b == extractable(*self, x, y, w, h),
    {
        let c = self.channels as usize;
        let row_len = match (w as usize).checked_mul(c) {
            Some(v) => v,
            None => return false,
        };
        match row_len.checked_mul(h as usize) {
            Some(_) => {},
            None => return false,
        }
        let avail = if x < self.width {
            if self.width - x < w {
                (self.width - x) as usize
            } else {
                w as usize
            }
        } else {
            0
        };
        if avail == 0 {
            return true;
        }
        proof {
            assert(avail * c <= w * c) by (nonlinear_arith)
                requires
                    avail <= w,
                    0 <= c,
            ;
        }
        let copy_len = avail * c;
        let len = self.data.len();
        let mut r: u64 = 0;
        while r < h as u64 && (y as u64) + r < self.height as u64
            invariant
                c == self.channels,
                len == self.data@.len(),
                avail == avail_cols(self.width as int, x as int, w as int),
                avail > 0,
                copy_len == avail * c,
                w * self.channels <= usize::MAX,
                w * self.channels * h <= usize::MAX,
                r <= h,
                r == 0 || row_start(*self, x, y, r - 1) < len,
                forall|q: int|
                    0 <= q < r && #[trigger] row_reached(*self, x, y, h, q) ==> {
                        &&& (y + q) * self.width + x <= usize::MAX
                        &&& row_start(*self, x, y, q) <= usize::MAX
                        &&& row_start(*self, x, y, q) < len ==> row_start(*self, x, y, q)
                            + copy_len <= usize::MAX
                    },
            decreases h - r,
        {
            proof {
                assert(row_reached(*self, x, y, h, r as int));
            }
            let src_row = (y as u64 + r) as usize;
            let start = match src_row.checked_mul(self.width as usize) {
                Some(v) => match v.checked_add(x as usize) {
                    Some(v2) => match v2.checked_mul(c) {
                        Some(v3) => v3,
                        None => return false,
                    },
                    None => {
                        proof {
                            assert(src_row * self.width + x > usize::MAX);
                        }
                        return false;
                    },
                },
                None => {
                    proof {
                        assert(src_row * self.width + x > usize::MAX);
                    }
                    return false;
                },
            };
            if start >= len {
                proof {
                    assert forall|q: int| #[trigger] row_reached(*self, x, y, h, q) implies q <= r by {
                        if q > r {
                            lemma_row_offset_monotone(
                                self.width as int,
                                self.channels as int,
                                x as int,
                                y + r,
                                y + q - 1,
                            );
                        }
                    }
                }
                return true;
            }
            match start.checked_add(copy_len) {
                Some(_) => {},
                None => return false,
            }
            r = r + 1;
        }
        proof {
            assert forall|q: int| #[trigger] row_reached(*self, x, y, h, q) implies q < r by {}
        }
        true
    }

    /// Extract a slice of the image.
    ///
    /// The result is always `w * h * channels` bytes. Any region outside the source image
    /// (past the right or bottom edge, or starting beyond it, or beyond the end of the pixel
    /// buffer) is zero-padded, so the returned dimensions and buffer length are always
    /// consistent.
    pub fn extract_slice(&self, x: u32, y: u32, w: u32, h: u32) -> (s: ImageData)
        requires
            extractable(*self, x, y, w, h),
        ensures
            is_extraction(*self, x, y, w, h, s),
            forall|i: int|
                0 <= i < s.data@.len() ==> {
                    let row_len = w * self.channels;
                    let r = i / row_len;
                    let k = i % row_len;
                    let src = ((y + r) * self.width + x) * self.channels + k;
                    &&& (x + k / (self.channels as int) >= self.width || y + r >= self.height || src
                        >= self.data@.len()) ==> #[trigger] s.data@[i] == 0
                    &&& (x + k / (self.channels as int) < self.width && y + r < self.height && src
                        < self.data@.len()) ==> s.data@[i] == self.data@[src]
                },
    {
        let ghost data = self.data@;
        let ghost width = self.width as int;
        let ghost height = self.height as int;
        let ghost ch = self.channels as int;
        let c = self.channels as usize;
        let row_len = w as usize * c;
        let total = row_len * h as usize;
        let mut out: Vec<u8> = Vec::new();
        let mut t: usize = 0;
        while t < total
            invariant
                t <= total,
                out@.len() == t,
                forall|i: int| 0 <= i < t ==> #[trigger] out@[i] == 0,
            decreases total - t,
        {
            out.push(0);
            t = t + 1;
        }
        let avail = if x < self.width {
            if self.width - x < w {
                (self.width - x) as usize
            } else {
                w as usize
            }
        } else {
            0
        };
        let len = self.data.len();
        proof {
            assert forall|i: int| 0 <= i < total implies #[trigger] (i / (row_len as int)) >= 0 && 0
                <= i % (row_len as int) < row_len by {
                vstd::arithmetic::div_mod::lemma_div_pos_is_pos(i, row_len as int);
                vstd::arithmetic::div_mod::lemma_mod_pos_bound(i, row_len as int);
            }
        }
        if avail > 0 {
            proof {
                assert(avail * c <= w * c) by (nonlinear_arith)
                    requires
                        avail <= w,
                        0 <= c,
                ;
            }
            let copy_len = avail * c;
            let mut out_row: usize = 0;
            let mut stop = false;
            while out_row < h as usize && !stop
                invariant
                    data == self.data@,
                    width == self.width,
                    height == self.height,
                    ch == self.channels,
                    c == ch,
                    len == data.len(),
                    row_len == w * c,
                    total == row_len * h,
                    out@.len() == total,
                    avail == avail_cols(width, x as int, w as int),
                    0 < avail,
                    copy_len == avail * c,
                    extractable(*self, x, y, w, h),
                    !stop ==> (out_row == 0 || row_start(*self, x, y, out_row - 1) < len),
                    out_row <= h,
                    forall|i: int|
                        0 <= i < total ==> #[trigger] (i / (row_len as int)) >= 0 && 0 <= i % (
                        row_len as int) < row_len,
                    forall|i: int|
                        0 <= i < total ==> #[trigger] out@[i] == if i / (row_len as int)
                            < out_row {
                            slice_byte(data, width, height, ch, x as int, y as int, w as int, i)
                        } else {
                            0
                        },
                    stop ==> forall|i: int|
                        0 <= i < total && #[trigger] (i / (row_len as int)) >= out_row
                            ==> slice_byte(data, width, height, ch, x as int, y as int, w as int, i)
                            == 0,
                decreases h - out_row, if stop {
                    0int
                } else {
                    1int
                },
            {
                let src_row = y as u64 + out_row as u64;
                if src_row >= self.height as u64 {
                    stop = true;
                } else {
                    proof {
                        assert(row_reached(*self, x, y, h, out_row as int));
                        assert(src_row * self.width <= (y + out_row) * self.width + x);
                    }
                    let src_start = (src_row as usize * self.width as usize + x as usize) * c;
                    if src_start >= len {
                        stop = true;
                        proof {
                            assert forall|i: int|
                                0 <= i < total && #[trigger] (i / (row_len as int)) >= out_row
                                    implies slice_byte(
                                data,
                                width,
                                height,
                                ch,
                                x as int,
                                y as int,
                                w as int,
                                i,
                            ) == 0 by {
                                let r = i / (row_len as int);
                                lemma_row_offset_monotone(
                                    width,
                                    ch,
                                    x as int,
                                    src_row as int,
                                    y + r,
                                );
                            }
                        }
                    } else {
                        let n = if copy_len <= len - src_start {
                            copy_len
                        } else {
                            len - src_start
                        };
                        proof {
                            assert(out_row * row_len + row_len <= total) by (nonlinear_arith)
                                requires
                                    out_row < h,
                                    total == row_len * h,
                                    0 <= row_len,
                            ;
                            assert(out_row * row_len <= total) by (nonlinear_arith)
                                requires
                                    out_row * row_len + row_len <= total,
                                    0 <= row_len,
                            ;
                        }
                        let dst_start = out_row * row_len;
                        let mut k: usize = 0;
                        while k < row_len
                            invariant
                                data == self.data@,
                                len == data.len(),
                                out@.len() == total,
                                row_len == w * c,
                                total == row_len * h,
                                dst_start == out_row * row_len,
                                dst_start + row_len <= total,
                                src_row == y + out_row,
                                src_row < height,
                                src_start == ((y + out_row) * width + x) * ch,
                                src_start < len,
                                n as int == if copy_len <= len - src_start {
                                    copy_len as int
                                } else {
                                    len - src_start
                                },
                                copy_len == avail * c,
                                avail == avail_cols(width, x as int, w as int),
                                c == ch,
                                k <= row_len,
                                forall|i: int|
                                    0 <= i < total ==> #[trigger] (i / (row_len as int)) >= 0 && 0
                                        <= i % (row_len as int) < row_len,
                                forall|i: int|
                                    0 <= i < total ==> #[trigger] out@[i] == if i / (
                                    row_len as int) < out_row || (i / (row_len as int) == out_row
                                        && i % (row_len as int) < k) {
                                        slice_byte(
                                            data,
                                            width,
                                            height,
                                            ch,
                                            x as int,
                                            y as int,
                                            w as int,
                                            i,
                                        )
                                    } else {
                                        0
                                    },
                            decreases row_len - k,
                        {
                            let ghost i = (dst_start + k) as int;
                            let ghost before = out@;
                            proof {
                                vstd::arithmetic::div_mod::lemma_fundamental_div_mod_converse(
                                    i,
                                    row_len as int,
                                    out_row as int,
                                    k as int,
                                );
                                assert(slice_byte(
                                    data,
                                    width,
                                    height,
                                    ch,
                                    x as int,
                                    y as int,
                                    w as int,
                                    i,
                                ) == if k < n {
                                    data[src_start + k]
                                } else {
                                    0
                                });
                            }
                            if k < n {
                                out.set(dst_start + k, self.data[src_start + k]);
                            }
                            proof {
                                assert forall|j: int| 0 <= j < total implies #[trigger] out@[j]
                                    == if j / (row_len as int) < out_row || (j / (row_len as int)
                                    == out_row && j % (row_len as int) < k + 1) {
                                    slice_byte(
                                        data,
                                        width,
                                        height,
                                        ch,
                                        x as int,
                                        y as int,
                                        w as int,
                                        j,
                                    )
                                } else {
                                    0
                                } by {
                                    if j != i {
                                        vstd::arithmetic::div_mod::lemma_fundamental_div_mod(
                                            j,
                                            row_len as int,
                                        );
                                        assert(out@[j] == before[j]);
                                        if j / (row_len as int) == out_row && j % (row_len as int)
                                            == k {
                                            assert(j == row_len * out_row + k);
                                            assert(row_len * out_row == out_row * row_len)
                                                by (nonlinear_arith);
                                        }
                                    }
                                }
                            }
                            k = k + 1;
                        }
                        out_row = out_row + 1;
                    }
                }
            }
            proof {
                assert forall|i: int| 0 <= i < total implies #[trigger] out@[i] == slice_byte(
                    data,
                    width,
                    height,
                    ch,
                    x as int,
                    y as int,
                    w as int,
                    i,
                ) by {
                    let r = i / (row_len as int);
                    if r >= out_row && !stop {
                        vstd::arithmetic::div_mod::lemma_fundamental_div_mod(i, row_len as int);
                        assert(r < h) by (nonlinear_arith)
                            requires
                                i == row_len * r + i % (row_len as int),
                                0 <= i % (row_len as int),
                                i < total,
                                total == row_len * h,
                                h <= out_row,
                                out_row <= r,
                        ;
                    }
                }
            }
        } else {
            proof {
                assert forall|i: int| 0 <= i < total implies #[trigger] out@[i] == slice_byte(
                    data,
                    width,
                    height,
                    ch,
                    x as int,
                    y as int,
                    w as int,
                    i,
                ) by {
                    assert(avail_cols(width, x as int, w as int) == 0);
                }
            }
        }
        let slice = ImageData::new(out, w, h, self.channels);
        proof {
            assert forall|i: int| 0 <= i < slice.data@.len() implies {
                let row_len = w * self.channels;
                let r = i / row_len;
                let k = i % row_len;
                let src = ((y + r) * self.width + x) * self.channels + k;
                &&& (x + k / (self.channels as int) >= self.width || y + r >= self.height || src
                    >= self.data@.len()) ==> #[trigger] slice.data@[i] == 0
                &&& (x + k / (self.channels as int) < self.width && y + r < self.height && src
                    < self.data@.len()) ==> slice.data@[i] == self.data@[src]
            } by {
                assert(w > 0 && self.channels > 0) by (nonlinear_arith)
                    requires
                        0 <= i < w * self.channels * h,
                ;
                lemma_slice_byte_by_position(
                    self.data@,
                    self.width as int,
                    self.height as int,
                    self.channels as int,
                    x as int,
                    y as int,
                    w as int,
                    i,
                );
            }
        }
        slice
    }
}

} // verus!
