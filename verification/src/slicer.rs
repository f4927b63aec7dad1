//! Image slicing: the tile grid laid over an image.

use vstd::prelude::*;

verus! {

/// A slice definition representing a region of the source image.
#[derive(Debug, Clone, Copy, PartialEq, Eq, Structural)]
pub struct Slice {
    /// X offset in the source image
    pub x: u32,
    /// Y offset in the source image
    pub y: u32,
    /// Width of the slice
    pub width: u32,
    /// Height of the slice
    pub height: u32,
    /// Index of this slice
    pub index: usize,
}

impl Slice {
    /// Create a new slice.
    pub fn new(x: u32, y: u32, width: u32, height: u32, index: usize) -> (s: Self)
        ensures
            s == (Slice { x, y, width, height, index }),
    {
        Slice { x, y, width, height, index }
    }
}

/// Number of tile starts along an axis of length `image` for tiles of length `slice` that
/// advance by `step`: one when the image fits in a tile, otherwise enough steps for the last
/// tile to reach the end of the image.
pub open spec fn axis_count(image: int, slice: int, step: int) -> int {
    if image <= slice {
        1
    } else {
        (image - slice + step - 1) / step + 1
    }
}

/// The `k`-th tile start along an axis: `k * step`, except that in fixed-size mode the last
/// start is pulled back to `image - slice` so that the last tile is full-size and flush with
/// the edge. The only start is `0` when the image fits in a tile.
pub open spec fn axis_start(image: int, slice: int, step: int, fixed: bool, k: int) -> int {
    if image <= slice {
        0
    } else if fixed && k == axis_count(image, slice, step) - 1 {
        image - slice
    } else {
        k * step
    }
}

/// Extent of the tile that starts at `start`: the full slice in fixed-size mode (when the image
/// exceeds the slice), otherwise the slice clipped to the image.
pub open spec fn tile_extent(image: int, slice: int, fixed: bool, start: int) -> int {
    if fixed && image > slice {
        slice
    } else if slice <= image - start {
        slice
    } else {
        image - start
    }
}

/// Every computed start fits in a `u32` together with its tile, so the walk never overflows.
pub open spec fn axis_fits(image: int, slice: int, step: int) -> bool {
    image <= slice || (axis_count(image, slice, step) - 1) * step + slice <= u32::MAX
}

/// Clipped tiles never start past the end of the image: in clip mode the last start is at
/// most the image length (tiles may start exactly at the end only when steps exceed tiles).
pub open spec fn axis_in_image(image: int, slice: int, step: int, fixed: bool) -> bool {
    image <= slice || fixed || (axis_count(image, slice, step) - 1) * step <= image
}

/// The defining properties of the last unclipped start `q * step`: it reaches the end of the
/// image, and the start before it does not.
proof fn lemma_axis_count(image: int, slice: int, step: int)
    requires
        image > slice,
        step >= 1,
    ensures
        axis_count(image, slice, step) >= 2,
        (axis_count(image, slice, step) - 1) * step + slice >= image,
        (axis_count(image, slice, step) - 2) * step + slice < image,
{
    let d = image - slice;
    let q = (d + step - 1) / step;
    assert(q * step + (d + step - 1) % step == d + step - 1) by (nonlinear_arith)
        requires
            step >= 1,
            q == (d + step - 1) / step,
    ;
    assert(0 <= (d + step - 1) % step < step) by (nonlinear_arith)
        requires
            step >= 1,
    ;
    assert(q >= 1) by (nonlinear_arith)
        requires
            q * step >= d,
            d >= 1,
            step >= 1,
    ;
    assert((q - 1) * step == q * step - step) by (nonlinear_arith);
}

/// Tile start positions along one axis. In fixed-size mode the final start is clamped to
/// `image_dim - slice_dim`, so the last tile stays full-size and flush to the edge. Returns
/// `[0]` when the image is no larger than the slice.
pub fn axis_starts(image_dim: u32, slice_dim: u32, step: u32, fixed_size: bool) -> (starts: Vec<
    u32,
>)
    requires
        step >= 1,
        axis_fits(image_dim as int, slice_dim as int, step as int),
    ensures
        starts@.len() == axis_count(image_dim as int, slice_dim as int, step as int),
        forall|k: int|
            0 <= k < starts@.len() ==> #[trigger] starts@[k] == axis_start(
                image_dim as int,
                slice_dim as int,
                step as int,
                fixed_size,
                k,
            ),
{
    let mut starts: Vec<u32> = Vec::new();
    if image_dim <= slice_dim {
        starts.push(0);
        proof {
            assert(starts@[0] == 0);
        }
        return starts;
    }
    let ghost image = image_dim as int;
    let ghost slice = slice_dim as int;
    let ghost st = step as int;
    proof {
        lemma_axis_count(image, slice, st);
    }
    let ghost count = axis_count(image, slice, st);
    let mut p: u32 = 0;
    loop
        invariant_except_break
            starts@.len() < count,
            p as int == starts@.len() * st,
        invariant
            image == image_dim,
            slice == slice_dim,
            st == step,
            image > slice,
            step >= 1,
            count == axis_count(image, slice, st),
            (count - 1) * st + slice >= image,
            (count - 2) * st + slice < image,
            (count - 1) * st + slice <= u32::MAX,
            forall|k: int| 0 <= k < starts@.len() ==> #[trigger] starts@[k] == k * st,
        ensures
            starts@.len() == count,
            forall|k: int| 0 <= k < starts@.len() ==> #[trigger] starts@[k] == k * st,
        decreases count - starts@.len(),
    {
        let ghost len = starts@.len() as int;
        proof {
            assert(len * st <= (count - 1) * st) by (nonlinear_arith)
                requires
                    len <= count - 1,
                    st >= 1,
            ;
        }
        starts.push(p);
        proof {
            assert(starts@[len] == len * st);
        }
        if p + slice_dim >= image_dim {
            proof {
                if len < count - 1 {
                    assert(len * st <= (count - 2) * st) by (nonlinear_arith)
                        requires
                            len <= count - 2,
                            st >= 1,
                    ;
                }
            }
            break;
        }
        proof {
            assert(len < count - 1);
            assert((len + 1) * st == len * st + st) by (nonlinear_arith);
            assert((len + 1) * st <= (count - 1) * st) by (nonlinear_arith)
                requires
                    len + 1 <= count - 1,
                    st >= 1,
            ;
        }
        p = p + step;
    }
    if fixed_size {
        let last = starts.len() - 1;
        starts.set(last, image_dim - slice_dim);
    }
    starts
}

/// Tile `t` of the grid, counting row by row: row `t / nx` and column `t % nx`, where `nx` is
/// the number of tiles per row.
pub open spec fn grid_tile(
    image_width: int,
    image_height: int,
    slice_width: int,
    slice_height: int,
    step_x: int,
    step_y: int,
    fixed: bool,
    t: int,
) -> Slice {
    let nx = axis_count(image_width, slice_width, step_x);
    let sx = axis_start(image_width, slice_width, step_x, fixed, t % nx);
    let sy = axis_start(image_height, slice_height, step_y, fixed, t / nx);
    Slice {
        x: sx as u32,
        y: sy as u32,
        width: tile_extent(image_width, slice_width, fixed, sx) as u32,
        height: tile_extent(image_height, slice_height, fixed, sy) as u32,
        index: t as usize,
    }
}

/// The tile grid over an image of `image_width` by `image_height`: tiles of `slice_width` by
/// `slice_height` whose starts advance by `step_x` and `step_y`, row by row, indexed in order.
/// In fixed-size mode tiles are full-size whenever the image exceeds the slice; otherwise edge
/// tiles are clipped to the image.
pub fn slice_grid(
    image_width: u32,
    image_height: u32,
    slice_width: u32,
    slice_height: u32,
    step_x: u32,
    step_y: u32,
    fixed_size: bool,
) -> (slices: Vec<Slice>)
    requires
        step_x >= 1,
        step_y >= 1,
        axis_fits(image_width as int, slice_width as int, step_x as int),
        axis_fits(image_height as int, slice_height as int, step_y as int),
        axis_in_image(image_width as int, slice_width as int, step_x as int, fixed_size),
        axis_in_image(image_height as int, slice_height as int, step_y as int, fixed_size),
        axis_count(image_width as int, slice_width as int, step_x as int) * axis_count(
            image_height as int,
            slice_height as int,
            step_y as int,
        ) <= usize::MAX,
    ensures
        slices@.len() == axis_count(image_width as int, slice_width as int, step_x as int)
            * axis_count(image_height as int, slice_height as int, step_y as int),
        forall|t: int|
            0 <= t < slices@.len() ==> #[trigger] slices@[t] == grid_tile(
                image_width as int,
                image_height as int,
                slice_width as int,
                slice_height as int,
                step_x as int,
                step_y as int,
                fixed_size,
                t,
            ),
{
    let xs = axis_starts(image_width, slice_width, step_x, fixed_size);
    let ys = axis_starts(image_height, slice_height, step_y, fixed_size);
    let ghost nx = xs@.len() as int;
    let ghost ny = ys@.len() as int;
    let mut slices: Vec<Slice> = Vec::new();
    let mut index: usize = 0;
    let mut iy: usize = 0;
    proof {
        lemma_starts_in_image(image_width as int, slice_width as int, step_x as int, fixed_size);
        lemma_starts_in_image(image_height as int, slice_height as int, step_y as int, fixed_size);
        assert forall|k: int| 0 <= k < nx implies #[trigger] xs@[k] <= image_width by {
            assert(0 <= axis_start(image_width as int, slice_width as int, step_x as int, fixed_size, k) <= image_width);
        }
        assert forall|k: int| 0 <= k < ny implies #[trigger] ys@[k] <= image_height by {
            assert(0 <= axis_start(image_height as int, slice_height as int, step_y as int, fixed_size, k) <= image_height);
        }
    }
    while iy < ys.len()
        invariant
            nx == xs@.len(),
            ny == ys@.len(),
            nx == axis_count(image_width as int, slice_width as int, step_x as int),
            ny == axis_count(image_height as int, slice_height as int, step_y as int),
            nx >= 1,
            nx * ny <= usize::MAX,
            forall|k: int|
                0 <= k < nx ==> #[trigger] xs@[k] == axis_start(
                    image_width as int,
                    slice_width as int,
                    step_x as int,
                    fixed_size,
                    k,
                ) && xs@[k] <= image_width,
            forall|k: int|
                0 <= k < ny ==> #[trigger] ys@[k] == axis_start(
                    image_height as int,
                    slice_height as int,
                    step_y as int,
                    fixed_size,
                    k,
                ) && ys@[k] <= image_height,
            iy <= ny,
            index == iy * nx,
            slices@.len() == index,
            forall|t: int| 0 <= t < index ==> #[trigger] slices@[t] == grid_tile(
                    image_width as int,
                    image_height as int,
                    slice_width as int,
                    slice_height as int,
                    step_x as int,
                    step_y as int,
                    fixed_size,
                    t,
                ),
        decreases ny - iy,
    {
        let y = ys[iy];
        let slice_h = if fixed_size && image_height > slice_height {
            slice_height
        } else if slice_height <= image_height - y {
            slice_height
        } else {
            image_height - y
        };
        let mut ix: usize = 0;
        proof {
            assert((iy + 1) * nx <= ny * nx) by (nonlinear_arith)
                requires
                    iy + 1 <= ny,
                    0 <= nx,
            ;
            assert((iy + 1) * nx == iy * nx + nx) by (nonlinear_arith);
            assert(ny * nx == nx * ny) by (nonlinear_arith);
        }
        while ix < xs.len()
            invariant
                nx == xs@.len(),
                ny == ys@.len(),
                nx == axis_count(image_width as int, slice_width as int, step_x as int),
                ny == axis_count(image_height as int, slice_height as int, step_y as int),
                nx >= 1,
                nx * ny <= usize::MAX,
                (iy + 1) * nx <= nx * ny,
                (iy + 1) * nx == iy * nx + nx,
                forall|k: int|
                    0 <= k < nx ==> #[trigger] xs@[k] == axis_start(
                        image_width as int,
                        slice_width as int,
                        step_x as int,
                        fixed_size,
                        k,
                    ) && xs@[k] <= image_width,
                iy < ny,
                y == ys@[iy as int],
                y == axis_start(
                    image_height as int,
                    slice_height as int,
                    step_y as int,
                    fixed_size,
                    iy as int,
                ),
                y <= image_height,
                slice_h == tile_extent(image_height as int, slice_height as int, fixed_size, y as int),
                ix <= nx,
                index == iy * nx + ix,
                slices@.len() == index,
                forall|t: int| 0 <= t < index ==> #[trigger] slices@[t] == grid_tile(
                    image_width as int,
                    image_height as int,
                    slice_width as int,
                    slice_height as int,
                    step_x as int,
                    step_y as int,
                    fixed_size,
                    t,
                ),
            decreases nx - ix,
        {
            let x = xs[ix];
            let slice_w = if fixed_size && image_width > slice_width {
                slice_width
            } else if slice_width <= image_width - x {
                slice_width
            } else {
                image_width - x
            };
            let ghost before = slices@;
            slices.push(Slice::new(x, y, slice_w, slice_h, index));
            proof {
                vstd::arithmetic::div_mod::lemma_fundamental_div_mod_converse(
                    index as int,
                    nx,
                    iy as int,
                    ix as int,
                );
                assert(index as int % nx == ix);
                assert(index as int / nx == iy);
                let g = grid_tile(
                    image_width as int,
                    image_height as int,
                    slice_width as int,
                    slice_height as int,
                    step_x as int,
                    step_y as int,
                    fixed_size,
                    index as int,
                );
                assert(g.x == x);
                assert(g.y == y);
                assert(g.width == slice_w);
                assert(g.height == slice_h);
                assert(g.index == index);
                assert(slices@[index as int] == g);
                assert(slices@[index as int] == grid_tile(
                    image_width as int,
                    image_height as int,
                    slice_width as int,
                    slice_height as int,
                    step_x as int,
                    step_y as int,
                    fixed_size,
                    index as int,
                ));
                assert forall|t: int| 0 <= t < index + 1 implies #[trigger] slices@[t] == grid_tile(
                    image_width as int,
                    image_height as int,
                    slice_width as int,
                    slice_height as int,
                    step_x as int,
                    step_y as int,
                    fixed_size,
                    t,
                ) by {
                    if t < index {
                        assert(slices@[t] == before[t]);
                    }
                }
            }
            index = index + 1;
            ix = ix + 1;
        }
        iy = iy + 1;
    }
    proof {
        assert(ny * nx == nx * ny) by (nonlinear_arith);
    }
    slices
}

/// Every start lies within the image: the last unclipped start can only pass the image's end
/// when steps are longer than tiles.
proof fn lemma_starts_in_image(image: int, slice: int, step: int, fixed: bool)
    requires
        step >= 1,
        image >= 0,
        slice >= 0,
        axis_in_image(image, slice, step, fixed),
    ensures
        forall|k: int|
            0 <= k < axis_count(image, slice, step) ==> 0 <= #[trigger] axis_start(
                image,
                slice,
                step,
                fixed,
                k,
            ) <= image,
{
    if image > slice {
        lemma_axis_count(image, slice, step);
        assert forall|k: int| 0 <= k < axis_count(image, slice, step) implies 0 <= #[trigger] axis_start(
            image,
            slice,
            step,
            fixed,
            k,
        ) <= image by {
            let c = axis_count(image, slice, step);
            assert(0 <= k * step) by (nonlinear_arith)
                requires
                    0 <= k,
                    step >= 1,
            ;
            if !(fixed && k == c - 1) {
                if k <= c - 2 {
                    assert(k * step <= (c - 2) * step) by (nonlinear_arith)
                        requires
                            k <= c - 2,
                            step >= 1,
                    ;
                }
            }
        }
    }
}

/// Every tile lies inside the image along its axis: it starts within the image and its
/// extent does not pass the image's end.
pub proof fn lemma_tiles_inside(image: int, slice: int, step: int, fixed: bool, k: int)
    requires
        step >= 1,
        image >= 0,
        slice >= 0,
        axis_in_image(image, slice, step, fixed),
        0 <= k < axis_count(image, slice, step),
    ensures
        0 <= axis_start(image, slice, step, fixed, k),
        0 <= tile_extent(image, slice, fixed, axis_start(image, slice, step, fixed, k)),
        axis_start(image, slice, step, fixed, k) + tile_extent(
            image,
            slice,
            fixed,
            axis_start(image, slice, step, fixed, k),
        ) <= image,
{
    lemma_starts_in_image(image, slice, step, fixed);
    if fixed && image > slice {
        lemma_axis_count(image, slice, step);
        let c = axis_count(image, slice, step);
        if k < c - 1 {
            assert(k * step <= (c - 2) * step) by (nonlinear_arith)
                requires
                    k <= c - 2,
                    step >= 1,
            ;
        }
    }
}

/// With tiles at least as long as the step, the tiles along an axis cover every coordinate
/// of the image.
pub proof fn lemma_axis_covers(image: int, slice: int, step: int, fixed: bool, c: int)
    requires
        1 <= step <= slice,
        0 <= c < image,
    ensures
        exists|k: int|
            0 <= k < axis_count(image, slice, step) && #[trigger] axis_start(
                image,
                slice,
                step,
                fixed,
                k,
            ) <= c < axis_start(image, slice, step, fixed, k) + tile_extent(
                image,
                slice,
                fixed,
                axis_start(image, slice, step, fixed, k),
            ),
{
    if image <= slice {
        assert(axis_start(image, slice, step, fixed, 0) == 0);
    } else {
        lemma_axis_count(image, slice, step);
        let n = axis_count(image, slice, step);
        let q = c / step;
        assert(q * step <= c < q * step + step) by (nonlinear_arith)
            requires
                step >= 1,
                q == c / step,
                c >= 0,
        ;
        assert(q >= 0) by (nonlinear_arith)
            requires
                step >= 1,
                q == c / step,
                c >= 0,
        ;
        if fixed && c >= image - slice {
            assert(axis_start(image, slice, step, fixed, n - 1) == image - slice);
        } else if q < n - 1 {
            let k = q;
            assert(axis_start(image, slice, step, fixed, k) == k * step);
        } else {
            // Past the last unclipped start: the last tile still covers `c`.
            let k = n - 1;
            assert(q * step >= k * step) by (nonlinear_arith)
                requires
                    q >= k,
                    step >= 1,
            ;
            assert(axis_start(image, slice, step, fixed, k) == k * step);
        }
    }
}

/// The tiles of the grid cover every pixel of the image when tiles are at least as long as
/// the steps: each pixel lies in some tile `t`.
pub proof fn lemma_grid_covers(
    image_width: int,
    image_height: int,
    slice_width: int,
    slice_height: int,
    step_x: int,
    step_y: int,
    fixed: bool,
    px: int,
    py: int,
)
    requires
        1 <= step_x <= slice_width,
        1 <= step_y <= slice_height,
        0 <= px < image_width,
        0 <= py < image_height,
        image_width <= u32::MAX,
        image_height <= u32::MAX,
        slice_width <= u32::MAX,
        slice_height <= u32::MAX,
    ensures
        exists|t: int|
            0 <= t < axis_count(image_width, slice_width, step_x) * axis_count(
                image_height,
                slice_height,
                step_y,
            ) && ({
                let s = #[trigger] grid_tile(
                    image_width,
                    image_height,
                    slice_width,
                    slice_height,
                    step_x,
                    step_y,
                    fixed,
                    t,
                );
                &&& s.x <= px < s.x + s.width
                &&& s.y <= py < s.y + s.height
            }),
{
    lemma_axis_covers(image_width, slice_width, step_x, fixed, px);
    lemma_axis_covers(image_height, slice_height, step_y, fixed, py);
    let nx = axis_count(image_width, slice_width, step_x);
    let ny = axis_count(image_height, slice_height, step_y);
    let ix = choose|k: int|
        0 <= k < nx && #[trigger] axis_start(image_width, slice_width, step_x, fixed, k) <= px
            < axis_start(image_width, slice_width, step_x, fixed, k) + tile_extent(
            image_width,
            slice_width,
            fixed,
            axis_start(image_width, slice_width, step_x, fixed, k),
        );
    let iy = choose|k: int|
        0 <= k < ny && #[trigger] axis_start(image_height, slice_height, step_y, fixed, k) <= py
            < axis_start(image_height, slice_height, step_y, fixed, k) + tile_extent(
            image_height,
            slice_height,
            fixed,
            axis_start(image_height, slice_height, step_y, fixed, k),
        );
    let t = iy * nx + ix;
    vstd::arithmetic::div_mod::lemma_fundamental_div_mod_converse(t, nx, iy, ix);
    assert(t < nx * ny) by (nonlinear_arith)
        requires
            t == iy * nx + ix,
            0 <= ix < nx,
            0 <= iy < ny,
    ;
    assert(0 <= t) by (nonlinear_arith)
        requires
            t == iy * nx + ix,
            0 <= ix,
            0 <= iy,
            0 <= nx,
    ;
    let sx = axis_start(image_width, slice_width, step_x, fixed, ix);
    let sy = axis_start(image_height, slice_height, step_y, fixed, iy);
    lemma_axis_bounds(image_width, slice_width, step_x, fixed, ix);
    lemma_axis_bounds(image_height, slice_height, step_y, fixed, iy);
    let s = grid_tile(
        image_width,
        image_height,
        slice_width,
        slice_height,
        step_x,
        step_y,
        fixed,
        t,
    );
    assert(s.x == sx);
    assert(s.y == sy);
    assert(s.width == tile_extent(image_width, slice_width, fixed, sx));
    assert(s.height == tile_extent(image_height, slice_height, fixed, sy));
}

/// With tiles at least as long as steps, starts and extents are small: they fit in a `u32`
/// whenever the image and slice do.
proof fn lemma_axis_bounds(image: int, slice: int, step: int, fixed: bool, k: int)
    requires
        1 <= step <= slice,
        0 <= k < axis_count(image, slice, step),
        image > 0,
    ensures
        0 <= axis_start(image, slice, step, fixed, k) < image,
        0 < tile_extent(image, slice, fixed, axis_start(image, slice, step, fixed, k)) <= slice,
{
    if image > slice {
        lemma_axis_count(image, slice, step);
        let n = axis_count(image, slice, step);
        assert(0 <= k * step) by (nonlinear_arith)
            requires
                0 <= k,
                step >= 1,
        ;
        if k <= n - 2 {
            assert(k * step <= (n - 2) * step) by (nonlinear_arith)
                requires
                    k <= n - 2,
                    step >= 1,
            ;
        } else {
            assert(k * step == (n - 2) * step + step) by (nonlinear_arith)
                requires
                    k == n - 1,
            ;
        }
    }
}

} // verus!
