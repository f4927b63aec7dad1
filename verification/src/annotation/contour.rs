//! Outer-contour tracing of boolean masks.
//!
//! A raster scan finds the first unvisited foreground pixel of each 8-connected component.
//! By scan order it is the component's first pixel, so its west neighbour is background (or
//! outside the grid) and it is a valid Moore start. The component is flood-filled (8
//! connectivity) into a `visited` bitmap so the scan does not restart inside it, and its outer
//! boundary is traced clockwise with Moore-neighbour tracing until the start pixel is entered
//! again from the west (Jacob's criterion) or the walk is back at the start about to repeat its
//! first step (so that a boundary never entered from the west again, such as a line or a
//! two-pixel speck, is listed once rather than cycled until the cap), with
//! `8 * component size` steps as a backstop.
//! Contours with fewer than three points are dropped. Vertices are pixel centres; holes are
//! not traced.

use vstd::prelude::*;

verus! {

/// `(x, y)` lies inside a `w` by `h` grid.
pub open spec fn in_grid(w: int, h: int, x: int, y: int) -> bool {
    0 <= x < w && 0 <= y < h
}

/// Row-major index of `(x, y)` in a grid of width `w`.
pub open spec fn raster(w: int, x: int, y: int) -> int {
    y * w + x
}

/// `(x, y)` is a foreground pixel of the row-major mask.
pub open spec fn is_fg(mask: Seq<bool>, w: int, h: int, x: int, y: int) -> bool {
    in_grid(w, h, x, y) && mask[raster(w, x, y)]
}

/// The two pixels are distinct and touch, sideways or diagonally.
pub open spec fn adjacent8(x1: int, y1: int, x2: int, y2: int) -> bool {
    -1 <= x1 - x2 <= 1 && -1 <= y1 - y2 <= 1 && !(x1 == x2 && y1 == y2)
}

/// A walk over foreground pixels in which consecutive pixels touch.
pub open spec fn is_fg_path(mask: Seq<bool>, w: int, h: int, p: Seq<(int, int)>) -> bool {
    &&& p.len() > 0
    &&& forall|k: int| 0 <= k < p.len() ==> is_fg(mask, w, h, #[trigger] p[k].0, p[k].1)
    &&& forall|k: int|
        0 <= k < p.len() - 1 ==> adjacent8(#[trigger] p[k].0, p[k].1, p[k + 1].0, p[k + 1].1)
}

/// Pixels `a` and `b` lie in the same 8-connected foreground component.
pub open spec fn connected8(mask: Seq<bool>, w: int, h: int, a: (int, int), b: (int, int)) -> bool {
    exists|p: Seq<(int, int)>| is_fg_path(mask, w, h, p) && p[0] == a && #[trigger] p.last() == b
}

/// Horizontal offset of the clockwise Moore direction `d` (W, NW, N, NE, E, SE, S, SW).
pub open spec fn dir_dx(d: int) -> int {
    if d == 0 || d == 1 || d == 7 {
        -1
    } else if d == 2 || d == 6 {
        0
    } else {
        1
    }
}

/// Vertical offset of the clockwise Moore direction `d` (y grows downwards).
pub open spec fn dir_dy(d: int) -> int {
    if d == 1 || d == 2 || d == 3 {
        -1
    } else if d == 0 || d == 4 {
        0
    } else {
        1
    }
}

/// Every foreground neighbour of `(x, y)` is visited.
pub open spec fn closed_at(mask: Seq<bool>, visited: Seq<bool>, w: int, h: int, x: int, y: int) -> bool {
    forall|d: int|
        0 <= d < 8 && #[trigger] is_fg(mask, w, h, x + dir_dx(d), y + dir_dy(d)) ==> visited[raster(
            w,
            x + dir_dx(d),
            y + dir_dy(d),
        )]
}

/// Visited pixels are foreground, and their foreground neighbours are visited too.
pub open spec fn visited_closed(mask: Seq<bool>, visited: Seq<bool>, w: int, h: int) -> bool {
    &&& visited.len() == w * h
    &&& forall|x: int, y: int|
        in_grid(w, h, x, y) && #[trigger] visited[raster(w, x, y)] ==> mask[raster(w, x, y)]
    &&& forall|x: int, y: int|
        in_grid(w, h, x, y) && #[trigger] visited[raster(w, x, y)] ==> closed_at(
            mask,
            visited,
            w,
            h,
            x,
            y,
        )
}

/// A traced contour: at least three foreground pixels, consecutive ones touching.
pub open spec fn is_contour(mask: Seq<bool>, w: int, h: int, c: Seq<(u32, u32)>) -> bool {
    &&& c.len() >= 3
    &&& forall|k: int| 0 <= k < c.len() ==> is_fg(mask, w, h, #[trigger] c[k].0 as int, c[k].1 as int)
    &&& forall|k: int|
        0 <= k < c.len() - 1 ==> adjacent8(
            #[trigger] c[k].0 as int,
            c[k].1 as int,
            c[k + 1].0 as int,
            c[k + 1].1 as int,
        )
}

/// The start of a contour is the first pixel of its component in raster order.
pub open spec fn is_component_start(mask: Seq<bool>, w: int, h: int, s: (int, int)) -> bool {
    forall|x: int, y: int|
        #[trigger] connected8(mask, w, h, s, (x, y)) ==> raster(w, s.0, s.1) <= raster(w, x, y)
}

/// The start pixel of a contour, as integers.
pub open spec fn start_of(c: Seq<(u32, u32)>) -> (int, int) {
    (c[0].0 as int, c[0].1 as int)
}

/// The polygons traced from a mask: each is a contour that starts at the first pixel of its
/// component, contours are listed in raster order of their starts, and no two of them belong
/// to the same component.
pub open spec fn is_tracing(mask: Seq<bool>, w: int, h: int, polys: Seq<Seq<(u32, u32)>>) -> bool {
    &&& forall|g: int| 0 <= g < polys.len() ==> is_contour(mask, w, h, #[trigger] polys[g])
    &&& forall|g: int| 0 <= g < polys.len() ==> is_component_start(mask, w, h, start_of(#[trigger] polys[g]))
    &&& forall|g1: int, g2: int|
        0 <= g1 < g2 < polys.len() ==> raster(w, start_of(#[trigger] polys[g1]).0, start_of(polys[g1]).1)
            < raster(w, start_of(#[trigger] polys[g2]).0, start_of(polys[g2]).1)
    &&& forall|g1: int, g2: int|
        0 <= g1 < polys.len() && 0 <= g2 < polys.len() && g1 != g2 ==> !connected8(
            mask,
            w,
            h,
            start_of(#[trigger] polys[g1]),
            start_of(#[trigger] polys[g2]),
        )
}

// ---------------------------------------------------------------------------------------------
// Grid arithmetic
// ---------------------------------------------------------------------------------------------

proof fn lemma_raster_bounds(w: int, h: int, x: int, y: int)
    requires
        in_grid(w, h, x, y),
    ensures
        0 <= raster(w, x, y) < w * h,
        raster(w, x, y) < (y + 1) * w,
        y * w <= raster(w, x, y),
{
    assert(0 <= y * w) by (nonlinear_arith)
        requires
            0 <= y,
            0 <= w,
    ;
    assert((y + 1) * w <= h * w) by (nonlinear_arith)
        requires
            y + 1 <= h,
            0 <= w,
    ;
    assert(h * w == w * h) by (nonlinear_arith);
    assert((y + 1) * w == y * w + w) by (nonlinear_arith);
}

/// Raster order compares rows first, then columns.
proof fn lemma_raster_order(w: int, h: int, x1: int, y1: int, x2: int, y2: int)
    requires
        in_grid(w, h, x1, y1),
        in_grid(w, h, x2, y2),
    ensures
        raster(w, x1, y1) < raster(w, x2, y2) <==> (y1 < y2 || (y1 == y2 && x1 < x2)),
        raster(w, x1, y1) == raster(w, x2, y2) <==> (x1 == x2 && y1 == y2),
{
    if y1 < y2 {
        assert((y1 + 1) * w <= y2 * w) by (nonlinear_arith)
            requires
                y1 + 1 <= y2,
                0 <= w,
        ;
        lemma_raster_bounds(w, h, x1, y1);
        lemma_raster_bounds(w, h, x2, y2);
    } else if y2 < y1 {
        assert((y2 + 1) * w <= y1 * w) by (nonlinear_arith)
            requires
                y2 + 1 <= y1,
                0 <= w,
        ;
        lemma_raster_bounds(w, h, x1, y1);
        lemma_raster_bounds(w, h, x2, y2);
    }
}

/// Exec view of a direction: the neighbour of `(x, y)` in direction `d`, if inside the grid.
fn neighbor(x: usize, y: usize, d: usize, w: usize, h: usize) -> (r: Option<(usize, usize)>)
    requires
        x < w,
        y < h,
        d < 8,
    ensures
        r is Some <==> in_grid(w as int, h as int, x + dir_dx(d as int), y + dir_dy(d as int)),
        r matches Some((a, b)) ==> a == x + dir_dx(d as int) && b == y + dir_dy(d as int),
{
    let go_left = d == 0 || d == 1 || d == 7;
    let go_right = d == 3 || d == 4 || d == 5;
    let go_up = d == 1 || d == 2 || d == 3;
    let go_down = d == 5 || d == 6 || d == 7;
    if (go_left && x == 0) || (go_right && x + 1 >= w) || (go_up && y == 0) || (go_down && y + 1
        >= h) {
        return None;
    }
    let nx = if go_left {
        x - 1
    } else if go_right {
        x + 1
    } else {
        x
    };
    let ny = if go_up {
        y - 1
    } else if go_down {
        y + 1
    } else {
        y
    };
    Some((nx, ny))
}

/// Whether `(x, y)` is foreground, read from the mask.
fn fg_at(mask: &Vec<bool>, w: usize, h: usize, x: usize, y: usize) -> (b: bool)
    requires
        x < w,
        y < h,
        w * h <= mask@.len(),
    ensures
        b == is_fg(mask@, w as int, h as int, x as int, y as int),
{
    proof {
        lemma_raster_bounds(w as int, h as int, x as int, y as int);
        assert(mask@.len() == mask.len());
    }
    mask[y * w + x]
}

// ---------------------------------------------------------------------------------------------
// Counting and connectivity lemmas
// ---------------------------------------------------------------------------------------------

/// Number of `true` entries in `s`.
pub open spec fn count_true(s: Seq<bool>) -> nat
    decreases s.len(),
{
    if s.len() == 0 {
        0
    } else {
        count_true(s.drop_last()) + if s.last() {
            1nat
        } else {
            0nat
        }
    }
}

proof fn lemma_count_true_bound(s: Seq<bool>)
    ensures
        count_true(s) <= s.len(),
    decreases s.len(),
{
    if s.len() > 0 {
        lemma_count_true_bound(s.drop_last());
    }
}

proof fn lemma_count_true_set(s: Seq<bool>, i: int)
    requires
        0 <= i < s.len(),
        !s[i],
    ensures
        count_true(s.update(i, true)) == count_true(s) + 1,
    decreases s.len(),
{
    let t = s.update(i, true);
    if i == s.len() - 1 {
        assert(t.drop_last() =~= s.drop_last());
    } else {
        assert(t.drop_last() =~= s.drop_last().update(i, true));
        lemma_count_true_set(s.drop_last(), i);
    }
}

proof fn lemma_adjacent_dir(x1: int, y1: int, x2: int, y2: int)
    requires
        adjacent8(x1, y1, x2, y2),
    ensures
        exists|d: int| 0 <= d < 8 && x2 == x1 + dir_dx(d) && y2 == y1 + dir_dy(d),
{
    let ddx = x2 - x1;
    let ddy = y2 - y1;
    let d = if ddx == -1 && ddy == 0 {
        0
    } else if ddx == -1 && ddy == -1 {
        1
    } else if ddx == 0 && ddy == -1 {
        2
    } else if ddx == 1 && ddy == -1 {
        3
    } else if ddx == 1 && ddy == 0 {
        4
    } else if ddx == 1 && ddy == 1 {
        5
    } else if ddx == 0 && ddy == 1 {
        6
    } else {
        7
    };
    assert(x2 == x1 + dir_dx(d) && y2 == y1 + dir_dy(d));
}

/// In a closed visited set, everything connected to a visited pixel is visited.
proof fn lemma_closed_reaches(
    mask: Seq<bool>,
    visited: Seq<bool>,
    w: int,
    h: int,
    p: Seq<(int, int)>,
    k: int,
)
    requires
        visited_closed(mask, visited, w, h),
        is_fg_path(mask, w, h, p),
        visited[raster(w, p[0].0, p[0].1)],
        0 <= k < p.len(),
    ensures
        visited[raster(w, p[k].0, p[k].1)],
    decreases k,
{
    if k > 0 {
        lemma_closed_reaches(mask, visited, w, h, p, k - 1);
        let kk = k - 1;
        assert(adjacent8(p[kk].0, p[kk].1, p[kk + 1].0, p[kk + 1].1));
        assert(is_fg(mask, w, h, p[kk].0, p[kk].1));
        assert(is_fg(mask, w, h, p[k].0, p[k].1));
        lemma_adjacent_dir(p[kk].0, p[kk].1, p[k].0, p[k].1);
        let d = choose|d: int|
            0 <= d < 8 && p[k].0 == p[kk].0 + dir_dx(d) && p[k].1 == p[kk].1 + dir_dy(d);
        assert(closed_at(mask, visited, w, h, p[kk].0, p[kk].1));
        assert(is_fg(mask, w, h, p[kk].0 + dir_dx(d), p[kk].1 + dir_dy(d)));
    }
}

proof fn lemma_connected_sym(mask: Seq<bool>, w: int, h: int, a: (int, int), b: (int, int))
    requires
        connected8(mask, w, h, a, b),
    ensures
        connected8(mask, w, h, b, a),
{
    let p = choose|p: Seq<(int, int)>| is_fg_path(mask, w, h, p) && p[0] == a && #[trigger] p.last() == b;
    let q = p.reverse();
    assert forall|k: int| 0 <= k < q.len() implies is_fg(mask, w, h, #[trigger] q[k].0, q[k].1) by {
        assert(q[k] == p[p.len() - 1 - k]);
    }
    assert forall|k: int| 0 <= k < q.len() - 1 implies adjacent8(
        #[trigger] q[k].0,
        q[k].1,
        q[k + 1].0,
        q[k + 1].1,
    ) by {
        let kk = p.len() - 2 - k;
        assert(adjacent8(p[kk].0, p[kk].1, p[kk + 1].0, p[kk + 1].1));
        assert(q[k] == p[kk + 1]);
        assert(q[k + 1] == p[kk]);
    }
    assert(q[0] == b);
    assert(q.last() == a);
    assert(is_fg_path(mask, w, h, q));
}

proof fn lemma_connected_refl(mask: Seq<bool>, w: int, h: int, a: (int, int))
    requires
        is_fg(mask, w, h, a.0, a.1),
    ensures
        connected8(mask, w, h, a, a),
{
    let p = seq![a];
    assert(is_fg_path(mask, w, h, p));
    assert(p.last() == a);
}

proof fn lemma_connected_step(mask: Seq<bool>, w: int, h: int, a: (int, int), b: (int, int), c: (int, int))
    requires
        connected8(mask, w, h, a, b),
        is_fg(mask, w, h, c.0, c.1),
        adjacent8(b.0, b.1, c.0, c.1),
    ensures
        connected8(mask, w, h, a, c),
{
    let p = choose|p: Seq<(int, int)>| is_fg_path(mask, w, h, p) && p[0] == a && #[trigger] p.last() == b;
    let q = p.push(c);
    assert forall|k: int| 0 <= k < q.len() implies is_fg(mask, w, h, #[trigger] q[k].0, q[k].1) by {
        if k < p.len() {
            assert(q[k] == p[k]);
        }
    }
    assert forall|k: int| 0 <= k < q.len() - 1 implies adjacent8(
        #[trigger] q[k].0,
        q[k].1,
        q[k + 1].0,
        q[k + 1].1,
    ) by {
        if k < p.len() - 1 {
            assert(q[k] == p[k] && q[k + 1] == p[k + 1]);
        } else {
            assert(q[k] == b && q[k + 1] == c);
        }
    }
    assert(q[0] == a);
    assert(q.last() == c);
    assert(is_fg_path(mask, w, h, q));
}

/// Counting the `true` entries of a pointwise union of two disjoint masks.
proof fn lemma_count_true_or(a: Seq<bool>, b: Seq<bool>, c: Seq<bool>)
    requires
        a.len() == c.len(),
        b.len() == c.len(),
        forall|i: int| 0 <= i < c.len() ==> #[trigger] c[i] == (a[i] || b[i]),
        forall|i: int| 0 <= i < c.len() ==> !(#[trigger] a[i] && b[i]),
    ensures
        count_true(c) == count_true(a) + count_true(b),
    decreases c.len(),
{
    if c.len() > 0 {
        let (a2, b2, c2) = (a.drop_last(), b.drop_last(), c.drop_last());
        assert forall|i: int| 0 <= i < c2.len() implies #[trigger] c2[i] == (a2[i] || b2[i]) by {
            assert(c2[i] == c[i] && a2[i] == a[i] && b2[i] == b[i]);
        }
        assert forall|i: int| 0 <= i < c2.len() implies !(#[trigger] a2[i] && b2[i]) by {
            assert(a2[i] == a[i] && b2[i] == b[i]);
        }
        lemma_count_true_or(a2, b2, c2);
        assert(c.last() == c[c.len() - 1]);
        assert(!(a[c.len() - 1] && b[c.len() - 1]));
    }
}

/// The pixel at raster index `i` of a `w` by `h` grid.
proof fn lemma_pixel_of_index(w: int, h: int, i: int)
    requires
        0 <= i < w * h,
        0 <= w,
        0 <= h,
    ensures
        w > 0,
        in_grid(w, h, i % w, i / w),
        raster(w, i % w, i / w) == i,
{
    if w == 0 {
        assert(w * h == 0);
    }
    vstd::arithmetic::div_mod::lemma_fundamental_div_mod(i, w);
    vstd::arithmetic::div_mod::lemma_mod_pos_bound(i, w);
    vstd::arithmetic::div_mod::lemma_div_pos_is_pos(i, w);
    assert(i / w < h) by (nonlinear_arith)
        requires
            w > 0,
            0 <= i < w * h,
            i == w * (i / w) + i % w,
            0 <= i % w,
    ;
    assert(raster(w, i % w, i / w) == (i / w) * w + i % w);
    assert((i / w) * w == w * (i / w)) by (nonlinear_arith);
}

/// The pixels of the 8-connected component of `s`, by raster index.
pub open spec fn component_mask(mask: Seq<bool>, w: int, h: int, s: (int, int)) -> Seq<bool> {
    Seq::new((w * h) as nat, |i: int| connected8(mask, w, h, s, (i % w, i / w)))
}

/// Number of pixels of the 8-connected component of `s`.
pub open spec fn component_size(mask: Seq<bool>, w: int, h: int, s: (int, int)) -> nat {
    count_true(component_mask(mask, w, h, s))
}

// ---------------------------------------------------------------------------------------------
// Flood fill and Moore tracing
// ---------------------------------------------------------------------------------------------

/// Some stack entry is `(x, y)`.
pub open spec fn on_stack(stack: Seq<(usize, usize)>, x: int, y: int) -> bool {
    exists|k: int| 0 <= k < stack.len() && #[trigger] stack[k] == (x as usize, y as usize)
}

/// Flood-fill the 8-connected component of the unvisited foreground pixel `(sx, sy)` into
/// `visited`. Returns the number of pixels newly marked.
fn flood_fill(
    mask: &Vec<bool>,
    visited: &mut Vec<bool>,
    w: usize,
    h: usize,
    sx: usize,
    sy: usize,
) -> (count: usize)
    requires
        w * h <= mask@.len(),
        visited_closed(mask@, old(visited)@, w as int, h as int),
        in_grid(w as int, h as int, sx as int, sy as int),
        mask@[raster(w as int, sx as int, sy as int)],
        !old(visited)@[raster(w as int, sx as int, sy as int)],
    ensures
        visited_closed(mask@, final(visited)@, w as int, h as int),
        final(visited)@[raster(w as int, sx as int, sy as int)],
        forall|i: int| 0 <= i < w * h && old(visited)@[i] ==> #[trigger] final(visited)@[i],
        forall|i: int|
            0 <= i < w * h ==> #[trigger] final(visited)@[i] == (old(visited)@[i] || connected8(
                mask@,
                w as int,
                h as int,
                (sx as int, sy as int),
                (i % (w as int), i / (w as int)),
            )),
        count == component_size(mask@, w as int, h as int, (sx as int, sy as int)),
        count >= 1,
{
    let ghost wi = w as int;
    let ghost hi = h as int;
    proof {
        lemma_raster_bounds(wi, hi, sx as int, sy as int);
        assert(mask@.len() == mask.len());
    }
    let ghost start = visited@;
    visited.set(sy * w + sx, true);
    proof {
        assert(visited@ == start.update(raster(wi, sx as int, sy as int), true));
        lemma_count_true_set(start, raster(wi, sx as int, sy as int));
    }
    let mut stack: Vec<(usize, usize)> = Vec::new();
    stack.push((sx, sy));
    let mut count: usize = 1;
    proof {
        assert(stack@[0] == (sx, sy));
        assert forall|x: int, y: int|
            in_grid(wi, hi, x, y) && #[trigger] visited@[raster(wi, x, y)] implies mask@[raster(
                wi,
                x,
                y,
            )] by {
            lemma_raster_order(wi, hi, x, y, sx as int, sy as int);
            lemma_raster_bounds(wi, hi, x, y);
        }
        assert forall|x: int, y: int|
            in_grid(wi, hi, x, y) && #[trigger] visited@[raster(wi, x, y)] implies closed_at(
            mask@,
            visited@,
            wi,
            hi,
            x,
            y,
        ) || on_stack(stack@, x, y) by {
            lemma_raster_order(wi, hi, x, y, sx as int, sy as int);
            lemma_raster_bounds(wi, hi, x, y);
            if x == sx && y == sy {
                assert(stack@[0] == (x as usize, y as usize));
            } else {
                assert(start[raster(wi, x, y)]);
                assert(closed_at(mask@, start, wi, hi, x, y));
                assert forall|d: int|
                    0 <= d < 8 && #[trigger] is_fg(mask@, wi, hi, x + dir_dx(d), y + dir_dy(d))
                        implies visited@[raster(wi, x + dir_dx(d), y + dir_dy(d))] by {
                    lemma_raster_bounds(wi, hi, x + dir_dx(d), y + dir_dy(d));
                }
            }
        }
        lemma_count_true_bound(visited@);
        lemma_connected_refl(mask@, wi, hi, (sx as int, sy as int));
        assert forall|x: int, y: int|
            in_grid(wi, hi, x, y) && #[trigger] visited@[raster(wi, x, y)] && !start[raster(
                wi,
                x,
                y,
            )] implies connected8(mask@, wi, hi, (sx as int, sy as int), (x, y)) by {
            lemma_raster_order(wi, hi, x, y, sx as int, sy as int);
            lemma_raster_bounds(wi, hi, x, y);
        }
    }
    while stack.len() > 0
        invariant
            w * h <= mask@.len(),
            wi == w,
            hi == h,
            visited@.len() == w * h,
            count >= 1,
            in_grid(wi, hi, sx as int, sy as int),
            count + count_true(start) == count_true(visited@),
            count_true(visited@) <= w * h,
            visited@[raster(wi, sx as int, sy as int)],
            forall|i: int| 0 <= i < w * h && start[i] ==> #[trigger] visited@[i],
            forall|k: int|
                0 <= k < stack@.len() ==> in_grid(wi, hi, #[trigger] stack@[k].0 as int, stack@[k].1 as int)
                    && visited@[raster(wi, stack@[k].0 as int, stack@[k].1 as int)],
            forall|k: int|
                0 <= k < stack@.len() ==> connected8(
                    mask@,
                    wi,
                    hi,
                    (sx as int, sy as int),
                    (#[trigger] stack@[k].0 as int, stack@[k].1 as int),
                ),
            forall|x: int, y: int|
                in_grid(wi, hi, x, y) && #[trigger] visited@[raster(wi, x, y)] && !start[raster(
                    wi,
                    x,
                    y,
                )] ==> connected8(mask@, wi, hi, (sx as int, sy as int), (x, y)),
            forall|x: int, y: int|
                in_grid(wi, hi, x, y) && #[trigger] visited@[raster(wi, x, y)] ==> mask@[raster(
                    wi,
                    x,
                    y,
                )],
            forall|x: int, y: int|
                in_grid(wi, hi, x, y) && #[trigger] visited@[raster(wi, x, y)] ==> closed_at(
                    mask@,
                    visited@,
                    wi,
                    hi,
                    x,
                    y,
                ) || on_stack(stack@, x, y),
        decreases 2 * (w * h - count_true(visited@)) + stack@.len(),
    {
        let ghost before_pop = stack@;
        let (cx, cy) = stack.pop().unwrap();
        proof {
            assert(before_pop[before_pop.len() - 1] == (cx, cy));
            assert(stack@ =~= before_pop.drop_last());
            assert(connected8(
                mask@,
                wi,
                hi,
                (sx as int, sy as int),
                (before_pop[before_pop.len() - 1].0 as int, before_pop[before_pop.len() - 1].1 as int),
            ));
        }
        let ghost popped = stack@;
        proof {
            assert forall|x: int, y: int|
                in_grid(wi, hi, x, y) && #[trigger] visited@[raster(wi, x, y)] && !(x == cx && y
                    == cy) implies closed_at(mask@, visited@, wi, hi, x, y) || on_stack(popped, x, y)
                || on_stack(stack@, x, y) by {
                if !closed_at(mask@, visited@, wi, hi, x, y) {
                    assert(on_stack(before_pop, x, y));
                    let k = choose|k: int|
                        0 <= k < before_pop.len() && #[trigger] before_pop[k] == (x as usize, y as usize);
                    assert(k != before_pop.len() - 1);
                    assert(popped[k] == before_pop[k]);
                }
            }
        }
        let ghost measure0 = 2 * (w * h - count_true(visited@)) + popped.len();
        let mut d: usize = 0;
        while d < 8
            invariant
                w * h <= mask@.len(),
                wi == w,
                hi == h,
                d <= 8,
                in_grid(wi, hi, cx as int, cy as int),
                visited@[raster(wi, cx as int, cy as int)],
                visited@.len() == w * h,
                count >= 1,
                in_grid(wi, hi, sx as int, sy as int),
                count + count_true(start) == count_true(visited@),
                count_true(visited@) <= w * h,
                visited@[raster(wi, sx as int, sy as int)],
                forall|i: int| 0 <= i < w * h && start[i] ==> #[trigger] visited@[i],
                connected8(mask@, wi, hi, (sx as int, sy as int), (cx as int, cy as int)),
                forall|k: int|
                    0 <= k < stack@.len() ==> connected8(
                        mask@,
                        wi,
                        hi,
                        (sx as int, sy as int),
                        (#[trigger] stack@[k].0 as int, stack@[k].1 as int),
                    ),
                forall|x: int, y: int|
                    in_grid(wi, hi, x, y) && #[trigger] visited@[raster(wi, x, y)] && !start[raster(
                        wi,
                        x,
                        y,
                    )] ==> connected8(mask@, wi, hi, (sx as int, sy as int), (x, y)),
                stack@.len() >= popped.len(),
                forall|k: int| 0 <= k < popped.len() ==> #[trigger] stack@[k] == popped[k],
                forall|k: int|
                    0 <= k < stack@.len() ==> in_grid(wi, hi, #[trigger] stack@[k].0 as int, stack@[k].1 as int)
                        && visited@[raster(wi, stack@[k].0 as int, stack@[k].1 as int)],
                forall|x: int, y: int|
                    in_grid(wi, hi, x, y) && #[trigger] visited@[raster(wi, x, y)] ==> mask@[raster(
                        wi,
                        x,
                        y,
                    )],
                forall|x: int, y: int|
                    in_grid(wi, hi, x, y) && #[trigger] visited@[raster(wi, x, y)] && !(x == cx
                        && y == cy) ==> closed_at(mask@, visited@, wi, hi, x, y) || on_stack(
                        popped,
                        x,
                        y,
                    ) || on_stack(stack@, x, y),
                forall|e: int|
                    0 <= e < d && #[trigger] is_fg(
                        mask@,
                        wi,
                        hi,
                        cx + dir_dx(e),
                        cy + dir_dy(e),
                    ) ==> visited@[raster(wi, cx + dir_dx(e), cy + dir_dy(e))],
                2 * (w * h - count_true(visited@)) + stack@.len() <= measure0,
            decreases 8 - d,
        {
            match neighbor(cx, cy, d, w, h) {
                Some((nx, ny)) => {
                    proof {
                        lemma_raster_bounds(wi, hi, nx as int, ny as int);
                        assert(mask@.len() == mask.len());
                    }
                    let idx = ny * w + nx;
                    if mask[idx] && !visited[idx] {
                        let ghost vb = visited@;
                        visited.set(idx, true);
                        proof {
                            assert(visited@ == vb.update(raster(wi, nx as int, ny as int), true));
                            lemma_raster_bounds(wi, hi, cx as int, cy as int);
                            lemma_raster_bounds(wi, hi, sx as int, sy as int);
                            lemma_count_true_set(vb, idx as int);
                            lemma_count_true_bound(visited@);
                        }
                        let ghost sb = stack@;
                        stack.push((nx, ny));
                        count = count + 1;
                        proof {
                            assert(stack@[sb.len() as int] == (nx, ny));
                            assert(adjacent8(cx as int, cy as int, nx as int, ny as int));
                            lemma_connected_step(
                                mask@,
                                wi,
                                hi,
                                (sx as int, sy as int),
                                (cx as int, cy as int),
                                (nx as int, ny as int),
                            );
                            assert forall|k: int| 0 <= k < stack@.len() implies connected8(
                                mask@,
                                wi,
                                hi,
                                (sx as int, sy as int),
                                (#[trigger] stack@[k].0 as int, stack@[k].1 as int),
                            ) by {
                                if k < sb.len() {
                                    assert(stack@[k] == sb[k]);
                                }
                            }
                            assert forall|x: int, y: int|
                                in_grid(wi, hi, x, y) && #[trigger] visited@[raster(wi, x, y)]
                                    && !start[raster(wi, x, y)] implies connected8(
                                mask@,
                                wi,
                                hi,
                                (sx as int, sy as int),
                                (x, y),
                            ) by {
                                lemma_raster_order(wi, hi, x, y, nx as int, ny as int);
                                lemma_raster_bounds(wi, hi, x, y);
                            }
                            assert forall|k: int| 0 <= k < stack@.len() implies in_grid(
                                wi,
                                hi,
                                #[trigger] stack@[k].0 as int,
                                stack@[k].1 as int,
                            ) && visited@[raster(wi, stack@[k].0 as int, stack@[k].1 as int)] by {
                                if k < sb.len() {
                                    assert(stack@[k] == sb[k]);
                                    lemma_raster_bounds(wi, hi, sb[k].0 as int, sb[k].1 as int);
                                }
                            }
                            assert forall|x: int, y: int|
                                in_grid(wi, hi, x, y) && #[trigger] visited@[raster(wi, x, y)]
                                    implies mask@[raster(wi, x, y)] by {
                                lemma_raster_order(wi, hi, x, y, nx as int, ny as int);
                                lemma_raster_bounds(wi, hi, x, y);
                            }
                            assert forall|x: int, y: int|
                                in_grid(wi, hi, x, y) && #[trigger] visited@[raster(wi, x, y)]
                                    && !(x == cx && y == cy) implies closed_at(
                                mask@,
                                visited@,
                                wi,
                                hi,
                                x,
                                y,
                            ) || on_stack(popped, x, y) || on_stack(stack@, x, y) by {
                                lemma_raster_order(wi, hi, x, y, nx as int, ny as int);
                                lemma_raster_bounds(wi, hi, x, y);
                                if x == nx && y == ny {
                                    assert(stack@[sb.len() as int] == (x as usize, y as usize));
                                } else {
                                    assert(vb[raster(wi, x, y)]);
                                    if closed_at(mask@, vb, wi, hi, x, y) {
                                        assert forall|e: int|
                                            0 <= e < 8 && #[trigger] is_fg(
                                                mask@,
                                                wi,
                                                hi,
                                                x + dir_dx(e),
                                                y + dir_dy(e),
                                            ) implies visited@[raster(
                                            wi,
                                            x + dir_dx(e),
                                            y + dir_dy(e),
                                        )] by {
                                            lemma_raster_bounds(wi, hi, x + dir_dx(e), y + dir_dy(e));
                                        }
                                    } else if on_stack(sb, x, y) {
                                        let k = choose|k: int|
                                            0 <= k < sb.len() && #[trigger] sb[k] == (
                                                x as usize,
                                                y as usize,
                                            );
                                        assert(stack@[k] == sb[k]);
                                    }
                                }
                            }
                            assert forall|e: int|
                                0 <= e < d + 1 && #[trigger] is_fg(
                                    mask@,
                                    wi,
                                    hi,
                                    cx + dir_dx(e),
                                    cy + dir_dy(e),
                                ) implies visited@[raster(wi, cx + dir_dx(e), cy + dir_dy(e))] by {
                                lemma_raster_bounds(wi, hi, cx + dir_dx(e), cy + dir_dy(e));
                            }
                        }
                    }
                },
                None => {},
            }
            d = d + 1;
        }
        proof {
            assert forall|x: int, y: int|
                in_grid(wi, hi, x, y) && #[trigger] visited@[raster(wi, x, y)] implies closed_at(
                mask@,
                visited@,
                wi,
                hi,
                x,
                y,
            ) || on_stack(stack@, x, y) by {
                if x == cx && y == cy {
                    assert forall|e: int|
                        0 <= e < 8 && #[trigger] is_fg(mask@, wi, hi, x + dir_dx(e), y + dir_dy(e))
                            implies visited@[raster(wi, x + dir_dx(e), y + dir_dy(e))] by {}
                } else if on_stack(popped, x, y) {
                    let k = choose|k: int| 0 <= k < popped.len() && #[trigger] popped[k] == (x as usize, y as usize);
                    assert(stack@[k] == popped[k]);
                }
            }
        }
    }
    proof {
        assert forall|x: int, y: int|
            in_grid(wi, hi, x, y) && #[trigger] visited@[raster(wi, x, y)] implies closed_at(
            mask@,
            visited@,
            wi,
            hi,
            x,
            y,
        ) by {
            assert(!on_stack(stack@, x, y));
        }
        let s = (sx as int, sy as int);
        let comp = component_mask(mask@, wi, hi, s);
        assert forall|i: int| 0 <= i < w * h implies #[trigger] visited@[i] == (start[i]
            || connected8(mask@, wi, hi, s, (i % wi, i / wi))) by {
            lemma_pixel_of_index(wi, hi, i);
            let q = (i % wi, i / wi);
            if connected8(mask@, wi, hi, s, q) {
                let p = choose|p: Seq<(int, int)>|
                    is_fg_path(mask@, wi, hi, p) && p[0] == s && #[trigger] p.last() == q;
                lemma_closed_reaches(mask@, visited@, wi, hi, p, p.len() - 1);
            }
        }
        assert forall|i: int| 0 <= i < visited@.len() implies #[trigger] visited@[i] == (start[i]
            || comp[i]) by {}
        assert forall|i: int| 0 <= i < visited@.len() implies !(#[trigger] start[i] && comp[i]) by {
            if start[i] && comp[i] {
                lemma_pixel_of_index(wi, hi, i);
                let q = (i % wi, i / wi);
                lemma_connected_sym(mask@, wi, hi, s, q);
                let p = choose|p: Seq<(int, int)>|
                    is_fg_path(mask@, wi, hi, p) && p[0] == q && #[trigger] p.last() == s;
                lemma_closed_reaches(mask@, start, wi, hi, p, p.len() - 1);
            }
        }
        lemma_count_true_or(start, comp, visited@);
    }
    count
}

/// The backtrack direction after a step in direction `dir`: the cell examined just before the
/// pixel stepped to, seen from that pixel.
pub open spec fn back_dir(dir: int) -> int {
    if dir % 2 == 0 {
        (dir + 6) % 8
    } else {
        (dir + 5) % 8
    }
}

/// The first direction toward a foreground neighbour of `(x, y)`, scanning clockwise from
/// direction `d + k` through `d + 8` (taken modulo 8).
pub open spec fn first_fg_dir(mask: Seq<bool>, w: int, h: int, x: int, y: int, d: int, k: int) -> Option<
    int,
>
    decreases 9 - k,
{
    if k < 1 || k > 8 {
        None
    } else if is_fg(mask, w, h, x + dir_dx((d + k) % 8), y + dir_dy((d + k) % 8)) {
        Some((d + k) % 8)
    } else {
        first_fg_dir(mask, w, h, x, y, d, k + 1)
    }
}

/// Moore-neighbour tracing from pixel `p` with backtrack direction `d`, having visited `pts`,
/// for at most `fuel` more steps: scan the neighbours clockwise from the backtrack for the next
/// foreground pixel and step there, recording it, unless the step enters the start `s` from the
/// west (Jacob's criterion), or the walk is back at the start about to repeat its first step
/// (the repeated start is then dropped). Stops when the pixel has no foreground neighbour.
pub open spec fn trace_from(
    mask: Seq<bool>,
    w: int,
    h: int,
    s: (int, int),
    p: (int, int),
    d: int,
    pts: Seq<(u32, u32)>,
    fuel: nat,
) -> Seq<(u32, u32)>
    decreases fuel,
{
    if fuel == 0 {
        pts
    } else {
        match first_fg_dir(mask, w, h, p.0, p.1, d, 1) {
            None => pts,
            Some(dir) => {
                let n = (p.0 + dir_dx(dir), p.1 + dir_dy(dir));
                if p == s && pts.len() >= 2 && n.0 == pts[1].0 && n.1 == pts[1].1 {
                    pts.drop_last()
                } else if n == s && back_dir(dir) == 0 {
                    pts
                } else {
                    trace_from(
                        mask,
                        w,
                        h,
                        s,
                        n,
                        back_dir(dir),
                        pts.push((n.0 as u32, n.1 as u32)),
                        (fuel - 1) as nat,
                    )
                }
            },
        }
    }
}

/// The Moore-neighbour trace of the outer boundary from the start pixel `s`, entered from the
/// west, for at most `cap` steps.
pub open spec fn moore_trace(mask: Seq<bool>, w: int, h: int, s: (int, int), cap: nat) -> Seq<
    (u32, u32),
> {
    trace_from(mask, w, h, s, s, 0, seq![(s.0 as u32, s.1 as u32)], cap)
}

/// The scan for a foreground neighbour only ever answers with a direction toward one.
proof fn lemma_first_fg_sound(mask: Seq<bool>, w: int, h: int, x: int, y: int, d: int, k: int)
    requires
        0 <= d < 8,
    ensures
        first_fg_dir(mask, w, h, x, y, d, k) matches Some(e) ==> 0 <= e < 8 && is_fg(
            mask,
            w,
            h,
            x + dir_dx(e),
            y + dir_dy(e),
        ),
    decreases 9 - k,
{
    if 1 <= k <= 8 && !is_fg(mask, w, h, x + dir_dx((d + k) % 8), y + dir_dy((d + k) % 8)) {
        lemma_first_fg_sound(mask, w, h, x, y, d, k + 1);
    }
}

/// The scan for a foreground neighbour, from `d + k` on, finds one whenever direction `d + j`,
/// at or after that start, holds one.
proof fn lemma_first_fg_finds(mask: Seq<bool>, w: int, h: int, x: int, y: int, d: int, k: int, j: int)
    requires
        1 <= k <= j <= 8,
        is_fg(mask, w, h, x + dir_dx((d + j) % 8), y + dir_dy((d + j) % 8)),
    ensures
        first_fg_dir(mask, w, h, x, y, d, k) is Some,
    decreases j - k,
{
    if !is_fg(mask, w, h, x + dir_dx((d + k) % 8), y + dir_dy((d + k) % 8)) {
        lemma_first_fg_finds(mask, w, h, x, y, d, k + 1, j);
    }
}

/// A pixel with a foreground neighbour is never a dead end of the scan.
proof fn lemma_neighbour_found(mask: Seq<bool>, w: int, h: int, p: (int, int), q: (int, int), d: int)
    requires
        0 <= d < 8,
        adjacent8(p.0, p.1, q.0, q.1),
        is_fg(mask, w, h, q.0, q.1),
    ensures
        first_fg_dir(mask, w, h, p.0, p.1, d, 1) is Some,
{
    lemma_adjacent_dir(p.0, p.1, q.0, q.1);
    let e = choose|e: int| 0 <= e < 8 && q.0 == p.0 + dir_dx(e) && q.1 == p.1 + dir_dy(e);
    let j = if e > d {
        e - d
    } else {
        e - d + 8
    };
    assert((d + j) % 8 == e);
    lemma_first_fg_finds(mask, w, h, p.0, p.1, d, 1, j);
}

/// A trace that stops before its step limit runs out ends next to where it began: it stops
/// on stepping back into the start, or back at the start (dropping the repeat), and a pixel
/// reached by a step always has a foreground neighbour to go on to.
proof fn lemma_trace_closes(
    mask: Seq<bool>,
    w: int,
    h: int,
    s: (int, int),
    p: (int, int),
    d: int,
    pts: Seq<(u32, u32)>,
    fuel: nat,
)
    requires
        0 <= d < 8,
        w <= u32::MAX,
        h <= u32::MAX,
        in_grid(w, h, s.0, s.1),
        in_grid(w, h, p.0, p.1),
        pts.len() >= 1,
        pts[0] == (s.0 as u32, s.1 as u32),
        pts[pts.len() - 1] == (p.0 as u32, p.1 as u32),
        forall|k: int| 0 <= k < pts.len() ==> is_fg(mask, w, h, #[trigger] pts[k].0 as int, pts[k].1 as int),
        forall|k: int|
            0 <= k < pts.len() - 1 ==> adjacent8(
                #[trigger] pts[k].0 as int,
                pts[k].1 as int,
                pts[k + 1].0 as int,
                pts[k + 1].1 as int,
            ),
    ensures
        trace_from(mask, w, h, s, p, d, pts, fuel).len() <= pts.len() + fuel,
        ({
            let r = trace_from(mask, w, h, s, p, d, pts, fuel);
            r.len() >= 2 && r.len() < pts.len() + fuel ==> r[0] == pts[0] && adjacent8(
                r[r.len() - 1].0 as int,
                r[r.len() - 1].1 as int,
                r[0].0 as int,
                r[0].1 as int,
            )
        }),
    decreases fuel,
{
    let last = pts.len() - 1;
    if fuel > 0 {
        lemma_first_fg_sound(mask, w, h, p.0, p.1, d, 1);
        match first_fg_dir(mask, w, h, p.0, p.1, d, 1) {
            None => {
                if pts.len() >= 2 {
                    let q = (pts[last - 1].0 as int, pts[last - 1].1 as int);
                    assert(adjacent8(q.0, q.1, pts[last].0 as int, pts[last].1 as int));
                    assert(is_fg(mask, w, h, q.0, q.1));
                    lemma_neighbour_found(mask, w, h, p, q, d);
                }
            },
            Some(dir) => {
                let n = (p.0 + dir_dx(dir), p.1 + dir_dy(dir));
                if p == s && pts.len() >= 2 && n.0 == pts[1].0 && n.1 == pts[1].1 {
                    let r = pts.drop_last();
                    assert(adjacent8(
                        pts[last - 1].0 as int,
                        pts[last - 1].1 as int,
                        pts[last].0 as int,
                        pts[last].1 as int,
                    ));
                    assert(r[r.len() - 1] == pts[last - 1]);
                } else if n == s && back_dir(dir) == 0 {
                } else {
                    let next = pts.push((n.0 as u32, n.1 as u32));
                    assert forall|k: int| 0 <= k < next.len() implies is_fg(
                        mask,
                        w,
                        h,
                        #[trigger] next[k].0 as int,
                        next[k].1 as int,
                    ) by {
                        if k < pts.len() {
                            assert(next[k] == pts[k]);
                        }
                    }
                    assert forall|k: int| 0 <= k < next.len() - 1 implies adjacent8(
                        #[trigger] next[k].0 as int,
                        next[k].1 as int,
                        next[k + 1].0 as int,
                        next[k + 1].1 as int,
                    ) by {
                        if k < last {
                            assert(next[k] == pts[k] && next[k + 1] == pts[k + 1]);
                        } else {
                            assert(next[k] == pts[last]);
                        }
                    }
                    lemma_trace_closes(mask, w, h, s, n, back_dir(dir), next, (fuel - 1) as nat);
                }
            },
        }
    }
}

/// The contour of a component closes into a ring: unless the trace used up its whole step
/// limit, its last vertex touches its first, which is the component's first pixel.
pub proof fn lemma_contour_closes(mask: Seq<bool>, w: int, h: int, s: (int, int))
    requires
        w <= u32::MAX,
        h <= u32::MAX,
        is_fg(mask, w, h, s.0, s.1),
    ensures
        ({
            let c = component_contour(mask, w, h, s);
            c.len() >= 2 && c.len() <= trace_cap(mask, w, h, s) ==> c[0] == (s.0 as u32, s.1 as u32)
                && adjacent8(
                c[c.len() - 1].0 as int,
                c[c.len() - 1].1 as int,
                c[0].0 as int,
                c[0].1 as int,
            )
        }),
{
    let pts = seq![(s.0 as u32, s.1 as u32)];
    lemma_trace_closes(mask, w, h, s, s, 0, pts, trace_cap(mask, w, h, s));
}

/// One step of the Moore walk from pixel `p` with backtrack direction `d`: to the first
/// foreground neighbour clockwise from the backtrack, with the cell examined just before it as
/// the new backtrack; a pixel with no foreground neighbour stays where it is.
pub open spec fn moore_step(mask: Seq<bool>, w: int, h: int, p: (int, int), d: int) -> (
    (int, int),
    int,
) {
    match first_fg_dir(mask, w, h, p.0, p.1, d, 1) {
        Some(dir) => ((p.0 + dir_dx(dir), p.1 + dir_dy(dir)), back_dir(dir)),
        None => (p, d),
    }
}

/// The pixel and backtrack of the Moore walk round the boundary from `s`, entered from the
/// west, after `i` steps.
pub open spec fn walk_state(mask: Seq<bool>, w: int, h: int, s: (int, int), i: nat) -> (
    (int, int),
    int,
)
    decreases i,
{
    if i == 0 {
        (s, 0)
    } else {
        let st = walk_state(mask, w, h, s, (i - 1) as nat);
        moore_step(mask, w, h, st.0, st.1)
    }
}

/// The pixel of a walk state, as a vertex.
pub open spec fn vertex_of(st: ((int, int), int)) -> (u32, u32) {
    (st.0.0 as u32, st.0.1 as u32)
}

/// Two directions with the same offset are the same direction.
proof fn lemma_dir_unique(a: int, b: int)
    requires
        0 <= a < 8,
        0 <= b < 8,
        dir_dx(a) == dir_dx(b),
        dir_dy(a) == dir_dy(b),
    ensures
        a == b,
{
}

/// A trace that stops before its step limit lists the first states of the boundary walk, up
/// to the point where the walk starts over: by then it is back at the start, and its next
/// state is the walk's first state after the start.
proof fn lemma_trace_walks(
    mask: Seq<bool>,
    w: int,
    h: int,
    s: (int, int),
    p: (int, int),
    d: int,
    pts: Seq<(u32, u32)>,
    fuel: nat,
)
    requires
        0 <= d < 8,
        w <= u32::MAX,
        h <= u32::MAX,
        in_grid(w, h, s.0, s.1),
        in_grid(w, h, p.0, p.1),
        pts.len() >= 1,
        walk_state(mask, w, h, s, (pts.len() - 1) as nat) == (p, d),
        forall|j: int| 0 <= j < pts.len() ==> #[trigger] pts[j] == vertex_of(
            walk_state(mask, w, h, s, j as nat),
        ),
        forall|k: int| 0 <= k < pts.len() ==> is_fg(mask, w, h, #[trigger] pts[k].0 as int, pts[k].1 as int),
        forall|k: int|
            0 <= k < pts.len() - 1 ==> adjacent8(
                #[trigger] pts[k].0 as int,
                pts[k].1 as int,
                pts[k + 1].0 as int,
                pts[k + 1].1 as int,
            ),
    ensures
        ({
            let r = trace_from(mask, w, h, s, p, d, pts, fuel);
            r.len() < pts.len() + fuel ==> {
                &&& r.len() >= 1
                &&& forall|j: int| 0 <= j < r.len() ==> #[trigger] r[j] == vertex_of(
                    walk_state(mask, w, h, s, j as nat),
                )
                &&& walk_state(mask, w, h, s, r.len()).0 == s
                &&& walk_state(mask, w, h, s, r.len() + 1) == walk_state(mask, w, h, s, 1)
            }
        }),
    decreases fuel,
{
    let k = pts.len() - 1;
    if fuel > 0 {
        lemma_first_fg_sound(mask, w, h, p.0, p.1, d, 1);
        let st0 = walk_state(mask, w, h, s, 0);
        assert(walk_state(mask, w, h, s, 1) == moore_step(mask, w, h, st0.0, st0.1));
        assert(walk_state(mask, w, h, s, (k + 1) as nat) == moore_step(mask, w, h, p, d));
        match first_fg_dir(mask, w, h, p.0, p.1, d, 1) {
            None => {
                if pts.len() >= 2 {
                    let q = (pts[k - 1].0 as int, pts[k - 1].1 as int);
                    assert(adjacent8(q.0, q.1, pts[k].0 as int, pts[k].1 as int));
                    assert(is_fg(mask, w, h, q.0, q.1));
                    lemma_neighbour_found(mask, w, h, p, q, d);
                } else {
                    assert(walk_state(mask, w, h, s, 2) == moore_step(
                        mask,
                        w,
                        h,
                        walk_state(mask, w, h, s, 1).0,
                        walk_state(mask, w, h, s, 1).1,
                    ));
                }
            },
            Some(dir) => {
                let n = (p.0 + dir_dx(dir), p.1 + dir_dy(dir));
                if p == s && pts.len() >= 2 && n.0 == pts[1].0 && n.1 == pts[1].1 {
                    // Back at the start, about to repeat the walk's first step.
                    lemma_first_fg_sound(mask, w, h, s.0, s.1, 0, 1);
                    assert(pts[1] == vertex_of(walk_state(mask, w, h, s, 1)));
                    match first_fg_dir(mask, w, h, s.0, s.1, 0, 1) {
                        Some(dir1) => {
                            let n1 = (s.0 + dir_dx(dir1), s.1 + dir_dy(dir1));
                            assert(n1.0 == n.0 && n1.1 == n.1);
                            lemma_dir_unique(dir, dir1);
                        },
                        None => {
                            assert(n.0 as u32 == s.0 as u32 && n.1 as u32 == s.1 as u32);
                        },
                    }
                    let r = pts.drop_last();
                    assert forall|j: int| 0 <= j < r.len() implies #[trigger] r[j] == vertex_of(
                        walk_state(mask, w, h, s, j as nat),
                    ) by {
                        assert(r[j] == pts[j]);
                    }
                } else if n == s && back_dir(dir) == 0 {
                    // Stepping back into the start from the west: the walk starts over.
                    assert(walk_state(mask, w, h, s, (k + 2) as nat) == moore_step(
                        mask,
                        w,
                        h,
                        walk_state(mask, w, h, s, (k + 1) as nat).0,
                        walk_state(mask, w, h, s, (k + 1) as nat).1,
                    ));
                } else {
                    let next = pts.push((n.0 as u32, n.1 as u32));
                    assert forall|j: int| 0 <= j < next.len() implies #[trigger] next[j]
                        == vertex_of(walk_state(mask, w, h, s, j as nat)) by {
                        if j < pts.len() {
                            assert(next[j] == pts[j]);
                        }
                    }
                    assert forall|j: int| 0 <= j < next.len() implies is_fg(
                        mask,
                        w,
                        h,
                        #[trigger] next[j].0 as int,
                        next[j].1 as int,
                    ) by {
                        if j < pts.len() {
                            assert(next[j] == pts[j]);
                        }
                    }
                    assert forall|j: int| 0 <= j < next.len() - 1 implies adjacent8(
                        #[trigger] next[j].0 as int,
                        next[j].1 as int,
                        next[j + 1].0 as int,
                        next[j + 1].1 as int,
                    ) by {
                        if j < k {
                            assert(next[j] == pts[j] && next[j + 1] == pts[j + 1]);
                        } else {
                            assert(next[j] == pts[k]);
                        }
                    }
                    lemma_trace_walks(mask, w, h, s, n, back_dir(dir), next, (fuel - 1) as nat);
                }
            },
        }
    }
}

/// Once the walk's state after `m + 1` steps is its state after one step, it repeats with
/// period `m` from then on.
proof fn lemma_walk_periodic(mask: Seq<bool>, w: int, h: int, s: (int, int), m: nat, i: nat)
    requires
        m >= 1,
        i >= 1,
        walk_state(mask, w, h, s, m + 1) == walk_state(mask, w, h, s, 1),
    ensures
        walk_state(mask, w, h, s, i + m) == walk_state(mask, w, h, s, i),
    decreases i,
{
    if i > 1 {
        lemma_walk_periodic(mask, w, h, s, m, (i - 1) as nat);
        assert((i - 1 + m) as nat + 1 == i + m);
    }
}

/// The contour of a component is one full turn of the Moore walk round its boundary: the walk
/// from the component's first pixel, entered from the west, only ever goes round this ring,
/// and after `i` steps it is at vertex `i mod len` of the contour. So each vertex is where the
/// walk is at that step, and no step of the walk leaves the ring; a trace that stopped short
/// of a full turn, or went past it, would break this. (Shown for every trace that stops before
/// its step limit runs out.)
pub proof fn lemma_contour_is_walk_cycle(mask: Seq<bool>, w: int, h: int, s: (int, int), i: nat)
    requires
        w <= u32::MAX,
        h <= u32::MAX,
        is_fg(mask, w, h, s.0, s.1),
        component_contour(mask, w, h, s).len() <= trace_cap(mask, w, h, s),
    ensures
        component_contour(mask, w, h, s).len() >= 1,
        component_contour(mask, w, h, s)[(i % component_contour(mask, w, h, s).len()) as int]
            == vertex_of(walk_state(mask, w, h, s, i)),
    decreases i,
{
    let c = component_contour(mask, w, h, s);
    let pts = seq![(s.0 as u32, s.1 as u32)];
    lemma_trace_walks(mask, w, h, s, s, 0, pts, trace_cap(mask, w, h, s));
    let m = c.len();
    if i < m {
        vstd::arithmetic::div_mod::lemma_small_mod(i, m);
    } else if i == m {
        vstd::arithmetic::div_mod::lemma_mod_self_0(m as int);
        assert(c[0] == vertex_of(walk_state(mask, w, h, s, 0)));
    } else {
        lemma_contour_is_walk_cycle(mask, w, h, s, (i - m) as nat);
        lemma_walk_periodic(mask, w, h, s, m, (i - m) as nat);
        vstd::arithmetic::div_mod::lemma_mod_sub_multiples_vanish(i as int, m as int);
    }
}

/// Trace the outer boundary of the component whose first pixel is `(sx, sy)`, clockwise,
/// with Moore-neighbour tracing: from the backtrack direction `d` (initially west), scan the
/// eight neighbours clockwise for the next foreground pixel, move there, and make the cell
/// examined just before it the new backtrack. Stops when the start is entered again from the
/// west (Jacob's criterion), when the walk is back at the start about to repeat its first step,
/// when the pixel has no foreground neighbour, or after `cap` steps.
///
/// The second stop is deliberate and goes beyond Jacob's criterion. A boundary that is never
/// entered from the west again, such as a one-pixel-wide line or a two-pixel speck, would
/// otherwise go round the same cycle until the cap: a two-pixel speck would give a long ring
/// and not be dropped as a contour of fewer than three points, and a line would list its
/// cycle many times over. With it, each boundary cycle is listed once: a two-pixel speck gives
/// two points (and is dropped), and a line of three pixels gives `(0, 0), (1, 0), (2, 0),
/// (1, 0)`.
fn trace_contour(mask: &Vec<bool>, w: usize, h: usize, sx: usize, sy: usize, cap: usize) -> (c: Vec<
    (u32, u32),
>)
    requires
        w * h <= mask@.len(),
        w <= u32::MAX,
        h <= u32::MAX,
        is_fg(mask@, w as int, h as int, sx as int, sy as int),
    ensures
        c@ == moore_trace(mask@, w as int, h as int, (sx as int, sy as int), cap as nat),
        c@.len() >= 1,
        c@[0] == (sx as u32, sy as u32),
        forall|k: int| 0 <= k < c@.len() ==> is_fg(mask@, w as int, h as int, #[trigger] c@[k].0 as int, c@[k].1 as int),
        forall|k: int|
            0 <= k < c@.len() - 1 ==> adjacent8(
                #[trigger] c@[k].0 as int,
                c@[k].1 as int,
                c@[k + 1].0 as int,
                c@[k + 1].1 as int,
            ),
{
    let mut pts: Vec<(u32, u32)> = Vec::new();
    pts.push((sx as u32, sy as u32));
    let mut px = sx;
    let mut py = sy;
    let mut d: usize = 0;
    let mut steps: usize = 0;
    let ghost wi = w as int;
    let ghost hi = h as int;
    let ghost s = (sx as int, sy as int);
    proof {
        assert(pts@ =~= seq![(sx as u32, sy as u32)]);
    }
    while steps < cap
        invariant_except_break
            pts@[pts@.len() - 1] == (px as u32, py as u32),
            trace_from(mask@, wi, hi, s, (px as int, py as int), d as int, pts@, (cap - steps) as nat)
                == moore_trace(mask@, wi, hi, s, cap as nat),
        invariant
            wi == w,
            hi == h,
            s == (sx as int, sy as int),
            steps <= cap,
            w * h <= mask@.len(),
            px < w,
            py < h,
            sx < w,
            sy < h,
            w <= u32::MAX,
            h <= u32::MAX,
            d < 8,
            is_fg(mask@, w as int, h as int, px as int, py as int),
            pts@.len() >= 1,
            pts@[0] == (sx as u32, sy as u32),
            forall|k: int|
                0 <= k < pts@.len() ==> is_fg(
                    mask@,
                    w as int,
                    h as int,
                    #[trigger] pts@[k].0 as int,
                    pts@[k].1 as int,
                ),
            forall|k: int|
                0 <= k < pts@.len() - 1 ==> adjacent8(
                    #[trigger] pts@[k].0 as int,
                    pts@[k].1 as int,
                    pts@[k + 1].0 as int,
                    pts@[k + 1].1 as int,
                ),
        ensures
            pts@ == moore_trace(mask@, wi, hi, s, cap as nat),
            pts@.len() >= 1,
            pts@[0] == (sx as u32, sy as u32),
            forall|k: int|
                0 <= k < pts@.len() ==> is_fg(
                    mask@,
                    w as int,
                    h as int,
                    #[trigger] pts@[k].0 as int,
                    pts@[k].1 as int,
                ),
            forall|k: int|
                0 <= k < pts@.len() - 1 ==> adjacent8(
                    #[trigger] pts@[k].0 as int,
                    pts@[k].1 as int,
                    pts@[k + 1].0 as int,
                    pts@[k + 1].1 as int,
                ),
        decreases cap - steps,
    {
        let ghost fuel = (cap - steps) as nat;
        let ghost p = (px as int, py as int);
        let mut next: Option<(usize, usize, usize)> = None;
        let mut k: usize = 1;
        while k <= 8 && next.is_none()
            invariant
                w * h <= mask@.len(),
                1 <= k <= 9,
                d < 8,
                px < w,
                py < h,
                p == (px as int, py as int),
                is_fg(mask@, w as int, h as int, px as int, py as int),
                next is None ==> first_fg_dir(mask@, w as int, h as int, px as int, py as int, d as int, 1)
                    == first_fg_dir(mask@, w as int, h as int, px as int, py as int, d as int, k as int),
                next matches Some((nx, ny, dir)) ==> dir < 8 && is_fg(
                    mask@,
                    w as int,
                    h as int,
                    nx as int,
                    ny as int,
                ) && nx == px + dir_dx(dir as int) && ny == py + dir_dy(dir as int) && first_fg_dir(
                    mask@,
                    w as int,
                    h as int,
                    px as int,
                    py as int,
                    d as int,
                    1,
                ) == Some(dir as int),
            decreases 9 - k,
        {
            let dir = (d + k) % 8;
            match neighbor(px, py, dir, w, h) {
                Some((nx, ny)) => {
                    if fg_at(mask, w, h, nx, ny) {
                        next = Some((nx, ny, dir));
                    }
                },
                None => {},
            }
            k = k + 1;
        }
        match next {
            None => {
                proof {
                    assert(first_fg_dir(mask@, wi, hi, px as int, py as int, d as int, 1) is None);
                }
                break;
            },
            Some((nx, ny, dir)) => {
                let ghost n = (nx as int, ny as int);
                if px == sx && py == sy && pts.len() >= 2 && nx as u32 == pts[1].0 && ny as u32
                    == pts[1].1 {
                    // Back at the start and about to retrace the first step: the walk has
                    // closed a full cycle, so drop the repeated start and stop.
                    let ghost before = pts@;
                    pts.pop();
                    proof {
                        assert(pts@ =~= before.drop_last());
                        assert forall|k: int|
                            0 <= k < pts@.len() - 1 implies adjacent8(
                            #[trigger] pts@[k].0 as int,
                            pts@[k].1 as int,
                            pts@[k + 1].0 as int,
                            pts@[k + 1].1 as int,
                        ) by {
                            assert(pts@[k] == before[k] && pts@[k + 1] == before[k + 1]);
                        }
                        assert forall|k: int|
                            0 <= k < pts@.len() implies is_fg(
                            mask@,
                            w as int,
                            h as int,
                            #[trigger] pts@[k].0 as int,
                            pts@[k].1 as int,
                        ) by {
                            assert(pts@[k] == before[k]);
                        }
                        assert(p == s);
                        assert(n.0 == before[1].0 && n.1 == before[1].1);
                    }
                    break;
                }
                let nd = if dir % 2 == 0 {
                    (dir + 6) % 8
                } else {
                    (dir + 5) % 8
                };
                proof {
                    assert(nd == back_dir(dir as int));
                    assert(!(p == s && pts@.len() >= 2 && n.0 == pts@[1].0 && n.1 == pts@[1].1));
                }
                if nx == sx && ny == sy && nd == 0 {
                    break;
                }
                let ghost before = pts@;
                pts.push((nx as u32, ny as u32));
                proof {
                    assert(pts@[before.len() as int] == (nx as u32, ny as u32));
                    assert(adjacent8(px as int, py as int, nx as int, ny as int));
                    assert forall|k: int|
                        0 <= k < pts@.len() - 1 implies adjacent8(
                        #[trigger] pts@[k].0 as int,
                        pts@[k].1 as int,
                        pts@[k + 1].0 as int,
                        pts@[k + 1].1 as int,
                    ) by {
                        if k < before.len() - 1 {
                            assert(pts@[k] == before[k] && pts@[k + 1] == before[k + 1]);
                        } else {
                            assert(pts@[k] == before[before.len() - 1]);
                        }
                    }
                    assert forall|k: int|
                        0 <= k < pts@.len() implies is_fg(
                        mask@,
                        w as int,
                        h as int,
                        #[trigger] pts@[k].0 as int,
                        pts@[k].1 as int,
                    ) by {
                        if k < before.len() {
                            assert(pts@[k] == before[k]);
                        }
                    }
                    assert(pts@ == before.push((n.0 as u32, n.1 as u32)));
                }
                px = nx;
                py = ny;
                d = nd;
                steps = steps + 1;
            },
        }
    }
    pts
}

/// The contours of a list of traced polygons, each as a sequence of pixels.
pub open spec fn contours(v: &Vec<Vec<(u32, u32)>>) -> Seq<Seq<(u32, u32)>> {
    v@.map_values(|c: Vec<(u32, u32)>| c@)
}

/// `(cx, cy)` comes before `(x, y)` in raster order.
pub open spec fn scanned_before(x: int, y: int, cx: int, cy: int) -> bool {
    cy < y || (cy == y && cx < x)
}

/// The step limit for tracing the component of `s`: eight steps per pixel of the component,
/// saturating at the largest `usize`.
pub open spec fn trace_cap(mask: Seq<bool>, w: int, h: int, s: (int, int)) -> nat {
    let n = 8 * component_size(mask, w, h, s);
    if n <= usize::MAX {
        n
    } else {
        usize::MAX as nat
    }
}

/// `s` is the first pixel, in raster order, of its 8-connected foreground component.
pub open spec fn is_first_pixel(mask: Seq<bool>, w: int, h: int, s: (int, int)) -> bool {
    is_fg(mask, w, h, s.0, s.1) && is_component_start(mask, w, h, s)
}

/// The outer contour traced from the first pixel `s` of a component.
pub open spec fn component_contour(mask: Seq<bool>, w: int, h: int, s: (int, int)) -> Seq<
    (u32, u32),
> {
    moore_trace(mask, w, h, s, trace_cap(mask, w, h, s))
}

/// The polygons found among the first `n` pixels in raster order: the contour of each pixel
/// that is the first of its component, kept when it has at least three points.
pub open spec fn polygons_upto(mask: Seq<bool>, w: int, h: int, n: int) -> Seq<Seq<(u32, u32)>>
    decreases n,
{
    if n <= 0 {
        Seq::empty()
    } else {
        let prev = polygons_upto(mask, w, h, n - 1);
        let s = ((n - 1) % w, (n - 1) / w);
        let c = component_contour(mask, w, h, s);
        if is_first_pixel(mask, w, h, s) && c.len() >= 3 {
            prev.push(c)
        } else {
            prev
        }
    }
}

/// The polygons of a `w` by `h` mask: one outer contour per 8-connected component with at
/// least three contour points, in raster order of the components' first pixels.
pub open spec fn mask_polygons(mask: Seq<bool>, w: int, h: int) -> Seq<Seq<(u32, u32)>> {
    polygons_upto(mask, w, h, w * h)
}

/// The raster index of `(x, y)` gives back its column and row.
proof fn lemma_index_of_pixel(w: int, h: int, x: int, y: int)
    requires
        in_grid(w, h, x, y),
    ensures
        raster(w, x, y) % w == x,
        raster(w, x, y) / w == y,
{
    vstd::arithmetic::div_mod::lemma_fundamental_div_mod_converse(raster(w, x, y), w, y, x);
}

/// Convert a boolean mask (row-major, `width * height` pixels) to polygons: one outer
/// contour per 8-connected foreground component, in raster order of the components' first
/// pixels. Vertices are pixel centres `(x, y)`; components whose contour has fewer than three
/// points are dropped.
pub fn bool_mask_to_polygons(mask: &Vec<bool>, width: u32, height: u32) -> (polys: Vec<
    Vec<(u32, u32)>,
>)
    requires
        width * height <= mask@.len(),
    ensures
        contours(&polys) == mask_polygons(mask@, width as int, height as int),
        is_tracing(mask@, width as int, height as int, contours(&polys)),
{
    let w = width as usize;
    let h = height as usize;
    let ghost wi = w as int;
    let ghost hi = h as int;
    proof {
        assert(mask@.len() == mask.len());
        assert(w * h == width * height);
    }
    let total = w * h;
    let mut visited: Vec<bool> = Vec::new();
    let mut t: usize = 0;
    while t < total
        invariant
            total == w * h,
            t <= total,
            visited@.len() == t,
            forall|i: int| 0 <= i < t ==> !#[trigger] visited@[i],
        decreases total - t,
    {
        visited.push(false);
        t = t + 1;
    }
    proof {
        assert forall|x: int, y: int|
            in_grid(wi, hi, x, y) && #[trigger] visited@[raster(wi, x, y)] implies mask@[raster(
                wi,
                x,
                y,
            )] by {
            lemma_raster_bounds(wi, hi, x, y);
        }
        assert forall|x: int, y: int|
            in_grid(wi, hi, x, y) && #[trigger] visited@[raster(wi, x, y)] implies closed_at(
            mask@,
            visited@,
            wi,
            hi,
            x,
            y,
        ) by {
            lemma_raster_bounds(wi, hi, x, y);
        }
    }
    let mut polys: Vec<Vec<(u32, u32)>> = Vec::new();
    proof {
        assert(contours(&polys) =~= Seq::<Seq<(u32, u32)>>::empty());
        assert(raster(wi, 0, 0) == 0);
        assert forall|cx: int, cy: int|
            in_grid(wi, hi, cx, cy) && #[trigger] visited@[raster(wi, cx, cy)] implies exists|
                a: (int, int),
            | in_grid(wi, hi, a.0, a.1) && scanned_before(0, 0, a.0, a.1)
                && #[trigger] connected8(mask@, wi, hi, a, (cx, cy)) by {
            lemma_raster_bounds(wi, hi, cx, cy);
        }
    }
    let mut y: usize = 0;
    while y < h
        invariant
            wi == w,
            hi == h,
            w == width,
            h == height,
            w * h <= mask@.len(),
            mask@.len() <= usize::MAX,
            y <= h,
            visited_closed(mask@, visited@, wi, hi),
            forall|cx: int, cy: int|
                in_grid(wi, hi, cx, cy) && scanned_before(0, y as int, cx, cy) && is_fg(
                    mask@,
                    wi,
                    hi,
                    cx,
                    cy,
                ) ==> #[trigger] visited@[raster(wi, cx, cy)],
            is_tracing(mask@, wi, hi, contours(&polys)),
            contours(&polys) == polygons_upto(mask@, wi, hi, raster(wi, 0, y as int)),
            forall|cx: int, cy: int|
                in_grid(wi, hi, cx, cy) && #[trigger] visited@[raster(wi, cx, cy)] ==> exists|
                    a: (int, int),
                | in_grid(wi, hi, a.0, a.1) && scanned_before(0, y as int, a.0, a.1)
                    && #[trigger] connected8(mask@, wi, hi, a, (cx, cy)),
            forall|g: int|
                0 <= g < contours(&polys).len() ==> scanned_before(
                    0,
                    y as int,
                    start_of(#[trigger] contours(&polys)[g]).0,
                    start_of(contours(&polys)[g]).1,
                ) && visited@[raster(
                    wi,
                    start_of(contours(&polys)[g]).0,
                    start_of(contours(&polys)[g]).1,
                )],
        decreases h - y,
    {
        let mut x: usize = 0;
        while x < w
            invariant
                wi == w,
                hi == h,
                w == width,
                h == height,
                w * h <= mask@.len(),
                mask@.len() <= usize::MAX,
                y < h,
                x <= w,
                visited_closed(mask@, visited@, wi, hi),
                forall|cx: int, cy: int|
                    in_grid(wi, hi, cx, cy) && scanned_before(x as int, y as int, cx, cy) && is_fg(
                        mask@,
                        wi,
                        hi,
                        cx,
                        cy,
                    ) ==> #[trigger] visited@[raster(wi, cx, cy)],
                is_tracing(mask@, wi, hi, contours(&polys)),
                contours(&polys) == polygons_upto(mask@, wi, hi, raster(wi, x as int, y as int)),
                forall|cx: int, cy: int|
                    in_grid(wi, hi, cx, cy) && #[trigger] visited@[raster(wi, cx, cy)] ==> exists|
                        a: (int, int),
                    | in_grid(wi, hi, a.0, a.1) && scanned_before(x as int, y as int, a.0, a.1)
                        && #[trigger] connected8(mask@, wi, hi, a, (cx, cy)),
                forall|g: int|
                    0 <= g < contours(&polys).len() ==> scanned_before(
                        x as int,
                        y as int,
                        start_of(#[trigger] contours(&polys)[g]).0,
                        start_of(contours(&polys)[g]).1,
                    ) && visited@[raster(
                        wi,
                        start_of(contours(&polys)[g]).0,
                        start_of(contours(&polys)[g]).1,
                    )],
            decreases w - x,
        {
            proof {
                lemma_raster_bounds(wi, hi, x as int, y as int);
            }
            let idx = y * w + x;
            if mask[idx] && !visited[idx] {
                let ghost v0 = visited@;
                let ghost s = (x as int, y as int);
                // The start is the first pixel of its component.
                proof {
                    assert forall|cx: int, cy: int|
                        #[trigger] connected8(mask@, wi, hi, s, (cx, cy)) implies raster(
                        wi,
                        s.0,
                        s.1,
                    ) <= raster(wi, cx, cy) by {
                        let p = choose|p: Seq<(int, int)>|
                            is_fg_path(mask@, wi, hi, p) && p[0] == s && #[trigger] p.last() == (
                                cx,
                                cy,
                            );
                        assert(is_fg(mask@, wi, hi, p[p.len() - 1].0, p[p.len() - 1].1));
                        lemma_raster_order(wi, hi, cx, cy, x as int, y as int);
                        if raster(wi, cx, cy) < raster(wi, s.0, s.1) {
                            assert(v0[raster(wi, cx, cy)]);
                            lemma_connected_sym(mask@, wi, hi, s, (cx, cy));
                            let q = choose|q: Seq<(int, int)>|
                                is_fg_path(mask@, wi, hi, q) && q[0] == (cx, cy)
                                    && #[trigger] q.last() == s;
                            lemma_closed_reaches(mask@, v0, wi, hi, q, q.len() - 1);
                        }
                    }
                    // No earlier contour belongs to this component.
                    assert forall|g: int|
                        0 <= g < contours(&polys).len() implies !connected8(
                        mask@,
                        wi,
                        hi,
                        start_of(#[trigger] contours(&polys)[g]),
                        s,
                    ) && !connected8(mask@, wi, hi, s, start_of(contours(&polys)[g])) by {
                        let a = start_of(contours(&polys)[g]);
                        if connected8(mask@, wi, hi, a, s) {
                            let q = choose|q: Seq<(int, int)>|
                                is_fg_path(mask@, wi, hi, q) && q[0] == a && #[trigger] q.last()
                                    == s;
                            lemma_closed_reaches(mask@, v0, wi, hi, q, q.len() - 1);
                        }
                        if connected8(mask@, wi, hi, s, a) {
                            lemma_connected_sym(mask@, wi, hi, s, a);
                            let q = choose|q: Seq<(int, int)>|
                                is_fg_path(mask@, wi, hi, q) && q[0] == a && #[trigger] q.last()
                                    == s;
                            lemma_closed_reaches(mask@, v0, wi, hi, q, q.len() - 1);
                        }
                    }
                }
                let count = flood_fill(mask, &mut visited, w, h, x, y);
                let cap = match count.checked_mul(8) {
                    Some(c) => c,
                    None => usize::MAX,
                };
                let contour = trace_contour(mask, w, h, x, y, cap);
                let ghost traced = contour@;
                let ghost found = contours(&polys);
                proof {
                    assert(cap == trace_cap(mask@, wi, hi, s));
                    assert(is_first_pixel(mask@, wi, hi, s));
                    assert(traced == component_contour(mask@, wi, hi, s));
                }
                if contour.len() >= 3 {
                    let ghost before = contours(&polys);
                    polys.push(contour);
                    proof {
                        assert(contours(&polys) =~= before.push(contour@));
                        let gs = contours(&polys);
                        let n = before.len() as int;
                        assert(start_of(gs[n]) == s);
                        assert(is_contour(mask@, wi, hi, gs[n]));
                        assert forall|g: int| 0 <= g < gs.len() implies is_contour(
                            mask@,
                            wi,
                            hi,
                            #[trigger] gs[g],
                        ) by {
                            if g < n {
                                assert(gs[g] == before[g]);
                            }
                        }
                        assert forall|g: int| 0 <= g < gs.len() implies is_component_start(
                            mask@,
                            wi,
                            hi,
                            start_of(#[trigger] gs[g]),
                        ) by {
                            if g < n {
                                assert(gs[g] == before[g]);
                            }
                        }
                        assert forall|g1: int, g2: int|
                            0 <= g1 < g2 < gs.len() implies raster(
                            wi,
                            start_of(#[trigger] gs[g1]).0,
                            start_of(gs[g1]).1,
                        ) < raster(wi, start_of(#[trigger] gs[g2]).0, start_of(gs[g2]).1) by {
                            assert(gs[g1] == before[g1]);
                            if g2 < n {
                                assert(gs[g2] == before[g2]);
                            } else {
                                let a = start_of(before[g1]);
                                assert(scanned_before(x as int, y as int, a.0, a.1));
                                assert(is_fg(mask@, wi, hi, a.0, a.1));
                                lemma_raster_order(wi, hi, a.0, a.1, x as int, y as int);
                            }
                        }
                        assert forall|g1: int, g2: int|
                            0 <= g1 < gs.len() && 0 <= g2 < gs.len() && g1 != g2 implies !connected8(
                            mask@,
                            wi,
                            hi,
                            start_of(#[trigger] gs[g1]),
                            start_of(#[trigger] gs[g2]),
                        ) by {
                            if g1 < n {
                                assert(gs[g1] == before[g1]);
                            }
                            if g2 < n {
                                assert(gs[g2] == before[g2]);
                            }
                        }
                    }
                }
                proof {
                    lemma_index_of_pixel(wi, hi, x as int, y as int);
                    let n = raster(wi, x as int, y as int) + 1;
                    assert((n - 1) % wi == x as int && (n - 1) / wi == y as int);
                    if traced.len() >= 3 {
                        assert(contours(&polys) =~= found.push(traced));
                    } else {
                        assert(contours(&polys) =~= found);
                    }
                    assert(contours(&polys) == polygons_upto(mask@, wi, hi, n));
                    assert forall|cx: int, cy: int|
                        in_grid(wi, hi, cx, cy) && #[trigger] visited@[raster(wi, cx, cy)] implies exists|
                            a: (int, int),
                        | in_grid(wi, hi, a.0, a.1) && scanned_before(x + 1, y as int, a.0, a.1)
                            && #[trigger] connected8(mask@, wi, hi, a, (cx, cy)) by {
                        lemma_index_of_pixel(wi, hi, cx, cy);
                        lemma_raster_bounds(wi, hi, cx, cy);
                        let i = raster(wi, cx, cy);
                        assert(visited@[i] == (v0[i] || connected8(mask@, wi, hi, s, (i % wi, i / wi))));
                        if v0[i] {
                            let a = choose|a: (int, int)|
                                in_grid(wi, hi, a.0, a.1) && scanned_before(x as int, y as int, a.0, a.1)
                                    && #[trigger] connected8(mask@, wi, hi, a, (cx, cy));
                            assert(connected8(mask@, wi, hi, a, (cx, cy)));
                        } else {
                            assert(connected8(mask@, wi, hi, s, (cx, cy)));
                        }
                    }
                }
            } else {
                proof {
                    lemma_index_of_pixel(wi, hi, x as int, y as int);
                    let s = (x as int, y as int);
                    let n = raster(wi, x as int, y as int) + 1;
                    assert((n - 1) % wi == x as int && (n - 1) / wi == y as int);
                    if is_first_pixel(mask@, wi, hi, s) {
                        assert(visited@[raster(wi, x as int, y as int)]);
                        let a = choose|a: (int, int)|
                            in_grid(wi, hi, a.0, a.1) && scanned_before(x as int, y as int, a.0, a.1)
                                && #[trigger] connected8(mask@, wi, hi, a, s);
                        lemma_connected_sym(mask@, wi, hi, a, s);
                        assert(connected8(mask@, wi, hi, s, (a.0, a.1)));
                        lemma_raster_order(wi, hi, a.0, a.1, x as int, y as int);
                    }
                    assert(contours(&polys) == polygons_upto(mask@, wi, hi, n));
                    assert forall|cx: int, cy: int|
                        in_grid(wi, hi, cx, cy) && #[trigger] visited@[raster(wi, cx, cy)] implies exists|
                            a: (int, int),
                        | in_grid(wi, hi, a.0, a.1) && scanned_before(x + 1, y as int, a.0, a.1)
                            && #[trigger] connected8(mask@, wi, hi, a, (cx, cy)) by {
                        let a = choose|a: (int, int)|
                            in_grid(wi, hi, a.0, a.1) && scanned_before(x as int, y as int, a.0, a.1)
                                && #[trigger] connected8(mask@, wi, hi, a, (cx, cy));
                        assert(connected8(mask@, wi, hi, a, (cx, cy)));
                    }
                }
            }
            proof {
                let gs = contours(&polys);
                assert forall|cx: int, cy: int|
                    in_grid(wi, hi, cx, cy) && scanned_before(x + 1, y as int, cx, cy) && is_fg(
                        mask@,
                        wi,
                        hi,
                        cx,
                        cy,
                    ) implies #[trigger] visited@[raster(wi, cx, cy)] by {
                    lemma_raster_bounds(wi, hi, cx, cy);
                }
                assert forall|g: int| 0 <= g < gs.len() implies scanned_before(
                    x + 1,
                    y as int,
                    start_of(#[trigger] gs[g]).0,
                    start_of(gs[g]).1,
                ) && visited@[raster(wi, start_of(gs[g]).0, start_of(gs[g]).1)] by {
                    let a = start_of(gs[g]);
                    assert(is_fg(mask@, wi, hi, gs[g][0].0 as int, gs[g][0].1 as int));
                    lemma_raster_bounds(wi, hi, a.0, a.1);
                }
            }
            x = x + 1;
        }
        proof {
            assert((y as int + 1) * wi == y as int * wi + wi) by (nonlinear_arith);
            assert(raster(wi, x as int, y as int) == raster(wi, 0, y as int + 1));
            assert forall|cx: int, cy: int|
                in_grid(wi, hi, cx, cy) && #[trigger] visited@[raster(wi, cx, cy)] implies exists|
                    a: (int, int),
                | in_grid(wi, hi, a.0, a.1) && scanned_before(0, y + 1, a.0, a.1)
                    && #[trigger] connected8(mask@, wi, hi, a, (cx, cy)) by {
                let a = choose|a: (int, int)|
                    in_grid(wi, hi, a.0, a.1) && scanned_before(x as int, y as int, a.0, a.1)
                        && #[trigger] connected8(mask@, wi, hi, a, (cx, cy));
                assert(connected8(mask@, wi, hi, a, (cx, cy)));
            }
        }
        y = y + 1;
    }
    proof {
        assert(hi * wi == wi * hi) by (nonlinear_arith);
        assert(raster(wi, 0, y as int) == wi * hi);
    }
    polys
}

} // verus!
