//! Segmentation mask formats and run-length encoded masks.

use vstd::prelude::*;

use crate::annotation::contour::count_true;

verus! {

/// The format of segmentation mask data.
#[derive(Debug, Clone, Copy, PartialEq, Eq, Structural)]
pub enum MaskFormat {
    /// Polygon format: list of [x1, y1, x2, y2, ...] coordinate lists.
    Polygon,
    /// Run-length encoding (RLE).
    Rle,
    /// Boolean mask (2D array).
    BoolMask,
}

/// Run-length encoded mask data.
///
/// RLE stores a binary mask by the lengths of runs of consecutive pixels with the same value,
/// alternating background and foreground and starting with background.
#[derive(Debug, Clone, PartialEq)]
pub struct RleData {
    /// Run lengths (alternating background/foreground).
    pub counts: Vec<u32>,
    /// Image size [height, width].
    pub size: [u32; 2],
}

/// Where run `k` starts: the sum of the first `k` run lengths.
pub open spec fn run_start(counts: Seq<u32>, k: int) -> int
    decreases k,
{
    if k <= 0 {
        0
    } else {
        run_start(counts, k - 1) + counts[k - 1]
    }
}

/// Pixel `p` lies in one of the foreground (odd-numbered) runs among the first `k` runs.
pub open spec fn rle_covers(counts: Seq<u32>, k: int, p: int) -> bool
    decreases k,
{
    if k <= 0 {
        false
    } else {
        ((k - 1) % 2 == 1 && run_start(counts, k - 1) <= p < run_start(counts, k)) || rle_covers(
            counts,
            k - 1,
            p,
        )
    }
}

/// Total length of the foreground (odd-numbered) runs among the first `k` runs.
pub open spec fn foreground_total(counts: Seq<u32>, k: int) -> int
    decreases k,
{
    if k <= 0 {
        0
    } else {
        foreground_total(counts, k - 1) + if (k - 1) % 2 == 1 {
            counts[k - 1] as int
        } else {
            0
        }
    }
}

proof fn lemma_run_start_monotone(counts: Seq<u32>, a: int, b: int)
    requires
        0 <= a <= b,
    ensures
        run_start(counts, a) <= run_start(counts, b),
    decreases b - a,
{
    if a < b {
        lemma_run_start_monotone(counts, a, b - 1);
    }
}

proof fn lemma_foreground_total_monotone(counts: Seq<u32>, a: int, b: int)
    requires
        0 <= a <= b,
    ensures
        foreground_total(counts, a) <= foreground_total(counts, b),
    decreases b - a,
{
    if a < b {
        lemma_foreground_total_monotone(counts, a, b - 1);
    }
}

/// Number of `p` in `[0, n)` for which `f(p)` holds.
spec fn count_where(f: spec_fn(int) -> bool, n: nat) -> nat
    decreases n,
{
    if n == 0 {
        0
    } else {
        count_where(f, (n - 1) as nat) + if f(n - 1) {
            1nat
        } else {
            0nat
        }
    }
}

proof fn lemma_count_true_new(f: spec_fn(int) -> bool, n: nat)
    ensures
        count_true(Seq::new(n, f)) == count_where(f, n),
    decreases n,
{
    if n > 0 {
        assert(Seq::new(n, f).drop_last() =~= Seq::new((n - 1) as nat, f));
        lemma_count_true_new(f, (n - 1) as nat);
    }
}

proof fn lemma_count_ext(f: spec_fn(int) -> bool, g: spec_fn(int) -> bool, n: nat)
    requires
        forall|p: int| 0 <= p < n ==> #[trigger] f(p) == g(p),
    ensures
        count_where(f, n) == count_where(g, n),
    decreases n,
{
    if n > 0 {
        lemma_count_ext(f, g, (n - 1) as nat);
    }
}

proof fn lemma_count_disjoint_union(f: spec_fn(int) -> bool, g: spec_fn(int) -> bool, n: nat)
    requires
        forall|p: int| 0 <= p < n ==> !(#[trigger] f(p) && g(p)),
    ensures
        count_where(|p: int| f(p) || g(p), n) == count_where(f, n) + count_where(g, n),
    decreases n,
{
    if n > 0 {
        lemma_count_disjoint_union(f, g, (n - 1) as nat);
    }
}

proof fn lemma_count_interval(lo: int, hi: int, n: nat)
    requires
        0 <= lo <= hi <= n,
    ensures
        count_where(|p: int| lo <= p < hi, n) == hi - lo,
    decreases n,
{
    if n > 0 {
        if hi == n {
            if lo == hi {
                lemma_count_ext(|p: int| lo <= p < hi, |p: int| lo <= p < hi, (n - 1) as nat);
                lemma_count_zero_interval(lo, hi, (n - 1) as nat);
            } else {
                lemma_count_interval(lo, hi - 1, (n - 1) as nat);
                lemma_count_ext(|p: int| lo <= p < hi, |p: int| lo <= p < hi - 1, (n - 1) as nat);
            }
        } else {
            lemma_count_interval(lo, hi, (n - 1) as nat);
        }
    }
}

proof fn lemma_count_zero_interval(lo: int, hi: int, n: nat)
    requires
        hi <= lo,
    ensures
        count_where(|p: int| lo <= p < hi, n) == 0,
    decreases n,
{
    if n > 0 {
        lemma_count_zero_interval(lo, hi, (n - 1) as nat);
    }
}

/// Pixels covered by the first `k` runs lie before the end of run `k - 1`.
proof fn lemma_covers_below(counts: Seq<u32>, k: int, p: int)
    requires
        0 <= k,
        rle_covers(counts, k, p),
    ensures
        p < run_start(counts, k),
    decreases k,
{
    if k > 0 {
        if !((k - 1) % 2 == 1 && run_start(counts, k - 1) <= p < run_start(counts, k)) {
            lemma_covers_below(counts, k - 1, p);
        }
    }
}

proof fn lemma_covered_count(counts: Seq<u32>, k: int, total: nat)
    requires
        0 <= k <= counts.len(),
        run_start(counts, k) <= total,
    ensures
        count_where(|p: int| rle_covers(counts, k, p), total) == foreground_total(counts, k),
    decreases k,
{
    if k > 0 {
        lemma_run_start_monotone(counts, k - 1, k);
        lemma_run_start_monotone(counts, 0, k - 1);
        lemma_covered_count(counts, k - 1, total);
        let prev = |p: int| rle_covers(counts, k - 1, p);
        let cur = |p: int| rle_covers(counts, k, p);
        let lo = run_start(counts, k - 1);
        let hi = run_start(counts, k);
        if (k - 1) % 2 == 1 {
            let run = |p: int| lo <= p < hi;
            assert forall|p: int| 0 <= p < total implies !(#[trigger] run(p) && prev(p)) by {
                if prev(p) {
                    lemma_covers_below(counts, k - 1, p);
                }
            }
            lemma_count_disjoint_union(run, prev, total);
            lemma_count_ext(cur, |p: int| run(p) || prev(p), total);
            lemma_count_interval(lo, hi, total);
        } else {
            lemma_count_ext(cur, prev, total);
        }
    } else {
        lemma_count_zero_interval(0, 0, total);
        lemma_count_ext(|p: int| rle_covers(counts, k, p), |p: int| 0 <= p < 0, total);
    }
}

/// The area of an RLE mask is its number of foreground pixels: when the runs end within the
/// `total` pixels of the mask, the foreground run lengths add up to the number of pixels that
/// the decoded mask sets.
pub proof fn lemma_area_is_foreground_pixels(counts: Seq<u32>, total: nat)
    requires
        run_start(counts, counts.len() as int) <= total,
    ensures
        count_true(Seq::new(total, |p: int| rle_covers(counts, counts.len() as int, p)))
            == foreground_total(counts, counts.len() as int),
{
    lemma_count_true_new(|p: int| rle_covers(counts, counts.len() as int, p), total);
    lemma_covered_count(counts, counts.len() as int, total);
}

/// What `area` returns is the number of pixels that `to_bool_mask` sets, for every mask whose
/// runs end within its `height * width` pixels.
pub proof fn lemma_area_counts_decoded_pixels(rle: RleData, mask: Seq<bool>)
    requires
        run_start(rle.counts@, rle.counts@.len() as int) <= rle.size@[0] * rle.size@[1],
        mask.len() == rle.size@[0] * rle.size@[1],
        forall|p: int|
            0 <= p < mask.len() ==> #[trigger] mask[p] == rle_covers(
                rle.counts@,
                rle.counts@.len() as int,
                p,
            ),
    ensures
        count_true(mask) == foreground_total(rle.counts@, rle.counts@.len() as int),
{
    let total = (rle.size@[0] * rle.size@[1]) as nat;
    let counts = rle.counts@;
    lemma_area_is_foreground_pixels(counts, total);
    assert(mask =~= Seq::new(total, |p: int| rle_covers(counts, counts.len() as int, p)));
}

impl RleData {
    /// Create new RLE data.
    pub fn new(counts: Vec<u32>, size: [u32; 2]) -> (r: Self)
        ensures
            r.counts@ == counts@,
            r.size@ == size@,
    {
        RleData { counts, size }
    }

    /// Decode RLE to a boolean mask of `height * width` pixels, in row-major order. Runs
    /// that reach past the end of the mask are cut off.
    pub fn to_bool_mask(&self) -> (mask: Vec<bool>)
        requires
            self.size@[0] * self.size@[1] <= u32::MAX,
        ensures
            mask@.len() == self.size@[0] * self.size@[1],
            forall|p: int|
                0 <= p < mask@.len() ==> #[trigger] mask@[p] == rle_covers(
                    self.counts@,
                    self.counts@.len() as int,
                    p,
                ),
    {
        let total = (self.size[0] * self.size[1]) as usize;
        let mut mask: Vec<bool> = Vec::new();
        let mut t: usize = 0;
        while t < total
            invariant
                t <= total,
                mask@.len() == t,
                forall|p: int| 0 <= p < t ==> !#[trigger] mask@[p],
            decreases total - t,
        {
            mask.push(false);
            t = t + 1;
        }
        let ghost counts = self.counts@;
        let mut pos: u64 = 0;
        let mut val = false;
        let mut k: usize = 0;
        while k < self.counts.len()
            invariant
                counts == self.counts@,
                total == self.size@[0] * self.size@[1],
                total <= u32::MAX,
                mask@.len() == total,
                k <= counts.len(),
                val == (k % 2 == 1),
                pos as int == if run_start(counts, k as int) < total {
                    run_start(counts, k as int)
                } else {
                    total as int
                },
                forall|p: int|
                    0 <= p < total ==> #[trigger] mask@[p] == rle_covers(counts, k as int, p),
            decreases counts.len() - k,
        {
            let count = self.counts[k] as u64;
            let end = if pos + count < total as u64 {
                pos + count
            } else {
                total as u64
            };
            proof {
                assert(run_start(counts, k + 1) == run_start(counts, k as int) + counts[k as int]);
            }
            if val {
                let mut i = pos;
                while i < end
                    invariant
                        mask@.len() == total,
                        total <= u32::MAX,
                        pos <= i <= end,
                        end <= total,
                        forall|p: int|
                            0 <= p < total ==> #[trigger] mask@[p] == (rle_covers(
                                counts,
                                k as int,
                                p,
                            ) || (pos <= p < i)),
                    decreases end - i,
                {
                    mask.set(i as usize, true);
                    i = i + 1;
                }
            }
            proof {
                assert forall|p: int| 0 <= p < total implies #[trigger] mask@[p] == rle_covers(
                    counts,
                    k + 1,
                    p,
                ) by {
                    assert(rle_covers(counts, k + 1, p) == (((k % 2 == 1) && run_start(
                        counts,
                        k as int,
                    ) <= p < run_start(counts, k + 1)) || rle_covers(counts, k as int, p)));
                }
            }
            pos = end;
            val = !val;
            k = k + 1;
        }
        mask
    }

    /// Get mask width.
    pub fn width(&self) -> (w: u32)
        ensures
            w == self.size@[1],
    {
        self.size[1]
    }

    /// Get mask height.
    pub fn height(&self) -> (h: u32)
        ensures
            h == self.size@[0],
    {
        self.size[0]
    }

    /// Calculate the area: the total length of the foreground runs.
    pub fn area(&self) -> (a: u32)
        requires
            foreground_total(self.counts@, self.counts@.len() as int) <= u32::MAX,
        ensures
            a == foreground_total(self.counts@, self.counts@.len() as int),
    {
        let ghost counts = self.counts@;
        let mut area: u32 = 0;
        let mut is_foreground = false;
        let mut k: usize = 0;
        while k < self.counts.len()
            invariant
                counts == self.counts@,
                k <= counts.len(),
                foreground_total(counts, counts.len() as int) <= u32::MAX,
                is_foreground == (k % 2 == 1),
                area == foreground_total(counts, k as int),
            decreases counts.len() - k,
        {
            proof {
                lemma_foreground_total_monotone(counts, k + 1, counts.len() as int);
            }
            if is_foreground {
                area = area + self.counts[k];
            }
            is_foreground = !is_foreground;
            k = k + 1;
        }
        area
    }
}

/// OR a member's boolean mask into an accumulator, pixel by pixel: each accumulator pixel
/// that the member also covers is set, the others are left as they were. Only the pixels the
/// two have in common are visited.
pub fn union_into(acc: &mut Vec<bool>, member: &Vec<bool>)
    ensures
        final(acc)@.len() == old(acc)@.len(),
        forall|i: int|
            0 <= i < old(acc)@.len() ==> #[trigger] final(acc)@[i] == (old(acc)@[i] || (i
                < member@.len() && member@[i])),
{
    let n = if acc.len() < member.len() {
        acc.len()
    } else {
        member.len()
    };
    let mut i: usize = 0;
    while i < n
        invariant
            n <= old(acc)@.len(),
            n <= member@.len(),
            i <= n,
            acc@.len() == old(acc)@.len(),
            forall|j: int|
                0 <= j < old(acc)@.len() ==> #[trigger] acc@[j] == if j < i {
                    old(acc)@[j] || member@[j]
                } else {
                    old(acc)@[j]
                },
        decreases n - i,
    {
        if member[i] {
            acc.set(i, true);
        }
        i = i + 1;
    }
}

impl Default for MaskFormat {
    /// Polygons are the default format.
    fn default() -> (f: Self)
        ensures
            f == MaskFormat::Polygon,
    {
        MaskFormat::Polygon
    }
}

impl Default for RleData {
    /// No runs over a `0 x 0` mask.
    fn default() -> (r: Self)
        ensures
            r.counts@ == Seq::<u32>::empty() && r.size@ == seq![0u32, 0u32],
    {
        RleData { counts: Vec::new(), size: [0, 0] }
    }
}

} // verus!
