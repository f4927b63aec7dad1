//! The postprocessing algorithms that merge slice detections, and which detections each of
//! them combines.

use vstd::prelude::*;

use crate::combine::{
    connected_components,
    greedy_groups,
    greedy_owner,
    is_component_grouping,
    is_greedy_grouping,
    nested,
    rows,
    square,
};

verus! {

/// Type of postprocessing algorithm to use after sliced inference.
#[derive(Debug, Clone, Copy, PartialEq, Eq, Structural)]
pub enum PostprocessType {
    /// Non-Maximum Suppression: removes overlapping boxes, keeps highest confidence.
    NMS,
    /// Non-Maximum Merging: merges overlapping boxes into a single box.
    NMM,
    /// Greedy Non-Maximum Merging: greedily merges boxes (default, as in SAHI).
    GREEDYNMM,
}

/// Metric used to match overlapping predictions.
#[derive(Debug, Clone, Copy, PartialEq, Eq, Structural)]
pub enum MatchMetric {
    /// Intersection over Union.
    IOU,
    /// Intersection over Smaller area (better for nested boxes).
    IOS,
}

/// Item `i` anchors a greedy group of `m`: no earlier anchor matches it.
pub open spec fn is_anchor(m: Seq<Seq<bool>>, i: int) -> bool {
    greedy_owner(m, i) == i
}

/// `plan` lists, in increasing order, exactly the anchors of the greedy grouping of `m`, each
/// alone: what NMS keeps.
pub open spec fn is_anchor_plan(m: Seq<Seq<bool>>, plan: Seq<Seq<usize>>) -> bool {
    &&& forall|k: int|
        0 <= k < plan.len() ==> #[trigger] plan[k].len() == 1 && plan[k][0] < m.len()
            && is_anchor(m, plan[k][0] as int)
    &&& forall|k1: int, k2: int|
        0 <= k1 < k2 < plan.len() ==> #[trigger] plan[k1][0] < #[trigger] plan[k2][0]
    &&& forall|i: int|
        0 <= i < m.len() && #[trigger] is_anchor(m, i) ==> exists|k: int|
            0 <= k < plan.len() && #[trigger] plan[k][0] == i
}

/// Which detections each output of a postprocessing pass combines, given the match matrix
/// of detections sorted by descending confidence: NMM merges each connected component of the
/// match graph, GREEDYNMM each greedy fixed-anchor group, and NMS keeps each greedy group's
/// anchor alone and drops the rest.
pub fn merge_plan(kind: PostprocessType, matches: &Vec<Vec<bool>>) -> (plan: Vec<Vec<usize>>)
    requires
        square(rows(matches)),
    ensures
        kind == PostprocessType::NMM ==> is_component_grouping(rows(matches), nested(&plan)),
        kind == PostprocessType::GREEDYNMM ==> is_greedy_grouping(rows(matches), nested(&plan)),
        kind == PostprocessType::NMS ==> is_anchor_plan(rows(matches), nested(&plan)),
{
    match kind {
        PostprocessType::NMM => connected_components(matches),
        PostprocessType::GREEDYNMM => greedy_groups(matches),
        PostprocessType::NMS => {
            let groups = greedy_groups(matches);
            let ghost m = rows(matches);
            let ghost g = nested(&groups);
            let mut plan: Vec<Vec<usize>> = Vec::new();
            let mut k: usize = 0;
            while k < groups.len()
                invariant
                    m == rows(matches),
                    g == nested(&groups),
                    is_greedy_grouping(m, g),
                    k <= groups@.len(),
                    plan@.len() == k,
                    forall|j: int|
                        0 <= j < k ==> (#[trigger] nested(&plan)[j]) == seq![g[j][0]],
                decreases groups@.len() - k,
            {
                assert(g[k as int].len() > 0);
                assert(groups@[k as int]@ == g[k as int]);
                let anchor = groups[k][0];
                let ghost before = nested(&plan);
                let mut single: Vec<usize> = Vec::new();
                single.push(anchor);
                plan.push(single);
                proof {
                    assert(nested(&plan) =~= before.push(seq![anchor]));
                }
                k = k + 1;
            }
            proof {
                let p = nested(&plan);
                assert(p.len() == g.len());
                assert forall|j: int| 0 <= j < p.len() implies #[trigger] p[j].len() == 1
                    && p[j][0] < m.len() && is_anchor(m, p[j][0] as int) by {
                    assert(p[j] == seq![g[j][0]]);
                    assert(g[j].len() > 0);
                    assert(greedy_owner(m, g[j][0] as int) == g[j][0]);
                }
                assert forall|k1: int, k2: int| 0 <= k1 < k2 < p.len() implies #[trigger] p[k1][0]
                    < #[trigger] p[k2][0] by {
                    assert(p[k1] == seq![g[k1][0]]);
                    assert(p[k2] == seq![g[k2][0]]);
                }
                assert forall|i: int| 0 <= i < m.len() && #[trigger] is_anchor(m, i) implies exists|
                    j: int,
                | 0 <= j < p.len() && #[trigger] p[j][0] == i by {
                    assert(crate::combine::covers(g, i));
                    let (gi, ki) = choose|gi: int, ki: int|
                        0 <= gi < g.len() && 0 <= ki < g[gi].len() && #[trigger] g[gi][ki] == i;
                    assert(greedy_owner(m, g[gi][ki] as int) == g[gi][0]);
                    assert(p[gi] == seq![g[gi][0]]);
                    assert(p[gi][0] == i);
                }
            }
            plan
        },
    }
}

impl Default for PostprocessType {
    /// Greedy non-maximum merging is the default, as in SAHI.
    fn default() -> (t: Self)
        ensures
            t == PostprocessType::GREEDYNMM,
    {
        PostprocessType::GREEDYNMM
    }
}

impl Default for MatchMetric {
    /// Intersection over union is the default metric.
    fn default() -> (m: Self)
        ensures
            m == MatchMetric::IOU,
    {
        MatchMetric::IOU
    }
}

} // verus!
