//! Shared NMS / NMM / GREEDYNMM grouping over a match relation.
//!
//! The bbox postprocess path and the mask path both reduce to grouping followed by a
//! per-group reducer:
//! - **NMS**: [`greedy_groups`], keep each group's anchor (`group[0]`).
//! - **GREEDYNMM**: [`greedy_groups`], merge each group.
//! - **NMM**: [`connected_components`], merge each group.
//!
//! Items are assumed sorted by descending confidence, so each group's lowest index is its
//! anchor (highest-confidence member). Whether two items match is given as a square boolean
//! matrix: `matches[i][j]` (read for `i < j` only) says whether items `i` and `j` are eligible
//! and overlap above the threshold. [`match_matrix`] builds it from the raw overlap decisions
//! and the class-aware gate.

use vstd::prelude::*;

verus! {

/// The rows of a boolean matrix, each as a sequence.
pub open spec fn rows(m: &Vec<Vec<bool>>) -> Seq<Seq<bool>> {
    m@.map_values(|r: Vec<bool>| r@)
}

/// The groups of a grouping, each as a sequence of indices.
pub open spec fn nested(v: &Vec<Vec<usize>>) -> Seq<Seq<usize>> {
    v@.map_values(|r: Vec<usize>| r@)
}

/// Every row of `m` has as many entries as `m` has rows.
pub open spec fn square(m: Seq<Seq<bool>>) -> bool {
    forall|i: int| 0 <= i < m.len() ==> #[trigger] m[i].len() == m.len()
}

/// Whether the unordered pair `{a, b}` matches; only the upper triangle is read.
pub open spec fn pair_matches(m: Seq<Seq<bool>>, a: int, b: int) -> bool {
    if a < b {
        m[a][b]
    } else if b < a {
        m[b][a]
    } else {
        false
    }
}

// ---------------------------------------------------------------------------------------------
// Greedy fixed-anchor grouping
// ---------------------------------------------------------------------------------------------

/// The anchor that claims item `j` when anchors are walked in index order, starting the
/// search at candidate `a`: the first anchor `a' >= a` below `j` that matches `j`, or `j`
/// itself when there is none.
pub open spec fn claimer_from(m: Seq<Seq<bool>>, a: int, j: int) -> int
    decreases j, j - a,
{
    if a < 0 || a >= j {
        j
    } else if greedy_owner(m, a) == a && m[a][j] {
        a
    } else {
        claimer_from(m, a + 1, j)
    }
}

/// The anchor whose greedy group holds item `j`; `j` is itself an anchor exactly when
/// `greedy_owner(m, j) == j`.
pub open spec fn greedy_owner(m: Seq<Seq<bool>>, j: int) -> int
    decreases j, j + 1,
{
    if j < 0 {
        j
    } else {
        claimer_from(m, 0, j)
    }
}

/// Some group of `groups` holds `x`.
pub open spec fn covers(groups: Seq<Seq<usize>>, x: int) -> bool {
    exists|g: int, k: int| 0 <= g < groups.len() && 0 <= k < groups[g].len() && #[trigger] groups[g][k] == x
}

/// `groups` lists every index below `n` exactly once: groups are non-empty, strictly
/// increasing, and ordered by their first (lowest) element.
pub open spec fn is_grouping(n: int, groups: Seq<Seq<usize>>) -> bool {
    &&& forall|g: int| 0 <= g < groups.len() ==> #[trigger] groups[g].len() > 0
    &&& forall|g: int, k: int|
        0 <= g < groups.len() && 0 <= k < groups[g].len() ==> #[trigger] groups[g][k] < n
    &&& forall|g: int, k1: int, k2: int|
        0 <= g < groups.len() && 0 <= k1 < k2 < groups[g].len() ==> #[trigger] groups[g][k1]
            < #[trigger] groups[g][k2]
    &&& forall|g1: int, g2: int|
        0 <= g1 < g2 < groups.len() ==> #[trigger] groups[g1][0] < #[trigger] groups[g2][0]
    &&& forall|x: int| 0 <= x < n ==> #[trigger] covers(groups, x)
}

/// `groups` is exactly the greedy fixed-anchor grouping of the match matrix `m`.
pub open spec fn is_greedy_grouping(m: Seq<Seq<bool>>, groups: Seq<Seq<usize>>) -> bool {
    &&& is_grouping(m.len() as int, groups)
    &&& forall|g: int, k: int|
        0 <= g < groups.len() && 0 <= k < groups[g].len() ==> greedy_owner(
            m,
            #[trigger] groups[g][k] as int,
        ) == groups[g][0]
}

/// The search for a claimer never returns below its start and never above `j`; when it
/// returns some `c < j`, `c` is an anchor that matches `j`.
proof fn lemma_claimer_bounds(m: Seq<Seq<bool>>, a: int, j: int)
    requires
        0 <= a,
    ensures
        a <= claimer_from(m, a, j) || claimer_from(m, a, j) == j,
        claimer_from(m, a, j) <= j || a > j,
        claimer_from(m, a, j) < j ==> greedy_owner(m, claimer_from(m, a, j)) == claimer_from(
            m,
            a,
            j,
        ) && m[claimer_from(m, a, j)][j],
    decreases j - a,
{
    if a >= j {
    } else if greedy_owner(m, a) == a && m[a][j] {
    } else {
        lemma_claimer_bounds(m, a + 1, j);
    }
}

/// Restarting the search at any `k` not past the result gives the same result.
proof fn lemma_claimer_skip(m: Seq<Seq<bool>>, a: int, k: int, j: int)
    requires
        0 <= a <= k <= j,
        claimer_from(m, a, j) >= k,
    ensures
        claimer_from(m, a, j) == claimer_from(m, k, j),
    decreases k - a,
{
    if a < k {
        if a >= j {
        } else if greedy_owner(m, a) == a && m[a][j] {
        } else {
            lemma_claimer_skip(m, a + 1, k, j);
        }
    }
}

/// The owner of `j` lies in `[0, j]`; an owner below `j` is an anchor.
proof fn lemma_owner_bounds(m: Seq<Seq<bool>>, j: int)
    requires
        0 <= j,
    ensures
        0 <= greedy_owner(m, j) <= j,
        greedy_owner(m, j) < j ==> greedy_owner(m, greedy_owner(m, j)) == greedy_owner(m, j),
{
    lemma_claimer_bounds(m, 0, j);
}

/// Item `j` belongs to anchor `i < j` exactly when no earlier anchor claimed it, `i` is an
/// anchor, and `i` matches `j`.
proof fn lemma_owner_step(m: Seq<Seq<bool>>, i: int, j: int)
    requires
        0 <= i < j,
    ensures
        (greedy_owner(m, j) == i) <==> (greedy_owner(m, j) >= i && greedy_owner(m, i) == i
            && m[i][j]),
{
    lemma_claimer_bounds(m, 0, j);
    if greedy_owner(m, j) >= i {
        lemma_claimer_skip(m, 0, i, j);
        lemma_claimer_bounds(m, i + 1, j);
    }
}

/// Greedy fixed-anchor grouping: each unused anchor (in index order) claims every still
/// unused item that directly matches the **fixed anchor** (no transitive merging). Returns
/// groups of indices, each with its anchor first.
pub fn greedy_groups(matches: &Vec<Vec<bool>>) -> (groups: Vec<Vec<usize>>)
    requires
        square(rows(matches)),
    ensures
        is_greedy_grouping(rows(matches), nested(&groups)),
{
    let ghost m = rows(matches);
    let n = matches.len();
    let mut used: Vec<bool> = Vec::new();
    let mut t: usize = 0;
    while t < n
        invariant
            t <= n,
            used.len() == t,
            forall|x: int| 0 <= x < t ==> !#[trigger] used@[x],
        decreases n - t,
    {
        used.push(false);
        t = t + 1;
    }
    let mut groups: Vec<Vec<usize>> = Vec::new();
    proof {
        assert forall|x: int| 0 <= x < n implies greedy_owner(m, x) >= 0 by {
            lemma_owner_bounds(m, x);
        }
    }
    let mut i: usize = 0;
    while i < n
        invariant
            m == rows(matches),
            n == m.len(),
            square(m),
            i <= n,
            used.len() == n,
            forall|x: int| 0 <= x < n ==> (#[trigger] used@[x] <==> greedy_owner(m, x) < i),
            forall|g: int| 0 <= g < nested(&groups).len() ==> #[trigger] nested(&groups)[g].len() > 0,
            forall|g: int, k: int|
                0 <= g < nested(&groups).len() && 0 <= k < nested(&groups)[g].len()
                    ==> #[trigger] nested(&groups)[g][k] < n,
            forall|g: int, k1: int, k2: int|
                0 <= g < nested(&groups).len() && 0 <= k1 < k2 < nested(&groups)[g].len()
                    ==> #[trigger] nested(&groups)[g][k1] < #[trigger] nested(&groups)[g][k2],
            forall|g1: int, g2: int|
                0 <= g1 < g2 < nested(&groups).len() ==> #[trigger] nested(&groups)[g1][0]
                    < #[trigger] nested(&groups)[g2][0],
            forall|g: int| 0 <= g < nested(&groups).len() ==> #[trigger] nested(&groups)[g][0] < i,
            forall|g: int, k: int|
                0 <= g < nested(&groups).len() && 0 <= k < nested(&groups)[g].len()
                    ==> greedy_owner(m, #[trigger] nested(&groups)[g][k] as int)
                    == nested(&groups)[g][0],
            forall|x: int|
                0 <= x < n && greedy_owner(m, x) < i ==> #[trigger] covers(nested(&groups), x),
        decreases n - i,
    {
        proof {
            lemma_owner_bounds(m, i as int);
        }
        if used[i] {
            i = i + 1;
            proof {
                assert forall|x: int| 0 <= x < n implies (#[trigger] used@[x] <==> greedy_owner(
                    m,
                    x,
                ) < i) by {
                    if x == i - 1 {
                        lemma_owner_bounds(m, x);
                    } else if greedy_owner(m, x) == i - 1 {
                        lemma_owner_bounds(m, x);
                        lemma_owner_bounds(m, i - 1);
                    }
                }
                assert forall|x: int|
                    0 <= x < n && greedy_owner(m, x) < i implies #[trigger] covers(
                    nested(&groups),
                    x,
                ) by {
                    lemma_owner_bounds(m, x);
                    lemma_owner_bounds(m, i - 1);
                }
            }
            continue;
        }
        // `i` was never claimed, so it is an anchor.
        assert(greedy_owner(m, i as int) == i);
        used.set(i, true);
        let mut group: Vec<usize> = Vec::new();
        group.push(i);
        proof {
            assert(group@[0] == i);
        }
        let mut j: usize = i + 1;
        while j < n
            invariant
                m == rows(matches),
                n == m.len(),
                square(m),
                i < j <= n,
                used.len() == n,
                greedy_owner(m, i as int) == i,
                forall|x: int|
                    0 <= x < n ==> (#[trigger] used@[x] <==> (greedy_owner(m, x) < i || (x
                        == i) || (i < x < j && greedy_owner(m, x) == i))),
                group@.len() > 0,
                group@[0] == i,
                forall|k: int| 0 <= k < group@.len() ==> i <= #[trigger] group@[k] < j,
                forall|k1: int, k2: int|
                    0 <= k1 < k2 < group@.len() ==> #[trigger] group@[k1] < #[trigger] group@[k2],
                forall|k: int|
                    0 <= k < group@.len() ==> greedy_owner(m, #[trigger] group@[k] as int) == i,
                forall|x: int|
                    i <= x < j && greedy_owner(m, x) == i ==> exists|k: int|
                        0 <= k < group@.len() && #[trigger] group@[k] == x,
            decreases n - j,
        {
            proof {
                lemma_owner_step(m, i as int, j as int);
                lemma_owner_bounds(m, j as int);
                assert(matches@[i as int]@ == m[i as int]);
                assert(m[i as int].len() == n);
            }
            if !used[j] && matches[i][j] {
                used.set(j, true);
                let ghost old_group = group@;
                group.push(j);
                proof {
                    assert(group@[old_group.len() as int] == j);
                    assert forall|x: int|
                        i <= x < j + 1 && greedy_owner(m, x) == i implies exists|k: int|
                        0 <= k < group@.len() && #[trigger] group@[k] == x by {
                        if x < j {
                            let k = choose|k: int| 0 <= k < old_group.len() && #[trigger] old_group[k] == x;
                            assert(group@[k] == x);
                        } else {
                            assert(group@[old_group.len() as int] == x);
                        }
                    }
                }
            }
            j = j + 1;
        }
        let ghost old_groups = nested(&groups);
        groups.push(group);
        proof {
            assert(nested(&groups) =~= old_groups.push(group@));
        }
        i = i + 1;
        proof {
            assert forall|x: int| 0 <= x < n implies (#[trigger] used@[x] <==> greedy_owner(
                m,
                x,
            ) < i) by {
                lemma_owner_bounds(m, x);
            }
            assert forall|x: int| 0 <= x < n && greedy_owner(m, x) < i implies #[trigger] covers(
                nested(&groups),
                x,
            ) by {
                lemma_owner_bounds(m, x);
                if greedy_owner(m, x) == i - 1 {
                    let k = choose|k: int| 0 <= k < group@.len() && #[trigger] group@[k] == x;
                    assert(nested(&groups)[old_groups.len() as int][k] == x);
                    assert(covers(nested(&groups), x));
                } else {
                    assert(covers(old_groups, x));
                    let (g, k) = choose|g: int, k: int|
                        0 <= g < old_groups.len() && 0 <= k < old_groups[g].len()
                            && #[trigger] old_groups[g][k] == x;
                    assert(nested(&groups)[g][k] == x);
                    assert(covers(nested(&groups), x));
                }
            }
        }
    }
    proof {
        assert forall|x: int| 0 <= x < n implies #[trigger] covers(nested(&groups), x) by {
            lemma_owner_bounds(m, x);
        }
    }
    groups
}

// ---------------------------------------------------------------------------------------------
// Transitive connected-component grouping
// ---------------------------------------------------------------------------------------------

/// `p` is a walk through the match graph: every step joins two matching items.
pub open spec fn is_match_path(m: Seq<Seq<bool>>, p: Seq<int>) -> bool {
    &&& p.len() > 0
    &&& forall|k: int| 0 <= k < p.len() ==> 0 <= #[trigger] p[k] < m.len()
    &&& forall|k: int| 0 <= k < p.len() - 1 ==> #[trigger] pair_matches(m, p[k], p[k + 1])
}

/// Items `a` and `b` are joined by a chain of matches (reflexive, symmetric, transitive).
pub open spec fn linked(m: Seq<Seq<bool>>, a: int, b: int) -> bool {
    exists|p: Seq<int>| is_match_path(m, p) && p[0] == a && #[trigger] p.last() == b
}

/// `groups` is exactly the set of connected components of the match graph of `m`, each
/// listed in increasing order, the components ordered by their lowest member.
pub open spec fn is_component_grouping(m: Seq<Seq<bool>>, groups: Seq<Seq<usize>>) -> bool {
    &&& is_grouping(m.len() as int, groups)
    &&& forall|g1: int, k1: int, g2: int, k2: int|
        0 <= g1 < groups.len() && 0 <= k1 < groups[g1].len() && 0 <= g2 < groups.len() && 0
            <= k2 < groups[g2].len() ==> ((g1 == g2) <==> linked(
            m,
            #[trigger] groups[g1][k1] as int,
            #[trigger] groups[g2][k2] as int,
        ))
}

proof fn lemma_linked_refl(m: Seq<Seq<bool>>, a: int)
    requires
        0 <= a < m.len(),
    ensures
        linked(m, a, a),
{
    let p = seq![a];
    assert(p.last() == a);
    assert(is_match_path(m, p));
}

proof fn lemma_linked_edge(m: Seq<Seq<bool>>, a: int, b: int)
    requires
        0 <= a < m.len(),
        0 <= b < m.len(),
        pair_matches(m, a, b),
    ensures
        linked(m, a, b),
{
    let p = seq![a, b];
    assert(p.last() == b);
    assert forall|k: int| 0 <= k < p.len() - 1 implies #[trigger] pair_matches(m, p[k], p[k + 1]) by {
        assert(k == 0);
    }
    assert(is_match_path(m, p));
}

proof fn lemma_linked_sym(m: Seq<Seq<bool>>, a: int, b: int)
    requires
        linked(m, a, b),
    ensures
        linked(m, b, a),
{
    let p = choose|p: Seq<int>| is_match_path(m, p) && p[0] == a && #[trigger] p.last() == b;
    let q = p.reverse();
    assert forall|k: int| 0 <= k < q.len() - 1 implies #[trigger] pair_matches(m, q[k], q[k + 1]) by {
        let kk = p.len() - 2 - k;
        assert(pair_matches(m, p[kk], p[kk + 1]));
        assert(q[k] == p[kk + 1]);
        assert(q[k + 1] == p[kk]);
    }
    assert forall|k: int| 0 <= k < q.len() implies 0 <= #[trigger] q[k] < m.len() by {
        assert(q[k] == p[p.len() - 1 - k]);
    }
    assert(q[0] == b);
    assert(q.last() == a);
    assert(is_match_path(m, q));
}

proof fn lemma_linked_trans(m: Seq<Seq<bool>>, a: int, b: int, c: int)
    requires
        linked(m, a, b),
        linked(m, b, c),
    ensures
        linked(m, a, c),
{
    let p = choose|p: Seq<int>| is_match_path(m, p) && p[0] == a && #[trigger] p.last() == b;
    let q = choose|q: Seq<int>| is_match_path(m, q) && q[0] == b && #[trigger] q.last() == c;
    let r = p + q.drop_first();
    assert forall|k: int| 0 <= k < r.len() implies 0 <= #[trigger] r[k] < m.len() by {
        if k < p.len() {
            assert(r[k] == p[k]);
        } else {
            assert(r[k] == q[k - p.len() + 1]);
        }
    }
    assert forall|k: int| 0 <= k < r.len() - 1 implies #[trigger] pair_matches(m, r[k], r[k + 1]) by {
        if k < p.len() - 1 {
            assert(r[k] == p[k]);
            assert(r[k + 1] == p[k + 1]);
        } else if k == p.len() - 1 {
            assert(r[k] == p[k]);
            assert(r[k + 1] == q[1]);
            assert(pair_matches(m, q[0], q[1]));
        } else {
            assert(r[k] == q[k - p.len() + 1]);
            assert(r[k + 1] == q[k - p.len() + 2]);
            assert(pair_matches(m, q[k - p.len() + 1], q[k - p.len() + 2]));
        }
    }
    if q.len() == 1 {
        assert(r =~= p);
    } else {
        assert(r.last() == q.last());
    }
    assert(r[0] == a);
    assert(is_match_path(m, r));
}

/// The union-find forest with its ghost bookkeeping: `comp[x]` is the root reached from `x`,
/// and `level` strictly increases along parent links, which bounds every walk to a root.
pub open spec fn uf_inv(parent: Seq<usize>, comp: Seq<int>, level: Seq<nat>, n: int) -> bool {
    &&& parent.len() == n
    &&& comp.len() == n
    &&& level.len() == n
    &&& forall|x: int| 0 <= x < n ==> #[trigger] parent[x] < n
    &&& forall|x: int| 0 <= x < n ==> 0 <= #[trigger] comp[x] < n
    &&& forall|x: int| 0 <= x < n ==> parent[#[trigger] comp[x]] == comp[x]
    &&& forall|x: int| 0 <= x < n ==> comp[#[trigger] parent[x] as int] == comp[x]
    &&& forall|x: int| 0 <= x < n && #[trigger] parent[x] == x ==> comp[x] == x
    &&& forall|x: int|
        0 <= x < n && #[trigger] parent[x] != x ==> level[parent[x] as int] > level[x]
    &&& forall|x: int| 0 <= x < n && #[trigger] comp[x] != x ==> level[comp[x]] > level[x]
}

/// Every level is bounded by `maxlev`.
pub open spec fn levels_bounded(level: Seq<nat>, maxlev: nat) -> bool {
    forall|x: int| 0 <= x < level.len() ==> #[trigger] level[x] <= maxlev
}

/// The node reached from `z` after `k` steps along parent links.
pub open spec fn walk(parent: Seq<usize>, z: int, k: nat) -> int
    decreases k,
{
    if k == 0 {
        z
    } else {
        walk(parent, parent[z] as int, (k - 1) as nat)
    }
}

/// `y` lies on the walk along parent links from `z` (`z` itself included).
pub open spec fn on_walk(parent: Seq<usize>, z: int, y: int) -> bool {
    exists|k: nat| #[trigger] walk(parent, z, k) == y
}

/// Walking `a` steps and then `b` more is walking `a + b` steps.
proof fn lemma_walk_add(parent: Seq<usize>, z: int, a: nat, b: nat)
    ensures
        walk(parent, z, a + b) == walk(parent, walk(parent, z, a), b),
    decreases a,
{
    if a > 0 {
        lemma_walk_add(parent, parent[z] as int, (a - 1) as nat, b);
        assert((a + b - 1) as nat == ((a - 1) as nat + b));
    }
}

/// In the forest, a walk stays in range, in the same tree, and never goes down a level.
proof fn lemma_walk_climbs(parent: Seq<usize>, comp: Seq<int>, level: Seq<nat>, n: int, z: int, k: nat)
    requires
        uf_inv(parent, comp, level, n),
        0 <= z < n,
    ensures
        0 <= walk(parent, z, k) < n,
        comp[walk(parent, z, k)] == comp[z],
        level[walk(parent, z, k)] >= level[z],
    decreases k,
{
    if k > 0 {
        let p = parent[z] as int;
        lemma_walk_climbs(parent, comp, level, n, p, (k - 1) as nat);
        if p != z {
            assert(level[p] > level[z]);
        }
    }
}

/// The walk from `z` is `z` followed by the walk from its parent.
proof fn lemma_on_walk_step(parent: Seq<usize>, z: int, y: int)
    ensures
        on_walk(parent, z, y) <==> (y == z || on_walk(parent, parent[z] as int, y)),
{
    if on_walk(parent, z, y) {
        let k = choose|k: nat| #[trigger] walk(parent, z, k) == y;
        if k > 0 {
            assert(walk(parent, parent[z] as int, (k - 1) as nat) == y);
        }
    }
    if y == z {
        assert(walk(parent, z, 0) == y);
    }
    if on_walk(parent, parent[z] as int, y) {
        let k = choose|k: nat| #[trigger] walk(parent, parent[z] as int, k) == y;
        assert(walk(parent, z, k + 1) == y);
    }
}

/// A walk from a root stays at the root.
proof fn lemma_walk_from_root(parent: Seq<usize>, r: int, k: nat)
    requires
        0 <= r < parent.len(),
        parent[r] == r,
    ensures
        walk(parent, r, k) == r,
    decreases k,
{
    if k > 0 {
        lemma_walk_from_root(parent, r, (k - 1) as nat);
    }
}

/// Union-find `find` with path compression: returns the root of `x` and points every node
/// on the walk from `x` directly at that root; every other entry is left as it was.
fn find(
    parent: &mut Vec<usize>,
    x: usize,
    Ghost(comp): Ghost<Seq<int>>,
    Ghost(level): Ghost<Seq<nat>>,
    Ghost(maxlev): Ghost<nat>,
) -> (root: usize)
    requires
        uf_inv(old(parent)@, comp, level, old(parent)@.len() as int),
        levels_bounded(level, maxlev),
        x < old(parent)@.len(),
    ensures
        root == comp[x as int],
        final(parent)@.len() == old(parent)@.len(),
        uf_inv(final(parent)@, comp, level, old(parent)@.len() as int),
        forall|y: int|
            0 <= y < old(parent)@.len() ==> #[trigger] final(parent)@[y] == if on_walk(
                old(parent)@,
                x as int,
                y,
            ) {
                root
            } else {
                old(parent)@[y]
            },
{
    let ghost n = parent@.len() as int;
    let ghost p0 = parent@;
    let mut root = x;
    while parent[root] != root
        invariant
            uf_inv(parent@, comp, level, n),
            levels_bounded(level, maxlev),
            root < n,
            comp[root as int] == comp[x as int],
            parent@ == p0,
        decreases maxlev - level[root as int],
    {
        root = parent[root];
    }
    let mut cur = x;
    proof {
        assert(walk(p0, x as int, 0) == x as int);
    }
    while parent[cur] != root
        invariant
            parent@.len() == n,
            uf_inv(parent@, comp, level, n),
            levels_bounded(level, maxlev),
            cur < n,
            root < n,
            root == comp[x as int],
            comp[cur as int] == root,
            parent@[root as int] == root,
            uf_inv(p0, comp, level, n),
            x < n,
            on_walk(p0, x as int, cur as int),
            forall|y: int|
                0 <= y < n ==> #[trigger] parent@[y] == if on_walk(p0, x as int, y) && !on_walk(
                    p0,
                    cur as int,
                    y,
                ) {
                    root
                } else {
                    p0[y]
                },
        decreases maxlev - level[cur as int],
    {
        let next = parent[cur];
        let ghost before = parent@;
        parent.set(cur, root);
        proof {
            assert(parent@ == before.update(cur as int, root));
            lemma_on_walk_step(p0, cur as int, cur as int);
            assert(before[cur as int] == p0[cur as int]);
            assert(next == p0[cur as int]);
            // `cur` is not its own root, so its parent lies a level above it, and no walk from
            // there comes back down to `cur`.
            assert(p0[cur as int] != cur);
            assert(level[next as int] > level[cur as int]);
            if on_walk(p0, next as int, cur as int) {
                let k = choose|k: nat| #[trigger] walk(p0, next as int, k) == cur as int;
                lemma_walk_climbs(p0, comp, level, n, next as int, k);
            }
            let kc = choose|k: nat| #[trigger] walk(p0, x as int, k) == cur as int;
            lemma_walk_add(p0, x as int, kc, 1);
            assert(walk(p0, next as int, 0) == next as int);
            assert(walk(p0, cur as int, 1) == next);
            assert(on_walk(p0, x as int, next as int));
            assert forall|y: int| 0 <= y < n implies #[trigger] parent@[y] == if on_walk(
                p0,
                x as int,
                y,
            ) && !on_walk(p0, next as int, y) {
                root
            } else {
                p0[y]
            } by {
                lemma_on_walk_step(p0, cur as int, y);
            }
            assert forall|y: int| 0 <= y < n implies parent@[#[trigger] comp[y]] == comp[y] by {
                if comp[y] == cur {
                    assert(before[comp[y]] == comp[y]);
                }
            }
            assert forall|y: int| 0 <= y < n implies comp[#[trigger] parent@[y] as int]
                == comp[y] by {
                if y != cur {
                    assert(parent@[y] == before[y]);
                }
            }
            assert forall|y: int| 0 <= y < n && #[trigger] parent@[y] == y implies comp[y] == y by {
                if y != cur {
                    assert(before[y] == y);
                }
            }
            assert forall|y: int| 0 <= y < n && #[trigger] parent@[y] != y implies level[parent@[y] as int] > level[y] by {
                if y != cur {
                    assert(before[y] != y);
                }
            }
        }
        cur = next;
    }
    proof {
        assert forall|y: int| 0 <= y < n implies #[trigger] parent@[y] == if on_walk(
            p0,
            x as int,
            y,
        ) {
            root
        } else {
            p0[y]
        } by {
            if on_walk(p0, x as int, y) && on_walk(p0, cur as int, y) {
                lemma_on_walk_step(p0, cur as int, y);
                lemma_on_walk_step(p0, cur as int, cur as int);
                if y != cur {
                    let k = choose|k: nat| #[trigger] walk(p0, p0[cur as int] as int, k) == y;
                    lemma_walk_from_root(p0, root as int, k);
                }
            }
        }
    }
    root
}

/// The partial match relation processed so far, up to pair `(i, j)` in row-major order.
pub open spec fn processed(a: int, b: int, i: int, j: int) -> bool {
    a < i || (a == i && b < j)
}

/// Every processed matching pair shares a root, and sharing a root implies being linked.
pub open spec fn uf_tracks(m: Seq<Seq<bool>>, comp: Seq<int>, i: int, j: int) -> bool {
    &&& forall|a: int, b: int|
        0 <= a < b < m.len() && processed(a, b, i, j) && #[trigger] m[a][b] ==> comp[a] == comp[b]
    &&& forall|x: int, y: int|
        #![trigger comp[x], comp[y]]
        0 <= x < m.len() && 0 <= y < m.len() && comp[x] == comp[y] ==> linked(m, x, y)
}

/// Along a match path, every item shares the root of the path's first item once every pair
/// has been processed.
proof fn lemma_path_same_root(m: Seq<Seq<bool>>, comp: Seq<int>, p: Seq<int>, k: int)
    requires
        square(m),
        comp.len() == m.len(),
        uf_tracks(m, comp, m.len() as int, 0),
        is_match_path(m, p),
        0 <= k < p.len(),
    ensures
        comp[p[k]] == comp[p[0]],
    decreases k,
{
    if k > 0 {
        lemma_path_same_root(m, comp, p, k - 1);
        let kk = k - 1;
        assert(pair_matches(m, p[kk], p[kk + 1]));
        assert(kk + 1 == k);
        assert(0 <= p[k - 1] < m.len());
        assert(0 <= p[k] < m.len());
        if p[k - 1] < p[k] {
            assert(m[p[k - 1]][p[k]]);
            assert(processed(p[k - 1], p[k], m.len() as int, 0));
        } else {
            assert(m[p[k]][p[k - 1]]);
            assert(processed(p[k], p[k - 1], m.len() as int, 0));
        }
    }
}

/// Once every pair has been processed, items linked by a match path share a root.
proof fn lemma_linked_same_root(m: Seq<Seq<bool>>, comp: Seq<int>, x: int, y: int)
    requires
        square(m),
        comp.len() == m.len(),
        uf_tracks(m, comp, m.len() as int, 0),
        linked(m, x, y),
    ensures
        comp[x] == comp[y],
{
    let p = choose|p: Seq<int>| is_match_path(m, p) && p[0] == x && #[trigger] p.last() == y;
    lemma_path_same_root(m, comp, p, p.len() - 1);
}

/// Transitive connected-component grouping over the match graph: items are linked when they
/// match, and each connected component becomes one group (so A-B + B-C groups {A, B, C}
/// even when A and C do not match). Returns groups of indices in ascending order.
pub fn connected_components(matches: &Vec<Vec<bool>>) -> (groups: Vec<Vec<usize>>)
    requires
        square(rows(matches)),
    ensures
        is_component_grouping(rows(matches), nested(&groups)),
{
    let ghost m = rows(matches);
    let n = matches.len();
    let mut parent: Vec<usize> = Vec::new();
    let mut t: usize = 0;
    while t < n
        invariant
            t <= n,
            parent@.len() == t,
            forall|x: int| 0 <= x < t ==> #[trigger] parent@[x] == x,
        decreases n - t,
    {
        parent.push(t);
        t = t + 1;
    }
    let ghost mut comp: Seq<int> = Seq::new(n as nat, |x: int| x);
    let ghost mut level: Seq<nat> = Seq::new(n as nat, |x: int| 0nat);
    let ghost mut maxlev: nat = 0;
    proof {
        assert forall|x: int, y: int|
            #![trigger comp[x], comp[y]]
            0 <= x < m.len() && 0 <= y < m.len() && comp[x] == comp[y] implies linked(m, x, y) by {
            lemma_linked_refl(m, x);
        }
    }
    let mut i: usize = 0;
    while i < n
        invariant
            m == rows(matches),
            n == m.len(),
            square(m),
            i <= n,
            parent@.len() == n,
            uf_inv(parent@, comp, level, n as int),
            levels_bounded(level, maxlev),
            uf_tracks(m, comp, i as int, 0),
        decreases n - i,
    {
        let mut j: usize = i + 1;
        proof {
            assert forall|a: int, b: int|
                0 <= a < b < m.len() && processed(a, b, i as int, j as int) && #[trigger] m[a][b]
                    implies comp[a] == comp[b] by {
                assert(processed(a, b, i as int, 0));
            }
        }
        while j < n
            invariant
                m == rows(matches),
                n == m.len(),
                square(m),
                i < n,
                i < j <= n,
                parent@.len() == n,
                uf_inv(parent@, comp, level, n as int),
                levels_bounded(level, maxlev),
                uf_tracks(m, comp, i as int, j as int),
            decreases n - j,
        {
            proof {
                assert(matches@[i as int]@ == m[i as int]);
                assert(m[i as int].len() == n);
            }
            if matches[i][j] {
                let ri = find(&mut parent, i, Ghost(comp), Ghost(level), Ghost(maxlev));
                let rj = find(&mut parent, j, Ghost(comp), Ghost(level), Ghost(maxlev));
                if ri != rj {
                    let ghost before = parent@;
                    let ghost old_comp = comp;
                    let ghost old_level = level;
                    let ghost old_maxlev = maxlev;
                    parent.set(ri, rj);
                    proof {
                        assert(parent@ == before.update(ri as int, rj));
                        let new_level: nat = if old_level[rj as int] > old_level[ri as int] + 1 {
                            old_level[rj as int]
                        } else {
                            (old_level[ri as int] + 1) as nat
                        };
                        comp = Seq::new(
                            n as nat,
                            |x: int|
                                if old_comp[x] == ri as int {
                                    rj as int
                                } else {
                                    old_comp[x]
                                },
                        );
                        level = old_level.update(rj as int, new_level);
                        maxlev = if maxlev > new_level {
                            maxlev
                        } else {
                            new_level
                        };
                        assert(before[rj as int] == rj);
                        assert(old_comp[rj as int] == rj);
                        assert(old_comp[ri as int] == ri);
                        assert forall|x: int| 0 <= x < n implies parent@[#[trigger] comp[x]]
                            == comp[x] by {
                            if old_comp[x] != ri {
                                assert(before[old_comp[x]] == old_comp[x]);
                            }
                        }
                        assert forall|x: int| 0 <= x < n implies comp[#[trigger] parent@[x] as int] == comp[x] by {
                            if x != ri {
                                assert(parent@[x] == before[x]);
                                assert(old_comp[before[x] as int] == old_comp[x]);
                            }
                        }
                        assert forall|x: int| 0 <= x < n && #[trigger] parent@[x] == x implies comp[x]
                            == x by {
                            if x != ri {
                                assert(before[x] == x);
                                assert(old_comp[x] == x);
                            }
                        }
                        assert forall|x: int| 0 <= x < n && #[trigger] parent@[x] != x implies level[parent@[x] as int] > level[x] by {
                            if x != ri {
                                assert(before[x] != x);
                                assert(old_level[before[x] as int] > old_level[x]);
                                if x == rj {
                                    assert(false);
                                }
                            }
                        }
                        assert forall|x: int| 0 <= x < n && #[trigger] comp[x] != x implies level[comp[x]]
                            > level[x] by {
                            if old_comp[x] == ri {
                                if x != ri {
                                    assert(old_level[ri as int] > old_level[x]);
                                }
                                assert(x != rj);
                            } else {
                                assert(old_comp[x] != x);
                                assert(old_level[old_comp[x]] > old_level[x]);
                                if x == rj {
                                    assert(false);
                                }
                            }
                        }
                        assert(uf_inv(parent@, comp, level, n as int));
                        assert forall|x: int| 0 <= x < level.len() implies #[trigger] level[x]
                            <= maxlev by {
                            assert(old_level[x] <= old_maxlev || x == rj);
                        }
                        assert forall|a: int, b: int|
                            0 <= a < b < m.len() && processed(a, b, i as int, j + 1)
                                && #[trigger] m[a][b] implies comp[a] == comp[b] by {
                            if processed(a, b, i as int, j as int) {
                                assert(old_comp[a] == old_comp[b]);
                            }
                        }
                        assert forall|x: int, y: int|
                            #![trigger comp[x], comp[y]]
                            0 <= x < m.len() && 0 <= y < m.len() && comp[x] == comp[y] implies linked(
                                m,
                                x,
                                y,
                            ) by {
                            assert(pair_matches(m, i as int, j as int));
                            lemma_linked_edge(m, i as int, j as int);
                            if old_comp[x] == ri && old_comp[y] == ri {
                                assert(old_comp[x] == old_comp[y]);
                            } else if old_comp[x] == ri {
                                // x ~ i ~ j ~ y
                                assert(old_comp[y] == rj);
                                assert(old_comp[x] == old_comp[i as int]);
                                assert(old_comp[j as int] == old_comp[y]);
                                lemma_linked_trans(m, x, i as int, j as int);
                                lemma_linked_trans(m, x, j as int, y);
                            } else if old_comp[y] == ri {
                                assert(old_comp[x] == rj);
                                assert(old_comp[y] == old_comp[i as int]);
                                assert(old_comp[j as int] == old_comp[x]);
                                lemma_linked_trans(m, y, i as int, j as int);
                                lemma_linked_trans(m, y, j as int, x);
                                lemma_linked_sym(m, y, x);
                            } else {
                                assert(old_comp[x] == old_comp[y]);
                            }
                        }
                    }
                } else {
                    proof {
                        assert forall|a: int, b: int|
                            0 <= a < b < m.len() && processed(a, b, i as int, j + 1)
                                && #[trigger] m[a][b] implies comp[a] == comp[b] by {
                            if !processed(a, b, i as int, j as int) {
                                assert(a == i && b == j);
                            }
                        }
                    }
                }
            } else {
                proof {
                    assert forall|a: int, b: int|
                        0 <= a < b < m.len() && processed(a, b, i as int, j + 1)
                            && #[trigger] m[a][b] implies comp[a] == comp[b] by {
                        if !processed(a, b, i as int, j as int) {
                            assert(a == i && b == j);
                        }
                    }
                }
            }
            j = j + 1;
        }
        i = i + 1;
        proof {
            assert forall|a: int, b: int|
                0 <= a < b < m.len() && processed(a, b, i as int, 0) && #[trigger] m[a][b]
                    implies comp[a] == comp[b] by {
                assert(processed(a, b, (i - 1) as int, n as int));
            }
        }
    }
    // Collect the components, in order of their lowest member.
    let mut group_of: Vec<Option<usize>> = Vec::new();
    let mut t: usize = 0;
    while t < n
        invariant
            t <= n,
            group_of@.len() == t,
            forall|x: int| 0 <= x < t ==> #[trigger] group_of@[x] is None,
        decreases n - t,
    {
        group_of.push(None);
        t = t + 1;
    }
    let mut groups: Vec<Vec<usize>> = Vec::new();
    let mut i: usize = 0;
    while i < n
        invariant
            m == rows(matches),
            n == m.len(),
            square(m),
            i <= n,
            parent@.len() == n,
            group_of@.len() == n,
            uf_inv(parent@, comp, level, n as int),
            levels_bounded(level, maxlev),
            uf_tracks(m, comp, n as int, 0),
            forall|g: int| 0 <= g < nested(&groups).len() ==> #[trigger] nested(&groups)[g].len() > 0,
            forall|g: int, k: int|
                0 <= g < nested(&groups).len() && 0 <= k < nested(&groups)[g].len()
                    ==> #[trigger] nested(&groups)[g][k] < i,
            forall|g: int, k1: int, k2: int|
                0 <= g < nested(&groups).len() && 0 <= k1 < k2 < nested(&groups)[g].len()
                    ==> #[trigger] nested(&groups)[g][k1] < #[trigger] nested(&groups)[g][k2],
            forall|g1: int, g2: int|
                0 <= g1 < g2 < nested(&groups).len() ==> #[trigger] nested(&groups)[g1][0]
                    < #[trigger] nested(&groups)[g2][0],
            forall|g: int, k: int|
                0 <= g < nested(&groups).len() && 0 <= k < nested(&groups)[g].len()
                    ==> comp[#[trigger] nested(&groups)[g][k] as int] == comp[nested(&groups)[g][0] as int],
            forall|g: int|
                0 <= g < nested(&groups).len() ==> group_of@[comp[#[trigger] nested(&groups)[g][0] as int]]
                    == Some(g as usize),
            forall|r: int|
                0 <= r < n && #[trigger] group_of@[r] is Some ==> group_of@[r]->0 < nested(&groups).len()
                    && comp[nested(&groups)[group_of@[r]->0 as int][0] as int] == r,
            forall|x: int| 0 <= x < i ==> #[trigger] covers(nested(&groups), x),
        decreases n - i,
    {
        let root = find(&mut parent, i, Ghost(comp), Ghost(level), Ghost(maxlev));
        let ghost old_groups = nested(&groups);
        let ghost old_group_of = group_of@;
        match group_of[root] {
            Some(g) => {
                let mut grp = groups.remove(g);
                grp.push(i);
                groups.insert(g, grp);
                proof {
                    assert(nested(&groups) =~= old_groups.update(g as int, old_groups[g as int].push(i)));
                }
            },
            None => {
                let g = groups.len();
                group_of.set(root, Some(g));
                let mut grp: Vec<usize> = Vec::new();
                grp.push(i);
                groups.push(grp);
                proof {
                    assert(nested(&groups) =~= old_groups.push(seq![i]));
                }
            },
        }
        proof {
            assert forall|x: int| 0 <= x < i + 1 implies #[trigger] covers(nested(&groups), x) by {
                if x == i {
                    let g = group_of@[root as int]->0 as int;
                    assert(nested(&groups)[g][nested(&groups)[g].len() - 1] == x);
                } else {
                    assert(covers(old_groups, x));
                    let (g, k) = choose|g: int, k: int|
                        0 <= g < old_groups.len() && 0 <= k < old_groups[g].len()
                            && #[trigger] old_groups[g][k] == x;
                    assert(nested(&groups)[g][k] == x);
                }
            }
        }
        i = i + 1;
    }
    proof {
        let gs = nested(&groups);
        assert(gs.len() == groups.len());
        assert forall|g1: int, k1: int, g2: int, k2: int|
            0 <= g1 < gs.len() && 0 <= k1 < gs[g1].len() && 0 <= g2 < gs.len() && 0 <= k2
                < gs[g2].len() implies ((g1 == g2) <==> linked(
                m,
                #[trigger] gs[g1][k1] as int,
                #[trigger] gs[g2][k2] as int,
            )) by {
            let x = gs[g1][k1] as int;
            let y = gs[g2][k2] as int;
            assert(comp[x] == comp[gs[g1][0] as int]);
            assert(comp[y] == comp[gs[g2][0] as int]);
            assert(0 <= x < n && 0 <= y < n);
            if g1 == g2 {
                assert(comp[x] == comp[y]);
                assert(linked(m, x, y));
            } else {
                if linked(m, x, y) {
                    lemma_linked_same_root(m, comp, x, y);
                    assert(group_of@[comp[gs[g1][0] as int]] == Some(g1 as usize));
                    assert(group_of@[comp[gs[g2][0] as int]] == Some(g2 as usize));
                    assert(false);
                }
            }
        }
    }
    groups
}

// ---------------------------------------------------------------------------------------------
// The match matrix and the laws of the groupings
// ---------------------------------------------------------------------------------------------

/// Whether items `i` and `j` may match: overlapping above the threshold and, when matching is
/// class aware, of the same class.
pub open spec fn gated(overlaps: Seq<Seq<bool>>, classes: Seq<u32>, class_aware: bool, i: int, j: int) -> bool {
    overlaps[i][j] && (!class_aware || classes[i] == classes[j])
}

/// Class-aware matching never matches items of different classes, whichever comes first;
/// without it, and between items of the same class, two items match exactly when they
/// overlap.
pub proof fn lemma_gate_by_class(
    overlaps: Seq<Seq<bool>>,
    classes: Seq<u32>,
    class_aware: bool,
    i: int,
    j: int,
)
    ensures
        class_aware && classes[i] != classes[j] ==> !gated(overlaps, classes, class_aware, i, j)
            && !gated(overlaps, classes, class_aware, j, i),
        !class_aware || classes[i] == classes[j] ==> gated(overlaps, classes, class_aware, i, j)
            == overlaps[i][j],
{
}

/// Build the match matrix from the per-pair overlap decisions (`overlaps[i][j]`: the overlap
/// score of `i` and `j` strictly exceeds the threshold) and the class-aware gate.
pub fn match_matrix(overlaps: &Vec<Vec<bool>>, classes: &Vec<u32>, class_aware: bool) -> (m: Vec<
    Vec<bool>,
>)
    requires
        square(rows(overlaps)),
        classes.len() == overlaps.len(),
    ensures
        rows(&m).len() == rows(overlaps).len(),
        square(rows(&m)),
        forall|i: int, j: int|
            0 <= i < rows(&m).len() && 0 <= j < rows(&m).len() ==> #[trigger] rows(&m)[i][j]
                == gated(rows(overlaps), classes@, class_aware, i, j),
        forall|i: int, j: int|
            0 <= i < rows(&m).len() && 0 <= j < rows(&m).len() && class_aware && classes@[i]
                != classes@[j] ==> !#[trigger] rows(&m)[i][j],
        forall|i: int, j: int|
            0 <= i < rows(&m).len() && 0 <= j < rows(&m).len() && (!class_aware || classes@[i]
                == classes@[j]) ==> #[trigger] rows(&m)[i][j] == rows(overlaps)[i][j],
{
    let n = overlaps.len();
    let mut m: Vec<Vec<bool>> = Vec::new();
    let mut i: usize = 0;
    while i < n
        invariant
            n == rows(overlaps).len(),
            square(rows(overlaps)),
            classes.len() == n,
            i <= n,
            m@.len() == i,
            forall|a: int| 0 <= a < i ==> #[trigger] rows(&m)[a].len() == n,
            forall|a: int, b: int|
                0 <= a < i && 0 <= b < n ==> #[trigger] rows(&m)[a][b] == gated(
                    rows(overlaps),
                    classes@,
                    class_aware,
                    a,
                    b,
                ),
        decreases n - i,
    {
        let mut row: Vec<bool> = Vec::new();
        let mut j: usize = 0;
        proof {
            assert(overlaps@[i as int]@ == rows(overlaps)[i as int]);
        }
        while j < n
            invariant
                n == rows(overlaps).len(),
                square(rows(overlaps)),
                classes.len() == n,
                i < n,
                j <= n,
                row@.len() == j,
                forall|b: int|
                    0 <= b < j ==> #[trigger] row@[b] == gated(
                        rows(overlaps),
                        classes@,
                        class_aware,
                        i as int,
                        b,
                    ),
            decreases n - j,
        {
            proof {
                assert(overlaps@[i as int]@ == rows(overlaps)[i as int]);
            }
            let v = overlaps[i][j] && (!class_aware || classes[i] == classes[j]);
            row.push(v);
            j = j + 1;
        }
        let ghost before = rows(&m);
        m.push(row);
        proof {
            assert(rows(&m) =~= before.push(row@));
        }
        i = i + 1;
    }
    m
}

/// An anchor that matches a later item claims it unless an earlier anchor already has.
proof fn lemma_anchor_claims(m: Seq<Seq<bool>>, a: int, j: int)
    requires
        0 <= a < j,
        greedy_owner(m, a) == a,
        m[a][j],
    ensures
        greedy_owner(m, j) <= a,
{
    lemma_claimer_bounds(m, 0, j);
    if greedy_owner(m, j) > a {
        lemma_claimer_skip(m, 0, a, j);
    }
}

/// NMS keeps no two items that match each other, and every suppressed or merged item
/// matches the anchor of its group: the anchors of a greedy grouping pairwise fail to match,
/// and every other member of a group matches that group's anchor.
pub proof fn lemma_greedy_anchors_never_match(m: Seq<Seq<bool>>, groups: Seq<Seq<usize>>)
    requires
        square(m),
        is_greedy_grouping(m, groups),
    ensures
        forall|g1: int, g2: int|
            0 <= g1 < groups.len() && 0 <= g2 < groups.len() && g1 != g2 ==> !pair_matches(
                m,
                #[trigger] groups[g1][0] as int,
                #[trigger] groups[g2][0] as int,
            ),
        forall|g: int, k: int|
            0 <= g < groups.len() && 0 < k < groups[g].len() ==> m[groups[g][0] as int][#[trigger] groups[g][k] as int],
{
    assert forall|g1: int, g2: int|
        0 <= g1 < groups.len() && 0 <= g2 < groups.len() && g1 != g2 implies !pair_matches(
            m,
            #[trigger] groups[g1][0] as int,
            #[trigger] groups[g2][0] as int,
        ) by {
        let a1 = groups[g1][0] as int;
        let a2 = groups[g2][0] as int;
        assert(greedy_owner(m, a1) == a1);
        assert(greedy_owner(m, a2) == a2);
        if a1 < a2 && m[a1][a2] {
            lemma_anchor_claims(m, a1, a2);
        }
        if a2 < a1 && m[a2][a1] {
            lemma_anchor_claims(m, a2, a1);
        }
    }
    assert forall|g: int, k: int|
        0 <= g < groups.len() && 0 < k < groups[g].len() implies m[groups[g][0] as int][#[trigger] groups[g][k] as int] by {
        let a = groups[g][0] as int;
        let x = groups[g][k] as int;
        assert(a < x);
        assert(greedy_owner(m, x) == a);
        lemma_claimer_bounds(m, 0, x);
    }
}

/// Greedy merging is never looser than transitive merging: every greedy group lies inside a
/// single connected component, so two items that share a greedy group share an NMM group.
pub proof fn lemma_greedy_refines_components(
    m: Seq<Seq<bool>>,
    greedy: Seq<Seq<usize>>,
    comps: Seq<Seq<usize>>,
)
    requires
        square(m),
        is_greedy_grouping(m, greedy),
        is_component_grouping(m, comps),
    ensures
        forall|g: int, k1: int, k2: int, c1: int, j1: int, c2: int, j2: int|
            0 <= g < greedy.len() && 0 <= k1 < greedy[g].len() && 0 <= k2 < greedy[g].len() && 0
                <= c1 < comps.len() && 0 <= j1 < comps[c1].len() && 0 <= c2 < comps.len() && 0
                <= j2 < comps[c2].len() && #[trigger] greedy[g][k1] == #[trigger] comps[c1][j1]
                && #[trigger] greedy[g][k2] == #[trigger] comps[c2][j2] ==> c1 == c2,
{
    lemma_greedy_anchors_never_match(m, greedy);
    assert forall|g: int, k1: int, k2: int, c1: int, j1: int, c2: int, j2: int|
        0 <= g < greedy.len() && 0 <= k1 < greedy[g].len() && 0 <= k2 < greedy[g].len() && 0
            <= c1 < comps.len() && 0 <= j1 < comps[c1].len() && 0 <= c2 < comps.len() && 0 <= j2
            < comps[c2].len() && #[trigger] greedy[g][k1] == #[trigger] comps[c1][j1]
            && #[trigger] greedy[g][k2] == #[trigger] comps[c2][j2] implies c1 == c2 by {
        let a = greedy[g][0] as int;
        let x = greedy[g][k1] as int;
        let y = greedy[g][k2] as int;
        let n = m.len();
        assert(0 <= a < n && 0 <= x < n && 0 <= y < n);
        // Every member is linked to the anchor.
        if k1 == 0 {
            lemma_linked_refl(m, a);
        } else {
            assert(m[a][x]);
            assert(a < x);
            lemma_linked_edge(m, a, x);
        }
        if k2 == 0 {
            lemma_linked_refl(m, a);
        } else {
            assert(m[a][y]);
            assert(a < y);
            lemma_linked_edge(m, a, y);
        }
        lemma_linked_sym(m, a, x);
        lemma_linked_trans(m, x, a, y);
        assert(linked(m, comps[c1][j1] as int, comps[c2][j2] as int));
    }
}

} // verus!
