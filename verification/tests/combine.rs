use sahi::combine::{connected_components, greedy_groups, match_matrix};
use sahi::postprocess::{merge_plan, MatchMetric, PostprocessType};

/// A symmetric match matrix over `n` items with the given matching pairs.
fn matrix(n: usize, pairs: &[(usize, usize)]) -> Vec<Vec<bool>> {
    let mut m = vec![vec![false; n]; n];
    for &(a, b) in pairs {
        m[a][b] = true;
        m[b][a] = true;
    }
    m
}

#[test]
fn greedy_groups_claim_only_direct_matches_of_the_anchor() {
    // A-B and B-C match, A-C do not: A claims B, C stays on its own.
    let m = matrix(3, &[(0, 1), (1, 2)]);
    assert_eq!(greedy_groups(&m), vec![vec![0, 1], vec![2]]);
}

#[test]
fn connected_components_merge_chains_transitively() {
    let m = matrix(3, &[(0, 1), (1, 2)]);
    assert_eq!(connected_components(&m), vec![vec![0, 1, 2]]);
}

#[test]
fn connected_components_of_disjoint_items_are_singletons() {
    let m = matrix(4, &[]);
    assert_eq!(connected_components(&m), vec![vec![0], vec![1], vec![2], vec![3]]);
    assert_eq!(greedy_groups(&m), vec![vec![0], vec![1], vec![2], vec![3]]);
}

#[test]
fn connected_components_list_groups_by_lowest_member() {
    // {0, 3} and {1, 2, 4}.
    let m = matrix(5, &[(0, 3), (1, 4), (2, 4)]);
    assert_eq!(connected_components(&m), vec![vec![0, 3], vec![1, 2, 4]]);
}

#[test]
fn greedy_anchor_that_is_claimed_cannot_claim_others() {
    // 0 claims 1 and 2; 3 matches 1 only, so it is not claimed and anchors itself.
    let m = matrix(4, &[(0, 1), (0, 2), (1, 3)]);
    assert_eq!(greedy_groups(&m), vec![vec![0, 1, 2], vec![3]]);
    assert_eq!(connected_components(&m), vec![vec![0, 1, 2, 3]]);
}

#[test]
fn empty_input_gives_no_groups() {
    let m: Vec<Vec<bool>> = Vec::new();
    assert!(greedy_groups(&m).is_empty());
    assert!(connected_components(&m).is_empty());
}

#[test]
fn match_matrix_gates_by_class_when_class_aware() {
    let overlaps = matrix(3, &[(0, 1), (0, 2)]);
    let classes = vec![1, 1, 2];
    let aware = match_matrix(&overlaps, &classes, true);
    assert!(aware[0][1]);
    assert!(!aware[0][2]);
    let agnostic = match_matrix(&overlaps, &classes, false);
    assert!(agnostic[0][1]);
    assert!(agnostic[0][2]);
}

#[test]
fn merge_plan_per_postprocess_type() {
    let m = matrix(4, &[(0, 1), (1, 2)]);
    assert_eq!(merge_plan(PostprocessType::NMM, &m), vec![vec![0, 1, 2], vec![3]]);
    assert_eq!(merge_plan(PostprocessType::GREEDYNMM, &m), vec![vec![0, 1], vec![2], vec![3]]);
    assert_eq!(merge_plan(PostprocessType::NMS, &m), vec![vec![0], vec![2], vec![3]]);
}

#[test]
fn nms_keeps_no_two_matching_items() {
    let m = matrix(6, &[(0, 1), (0, 4), (2, 3), (3, 5), (1, 5)]);
    let kept: Vec<usize> = merge_plan(PostprocessType::NMS, &m).into_iter().map(|g| g[0]).collect();
    for &a in &kept {
        for &b in &kept {
            assert!(a == b || !m[a][b]);
        }
    }
    assert_eq!(kept, vec![0, 2, 5]);
}

#[test]
fn postprocess_defaults() {
    assert_eq!(PostprocessType::default(), PostprocessType::GREEDYNMM);
    assert_eq!(MatchMetric::default(), MatchMetric::IOU);
}
