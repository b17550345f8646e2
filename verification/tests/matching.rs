use kineprism::matching::{
    bounds_offset, floor_div, group_by_owner, mutual_best_pairs, signed_difference, within_local_offset, within_pairing_budget,
    Proposal, ProposalBuckets,
};
use kineprism::report::{Bounds, Offset};

#[test]
fn local_limit_is_relative_to_global_alignment() {
    assert!(within_local_offset(Offset { x: 135, y: -20 }, Offset { x: 125, y: -20 }, 10));
    assert!(!within_local_offset(Offset { x: 136, y: -20 }, Offset { x: 125, y: -20 }, 10));
}

#[test]
fn pairing_budget_bounds_total_candidate_inspections() {
    assert!(within_pairing_budget(256, 256));
    assert!(!within_pairing_budget(257, 256));
    assert!(!within_pairing_budget(1, 513));
    assert!(!within_pairing_budget(usize::MAX, usize::MAX));
}

#[test]
fn offsets_between_bounds_are_signed_and_saturated() {
    let a = Bounds { x: 10, y: 50, width: 1, height: 1 };
    let b = Bounds { x: 4, y: 60, width: 1, height: 1 };
    assert_eq!(bounds_offset(a, b), Offset { x: -6, y: 10 });
    assert_eq!(signed_difference(u32::MAX, 0), i32::MAX);
    assert_eq!(signed_difference(0, u32::MAX), i32::MIN);
    assert_eq!(floor_div(-1, 16), -1);
    assert_eq!(floor_div(33, 16), 2);
}

#[test]
fn buckets_return_proposals_in_the_surrounding_cells() {
    let proposals = [
        Proposal { bounds: Bounds { x: 5, y: 5, width: 2, height: 2 } },
        Proposal { bounds: Bounds { x: 40, y: 5, width: 2, height: 2 } },
        Proposal { bounds: Bounds { x: 17, y: 20, width: 2, height: 2 } },
        Proposal { bounds: Bounds { x: 100, y: 100, width: 2, height: 2 } },
    ];
    let buckets = ProposalBuckets::new(&proposals, 16);
    assert_eq!(buckets.near(10, 10), vec![0, 2]);
    assert_eq!(buckets.near(-20, -20), Vec::<usize>::new());
}

#[test]
fn mutual_best_pairs_keep_only_reciprocal_choices() {
    // candidates: (expected, actual)
    let candidate_expected = [0usize, 1, 1];
    let candidate_actual = [0usize, 0, 1];
    // expected 0 prefers candidate 0 (actual 0); expected 1 prefers candidate 1 (actual 0).
    let expected_rankings = vec![vec![0usize], vec![1usize, 2]];
    // actual 0 prefers candidate 0 (expected 0); actual 1 prefers candidate 2 (expected 1).
    let actual_rankings = vec![vec![0usize, 1], vec![2usize]];
    let pairs = mutual_best_pairs(
        &candidate_expected,
        &candidate_actual,
        &expected_rankings,
        &actual_rankings,
        &[true, false],
        &[false, false],
    );
    assert_eq!(pairs, vec![(0, true)]);
}

#[test]
fn mutual_best_pairs_skip_empty_rankings() {
    let pairs = mutual_best_pairs(&[0usize], &[0usize], &vec![vec![], vec![]], &vec![vec![0usize]], &[false, false], &[false]);
    assert!(pairs.is_empty());
}

#[test]
fn candidates_are_grouped_by_owner_in_order() {
    let groups = group_by_owner(&[2, 0, 2, 1, 0], 4);
    assert_eq!(groups, vec![vec![1, 4], vec![3], vec![0, 2], vec![]]);
}
