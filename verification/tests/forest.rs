use ndproof::u256::U256;
use ndproof::sibling_map::SiblingMap;
use ndproof::forest::compute_forest;
use ndproof::errors::VerifyError;

fn leaf(k: u32, v: u64) -> (u32, U256) {
    (k, U256::from_u64(v))
}

#[test]
fn missing_level_is_reported_with_its_index() {
    let levels: Vec<SiblingMap> = vec![SiblingMap::new()];
    let leaves = vec![leaf(0, 5)];
    let r = compute_forest(&levels, &leaves, 2);
    assert_eq!(r, Err(VerifyError::MissingLevel(1)));

    let no_levels: Vec<SiblingMap> = Vec::new();
    let r2 = compute_forest(&no_levels, &leaves, 1);
    assert_eq!(r2, Err(VerifyError::MissingLevel(0)));
}

#[test]
fn extra_levels_beyond_depth_are_ignored() {
    let levels: Vec<SiblingMap> = vec![SiblingMap::new(), SiblingMap::new(), SiblingMap::new()];
    let leaves = vec![leaf(1, 7)];
    let r = compute_forest(&levels, &leaves, 2).unwrap();
    assert_eq!(r, U256::from_u64(7));
}

#[test]
fn single_nonzero_leaf_propagates_through_default_siblings() {
    let levels: Vec<SiblingMap> = vec![SiblingMap::new(), SiblingMap::new(), SiblingMap::new()];
    let leaves = vec![leaf(5, 42)];
    let r = compute_forest(&levels, &leaves, 3).unwrap();
    assert_eq!(r, U256::from_u64(42));
}

#[test]
fn reduction_is_deterministic_across_calls() {
    let mut level0 = SiblingMap::new();
    level0.insert(0, U256::from_u64(9));
    let levels = vec![level0, SiblingMap::new()];
    let leaves = vec![leaf(1, 3), leaf(2, 4)];
    let first = compute_forest(&levels, &leaves, 2).unwrap();
    let second = compute_forest(&levels, &leaves, 2).unwrap();
    assert_eq!(first, second);
}

#[test]
fn reduction_depends_only_on_the_sorted_frontier() {
    // Assemble the same frontier two ways: directly in order, and from
    // unordered parts sorted afterwards.  The reduced root must agree.
    let levels = vec![SiblingMap::new(), SiblingMap::new()];
    let direct = vec![leaf(0, 10), leaf(2, 20), leaf(3, 30)];
    let mut assembled = vec![leaf(3, 30), leaf(0, 10), leaf(2, 20)];
    assembled.sort_by_key(|p| p.0);
    let a = compute_forest(&levels, &direct, 2).unwrap();
    let b = compute_forest(&levels, &assembled, 2).unwrap();
    assert_eq!(a, b);
}

#[test]
fn highest_leaf_slot_at_full_key_width_reduces() {
    // depth 32: the tree has 2^32 slots and the last one is u32::MAX, a
    // right child at every level on the way up.
    let levels: Vec<SiblingMap> = (0..32).map(|_| SiblingMap::new()).collect();
    let leaves = vec![leaf(u32::MAX, 6)];
    let r = compute_forest(&levels, &leaves, 32).unwrap();
    assert_eq!(r, U256::from_u64(6));
}

#[test]
fn depth_beyond_key_width_keeps_reducing_through_default_levels() {
    let levels: Vec<SiblingMap> = (0..40).map(|_| SiblingMap::new()).collect();
    let leaves = vec![leaf(123, 9)];
    let r = compute_forest(&levels, &leaves, 40).unwrap();
    assert_eq!(r, U256::from_u64(9));
}

#[test]
fn adjacent_pair_merges_with_or_without_redundant_proof_entries() {
    // Both children of one parent stand in the batch; the level map must
    // not be consulted for them, so redundant entries change nothing.
    let leaves = vec![leaf(2, 5), leaf(3, 9)];

    let bare = vec![SiblingMap::new(), SiblingMap::new()];
    let root_bare = compute_forest(&bare, &leaves, 2).unwrap();

    let mut redundant_level0 = SiblingMap::new();
    redundant_level0.insert(2, U256::from_u64(5));
    redundant_level0.insert(3, U256::from_u64(9));
    let redundant = vec![redundant_level0, SiblingMap::new()];
    let root_redundant = compute_forest(&redundant, &leaves, 2).unwrap();

    assert_eq!(root_bare, root_redundant);

    // Even a wrong value at a covered index is never read.
    let mut junk_level0 = SiblingMap::new();
    junk_level0.insert(3, U256::from_u64(999));
    let junk = vec![junk_level0, SiblingMap::new()];
    let root_junk = compute_forest(&junk, &leaves, 2).unwrap();
    assert_eq!(root_bare, root_junk);
}
