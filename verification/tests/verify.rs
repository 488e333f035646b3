use ndproof::u256::U256;
use ndproof::sibling_map::SiblingMap;
use ndproof::verify::{verify_non_deletion, Committed};
use ndproof::errors::VerifyError;
use sha2::{Digest, Sha256};

const ZERO: [u8; 32] = [0u8; 32];

fn be(x: u64) -> [u8; 32] {
    let mut out = [0u8; 32];
    out[24..].copy_from_slice(&x.to_be_bytes());
    out
}

fn u(bytes: [u8; 32]) -> U256 {
    U256::from_be_bytes(bytes.to_vec())
}

/// The combination rule, written against sha2 directly: the reference the
/// library's own hashing is held to.
fn combine_ref(l: [u8; 32], r: [u8; 32]) -> [u8; 32] {
    if l == ZERO {
        r
    } else if r == ZERO {
        l
    } else {
        let mut hasher = Sha256::new();
        hasher.update(l);
        hasher.update(r);
        hasher.finalize().into()
    }
}

/// Reference full-tree root: reduce every level of a complete leaf array.
fn full_tree_root(leaves: &[[u8; 32]]) -> [u8; 32] {
    let mut level: Vec<[u8; 32]> = leaves.to_vec();
    while level.len() > 1 {
        level = level.chunks(2).map(|p| combine_ref(p[0], p[1])).collect();
    }
    level[0]
}

#[test]
fn single_key_scenario_publishes_zero_then_seven() {
    // depth 2, four leaf slots all default; the batch fills slot 1 with 7.
    let mut level0 = SiblingMap::new();
    level0.insert(0, U256::zero());
    let mut level1 = SiblingMap::new();
    level1.insert(1, U256::zero());
    let levels = vec![level0, level1];
    let keys = vec![1u32];
    let values = vec![U256::from_u64(7)];
    let r = verify_non_deletion(&levels, &U256::zero(), &U256::from_u64(7), &keys, &values, 2);
    assert_eq!(
        r,
        Ok(Committed { root1: U256::zero(), root2: U256::from_u64(7), batch_size: 1 })
    );
}

#[test]
fn single_key_scenario_with_wrong_old_root_reports_both_values() {
    let mut level0 = SiblingMap::new();
    level0.insert(0, U256::zero());
    let mut level1 = SiblingMap::new();
    level1.insert(1, U256::zero());
    let levels = vec![level0, level1];
    let keys = vec![1u32];
    let values = vec![U256::from_u64(7)];
    let r = verify_non_deletion(&levels, &U256::from_u64(1), &U256::from_u64(7), &keys, &values, 2);
    match r {
        Err(VerifyError::Root1Mismatch { computed, expected }) => {
            assert_eq!(computed, U256::zero());
            assert_eq!(expected, U256::from_u64(1));
        }
        other => panic!("expected a root 1 mismatch, got {:?}", other),
    }
}

#[test]
fn wrong_new_root_reports_both_values() {
    let levels = vec![SiblingMap::new(), SiblingMap::new()];
    let keys = vec![1u32];
    let values = vec![U256::from_u64(7)];
    let r = verify_non_deletion(&levels, &U256::zero(), &U256::from_u64(8), &keys, &values, 2);
    match r {
        Err(VerifyError::Root2Mismatch { computed, expected }) => {
            assert_eq!(computed, U256::from_u64(7));
            assert_eq!(expected, U256::from_u64(8));
        }
        other => panic!("expected a root 2 mismatch, got {:?}", other),
    }
}

#[test]
fn honest_roots_from_reference_tree_verify() {
    // depth 3, eight slots.  The old tree already holds values at slots 0
    // and 5; the batch fills the previously-empty slots 2 and 6.
    let mut old_leaves = [ZERO; 8];
    old_leaves[0] = be(11);
    old_leaves[5] = be(22);
    let mut new_leaves = old_leaves;
    new_leaves[2] = be(33);
    new_leaves[6] = be(44);
    let old_root = full_tree_root(&old_leaves);
    let new_root = full_tree_root(&new_leaves);

    // Siblings the reduction of keys {2, 6} needs and cannot derive:
    // leaf siblings 3 and 7 are empty (left absent); at the next level the
    // pair parents 1 and 3 need nodes 0 and 2 of that level.
    let level0 = SiblingMap::new();
    let mut level1 = SiblingMap::new();
    level1.insert(0, u(combine_ref(old_leaves[0], old_leaves[1])));
    level1.insert(2, u(combine_ref(old_leaves[4], old_leaves[5])));
    let level2 = SiblingMap::new();
    let levels = vec![level0, level1, level2];

    let keys = vec![2u32, 6u32];
    let values = vec![u(be(33)), u(be(44))];
    let r = verify_non_deletion(&levels, &u(old_root), &u(new_root), &keys, &values, 3);
    assert_eq!(
        r,
        Ok(Committed { root1: u(old_root), root2: u(new_root), batch_size: 2 })
    );
}

#[test]
fn one_mutated_sibling_value_fails_with_a_root_mismatch() {
    let mut old_leaves = [ZERO; 8];
    old_leaves[0] = be(11);
    old_leaves[5] = be(22);
    let mut new_leaves = old_leaves;
    new_leaves[2] = be(33);
    new_leaves[6] = be(44);
    let old_root = full_tree_root(&old_leaves);
    let new_root = full_tree_root(&new_leaves);

    let level0 = SiblingMap::new();
    let mut level1 = SiblingMap::new();
    // One supplied sibling value is off by one bit of its last byte.
    let mut mutated = combine_ref(old_leaves[0], old_leaves[1]);
    mutated[31] ^= 1;
    level1.insert(0, u(mutated));
    level1.insert(2, u(combine_ref(old_leaves[4], old_leaves[5])));
    let levels = vec![level0, level1, SiblingMap::new()];

    let keys = vec![2u32, 6u32];
    let values = vec![u(be(33)), u(be(44))];
    let r = verify_non_deletion(&levels, &u(old_root), &u(new_root), &keys, &values, 3);
    match r {
        Err(VerifyError::Root1Mismatch { computed, expected }) => {
            assert_ne!(computed, expected);
            assert_eq!(expected, u(old_root));
        }
        other => panic!("expected a root 1 mismatch, got {:?}", other),
    }
}

#[test]
fn an_omitted_nonzero_sibling_is_silently_treated_as_empty() {
    // A proof that leaves out a non-default sibling is not refused as
    // incomplete: the absent index is read as the default value, the
    // reduction stays internally consistent, and the verification fails
    // only later, at the root comparison.
    let mut old_leaves = [ZERO; 8];
    old_leaves[0] = be(11);
    old_leaves[5] = be(22);
    let mut new_leaves = old_leaves;
    new_leaves[2] = be(33);
    new_leaves[6] = be(44);
    let old_root = full_tree_root(&old_leaves);
    let new_root = full_tree_root(&new_leaves);

    // The honest proof would also hold node 0 of the second level; omit it.
    let mut level1 = SiblingMap::new();
    level1.insert(2, u(combine_ref(old_leaves[4], old_leaves[5])));
    let levels = vec![SiblingMap::new(), level1, SiblingMap::new()];

    let keys = vec![2u32, 6u32];
    let values = vec![u(be(33)), u(be(44))];
    let r = verify_non_deletion(&levels, &u(old_root), &u(new_root), &keys, &values, 3);
    assert!(matches!(r, Err(VerifyError::Root1Mismatch { .. })));
}

#[test]
fn adjacent_keys_verify_with_or_without_redundant_sibling_entries() {
    // Both keys of the batch share one parent at depth 1: the proof need
    // not mention either leaf, and mentioning both changes nothing.
    let keys = vec![2u32, 3u32];
    let values = vec![U256::from_u64(5), U256::from_u64(9)];
    let new_root = u(combine_ref(be(5), be(9)));

    let bare = vec![SiblingMap::new(), SiblingMap::new()];
    let r_bare = verify_non_deletion(&bare, &U256::zero(), &new_root, &keys, &values, 2);

    let mut redundant_level0 = SiblingMap::new();
    redundant_level0.insert(2, U256::from_u64(5));
    redundant_level0.insert(3, U256::from_u64(9));
    let redundant = vec![redundant_level0, SiblingMap::new()];
    let r_redundant = verify_non_deletion(&redundant, &U256::zero(), &new_root, &keys, &values, 2);

    assert_eq!(r_bare, r_redundant);
    assert_eq!(
        r_bare,
        Ok(Committed { root1: U256::zero(), root2: new_root.dup(), batch_size: 2 })
    );
}

#[test]
fn proof_shorter_than_depth_is_a_structural_error() {
    // depth - 1 levels: refused before any reduction or hashing.
    let levels = vec![SiblingMap::new()];
    let keys = vec![1u32];
    let values = vec![U256::from_u64(7)];
    let r = verify_non_deletion(&levels, &U256::zero(), &U256::from_u64(7), &keys, &values, 2);
    assert_eq!(r, Err(VerifyError::ProofLengthMismatch));
}

#[test]
fn mismatched_key_and_value_counts_are_refused() {
    let levels = vec![SiblingMap::new()];
    let keys = vec![1u32];
    let values: Vec<U256> = Vec::new();
    let r = verify_non_deletion(&levels, &U256::zero(), &U256::zero(), &keys, &values, 1);
    assert_eq!(r, Err(VerifyError::LengthMismatch));
}

#[test]
fn an_empty_batch_is_refused() {
    let levels = vec![SiblingMap::new()];
    let keys: Vec<u32> = Vec::new();
    let values: Vec<U256> = Vec::new();
    let r = verify_non_deletion(&levels, &U256::zero(), &U256::zero(), &keys, &values, 1);
    assert_eq!(r, Err(VerifyError::EmptyBatch));
}

#[test]
fn zero_depth_is_refused() {
    let levels: Vec<SiblingMap> = Vec::new();
    let keys = vec![0u32];
    let values = vec![U256::from_u64(7)];
    let r = verify_non_deletion(&levels, &U256::zero(), &U256::zero(), &keys, &values, 0);
    assert_eq!(r, Err(VerifyError::ZeroDepth));
}
