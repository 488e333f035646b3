//! The non-deletion verifier: two reductions over one shared sibling proof.
//!
//! The reducer runs once with all-default leaf values and once with the
//! batch's real values.  Because both runs consume the very same sibling
//! values, they agree on every path outside the batch's keys, so the pair
//! of roots matches the claimed `old_root` and `new_root` exactly when the
//! batch filled previously-empty slots and nothing else moved.

use vstd::prelude::*;
use crate::u256::{U256, zero_node};
use crate::forest::{
    compute_forest, frontier_honest, frontier_view, frontier_wf, levels_view, map_honest,
    reduce_root, reduce_upto, subtree_root, lemma_honest_reduction_reaches_full_root,
};
use crate::sibling_map::SiblingMap;
use crate::errors::VerifyError;
use vstd::arithmetic::power2::pow2;

verus! {

/// The batch record a verification consumes, as handed over by an external
/// decoder: the claimed roots, the sorted batch, the per-level sibling
/// proof (leaf level first) and the tree depth.
pub struct InputData2 {
    pub old_root: U256,
    pub new_root: U256,
    pub keys: Vec<u32>,
    pub values: Vec<U256>,
    pub siblings: Vec<SiblingMap>,
    pub depth: u32,
}

/// The public outputs of a successful verification, in publish order: the
/// two checked roots, then the batch size.
#[derive(Debug, PartialEq, Eq)]
pub struct Committed {
    pub root1: U256,
    pub root2: U256,
    pub batch_size: u32,
}

/// Batch keys strictly ascending: sorted, and unique.
pub open spec fn keys_sorted(keys: Seq<u32>) -> bool {
    forall|i: int, j: int| 0 <= i < j < keys.len() ==> keys[i] < keys[j]
}

/// Every batch key names one of the `2^depth` leaf slots.
pub open spec fn keys_in_range(keys: Seq<u32>, depth: nat) -> bool {
    forall|i: int| 0 <= i < keys.len() ==> (keys[i] as nat) < pow2(depth)
}

/// The leaf frontier of the old state: every batch key empty.
pub open spec fn empty_frontier(keys: Seq<u32>) -> Seq<(nat, Seq<u8>)> {
    Seq::new(keys.len(), |i: int| (keys[i] as nat, zero_node()))
}

/// The leaf frontier of the new state: every batch key filled with its value.
pub open spec fn filled_frontier(keys: Seq<u32>, values: Seq<U256>) -> Seq<(nat, Seq<u8>)> {
    Seq::new(keys.len(), |i: int| (keys[i] as nat, values[i]@))
}

/// The structural preconditions of a batch: equal key and value counts, a
/// non-empty batch, one proof level per tree level, and a positive depth.
pub open spec fn structural_ok(
    n_keys: nat,
    n_values: nat,
    n_levels: nat,
    depth: u32,
) -> bool {
    n_keys == n_values && n_keys > 0 && n_levels == depth && depth > 0
}

/// The root of the old state, reduced from all-default leaves.
pub open spec fn spec_root1(levels: Seq<SiblingMap>, keys: Seq<u32>, depth: u32) -> Seq<u8> {
    reduce_root(levels_view(levels), empty_frontier(keys), depth as nat)
}

/// The root of the new state, reduced from the filled leaves.
pub open spec fn spec_root2(
    levels: Seq<SiblingMap>,
    keys: Seq<u32>,
    values: Seq<U256>,
    depth: u32,
) -> Seq<u8> {
    reduce_root(levels_view(levels), filled_frontier(keys, values), depth as nat)
}

/// An honestly produced batch reduces to the reference full-tree roots.
/// When the old state's full tree is empty at every batch key, the new
/// state's full tree holds exactly the batch's values there, and the one
/// shared sibling proof answers true subtree values at every index outside
/// each round's frontier, the two reductions reach the two full trees'
/// roots — so by the verifier's contract a claim of those roots succeeds.
pub proof fn lemma_honest_batch_roots(
    levels: Seq<SiblingMap>,
    keys: Seq<u32>,
    values: Seq<U256>,
    depth: u32,
    lv_old: spec_fn(nat) -> Seq<u8>,
    lv_new: spec_fn(nat) -> Seq<u8>,
)
    requires
        keys_sorted(keys),
        keys.len() >= 1,
        values.len() == keys.len(),
        depth > 0,
        keys_in_range(keys, depth as nat),
        forall|i: int| 0 <= i < keys.len() ==> lv_old(keys[i] as nat) == zero_node(),
        forall|i: int| 0 <= i < keys.len() ==> lv_new(keys[i] as nat) == values[i]@,
        forall|q: nat| q < depth ==> map_honest(
            levels_view(levels)[q as int],
            reduce_upto(levels_view(levels), empty_frontier(keys), q),
            lv_old,
            q,
        ),
        forall|q: nat| q < depth ==> map_honest(
            levels_view(levels)[q as int],
            reduce_upto(levels_view(levels), filled_frontier(keys, values), q),
            lv_new,
            q,
        ),
    ensures
        spec_root1(levels, keys, depth) == subtree_root(lv_old, 0, depth as nat),
        spec_root2(levels, keys, values, depth) == subtree_root(lv_new, 0, depth as nat),
{
    assert(frontier_wf(empty_frontier(keys), depth as nat));
    assert(frontier_wf(filled_frontier(keys, values), depth as nat));
    assert(frontier_honest(empty_frontier(keys), lv_old, 0));
    assert(frontier_honest(filled_frontier(keys, values), lv_new, 0));
    lemma_honest_reduction_reaches_full_root(
        levels_view(levels),
        empty_frontier(keys),
        lv_old,
        depth as nat,
    );
    lemma_honest_reduction_reaches_full_root(
        levels_view(levels),
        filled_frontier(keys, values),
        lv_new,
        depth as nat,
    );
}

/// Verifies a non-deletion batch update.
///
/// Structural violations are refused before any reduction, in the order
/// given by the ensures clauses.  Then the old-state root is reduced and
/// held against `old_root`, the new-state root against `new_root`; the
/// first mismatch is reported with both values.  Only full success returns
/// the committed outputs, so nothing partial can ever be published.
pub fn verify_non_deletion(
    levels: &Vec<SiblingMap>,
    old_root: &U256,
    new_root: &U256,
    keys: &Vec<u32>,
    values: &Vec<U256>,
    depth: u32,
) -> (r: Result<Committed, VerifyError>)
    requires
        keys_sorted(keys@),
        keys@.len() <= u32::MAX,
        depth > 0 ==> keys_in_range(keys@, depth as nat),
    ensures
        keys@.len() != values@.len() ==> r == Err::<Committed, VerifyError>(
            VerifyError::LengthMismatch,
        ),
        keys@.len() == values@.len() && keys@.len() == 0 ==> r == Err::<Committed, VerifyError>(
            VerifyError::EmptyBatch,
        ),
        keys@.len() == values@.len() && keys@.len() > 0 && levels@.len() != depth ==> r == Err::<
            Committed,
            VerifyError,
        >(VerifyError::ProofLengthMismatch),
        keys@.len() == values@.len() && keys@.len() > 0 && levels@.len() == depth && depth == 0
            ==> r == Err::<Committed, VerifyError>(VerifyError::ZeroDepth),
        structural_ok(keys@.len(), values@.len(), levels@.len(), depth) && spec_root1(
            levels@,
            keys@,
            depth,
        ) != old_root@ ==> (r matches Err(e) && (e matches VerifyError::Root1Mismatch {
            computed,
            expected,
        } && computed@ == spec_root1(levels@, keys@, depth) && expected@ == old_root@)),
        structural_ok(keys@.len(), values@.len(), levels@.len(), depth) && spec_root1(
            levels@,
            keys@,
            depth,
        ) == old_root@ && spec_root2(levels@, keys@, values@, depth) != new_root@ ==> (r matches
            Err(e) && (e matches VerifyError::Root2Mismatch { computed, expected } && computed@
            == spec_root2(levels@, keys@, values@, depth) && expected@ == new_root@)),
        structural_ok(keys@.len(), values@.len(), levels@.len(), depth) && spec_root1(
            levels@,
            keys@,
            depth,
        ) == old_root@ && spec_root2(levels@, keys@, values@, depth) == new_root@ ==> (r matches
            Ok(c) && c.root1@ == old_root@ && c.root2@ == new_root@ && c.batch_size
            == keys@.len()),
{
    if keys.len() != values.len() {
        return Err(VerifyError::LengthMismatch);
    }
    if keys.len() == 0 {
        return Err(VerifyError::EmptyBatch);
    }
    if levels.len() != depth as usize {
        return Err(VerifyError::ProofLengthMismatch);
    }
    if depth == 0 {
        return Err(VerifyError::ZeroDepth);
    }
    let n = keys.len();
    let mut p1_leaves: Vec<(u32, U256)> = Vec::new();
    let mut key_values: Vec<(u32, U256)> = Vec::new();
    let mut i: usize = 0;
    while i < n
        invariant
            i <= n,
            n == keys@.len(),
            n == values@.len(),
            p1_leaves@.len() == i,
            key_values@.len() == i,
            forall|j: int|
                0 <= j < i ==> p1_leaves@[j].0 == keys@[j] && p1_leaves@[j].1@ == zero_node(),
            forall|j: int|
                0 <= j < i ==> key_values@[j].0 == keys@[j] && key_values@[j].1@ == values@[j]@,
        decreases n - i,
    {
        p1_leaves.push((keys[i], U256::zero()));
        key_values.push((keys[i], values[i].dup()));
        i += 1;
    }
    proof {
        assert(frontier_view(p1_leaves@) =~= empty_frontier(keys@));
        assert(frontier_view(key_values@) =~= filled_frontier(keys@, values@));
        assert(frontier_wf(empty_frontier(keys@), depth as nat));
        assert(frontier_wf(filled_frontier(keys@, values@), depth as nat));
    }
    let r1 = compute_forest(levels, &p1_leaves, depth).unwrap();
    if !r1.eq_val(old_root) {
        return Err(VerifyError::Root1Mismatch { computed: r1, expected: old_root.dup() });
    }
    let r2 = compute_forest(levels, &key_values, depth).unwrap();
    if !r2.eq_val(new_root) {
        return Err(VerifyError::Root2Mismatch { computed: r2, expected: new_root.dup() });
    }
    Ok(Committed { root1: r1, root2: r2, batch_size: n as u32 })
}

} // verus!
