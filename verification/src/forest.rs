//! The sparse-forest reducer: bottom-up reduction of a sorted frontier of
//! `(index, value)` pairs to a single root value, consuming one sibling map
//! per tree level, from the leaf level up to just below the root.
//!
//! At each level every frontier entry is paired with its sibling: with the
//! next frontier entry when that entry is exactly the right sibling of a
//! left child (both values are then already known in memory), otherwise
//! with the level map's value for the sibling index, or the default value
//! when the map holds none.  Parent indices preserve the relative order of
//! distinct parents, so a sorted frontier stays sorted and, after `depth`
//! rounds, exactly one pair remains: the root.

use vstd::prelude::*;
use vstd::arithmetic::power2::{pow2, lemma_pow2_unfold, lemma_pow2_pos, lemma2_to64};
use vstd::arithmetic::div_mod::lemma_fundamental_div_mod;
use crate::u256::{U256, zero_node};
use crate::hash::{combine, hash2};
use crate::sibling_map::SiblingMap;
use crate::errors::VerifyError;

verus! {

/// The sibling value a level map answers for an index: the stored value,
/// or the default value for an index the map does not hold.
pub open spec fn lookup(m: Map<nat, Seq<u8>>, k: nat) -> Seq<u8> {
    if m.contains_key(k) {
        m[k]
    } else {
        zero_node()
    }
}

/// One reduction round: the frontier one level up, walked left to right.
pub open spec fn reduce_level(m: Map<nat, Seq<u8>>, f: Seq<(nat, Seq<u8>)>) -> Seq<(nat, Seq<u8>)>
    decreases f.len(),
{
    if f.len() == 0 {
        Seq::empty()
    } else {
        let k = f[0].0;
        let v = f[0].1;
        if k % 2 == 0 {
            if f.len() >= 2 && f[1].0 == k + 1 {
                seq![(k / 2, combine(v, f[1].1))] + reduce_level(m, f.skip(2))
            } else {
                seq![(k / 2, combine(v, lookup(m, k + 1)))] + reduce_level(m, f.skip(1))
            }
        } else {
            seq![(k / 2, combine(lookup(m, (k - 1) as nat), v))] + reduce_level(m, f.skip(1))
        }
    }
}

/// The frontier after the first `r` reduction rounds, round `i` consuming
/// the sibling map `levels[i]` (leaf-to-root order).
pub open spec fn reduce_upto(
    levels: Seq<Map<nat, Seq<u8>>>,
    leaves: Seq<(nat, Seq<u8>)>,
    r: nat,
) -> Seq<(nat, Seq<u8>)>
    decreases r,
{
    if r == 0 {
        leaves
    } else {
        reduce_level(levels[r - 1], reduce_upto(levels, leaves, (r - 1) as nat))
    }
}

/// The root value of a full `depth`-round reduction.
pub open spec fn reduce_root(
    levels: Seq<Map<nat, Seq<u8>>>,
    leaves: Seq<(nat, Seq<u8>)>,
    depth: nat,
) -> Seq<u8> {
    reduce_upto(levels, leaves, depth)[0].1
}

/// A frontier strictly ascending by index.
pub open spec fn frontier_sorted(f: Seq<(nat, Seq<u8>)>) -> bool {
    forall|i: int, j: int| 0 <= i < j < f.len() ==> f[i].0 < f[j].0
}

/// Whether some frontier entry stands at index `t`.
pub open spec fn in_frontier(f: Seq<(nat, Seq<u8>)>, t: nat) -> bool {
    exists|i: int| 0 <= i < f.len() && f[i].0 == t
}

/// A well-formed frontier for a level with `2^bound` node positions:
/// non-empty, strictly ascending by index, every index in range.
pub open spec fn frontier_wf(f: Seq<(nat, Seq<u8>)>, bound: nat) -> bool {
    &&& f.len() >= 1
    &&& frontier_sorted(f)
    &&& forall|i: int| 0 <= i < f.len() ==> f[i].0 < pow2(bound)
}

/// Halving an index takes it from a level's index range into the range of
/// the level above, and keeps the order of distinct parents.
proof fn lemma_parent_index(k: nat, bound: nat)
    requires
        k < pow2(bound + 1),
    ensures
        k / 2 < pow2(bound),
{
    lemma_pow2_unfold(bound + 1);
    lemma_pow2_pos(bound);
    lemma_fundamental_div_mod(k as int, 2);
}

/// Division of naturals by two is monotone, strictly so across a gap of two.
proof fn lemma_half_ordered(a: nat, b: nat)
    requires
        a + 2 <= b,
    ensures
        a / 2 < b / 2,
{
    lemma_fundamental_div_mod(a as int, 2);
    lemma_fundamental_div_mod(b as int, 2);
}

/// One reduction round keeps the frontier well-formed one level up, does
/// not grow it, and sends its first index to that index's parent.
proof fn lemma_reduce_level_wf(m: Map<nat, Seq<u8>>, f: Seq<(nat, Seq<u8>)>, bound: nat)
    requires
        frontier_wf(f, bound + 1),
    ensures
        frontier_wf(reduce_level(m, f), bound),
        reduce_level(m, f).len() <= f.len(),
        reduce_level(m, f)[0].0 == f[0].0 / 2,
    decreases f.len(),
{
    let k = f[0].0;
    let out = reduce_level(m, f);
    lemma_parent_index(k, bound);
    let consumed: int = if k % 2 == 0 && f.len() >= 2 && f[1].0 == k + 1 {
        2
    } else {
        1
    };
    let rest = f.skip(consumed);
    assert(out =~= out.subrange(0, 1) + reduce_level(m, rest));
    assert(out[0].0 == k / 2);
    if rest.len() == 0 {
        assert(out.len() == 1);
    } else {
        assert(frontier_wf(rest, bound + 1));
        lemma_reduce_level_wf(m, rest, bound);
        let tail = reduce_level(m, rest);
        assert(rest[0] == f[consumed]);
        if consumed == 2 {
            assert(k % 2 == 0 && f[1].0 == k + 1);
            assert(f[2].0 > f[1].0);
            lemma_half_ordered(k, rest[0].0);
        } else if k % 2 == 0 {
            assert(f[1].0 > k && f[1].0 != k + 1);
            lemma_half_ordered(k, rest[0].0);
        } else {
            lemma_fundamental_div_mod(k as int, 2);
            lemma_fundamental_div_mod(rest[0].0 as int, 2);
        }
        assert(out[0].0 < tail[0].0);
        assert(forall|j: int| 1 <= j < out.len() ==> out[j] == tail[j - 1]);
        assert(forall|i: int, j: int| 0 <= i < j < out.len() ==> out[i].0 < out[j].0) by {
            assert(forall|j: int| 1 <= j < out.len() ==> out[0].0 < #[trigger] out[j].0) by {
                assert(forall|j: int| 0 < j < tail.len() ==> tail[0].0 < #[trigger] tail[j].0);
            }
        }
    }
}

/// After `r` rounds a frontier well-formed for `depth` levels is
/// well-formed for the remaining `depth - r` levels.
proof fn lemma_reduce_upto_wf(
    levels: Seq<Map<nat, Seq<u8>>>,
    leaves: Seq<(nat, Seq<u8>)>,
    depth: nat,
    r: nat,
)
    requires
        r <= depth,
        frontier_wf(leaves, depth),
    ensures
        frontier_wf(reduce_upto(levels, leaves, r), (depth - r) as nat),
    decreases r,
{
    if r > 0 {
        lemma_reduce_upto_wf(levels, leaves, depth, (r - 1) as nat);
        lemma_reduce_level_wf(
            levels[r - 1],
            reduce_upto(levels, leaves, (r - 1) as nat),
            (depth - r) as nat,
        );
    }
}

/// A full reduction of a well-formed frontier ends with exactly one node,
/// and that node stands at index zero: the root.
pub proof fn lemma_reduce_final(
    levels: Seq<Map<nat, Seq<u8>>>,
    leaves: Seq<(nat, Seq<u8>)>,
    depth: nat,
)
    requires
        frontier_wf(leaves, depth),
    ensures
        reduce_upto(levels, leaves, depth).len() == 1,
        reduce_upto(levels, leaves, depth)[0].0 == 0,
{
    lemma_reduce_upto_wf(levels, leaves, depth, depth);
    let ff = reduce_upto(levels, leaves, depth);
    lemma2_to64();
    assert(pow2(0) == 1);
    assert(ff[0].0 == 0);
    if ff.len() >= 2 {
        assert(ff[0].0 < ff[1].0);
        assert(false);
    }
}

/// The mathematical frontier an executable frontier stands for.
pub open spec fn frontier_view(s: Seq<(u32, U256)>) -> Seq<(nat, Seq<u8>)> {
    Seq::new(s.len(), |i: int| (s[i].0 as nat, s[i].1@))
}

/// The mathematical sibling maps an executable proof stands for.
pub open spec fn levels_view(s: Seq<SiblingMap>) -> Seq<Map<nat, Seq<u8>>> {
    Seq::new(s.len(), |i: int| s[i]@)
}

/// An owned copy of a frontier.
fn copy_frontier(src: &Vec<(u32, U256)>) -> (r: Vec<(u32, U256)>)
    ensures
        frontier_view(r@) == frontier_view(src@),
{
    let n = src.len();
    let mut r: Vec<(u32, U256)> = Vec::new();
    let mut i: usize = 0;
    while i < n
        invariant
            i <= n,
            n == src@.len(),
            r@.len() == i,
            forall|j: int| 0 <= j < i ==> r@[j].0 == src@[j].0 && r@[j].1@ == src@[j].1@,
        decreases n - i,
    {
        let kv = &src[i];
        r.push((kv.0, kv.1.dup()));
        i += 1;
    }
    proof {
        assert(frontier_view(r@) =~= frontier_view(src@));
    }
    r
}

/// Reduces a well-formed frontier of leaves to the single root value, in
/// `depth` rounds against the per-level sibling maps, supplied leaf level
/// first.  Fails exactly when a needed level map is missing, naming the
/// first level without one; a well-formed frontier provably ends as one
/// node, so no other failure exists.
#[verifier::loop_isolation(false)]
pub fn compute_forest(
    levels: &Vec<SiblingMap>,
    initial_leaves: &Vec<(u32, U256)>,
    depth: u32,
) -> (r: Result<U256, VerifyError>)
    requires
        frontier_wf(frontier_view(initial_leaves@), depth as nat),
    ensures
        levels@.len() >= depth ==> (r matches Ok(v) && v@ == reduce_root(
            levels_view(levels@),
            frontier_view(initial_leaves@),
            depth as nat,
        )),
        levels@.len() < depth ==> (r matches Err(e) && e == VerifyError::MissingLevel(
            levels@.len() as u32,
        )),
{
    let ghost lv = levels_view(levels@);
    let ghost leaves0 = frontier_view(initial_leaves@);
    let mut current = copy_frontier(initial_leaves);
    let mut level: u32 = 0;
    while level < depth
        invariant
            level <= depth,
            level as nat <= levels@.len(),
            frontier_view(current@) == reduce_upto(lv, leaves0, level as nat),
            frontier_wf(frontier_view(current@), (depth - level) as nat),
        decreases depth - level,
    {
        if (level as usize) >= levels.len() {
            return Err(VerifyError::MissingLevel(level));
        }
        let proof_for_level = &levels[level as usize];
        let ghost m = proof_for_level@;
        assert(m == lv[level as int]);
        let ghost cur_v = frontier_view(current@);
        let mut next: Vec<(u32, U256)> = Vec::new();
        let n = current.len();
        let mut i: usize = 0;
        proof {
            assert(cur_v.skip(0) =~= cur_v);
            assert(frontier_view(next@) =~= Seq::<(nat, Seq<u8>)>::empty());
            assert(frontier_view(next@) + reduce_level(m, cur_v.skip(0)) =~= reduce_level(
                m,
                cur_v,
            ));
        }
        while i < n
            invariant
                i <= n,
                reduce_level(m, cur_v) == frontier_view(next@) + reduce_level(
                    m,
                    cur_v.skip(i as int),
                ),
            decreases n - i,
        {
            let kv = &current[i];
            let k = kv.0;
            assert(cur_v.skip(i as int)[0] == (k as nat, kv.1@));
            let parent = k / 2;
            let is_left = k % 2 == 0;
            proof {
                if is_left {
                    assert(k != 0xffff_ffffu32);
                }
            }
            let sibling_k = if is_left {
                k + 1
            } else {
                k - 1
            };
            let ghost rest = cur_v.skip(i as int);
            let mut step: usize = 1;
            let parent_val: U256;
            if is_left && i + 1 < n && current[i + 1].0 == sibling_k {
                assert(rest[1] == (sibling_k as nat, current@[i + 1].1@));
                parent_val = hash2(&kv.1, &current[i + 1].1);
                step = 2;
                proof {
                    assert(rest.skip(2) =~= cur_v.skip(i + 2));
                }
            } else {
                let sibling_val = match proof_for_level.get(sibling_k) {
                    Some(v) => v.dup(),
                    None => U256::zero(),
                };
                assert(sibling_val@ == lookup(m, sibling_k as nat));
                proof {
                    if is_left && rest.len() >= 2 {
                        assert(rest[1] == (current@[i + 1].0 as nat, current@[i + 1].1@));
                    }
                    assert(rest.skip(1) =~= cur_v.skip(i + 1));
                }
                parent_val = if is_left {
                    hash2(&kv.1, &sibling_val)
                } else {
                    hash2(&sibling_val, &kv.1)
                };
            }
            proof {
                assert(reduce_level(m, rest) == seq![((k / 2) as nat, parent_val@)]
                    + reduce_level(m, cur_v.skip(i + step)));
            }
            let ghost next_before = next@;
            next.push((parent, parent_val));
            proof {
                assert(frontier_view(next@) =~= frontier_view(next_before)
                    + seq![((k / 2) as nat, parent_val@)]);
            }
            i += step;
        }
        proof {
            assert(cur_v.skip(n as int) =~= Seq::<(nat, Seq<u8>)>::empty());
            assert(frontier_view(next@) + reduce_level(m, cur_v.skip(n as int)) =~= frontier_view(
                next@,
            ));
            assert(frontier_view(next@) == reduce_upto(lv, leaves0, (level + 1) as nat));
            lemma_reduce_level_wf(m, cur_v, (depth - level - 1) as nat);
        }
        current = next;
        level = level + 1;
    }
    proof {
        lemma_reduce_final(lv, leaves0, depth as nat);
    }
    let p = current.pop().unwrap();
    Ok(p.1)
}

/// Two level maps that answer alike outside an exempt index set `s` drive
/// one round identically, provided every exempt index is either covered by
/// the frontier itself or lies strictly left of the walk.  The walk never
/// consults the map at a frontier index: a right sibling that the frontier
/// holds always follows its left sibling at once and is merged in memory.
proof fn lemma_reduce_level_agree(
    m1: Map<nat, Seq<u8>>,
    m2: Map<nat, Seq<u8>>,
    f: Seq<(nat, Seq<u8>)>,
    s: Set<nat>,
)
    requires
        frontier_sorted(f),
        forall|t: nat| !s.contains(t) ==> lookup(m1, t) == lookup(m2, t),
        forall|t: nat| s.contains(t) ==> in_frontier(f, t) || t + 2 <= f[0].0 || (t + 1 == f[0].0
            && f[0].0 % 2 == 0),
    ensures
        reduce_level(m1, f) == reduce_level(m2, f),
    decreases f.len(),
{
    if f.len() > 0 {
        let k = f[0].0;
        let merge = k % 2 == 0 && f.len() >= 2 && f[1].0 == k + 1;
        let consumed: int = if merge {
            2
        } else {
            1
        };
        let rest = f.skip(consumed);
        if !merge {
            let sib: nat = if k % 2 == 0 {
                k + 1
            } else {
                (k - 1) as nat
            };
            assert(!s.contains(sib)) by {
                if s.contains(sib) {
                    if in_frontier(f, sib) {
                        let i = choose|i: int| 0 <= i < f.len() && f[i].0 == sib;
                        if k % 2 == 0 {
                            assert(i >= 1);
                            assert(f[1].0 <= f[i].0);
                        } else {
                            assert(f[0].0 < f[i].0 || i == 0);
                        }
                    }
                }
            }
            assert(lookup(m1, sib) == lookup(m2, sib));
        }
        if rest.len() > 0 {
            assert(forall|t: nat| s.contains(t) ==> in_frontier(rest, t) || t + 2 <= rest[0].0 || (
            t + 1 == rest[0].0 && rest[0].0 % 2 == 0)) by {
                assert(rest[0] == f[consumed]);
                assert(f[0].0 < f[consumed].0);
                assert forall|t: nat| s.contains(t) implies in_frontier(rest, t) || t + 2
                    <= rest[0].0 || (t + 1 == rest[0].0 && rest[0].0 % 2 == 0) by {
                    if in_frontier(f, t) {
                        let i = choose|i: int| 0 <= i < f.len() && f[i].0 == t;
                        if i >= consumed {
                            assert(rest[i - consumed].0 == t);
                            assert(in_frontier(rest, t));
                        } else {
                            if merge {
                                assert(t == k || t == k + 1);
                                assert(rest[0].0 > f[1].0);
                            } else if k % 2 == 0 {
                                assert(t == k);
                                assert(rest[0].0 != k + 1 && rest[0].0 > k);
                            } else {
                                assert(t == k);
                                if rest[0].0 == k + 1 {
                                    assert(rest[0].0 % 2 == 0) by {
                                        assert(k % 2 == 1);
                                    }
                                }
                            }
                        }
                    }
                }
            }
            lemma_reduce_level_agree(m1, m2, rest, s);
        } else {
            assert(reduce_level(m1, rest) =~= reduce_level(m2, rest));
        }
    }
}

/// A sibling value the batch itself supplies is redundant in a level map:
/// adding or changing an entry at an index the frontier covers leaves the
/// round's outcome untouched, whatever value the entry holds.
pub proof fn lemma_redundant_sibling_entry(
    m: Map<nat, Seq<u8>>,
    f: Seq<(nat, Seq<u8>)>,
    t: nat,
    v: Seq<u8>,
)
    requires
        frontier_sorted(f),
        in_frontier(f, t),
    ensures
        reduce_level(m.insert(t, v), f) == reduce_level(m, f),
{
    lemma_reduce_level_agree(m.insert(t, v), m, f, set![t]);
}

/// Rounds after the first see equal frontiers and equal maps, so the whole
/// reduction agrees as soon as the leaf round does.
proof fn lemma_reduce_upto_first_level(
    levels1: Seq<Map<nat, Seq<u8>>>,
    levels2: Seq<Map<nat, Seq<u8>>>,
    leaves: Seq<(nat, Seq<u8>)>,
    r: nat,
)
    requires
        1 <= r <= levels1.len(),
        levels1.len() == levels2.len(),
        reduce_level(levels1[0], leaves) == reduce_level(levels2[0], leaves),
        forall|j: int| 1 <= j < levels1.len() ==> levels1[j] == levels2[j],
    ensures
        reduce_upto(levels1, leaves, r) == reduce_upto(levels2, leaves, r),
    decreases r,
{
    if r == 1 {
        assert(reduce_upto(levels1, leaves, 0) == leaves);
        assert(reduce_upto(levels2, leaves, 0) == leaves);
        assert(reduce_upto(levels1, leaves, 1) == reduce_level(levels1[0], leaves));
        assert(reduce_upto(levels2, leaves, 1) == reduce_level(levels2[0], leaves));
    } else {
        lemma_reduce_upto_first_level(levels1, levels2, leaves, (r - 1) as nat);
        assert(levels1[r - 1] == levels2[r - 1]);
    }
}

/// A proof whose leaf-level map redundantly includes a sibling the batch
/// supplies produces the very same root, whatever value the redundant
/// entry holds.
pub proof fn lemma_redundant_leaf_sibling(
    levels: Seq<Map<nat, Seq<u8>>>,
    leaves: Seq<(nat, Seq<u8>)>,
    depth: nat,
    t: nat,
    v: Seq<u8>,
)
    requires
        frontier_sorted(leaves),
        in_frontier(leaves, t),
        1 <= depth <= levels.len(),
    ensures
        reduce_root(levels.update(0, levels[0].insert(t, v)), leaves, depth) == reduce_root(
            levels,
            leaves,
            depth,
        ),
{
    let levels2 = levels.update(0, levels[0].insert(t, v));
    lemma_redundant_sibling_entry(levels[0], leaves, t, v);
    lemma_reduce_upto_first_level(levels2, levels, leaves, depth);
}

/// Two sorted frontiers holding the same entries are the same sequence.
proof fn lemma_sorted_same_entries_equal(f1: Seq<(nat, Seq<u8>)>, f2: Seq<(nat, Seq<u8>)>)
    requires
        frontier_sorted(f1),
        frontier_sorted(f2),
        forall|p: (nat, Seq<u8>)| f1.contains(p) <==> f2.contains(p),
    ensures
        f1 == f2,
    decreases f1.len(),
{
    if f1.len() == 0 {
        if f2.len() > 0 {
            assert(f2.contains(f2[0]));
        }
        assert(f1 =~= f2);
    } else {
        assert(f1.contains(f1[0]));
        assert(f2.contains(f2[0]));
        let i = choose|i: int| 0 <= i < f2.len() && f2[i] == f1[0];
        let j = choose|j: int| 0 <= j < f1.len() && f1[j] == f2[0];
        assert(f2[0].0 <= f2[i].0);
        assert(f1[0].0 <= f1[j].0);
        assert(f1[0].0 == f2[0].0);
        assert(i == 0);
        let r1 = f1.skip(1);
        let r2 = f2.skip(1);
        assert(forall|p: (nat, Seq<u8>)| r1.contains(p) <==> r2.contains(p)) by {
            assert forall|p: (nat, Seq<u8>)| r1.contains(p) implies r2.contains(p) by {
                let a = choose|a: int| 0 <= a < r1.len() && r1[a] == p;
                assert(f1[a + 1] == p);
                assert(f1.contains(p));
                let b = choose|b: int| 0 <= b < f2.len() && f2[b] == p;
                assert(p.0 > f1[0].0);
                assert(b >= 1);
                assert(r2[b - 1] == p);
            }
            assert forall|p: (nat, Seq<u8>)| r2.contains(p) implies r1.contains(p) by {
                let a = choose|a: int| 0 <= a < r2.len() && r2[a] == p;
                assert(f2[a + 1] == p);
                assert(f2.contains(p));
                let b = choose|b: int| 0 <= b < f1.len() && f1[b] == p;
                assert(p.0 > f2[0].0);
                assert(b >= 1);
                assert(r1[b - 1] == p);
            }
        }
        lemma_sorted_same_entries_equal(r1, r2);
        assert(f1.len() == f2.len());
        assert forall|n: int| 0 <= n < f1.len() implies f1[n] == f2[n] by {
            if n >= 1 {
                assert(f1[n] == r1[n - 1]);
                assert(f2[n] == r2[n - 1]);
            }
        }
        assert(f1 =~= f2);
    }
}

/// The value of the complete subtree of height `h` rooted at node index
/// `p`, over a full assignment `lv` of values to the leaf positions: the
/// reference full-tree reduction.
pub open spec fn subtree_root(lv: spec_fn(nat) -> Seq<u8>, p: nat, h: nat) -> Seq<u8>
    decreases h,
{
    if h == 0 {
        lv(p)
    } else {
        combine(
            subtree_root(lv, 2 * p, (h - 1) as nat),
            subtree_root(lv, 2 * p + 1, (h - 1) as nat),
        )
    }
}

/// A round-`r` frontier whose every entry holds the true value of the
/// height-`r` subtree at its index.
pub open spec fn frontier_honest(
    f: Seq<(nat, Seq<u8>)>,
    lv: spec_fn(nat) -> Seq<u8>,
    r: nat,
) -> bool {
    forall|i: int| 0 <= i < f.len() ==> f[i].1 == subtree_root(lv, f[i].0, r)
}

/// A level map honest for round `r`: outside the round's own frontier it
/// answers every index with the true subtree value, silence included
/// (an absent index answers the default value, so its subtree must truly
/// be empty).
pub open spec fn map_honest(
    m: Map<nat, Seq<u8>>,
    f: Seq<(nat, Seq<u8>)>,
    lv: spec_fn(nat) -> Seq<u8>,
    r: nat,
) -> bool {
    forall|t: nat| !in_frontier(f, t) ==> lookup(m, t) == subtree_root(lv, t, r)
}

/// One honest round stays honest: every parent entry receives the true
/// value of its own subtree, the sibling coming either from the frontier
/// (the merge step) or from the honest level map.  As in
/// `lemma_reduce_level_agree`, an exempt set `s` carries the indices the
/// walk has already consumed.
proof fn lemma_reduce_level_honest(
    m: Map<nat, Seq<u8>>,
    f: Seq<(nat, Seq<u8>)>,
    lv: spec_fn(nat) -> Seq<u8>,
    r: nat,
    s: Set<nat>,
)
    requires
        frontier_sorted(f),
        frontier_honest(f, lv, r),
        forall|t: nat| !s.contains(t) ==> lookup(m, t) == subtree_root(lv, t, r),
        forall|t: nat| s.contains(t) ==> in_frontier(f, t) || t + 2 <= f[0].0 || (t + 1 == f[0].0
            && f[0].0 % 2 == 0),
    ensures
        frontier_honest(reduce_level(m, f), lv, r + 1),
    decreases f.len(),
{
    if f.len() > 0 {
        let k = f[0].0;
        let merge = k % 2 == 0 && f.len() >= 2 && f[1].0 == k + 1;
        let consumed: int = if merge {
            2
        } else {
            1
        };
        let rest = f.skip(consumed);
        let out = reduce_level(m, f);
        lemma_fundamental_div_mod(k as int, 2);
        if merge {
            assert(2 * (k / 2) == k);
            assert(out[0].1 == combine(subtree_root(lv, k, r), subtree_root(lv, k + 1, r)));
        } else {
            let sib: nat = if k % 2 == 0 {
                k + 1
            } else {
                (k - 1) as nat
            };
            assert(!s.contains(sib)) by {
                if s.contains(sib) {
                    if in_frontier(f, sib) {
                        let i = choose|i: int| 0 <= i < f.len() && f[i].0 == sib;
                        if k % 2 == 0 {
                            assert(i >= 1);
                            assert(f[1].0 <= f[i].0);
                        } else {
                            assert(f[0].0 < f[i].0 || i == 0);
                        }
                    }
                }
            }
            assert(lookup(m, sib) == subtree_root(lv, sib, r));
            if k % 2 == 0 {
                assert(2 * (k / 2) == k);
                assert(out[0].1 == combine(subtree_root(lv, k, r), subtree_root(lv, k + 1, r)));
            } else {
                assert(2 * (k / 2) + 1 == k);
                assert(out[0].1 == combine(
                    subtree_root(lv, (k - 1) as nat, r),
                    subtree_root(lv, k, r),
                ));
            }
        }
        assert(out[0].1 == subtree_root(lv, k / 2, r + 1));
        if rest.len() > 0 {
            assert(forall|t: nat| s.contains(t) ==> in_frontier(rest, t) || t + 2 <= rest[0].0 || (
            t + 1 == rest[0].0 && rest[0].0 % 2 == 0)) by {
                assert(rest[0] == f[consumed]);
                assert(f[0].0 < f[consumed].0);
                assert forall|t: nat| s.contains(t) implies in_frontier(rest, t) || t + 2
                    <= rest[0].0 || (t + 1 == rest[0].0 && rest[0].0 % 2 == 0) by {
                    if in_frontier(f, t) {
                        let i = choose|i: int| 0 <= i < f.len() && f[i].0 == t;
                        if i >= consumed {
                            assert(rest[i - consumed].0 == t);
                            assert(in_frontier(rest, t));
                        } else {
                            if merge {
                                assert(t == k || t == k + 1);
                                assert(rest[0].0 > f[1].0);
                            } else if k % 2 == 0 {
                                assert(t == k);
                                assert(rest[0].0 != k + 1 && rest[0].0 > k);
                            } else {
                                assert(t == k);
                                if rest[0].0 == k + 1 {
                                    assert(rest[0].0 % 2 == 0) by {
                                        assert(k % 2 == 1);
                                    }
                                }
                            }
                        }
                    }
                }
            }
            lemma_reduce_level_honest(m, rest, lv, r, s);
        }
        assert forall|i: int| 0 <= i < out.len() implies out[i].1 == subtree_root(
            lv,
            out[i].0,
            r + 1,
        ) by {
            if i >= 1 {
                assert(out[i] == reduce_level(m, rest)[i - 1]);
            }
        }
    }
}

/// Honesty carries through any number of rounds.
proof fn lemma_reduce_upto_honest(
    levels: Seq<Map<nat, Seq<u8>>>,
    leaves: Seq<(nat, Seq<u8>)>,
    lv: spec_fn(nat) -> Seq<u8>,
    depth: nat,
    r: nat,
)
    requires
        r <= depth,
        frontier_wf(leaves, depth),
        frontier_honest(leaves, lv, 0),
        forall|q: nat| q < r ==> map_honest(
            levels[q as int],
            reduce_upto(levels, leaves, q),
            lv,
            q,
        ),
    ensures
        frontier_honest(reduce_upto(levels, leaves, r), lv, r),
    decreases r,
{
    if r > 0 {
        lemma_reduce_upto_honest(levels, leaves, lv, depth, (r - 1) as nat);
        lemma_reduce_upto_wf(levels, leaves, depth, (r - 1) as nat);
        let ff = reduce_upto(levels, leaves, (r - 1) as nat);
        let s = Set::new(|t: nat| in_frontier(ff, t));
        assert(map_honest(levels[r - 1], ff, lv, (r - 1) as nat));
        lemma_reduce_level_honest(levels[r - 1], ff, lv, (r - 1) as nat, s);
    }
}

/// An honest reduction reaches the reference full tree's root.  When the
/// leaf frontier holds the true values of its slots and every level map
/// answers true subtree values at all indices outside its round's
/// frontier, the reduction's single surviving value is the root of the
/// complete tree over the full leaf assignment.
pub proof fn lemma_honest_reduction_reaches_full_root(
    levels: Seq<Map<nat, Seq<u8>>>,
    leaves: Seq<(nat, Seq<u8>)>,
    lv: spec_fn(nat) -> Seq<u8>,
    depth: nat,
)
    requires
        frontier_wf(leaves, depth),
        frontier_honest(leaves, lv, 0),
        forall|q: nat| q < depth ==> map_honest(
            levels[q as int],
            reduce_upto(levels, leaves, q),
            lv,
            q,
        ),
    ensures
        reduce_root(levels, leaves, depth) == subtree_root(lv, 0, depth),
{
    lemma_reduce_upto_honest(levels, leaves, lv, depth, depth);
    lemma_reduce_final(levels, leaves, depth);
}

/// Reduction is a function of which `(index, value)` pairs the frontier
/// holds, never of how the frontier was assembled: two sorted frontiers
/// with the same pairs reduce identically at every round.
pub proof fn lemma_reduce_deterministic(
    levels: Seq<Map<nat, Seq<u8>>>,
    f1: Seq<(nat, Seq<u8>)>,
    f2: Seq<(nat, Seq<u8>)>,
    r: nat,
)
    requires
        frontier_sorted(f1),
        frontier_sorted(f2),
        forall|p: (nat, Seq<u8>)| f1.contains(p) <==> f2.contains(p),
    ensures
        reduce_upto(levels, f1, r) == reduce_upto(levels, f2, r),
{
    lemma_sorted_same_entries_equal(f1, f2);
}

} // verus!
