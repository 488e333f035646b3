//! One tree level's sibling values, keyed by node index at that level.
//!
//! A level's map holds the authenticated values of exactly those siblings
//! that the reducer cannot derive from the batch itself.  An index absent
//! from the map asserts that the sibling subtree is empty (the default
//! value).  The map is a small association list with unique keys, viewed as
//! a mathematical `Map` from node index to node value.

use vstd::prelude::*;
use crate::u256::U256;

verus! {

/// The map content of an entry list: each entry binds its key to its value.
spec fn entries_map(s: Seq<(u32, U256)>) -> Map<nat, Seq<u8>>
    decreases s.len(),
{
    if s.len() == 0 {
        Map::empty()
    } else {
        entries_map(s.drop_last()).insert(s.last().0 as nat, s.last().1@)
    }
}

proof fn lemma_entries_map_contains(s: Seq<(u32, U256)>, k: u32)
    ensures
        entries_map(s).contains_key(k as nat) <==> (exists|i: int|
            0 <= i < s.len() && s[i].0 == k),
    decreases s.len(),
{
    if s.len() > 0 {
        lemma_entries_map_contains(s.drop_last(), k);
        if s.last().0 == k {
            assert(s[s.len() - 1].0 == k);
        } else if exists|i: int| 0 <= i < s.len() && s[i].0 == k {
            let i = choose|i: int| 0 <= i < s.len() && s[i].0 == k;
            assert(s.drop_last()[i].0 == k);
        }
    }
}

proof fn lemma_entries_map_get(s: Seq<(u32, U256)>, i: int)
    requires
        0 <= i < s.len(),
        forall|p: int, q: int| 0 <= p < q < s.len() ==> s[p].0 != s[q].0,
    ensures
        entries_map(s).contains_key(s[i].0 as nat),
        entries_map(s)[s[i].0 as nat] == s[i].1@,
    decreases s.len(),
{
    if i == s.len() - 1 {
    } else {
        lemma_entries_map_get(s.drop_last(), i);
        assert(s.drop_last()[i] == s[i]);
        assert(s[i].0 != s.last().0);
    }
}

/// The sibling values of one tree level.
#[derive(Debug)]
pub struct SiblingMap {
    entries: Vec<(u32, U256)>,
}

impl View for SiblingMap {
    type V = Map<nat, Seq<u8>>;

    closed spec fn view(&self) -> Map<nat, Seq<u8>> {
        entries_map(self.entries@)
    }
}

impl SiblingMap {
    #[verifier::type_invariant]
    spec fn inv(self) -> bool {
        forall|p: int, q: int|
            0 <= p < q < self.entries@.len() ==> self.entries@[p].0 != self.entries@[q].0
    }

    /// An empty level map: every sibling is asserted empty.
    pub fn new() -> (r: SiblingMap)
        ensures
            r@ == Map::<nat, Seq<u8>>::empty(),
    {
        SiblingMap { entries: Vec::new() }
    }

    /// Binds `key` to `value`; the key must not be bound yet.
    pub fn insert(&mut self, key: u32, value: U256)
        requires
            !old(self)@.contains_key(key as nat),
        ensures
            final(self)@ == old(self)@.insert(key as nat, value@),
    {
        proof {
            use_type_invariant(&*self);
            lemma_entries_map_contains(self.entries@, key);
        }
        let mut entries: Vec<(u32, U256)> = Vec::new();
        std::mem::swap(&mut entries, &mut self.entries);
        entries.push((key, value));
        proof {
            assert(entries@.drop_last() =~= old(self).entries@);
        }
        self.entries = entries;
    }

    /// The value bound to `key`, if the level map holds one.
    pub fn get(&self, key: u32) -> (r: Option<&U256>)
        ensures
            (match r {
                Some(v) => self@.contains_key(key as nat) && v@ == self@[key as nat],
                None => !self@.contains_key(key as nat),
            }),
    {
        proof {
            use_type_invariant(self);
        }
        let n = self.entries.len();
        let mut i: usize = 0;
        while i < n
            invariant
                i <= n,
                n == self.entries@.len(),
                self.inv(),
                self@ == entries_map(self.entries@),
                forall|j: int| 0 <= j < i ==> self.entries@[j].0 != key,
            decreases n - i,
        {
            if self.entries[i].0 == key {
                proof {
                    lemma_entries_map_get(self.entries@, i as int);
                }
                return Some(&self.entries[i].1);
            }
            i += 1;
        }
        proof {
            lemma_entries_map_contains(self.entries@, key);
        }
        None
    }
}

} // verus!
