//! A set of content hashes.

use std::collections::HashMap;

use vstd::prelude::*;

use crate::ids::ContentHash;

verus! {

/// A set of content hashes, bucketed by the first half of each.
pub struct Blake3HashSet {
    buckets: HashMap<u128, Vec<u128>>,
}

impl View for Blake3HashSet {
    type V = Set<ContentHash>;

    closed spec fn view(&self) -> Set<ContentHash> {
        Set::new(
            |h: ContentHash|
                self.buckets@.contains_key(h.head) && self.buckets@[h.head]@.contains(h.tail),
        )
    }
}

/// Whether `tails` holds `tail`.
fn holds(tails: &Vec<u128>, tail: u128) -> (b: bool)
    ensures
        b == tails@.contains(tail),
{
    let mut i: usize = 0;
    while i < tails.len()
        invariant
            i <= tails.len(),
            forall|j: int| 0 <= j < i ==> tails@[j] != tail,
        decreases tails.len() - i,
    {
        if tails[i] == tail {
            return true;
        }
        i += 1;
    }
    false
}

impl Blake3HashSet {
    /// The empty set.
    pub fn new() -> (set: Self)
        ensures
            set@ == Set::<ContentHash>::empty(),
    {
        let set = Blake3HashSet { buckets: HashMap::new() };
        assert(set@ =~= Set::<ContentHash>::empty());
        set
    }

    /// Whether the set holds `hash`.
    pub fn contains(&self, hash: &ContentHash) -> (b: bool)
        ensures
            b == self@.contains(*hash),
    {
        broadcast use vstd::std_specs::hash::group_hash_axioms;

        match self.buckets.get(&hash.head) {
            Some(tails) => holds(tails, hash.tail),
            None => false,
        }
    }

    /// Add `hash` to the set.
    pub fn insert(&mut self, hash: ContentHash)
        ensures
            final(self)@ == old(self)@.insert(hash),
    {
        broadcast use vstd::std_specs::hash::group_hash_axioms;

        let ghost before = self@;
        let mut tails: Vec<u128> = match self.buckets.get(&hash.head) {
            Some(tails) => tails.clone(),
            None => Vec::new(),
        };
        let ghost old_tails = tails@;
        assert(old_tails =~= if self.buckets@.contains_key(hash.head) {
            self.buckets@[hash.head]@
        } else {
            Seq::empty()
        });
        tails.push(hash.tail);
        proof {
            assert forall|t: u128| tails@.contains(t) <==> old_tails.contains(t) || t
                == hash.tail by {
                if old_tails.contains(t) {
                    let i = choose|i: int| 0 <= i < old_tails.len() && old_tails[i] == t;
                    assert(tails@[i] == t);
                }
                if t == hash.tail {
                    assert(tails@[old_tails.len() as int] == t);
                }
            }
        }
        let ghost old_buckets = self.buckets@;
        let ghost new_tails = tails@;
        self.buckets.insert(hash.head, tails);
        proof {
            assert(self.buckets@[hash.head]@ == new_tails);
            assert forall|h: ContentHash| #[trigger]
                self@.contains(h) <==> before.insert(hash).contains(h) by {
                if h.head != hash.head {
                    assert(self.buckets@.contains_key(h.head) == old_buckets.contains_key(h.head));
                    assert(self.buckets@.contains_key(h.head) ==> self.buckets@[h.head]
                        == old_buckets[h.head]);
                } else {
                    assert(self@.contains(h) <==> new_tails.contains(h.tail));
                    assert(new_tails.contains(h.tail) <==> old_tails.contains(h.tail) || h.tail
                        == hash.tail);
                    assert(before.contains(h) <==> old_tails.contains(h.tail));
                }
            }
            assert(self@ =~= before.insert(hash));
        }
    }

    /// Add every one of `hashes` to the set.
    pub fn extend(&mut self, hashes: &[ContentHash])
        ensures
            final(self)@ == old(self)@.union(hashes@.to_set()),
    {
        let ghost before = self@;
        let mut i: usize = 0;
        while i < hashes.len()
            invariant
                i <= hashes.len(),
                self@ =~= before.union(hashes@.take(i as int).to_set()),
            decreases hashes.len() - i,
        {
            self.insert(hashes[i]);
            proof {
                let now = hashes@.take(i as int + 1);
                let prev = hashes@.take(i as int);
                assert(now =~= prev.push(hashes@[i as int]));
                assert forall|h: ContentHash| now.contains(h) <==> prev.contains(h) || h
                    == hashes@[i as int] by {
                    if prev.contains(h) {
                        let j = choose|j: int| 0 <= j < prev.len() && prev[j] == h;
                        assert(now[j] == h);
                    }
                    if h == hashes@[i as int] {
                        assert(now[i as int] == h);
                    }
                }
            }
            i += 1;
        }
        assert(hashes@.take(hashes@.len() as int) =~= hashes@);
    }
}

} // verus!
