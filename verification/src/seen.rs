//! The set of chains that a search has already visited, kept in buckets by
//! digest. A chain is no key of which a hash map's behaviour is known; its
//! digest, a number, is. So the set is a hash map from digests to the
//! chains with that digest.

use std::collections::HashMap;
use vstd::prelude::*;
use crate::identity::digest_of;
use crate::peptide::{Cells, Peptide};

verus! {

broadcast use vstd::std_specs::hash::group_hash_axioms;

/// A set of chains.
pub struct Seen {
    buckets: HashMap<u64, Vec<Peptide>>,
}

impl Seen {
    /// Every chain is kept in the bucket of its digest.
    #[verifier::type_invariant]
    spec fn bucketed(self) -> bool {
        forall|h: u64, i: int|
            self.buckets@.contains_key(h) && 0 <= i < self.buckets@[h]@.len() ==> digest_of(
                (#[trigger] self.buckets@[h]@[i])@,
            ) == h
    }

    /// The chains in the set.
    pub closed spec fn view(&self) -> Set<Cells> {
        Set::new(
            |m: Cells|
                exists|h: u64, i: int|
                    self.buckets@.contains_key(h) && 0 <= i < self.buckets@[h]@.len() && (
                    #[trigger] self.buckets@[h]@[i])@ == m,
        )
    }

    /// The set without any chain.
    pub fn new() -> (r: Seen)
        ensures
            r@ == Set::<Cells>::empty(),
    {
        let r = Seen { buckets: HashMap::new() };
        assert(r@ =~= Set::<Cells>::empty());
        r
    }

    /// Whether a chain with the cells of `peptide` is in the set.
    pub fn contains(&self, peptide: &Peptide) -> (r: bool)
        ensures
            r == self@.contains(peptide@),
    {
        proof {
            use_type_invariant(self);
        }
        let h = peptide.digest();
        match self.buckets.get(&h) {
            Some(bucket) => {
                let mut i: usize = 0;
                while i < bucket.len()
                    invariant
                        i <= bucket@.len(),
                        self.buckets@.contains_key(h),
                        self.buckets@[h] == *bucket,
                        forall|k: int| 0 <= k < i ==> (#[trigger] bucket@[k])@ != peptide@,
                    decreases bucket@.len() - i,
                {
                    if bucket[i].same_cells(peptide) {
                        assert(self.buckets@[h]@[i as int]@ == peptide@);
                        return true;
                    }
                    i += 1;
                }
                proof {
                    if self@.contains(peptide@) {
                        let (g, k) = choose|g: u64, k: int|
                            self.buckets@.contains_key(g) && 0 <= k < self.buckets@[g]@.len() && (
                            #[trigger] self.buckets@[g]@[k])@ == peptide@;
                        assert(g == h);
                        assert(bucket@[k]@ == peptide@);
                    }
                }
                false
            },
            None => {
                proof {
                    if self@.contains(peptide@) {
                        let (g, k) = choose|g: u64, k: int|
                            self.buckets@.contains_key(g) && 0 <= k < self.buckets@[g]@.len() && (
                            #[trigger] self.buckets@[g]@[k])@ == peptide@;
                        assert(g == h);
                    }
                }
                false
            },
        }
    }

    /// Puts `peptide` into the set.
    pub fn insert(&mut self, peptide: Peptide)
        ensures
            final(self)@ == old(self)@.insert(peptide@),
    {
        proof {
            use_type_invariant(&*self);
        }
        let h = peptide.digest();
        let ghost added = peptide@;
        let ghost before = self.buckets@;
        let mut buckets: HashMap<u64, Vec<Peptide>> = HashMap::new();
        core::mem::swap(&mut self.buckets, &mut buckets);
        let mut bucket = match buckets.remove(&h) {
            Some(bucket) => bucket,
            None => Vec::new(),
        };
        let ghost old_bucket = bucket@;
        bucket.push(peptide);
        let ghost new_bucket = bucket;
        buckets.insert(h, bucket);
        proof {
            let after = buckets@;
            assert(after =~= before.insert(h, new_bucket));
            assert(before.contains_key(h) ==> before[h]@ == old_bucket);
            assert(!before.contains_key(h) ==> old_bucket.len() == 0);
            assert forall|g: u64, i: int|
                after.contains_key(g) && 0 <= i < after[g]@.len() implies digest_of(
                (#[trigger] after[g]@[i])@,
            ) == g by {
                if g == h {
                    if i < old_bucket.len() {
                        assert(after[g]@[i] == before[h]@[i]);
                    }
                } else {
                    assert(after[g]@[i] == before[g]@[i]);
                }
            }
        }
        self.buckets = buckets;
        proof {
            let after = self.buckets@;
            assert forall|m: Cells| self@.contains(m) == old(self)@.insert(added).contains(m) by {
                if old(self)@.contains(m) {
                    let (g, k) = choose|g: u64, k: int|
                        before.contains_key(g) && 0 <= k < before[g]@.len() && (
                        #[trigger] before[g]@[k])@ == m;
                    if g == h {
                        assert(after[h]@[k]@ == m);
                    } else {
                        assert(after[g]@[k]@ == m);
                    }
                }
                if m == added {
                    assert(after[h]@[old_bucket.len() as int]@ == m);
                }
                if self@.contains(m) {
                    let (g, k) = choose|g: u64, k: int|
                        after.contains_key(g) && 0 <= k < after[g]@.len() && (
                        #[trigger] after[g]@[k])@ == m;
                    if g == h {
                        if k < old_bucket.len() {
                            assert(before[h]@[k]@ == m);
                        }
                    } else {
                        assert(before[g]@[k]@ == m);
                    }
                }
            }
            assert(self@ =~= old(self)@.insert(added));
        }
    }
}

} // verus!
