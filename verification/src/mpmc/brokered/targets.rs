//! Sets of consumers.
use crate::bits::{self, bit_set, lemma_empty_mask};
use vstd::prelude::*;

verus! {

/// A set of target consumers for publish/subscribe delivery, as a bitmask over
/// consumer indices (so up to 64 consumers).
#[derive(Clone, Copy, Debug)]
pub struct Targets(u64);

impl Targets {
    /// The bitmask.
    pub closed spec fn mask(&self) -> u64 {
        self.0
    }

    /// Whether consumer `i` is in the set.
    pub open spec fn has(&self, i: int) -> bool {
        bit_set(self.mask(), i)
    }

    /// The bitmask.
    pub fn bits(&self) -> (mask: u64)
        ensures
            mask == self.mask(),
    {
        self.0
    }

    /// No consumer — the value is dropped (e.g. a topic nobody subscribes to).
    pub fn none() -> (targets: Self)
        ensures
            forall|j: int| !targets.has(j),
    {
        proof {
            lemma_empty_mask(0);
        }
        Targets(0)
    }

    /// Every consumer: broadcast. `n` is the consumer count.
    pub fn all(n: usize) -> (targets: Self)
        ensures
            forall|j: int| targets.has(j) <==> 0 <= j < n && j < 64,
    {
        Targets(bits::first(n))
    }

    /// Exactly consumer `i`.
    pub fn one(i: usize) -> (targets: Self)
        ensures
            forall|j: int| targets.has(j) <==> j == i && j < 64,
    {
        Targets(bits::bit(i))
    }

    /// Add consumer `i` to the set (fluent style). Indices from 64 on select nothing.
    pub fn with(self, i: usize) -> (targets: Self)
        ensures
            forall|j: int| targets.has(j) <==> self.has(j) || (j == i && j < 64),
    {
        Targets(bits::union(self.0, bits::bit(i)))
    }

    /// The set of the given consumer indices.
    pub fn of(indices: &[usize]) -> (targets: Self)
        ensures
            forall|j: int| targets.has(j) <==> j < 64 && listed(indices@, j),
    {
        let mut targets = Targets::none();
        let mut k: usize = 0;
        while k < indices.len()
            invariant
                k <= indices@.len(),
                forall|j: int| targets.has(j) <==> j < 64 && listed(indices@.take(k as int), j),
            decreases indices@.len() - k,
        {
            let ghost before = targets;
            targets = targets.with(indices[k]);
            k = k + 1;
            proof {
                let prior = indices@.take(k - 1);
                let now = indices@.take(k as int);
                assert forall|j: int| targets.has(j) <==> j < 64 && listed(now, j) by {
                    assert(listed(now, j) <==> listed(prior, j) || j == indices@[k - 1]) by {
                        if listed(prior, j) {
                            let w = choose|w: int| 0 <= w < prior.len() && prior[w] == j;
                            assert(now[w] == j);
                        }
                        if j == indices@[k - 1] {
                            assert(now[k - 1] == j);
                        }
                        if listed(now, j) {
                            let w = choose|w: int| 0 <= w < now.len() && now[w] == j;
                            if w < prior.len() {
                                assert(prior[w] == j);
                            }
                        }
                    }
                    assert(before.has(j) <==> j < 64 && listed(prior, j));
                }
            }
        }
        assert(indices@.take(k as int) =~= indices@);
        targets
    }
}

/// Whether `j` is among `indices`.
pub open spec fn listed(indices: Seq<usize>, j: int) -> bool {
    exists|k: int| 0 <= k < indices.len() && #[trigger] indices[k] == j
}

impl Default for Targets {
    fn default() -> (targets: Self)
        ensures
            forall|j: int| !targets.has(j),
    {
        Targets::none()
    }
}

} // verus!
