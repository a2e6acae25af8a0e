//! Consumer-local locality with bounded round-robin service.
//! The cursor is a hint, never ownership: every drain still acquires and releases
//! its claim.
use crate::round_robin;
use vstd::arithmetic::div_mod::lemma_small_mod;
use vstd::prelude::*;

verus! {

/// Maximum productive drains before moving beyond the preferred ring.
pub const QUANTUM: u8 = 16;

/// A consumer's position in its scan over the rings.
pub struct Cursor {
    next: usize,
    credits: u8,
}

impl Cursor {
    /// Where the next selection is made from.
    pub closed spec fn position(&self) -> usize {
        self.next
    }

    /// How many more productive drains may stay on the preferred ring.
    pub closed spec fn credits(&self) -> nat {
        self.credits as nat
    }

    /// The credits are within the quantum.
    pub closed spec fn wf(&self) -> bool {
        self.credits < QUANTUM
    }

    /// A cursor that starts at `seed`, which may lie beyond the number of rings.
    pub fn new(seed: usize) -> (cursor: Self)
        ensures
            cursor.wf(),
            cursor.position() == seed,
            cursor.credits() == QUANTUM - 1,
    {
        Self { next: seed, credits: QUANTUM - 1 }
    }

    /// Always advance before attempting a claim. Failure and emptiness
    /// therefore leave the full-scan/disconnect behavior intact.
    pub fn next(&mut self, len: usize) -> (ring: usize)
        requires
            0 < len,
        ensures
            ring == old(self).position() % len,
            ring < len,
            final(self).position() == ring + 1,
            final(self).credits() == old(self).credits(),
            final(self).wf() == old(self).wf(),
    {
        round_robin::next(&mut self.next, len)
    }

    /// Called only after a productive drain and after releasing its claim.
    /// Rewind the last selection while credit remains; periodically leave the
    /// next position intact so a permanently hot ring cannot hide its peers.
    pub fn prefer(&mut self)
        requires
            old(self).wf(),
            0 < old(self).position(),
        ensures
            final(self).wf(),
            final(self).position() == preferred_position(
                old(self).position() as int,
                old(self).credits(),
            ),
            final(self).credits() == preferred_credits(old(self).credits()),
    {
        if self.credits != 0 {
            self.next = self.next - 1;
        }
        let less: u8 = self.credits.wrapping_sub(1);
        assert(less & 15u8 == less % 16) by (bit_vector);
        self.credits = less & (QUANTUM - 1);
    }
}

/// The position after a productive drain: back on the same ring while credit remains.
pub open spec fn preferred_position(position: int, credits: nat) -> int {
    if credits != 0 {
        position - 1
    } else {
        position
    }
}

/// The credits after a productive drain: one less, or a whole quantum anew.
pub open spec fn preferred_credits(credits: nat) -> nat {
    if credits == 0 {
        (QUANTUM - 1) as nat
    } else {
        (credits - 1) as nat
    }
}

impl Default for Cursor {
    fn default() -> (cursor: Self)
        ensures
            cursor.wf(),
            cursor.position() == 0,
            cursor.credits() == QUANTUM - 1,
    {
        Self::new(0)
    }
}

/// Position and credits after `drains` productive drains of the selected rings.
pub open spec fn served(position: int, credits: nat, len: int, drains: nat) -> (int, nat)
    decreases drains,
{
    if drains == 0 {
        (position, credits)
    } else {
        let (p, c) = served(position, credits, len, (drains - 1) as nat);
        (preferred_position(p % len + 1, c), preferred_credits(c))
    }
}

/// Bounded service: a ring that always has values is served for the credits that
/// remain and once more, and then the scan moves on to the following ring with a
/// whole quantum.
pub proof fn law_hot_ring_gets_bounded_service(position: int, credits: nat, len: int, drains: nat)
    requires
        0 < len,
        0 <= position < len,
        credits < QUANTUM,
        drains <= credits + 1,
    ensures
        drains <= credits ==> served(position, credits, len, drains) == (
            position,
            (credits - drains) as nat,
        ),
        drains == credits + 1 ==> served(position, credits, len, drains) == (
            position + 1,
            (QUANTUM - 1) as nat,
        ),
        drains == credits + 1 ==> served(position, credits, len, drains).1 == 15,
    decreases drains,
{
    if drains > 0 {
        law_hot_ring_gets_bounded_service(position, credits, len, (drains - 1) as nat);
        lemma_small_mod(position as nat, len as nat);
    }
}

} // verus!
