//! How a caller that has to wait spends the time until it looks again.
use vstd::prelude::*;

verus! {

/// Attempts that are followed by a spin hint before the scheduler is involved.
pub const SPIN_LIMIT: u32 = 64;

/// What to do before the next attempt.
#[derive(Clone, Copy, PartialEq, Eq, Structural, Debug)]
pub enum Pause {
    /// Tell the processor that this is a spin loop.
    Spin,
    /// Let the scheduler run another thread.
    Yield,
}

/// The pauses taken in the current wait episode.
#[derive(Clone, Copy, PartialEq, Eq, Structural, Debug)]
pub struct Backoff {
    /// Pauses so far. The count wraps.
    pub spins: u32,
}

/// The pause that follows `spins` counted pauses.
pub open spec fn pause_after(spins: int) -> Pause {
    if spins < SPIN_LIMIT {
        Pause::Spin
    } else {
        Pause::Yield
    }
}

/// The count after one more pause.
pub open spec fn counted(spins: u32) -> u32 {
    if spins == u32::MAX {
        0
    } else {
        (spins + 1) as u32
    }
}

impl Backoff {
    /// A fresh wait episode.
    pub fn new() -> (backoff: Self)
        ensures
            backoff.spins == 0,
    {
        Backoff { spins: 0 }
    }

    /// Progress starts a fresh wait episode; old contention must not force every
    /// later attempt straight into scheduler yielding.
    pub fn reset(&mut self)
        ensures
            final(self).spins == 0,
    {
        self.spins = 0;
    }

    /// Spin for the first attempts of the episode and yield from then on.
    pub fn pause(&mut self) -> (pause: Pause)
        ensures
            final(self).spins == counted(old(self).spins),
            pause == pause_after(final(self).spins as int),
    {
        self.spins = self.spins.wrapping_add(1);
        if self.spins < SPIN_LIMIT {
            Pause::Spin
        } else {
            Pause::Yield
        }
    }

    /// Spin for the first attempts, yield once, and start over.
    pub fn pause_and_restart(&mut self) -> (pause: Pause)
        ensures
            pause == pause_after(counted(old(self).spins) as int),
            final(self).spins == if pause == Pause::Yield {
                0
            } else {
                counted(old(self).spins)
            },
    {
        let pause = self.pause();
        if pause == Pause::Yield {
            self.spins = 0;
        }
        pause
    }
}


/// How far a wait has come after so many more pauses.
pub open spec fn waited(spins: u32, pauses: nat) -> u32
    decreases pauses,
{
    if pauses == 0 {
        spins
    } else {
        counted(waited(spins, (pauses - 1) as nat))
    }
}

/// A wait spins first and then yields: in a fresh episode the pauses before the sixty-fourth
/// spin, and the others yield, until the count wraps.
pub proof fn law_waits_spin_before_they_yield(pauses: nat)
    requires
        0 < pauses <= u32::MAX,
    ensures
        waited(0, pauses) == pauses,
        pauses < 64 ==> pause_after(waited(0, pauses) as int) == Pause::Spin,
        64 <= pauses ==> pause_after(waited(0, pauses) as int) == Pause::Yield,
    decreases pauses,
{
    if pauses > 1 {
        law_waits_spin_before_they_yield((pauses - 1) as nat);
    } else {
        assert(waited(0, 0) == 0);
    }
}

} // verus!
