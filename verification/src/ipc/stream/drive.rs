//! Driving the two sides of a transfer over their arenas.
use crate::ipc::Fault;
use super::arena::{spliced, Arena, PopStep, PushStep, Words};
use super::frame::Frame;
use super::transfer::{Consume, ConsumePhase, Produce, ProducePhase};
use super::validate::carries;
use vstd::prelude::*;

verus! {

/// What a producer does next.
#[derive(Clone, Copy, Debug, PartialEq, Eq, Structural)]
pub enum ProduceStep {
    /// Read up to `len` bytes of the source into the slot, then call
    /// [`Produce::filled`].
    Fill { slot: usize, len: usize },
    /// Read a byte of the source, then call [`Produce::probed`].
    Probe,
    /// Wait for a release.
    AwaitReleases,
    /// Wait for a free descriptor.
    AwaitSpace,
    /// A frame has moved. If `wake` is set, the peer has to be woken.
    Moved { wake: bool },
    /// The transfer is complete.
    Done,
}

/// What a consumer does next.
#[derive(Clone, Copy, Debug, PartialEq, Eq, Structural)]
pub enum ConsumeStep {
    /// Give the sink `len` bytes of the arena from `at` on, then call
    /// [`Consume::written`].
    Write { at: usize, len: usize },
    /// Wait for a frame.
    AwaitData,
    /// Wait for a free descriptor.
    AwaitSpace,
    /// A frame has moved. If `wake` is set, the peer has to be woken.
    Moved { wake: bool },
    /// The transfer is complete.
    Done,
}

/// What a producer makes of a frame that the consumer has sent back: why it cannot use it,
/// or the producer after it.
pub open spec fn answered(side: Produce, frame: Result<Frame, Fault>) -> Result<Produce, Fault> {
    match frame {
        Err(fault) => Err(fault),
        Ok(frame) => if side.phase == ProducePhase::Confirming {
            match side.confirm_defect(frame) {
                Some(fault) => Err(fault),
                None => Ok(Produce { phase: ProducePhase::Done, ..side }),
            }
        } else {
            match side.release_defect(frame) {
                Some(fault) => Err(fault),
                None => Ok(side.after_release()),
            }
        },
    }
}

/// Whether the producer waits for a frame of the consumer.
pub open spec fn listens(side: Produce) -> bool {
    side.phase == ProducePhase::Releasing || side.phase == ProducePhase::Draining || side.phase
        == ProducePhase::Confirming
}

/// Take the producer one step further.
pub fn produce_step(
    side: &mut Produce,
    data: &Arena,
    data_words: &mut Words,
    data_bytes: &mut [u8],
    releases: &Arena,
    release_words: &mut Words,
    release_bytes: &[u8],
) -> (step: Result<ProduceStep, Fault>)
    requires
        old(side).wf(),
        carries(*data, old(side).shape),
        old(data_bytes)@.len() == data.extent(),
        releases.wf(),
        release_bytes@.len() == releases.extent(),
        old(data_words).tail < u64::MAX,
        old(release_words).head < u64::MAX,
    ensures
        final(side).wf(),
        final(data_bytes)@.len() == old(data_bytes)@.len(),
        // A frame to announce goes into the data arena, if there is room.
        old(side).pending() matches Some(frame) ==> {
            &&& *final(release_words) == *old(release_words)
            &&& if old(data_words).used() >= data.descriptor_capacity {
                &&& step == Ok::<ProduceStep, Fault>(ProduceStep::AwaitSpace)
                &&& *final(side) == *old(side)
                &&& *final(data_words) == *old(data_words)
                &&& final(data_bytes)@ == old(data_bytes)@
            } else {
                &&& step == Ok::<ProduceStep, Fault>(
                    ProduceStep::Moved { wake: old(data_words).data_ready.waiters != 0 },
                )
                &&& *final(side) == old(side).after_push()
                &&& *final(data_words) == old(data_words).pushed()
                &&& final(data_bytes)@ == spliced(
                    old(data_bytes)@,
                    data.descriptor_at(old(data_words).tail as int),
                    frame.bytes(),
                )
            }
        },
        old(side).pending() is None ==> *final(data_words) == *old(data_words) && final(data_bytes)@ == old(data_bytes)@,
        // An answer comes out of the release arena, if there is one.
        listens(*old(side)) && old(release_words).head == old(release_words).tail ==> {
            &&& step == Ok::<ProduceStep, Fault>(ProduceStep::AwaitReleases)
            &&& *final(side) == *old(side)
            &&& *final(release_words) == *old(release_words)
        },
        listens(*old(side)) && old(release_words).head != old(release_words).tail ==> {
            &&& *final(release_words) == old(release_words).popped()
            &&& match answered(
                *old(side),
                Frame::parsed(
                    releases.descriptor(release_bytes@, old(release_words).head as int),
                ),
            ) {
                Ok(next) => *final(side) == next && step == Ok::<ProduceStep, Fault>(
                    ProduceStep::Moved { wake: old(release_words).space_ready.waiters != 0 },
                ),
                Err(fault) => *final(side) == *old(side) && step == Err::<ProduceStep, Fault>(fault),
            }
        },
        // Everything else is up to the caller.
        old(side).pending() is None && !listens(*old(side)) ==> *final(side) == *old(side)
            && *final(release_words) == *old(release_words),
        old(side).phase == ProducePhase::Filling ==> if old(side).shape.generation_of(
            old(side).chunks as int,
        ) > u32::MAX {
            step == Err::<ProduceStep, Fault>(Fault::GenerationExhausted)
        } else {
            step == Ok::<ProduceStep, Fault>(
                ProduceStep::Fill {
                    slot: old(side).shape.slot_of(old(side).chunks as int) as usize,
                    len: old(side).room() as usize,
                },
            )
        },
        old(side).phase == ProducePhase::Probing ==> step == Ok::<ProduceStep, Fault>(
            ProduceStep::Probe,
        ),
        old(side).phase == ProducePhase::Done ==> step == Ok::<ProduceStep, Fault>(
            ProduceStep::Done,
        ),
{
    match side.frame() {
        Some(frame) => {
            return match data.push(data_words, data_bytes, frame) {
                PushStep::Full => Ok(ProduceStep::AwaitSpace),
                PushStep::Pushed { wake } => {
                    side.pushed();
                    Ok(ProduceStep::Moved { wake })
                },
            };
        },
        None => {},
    }
    match side.phase {
        ProducePhase::Filling => match side.fill() {
            Ok((slot, len)) => Ok(ProduceStep::Fill { slot, len }),
            Err(fault) => Err(fault),
        },
        ProducePhase::Probing => Ok(ProduceStep::Probe),
        // A frame to announce has been dealt with above.
        ProducePhase::Done | ProducePhase::Pushing(_) | ProducePhase::Completing => Ok(
            ProduceStep::Done,
        ),
        ProducePhase::Releasing | ProducePhase::Draining => match releases.pop(
            release_words,
            release_bytes,
        ) {
            PopStep::Empty => Ok(ProduceStep::AwaitReleases),
            PopStep::Popped { frame: Ok(frame), wake } => match side.released(frame) {
                Ok(()) => Ok(ProduceStep::Moved { wake }),
                Err(fault) => Err(fault),
            },
            PopStep::Popped { frame: Err(fault), wake: _ } => Err(fault),
        },
        ProducePhase::Confirming => match releases.pop(release_words, release_bytes) {
            PopStep::Empty => Ok(ProduceStep::AwaitReleases),
            PopStep::Popped { frame: Ok(frame), wake } => match side.confirmed(frame) {
                Ok(()) => Ok(ProduceStep::Moved { wake }),
                Err(fault) => Err(fault),
            },
            PopStep::Popped { frame: Err(fault), wake: _ } => Err(fault),
        },
    }
}

/// Take the consumer one step further.
pub fn consume_step(
    side: &mut Consume,
    data: &Arena,
    data_words: &mut Words,
    data_bytes: &[u8],
    releases: &Arena,
    release_words: &mut Words,
    release_bytes: &mut [u8],
) -> (step: Result<ConsumeStep, Fault>)
    requires
        old(side).wf(),
        carries(*data, old(side).shape),
        data_bytes@.len() == data.extent(),
        releases.wf(),
        old(release_bytes)@.len() == releases.extent(),
        old(data_words).head < u64::MAX,
        old(release_words).tail < u64::MAX,
    ensures
        final(side).wf(),
        final(release_bytes)@.len() == old(release_bytes)@.len(),
        // A frame to send back goes into the release arena, if there is room.
        old(side).pending() matches Some(frame) ==> {
            &&& *final(data_words) == *old(data_words)
            &&& if old(release_words).used() >= releases.descriptor_capacity {
                &&& step == Ok::<ConsumeStep, Fault>(ConsumeStep::AwaitSpace)
                &&& *final(side) == *old(side)
                &&& *final(release_words) == *old(release_words)
                &&& final(release_bytes)@ == old(release_bytes)@
            } else {
                &&& step == Ok::<ConsumeStep, Fault>(
                    ConsumeStep::Moved { wake: old(release_words).data_ready.waiters != 0 },
                )
                &&& *final(side) == old(side).after_push()
                &&& *final(release_words) == old(release_words).pushed()
                &&& final(release_bytes)@ == spliced(
                    old(release_bytes)@,
                    releases.descriptor_at(old(release_words).tail as int),
                    frame.bytes(),
                )
            }
        },
        old(side).pending() is None ==> *final(release_words) == *old(release_words) && final(release_bytes)@ == old(release_bytes)@,
        // A frame comes out of the data arena, if there is one.
        old(side).phase == ConsumePhase::Receiving && old(data_words).head == old(data_words).tail
            ==> {
            &&& step == Ok::<ConsumeStep, Fault>(ConsumeStep::AwaitData)
            &&& *final(side) == *old(side)
            &&& *final(data_words) == *old(data_words)
        },
        old(side).phase == ConsumePhase::Receiving && old(data_words).head != old(data_words).tail
            ==> {
            &&& *final(data_words) == old(data_words).popped()
            &&& match Frame::parsed(data.descriptor(data_bytes@, old(data_words).head as int)) {
                Err(fault) => *final(side) == *old(side) && step == Err::<ConsumeStep, Fault>(fault),
                Ok(frame) => match old(side).receive_defect(frame, *data, data_bytes@) {
                    Some(fault) => *final(side) == *old(side) && step == Err::<ConsumeStep, Fault>(
                        fault,
                    ),
                    None => *final(side) == old(side).after_receive(frame) && step == Ok::<
                        ConsumeStep,
                        Fault,
                    >(ConsumeStep::Moved { wake: old(data_words).space_ready.waiters != 0 }),
                },
            }
        },
        // Everything else is up to the caller.
        old(side).phase matches ConsumePhase::Writing(frame) ==> {
            &&& *final(side) == *old(side)
            &&& *final(data_words) == *old(data_words)
            &&& data.slot_at(frame.slot as int) + frame.len <= data_bytes@.len()
            &&& step == Ok::<ConsumeStep, Fault>(
                ConsumeStep::Write {
                    at: data.slot_at(frame.slot as int) as usize,
                    len: frame.len as usize,
                },
            )
        },
        old(side).phase == ConsumePhase::Done ==> {
            &&& *final(side) == *old(side)
            &&& *final(data_words) == *old(data_words)
            &&& step == Ok::<ConsumeStep, Fault>(ConsumeStep::Done)
        },
{
    match side.frame() {
        Some(frame) => {
            return match releases.push(release_words, release_bytes, frame) {
                PushStep::Full => Ok(ConsumeStep::AwaitSpace),
                PushStep::Pushed { wake } => {
                    side.pushed();
                    Ok(ConsumeStep::Moved { wake })
                },
            };
        },
        None => {},
    }
    match side.phase {
        ConsumePhase::Receiving => match data.pop(data_words, data_bytes) {
            PopStep::Empty => Ok(ConsumeStep::AwaitData),
            PopStep::Popped { frame: Ok(frame), wake } => match side.received(
                frame,
                data,
                data_bytes,
            ) {
                Ok(()) => Ok(ConsumeStep::Moved { wake }),
                Err(fault) => Err(fault),
            },
            PopStep::Popped { frame: Err(fault), wake: _ } => Err(fault),
        },
        ConsumePhase::Writing(frame) => match data.slot_offset(
            frame.slot as usize,
            frame.len as usize,
        ) {
            Ok(at) => Ok(ConsumeStep::Write { at, len: frame.len as usize }),
            Err(fault) => Err(fault),
        },
        // A frame to send back has been dealt with above.
        ConsumePhase::Done | ConsumePhase::Releasing(_) | ConsumePhase::Acknowledging(_) => Ok(
            ConsumeStep::Done,
        ),
    }
}

} // verus!
