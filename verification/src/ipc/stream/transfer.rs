//! The two sides of a transfer.
//!
//! A side says what it needs next, and is told what has come of it. It waits for
//! nothing itself: reading the source, writing the sink and waiting for the peer are up
//! to whoever drives it.
use crate::ipc::Fault;
use super::arena::Arena;
use super::checksum::{checksum, checksum_of, fold_checksum, folded};
use super::frame::{Frame, Kind};
use super::shape::{law_every_chunk_is_describable, lease_of, lemma_div_ceil, StreamShape};
use super::validate::{
    announces_some, carries, complete_frame, data_frame, releases_exactly, releases_some,
    validate_chunk, validate_complete, validate_dynamic_chunk, validate_dynamic_complete,
    validate_dynamic_release, validate_release,
};
use vstd::prelude::*;

verus! {

/// Where a stream ends.
#[derive(Clone, Copy, Debug, PartialEq, Eq, Structural)]
pub enum Ending {
    /// After exactly the announced bytes.
    Exact,
    /// Where the source ends, at the latest after the announced bytes.
    AtEnd,
}

/// How many bytes the first `chunks` chunks of an exact stream have.
pub open spec fn exact_total(shape: StreamShape, chunks: int) -> int {
    if chunks * shape.chunk_bytes < shape.total_bytes {
        chunks * shape.chunk_bytes
    } else {
        shape.total_bytes as int
    }
}

/// How the bytes of an exact stream grow by a chunk, and when they are complete.
pub proof fn lemma_exact_total(shape: StreamShape, chunks: int)
    requires
        shape.valid(),
        0 <= chunks <= shape.chunk_count(),
    ensures
        exact_total(shape, chunks) == shape.total_bytes <==> chunks == shape.chunk_count(),
        chunks < shape.chunk_count() ==> {
            &&& exact_total(shape, chunks) == shape.offset_of(chunks)
            &&& exact_total(shape, chunks + 1) == exact_total(shape, chunks) + shape.len_of(chunks)
            &&& shape.len_of(chunks) > 0
        },
        chunks <= exact_total(shape, chunks),
{
    let total = shape.total_bytes as int;
    let chunk = shape.chunk_bytes as int;
    let count = shape.chunk_count();
    lemma_div_ceil(total, chunk);
    if chunks == count {
    } else {
        law_every_chunk_is_describable(shape, chunks);
        assert((chunks + 1) * chunk == chunks * chunk + chunk) by (nonlinear_arith);
    }
    assert(chunks <= chunks * chunk) by (nonlinear_arith)
        requires
            chunk >= 1,
            chunks >= 0,
    ;
}

/// How far a producer has come.
#[derive(Clone, Copy, Debug, PartialEq, Eq, Structural)]
pub enum ProducePhase {
    /// It needs the slot of the oldest chunk back.
    Releasing,
    /// It needs bytes of the source.
    Filling,
    /// It needs to know whether the source has more bytes than the ceiling.
    Probing,
    /// It has a chunk to announce.
    Pushing(Frame),
    /// It needs the remaining slots back.
    Draining,
    /// It has the end of the stream to announce.
    Completing,
    /// It needs the end of the stream confirmed.
    Confirming,
    /// It is done.
    Done,
}

/// The sending side of a transfer.
#[derive(Clone, Copy, Debug, PartialEq, Eq, Structural)]
pub struct Produce {
    /// The dimensions of the stream.
    pub shape: StreamShape,
    /// The transfer that the frames belong to.
    pub transfer_id: u64,
    /// The flags of the frames.
    pub flags: u8,
    /// Where the stream ends.
    pub ending: Ending,
    /// How far it has come.
    pub phase: ProducePhase,
    /// The chunks that have been announced.
    pub chunks: u64,
    /// The chunks that have been given back.
    pub released: u64,
    /// The bytes of the announced chunks.
    pub total: u64,
    /// The checksum of the filled chunks.
    pub aggregate: u64,
}

impl Produce {
    /// Where the producer stands once it has no more chunks.
    pub open spec fn tail_phase(&self) -> ProducePhase {
        if self.released < self.chunks {
            ProducePhase::Draining
        } else {
            ProducePhase::Completing
        }
    }

    /// Where the producer stands between two chunks.
    pub open spec fn top_phase(&self) -> ProducePhase {
        if self.total == self.shape.total_bytes {
            match self.ending {
                Ending::Exact => self.tail_phase(),
                Ending::AtEnd => ProducePhase::Probing,
            }
        } else if self.chunks >= self.shape.slots {
            ProducePhase::Releasing
        } else {
            ProducePhase::Filling
        }
    }

    /// The bytes that the next chunk can have.
    pub open spec fn room(&self) -> int {
        if self.shape.total_bytes - self.total < self.shape.chunk_bytes {
            self.shape.total_bytes - self.total
        } else {
            self.shape.chunk_bytes as int
        }
    }

    /// The frame that announces `len` bytes as the next chunk.
    pub open spec fn announcement(&self, len: int, checksum: u64) -> Frame {
        Frame {
            kind: Kind::Data,
            flags: self.flags,
            transfer_id: self.transfer_id,
            offset: self.total,
            slot: self.shape.slot_of(self.chunks as int) as u32,
            generation: self.shape.generation_of(self.chunks as int) as u32,
            len: len as u32,
            checksum,
        }
    }

    /// The frame that ends the stream.
    pub open spec fn farewell(&self) -> Frame {
        complete_frame(self.total, self.transfer_id, self.flags, self.aggregate)
    }

    /// How many chunks are back when the next one can be filled.
    pub open spec fn released_for_next(&self) -> int {
        if self.chunks + 1 <= self.shape.slots {
            0
        } else {
            self.chunks + 1 - self.shape.slots
        }
    }

    /// Whether the phase fits the counts.
    pub open spec fn wf(&self) -> bool {
        &&& self.shape.valid()
        &&& self.released <= self.chunks <= self.total <= self.shape.total_bytes
        &&& self.chunks <= self.released + self.shape.slots
        &&& self.ending == Ending::Exact ==> self.chunks <= self.shape.chunk_count() && self.total
            == exact_total(self.shape, self.chunks as int)
        &&& match self.phase {
            ProducePhase::Releasing => self.total < self.shape.total_bytes && self.released
                + self.shape.slots == self.chunks,
            ProducePhase::Filling => self.total < self.shape.total_bytes && self.released
                == self.released_for_next(),
            ProducePhase::Probing => self.total == self.shape.total_bytes && self.ending
                == Ending::AtEnd,
            ProducePhase::Pushing(frame) => {
                &&& self.total < self.shape.total_bytes
                &&& self.released == self.released_for_next()
                &&& self.shape.generation_of(self.chunks as int) <= u32::MAX
                &&& 0 < frame.len <= self.room()
                &&& self.ending == Ending::Exact ==> frame.len == self.room()
                &&& frame == self.announcement(frame.len as int, frame.checksum)
            },
            ProducePhase::Draining => self.released < self.chunks && (self.ending == Ending::Exact
                ==> self.total == self.shape.total_bytes),
            ProducePhase::Completing | ProducePhase::Confirming | ProducePhase::Done => self.released
                == self.chunks && (self.ending == Ending::Exact ==> self.total
                == self.shape.total_bytes),
        }
    }

    /// A producer that has sent nothing.
    pub open spec fn started(
        shape: StreamShape,
        transfer_id: u64,
        flags: u8,
        ending: Ending,
    ) -> Produce {
        let idle = Produce {
            shape,
            transfer_id,
            flags,
            ending,
            phase: ProducePhase::Done,
            chunks: 0,
            released: 0,
            total: 0,
            aggregate: 0,
        };
        Produce { phase: idle.top_phase(), ..idle }
    }

    /// Why a frame does not give the oldest chunk back, if it does not.
    pub open spec fn release_defect(&self, frame: Frame) -> Option<Fault> {
        match self.ending {
            Ending::Exact => if releases_exactly(
                frame,
                self.shape,
                self.released as int,
                self.transfer_id,
                self.flags,
            ) {
                None
            } else {
                Some(Fault::Released)
            },
            Ending::AtEnd => if self.shape.generation_of(self.released as int) > u32::MAX {
                Some(Fault::GenerationExhausted)
            } else if releases_some(
                frame,
                self.shape,
                self.released as int,
                self.transfer_id,
                self.flags,
            ) {
                None
            } else {
                Some(Fault::DynamicReleased)
            },
        }
    }

    /// The producer with one more chunk given back.
    pub open spec fn after_release(&self) -> Produce {
        let next = Produce { released: (self.released + 1) as u64, ..*self };
        Produce {
            phase: if self.phase == ProducePhase::Releasing {
                ProducePhase::Filling
            } else {
                next.tail_phase()
            },
            ..next
        }
    }

    /// Why bytes of the source cannot be the next chunk, if they cannot.
    pub open spec fn fill_defect(&self, len: int) -> Option<Fault> {
        if self.shape.generation_of(self.chunks as int) > u32::MAX {
            Some(Fault::GenerationExhausted)
        } else if self.ending == Ending::Exact && len < self.room() {
            Some(Fault::Truncated)
        } else {
            None
        }
    }

    /// The producer with bytes of the source in its slot.
    pub open spec fn after_fill(&self, payload: Seq<u8>) -> Produce {
        if payload.len() == 0 {
            Produce { phase: self.tail_phase(), ..*self }
        } else {
            let frame = self.announcement(payload.len() as int, checksum_of(payload));
            Produce {
                phase: ProducePhase::Pushing(frame),
                aggregate: folded(self.aggregate, frame),
                ..*self
            }
        }
    }

    /// The producer with its frame announced.
    pub open spec fn after_push(&self) -> Produce {
        match self.phase {
            ProducePhase::Pushing(frame) => {
                let next = Produce {
                    chunks: (self.chunks + 1) as u64,
                    total: (self.total + frame.len) as u64,
                    ..*self
                };
                Produce { phase: next.top_phase(), ..next }
            },
            _ => Produce { phase: ProducePhase::Confirming, ..*self },
        }
    }

    /// Start a transfer.
    pub fn start(shape: StreamShape, transfer_id: u64, flags: u8, ending: Ending) -> (side: Produce)
        requires
            shape.valid(),
        ensures
            side == Produce::started(shape, transfer_id, flags, ending),
            side.wf(),
    {
        proof {
            lemma_div_ceil(shape.total_bytes as int, shape.chunk_bytes as int);
        }
        let mut side = Produce {
            shape,
            transfer_id,
            flags,
            ending,
            phase: ProducePhase::Done,
            chunks: 0,
            released: 0,
            total: 0,
            aggregate: 0,
        };
        side.phase = side.top();
        side
    }

    /// Where the producer stands between two chunks.
    fn top(&self) -> (phase: ProducePhase)
        ensures
            phase == self.top_phase(),
    {
        if self.total == self.shape.total_bytes {
            match self.ending {
                Ending::Exact => self.tail(),
                Ending::AtEnd => ProducePhase::Probing,
            }
        } else if self.chunks >= self.shape.slots as u64 {
            ProducePhase::Releasing
        } else {
            ProducePhase::Filling
        }
    }

    /// Where the producer stands once it has no more chunks.
    fn tail(&self) -> (phase: ProducePhase)
        ensures
            phase == self.tail_phase(),
    {
        if self.released < self.chunks {
            ProducePhase::Draining
        } else {
            ProducePhase::Completing
        }
    }

    /// The slot of the next chunk, and the bytes that it can have.
    pub fn fill(&self) -> (result: Result<(usize, usize), Fault>)
        requires
            self.wf(),
            self.phase == ProducePhase::Filling,
        ensures
            result is Ok <==> self.shape.generation_of(self.chunks as int) <= u32::MAX,
            result matches Ok(want) ==> want.0 == self.shape.slot_of(self.chunks as int) && want.0
                < self.shape.slots && want.1 == self.room() && want.1 > 0,
            result matches Err(fault) ==> fault == Fault::GenerationExhausted,
    {
        match lease_of(self.shape, self.chunks) {
            Ok((slot, _)) => {
                let left: u64 = self.shape.total_bytes - self.total;
                if left < self.shape.chunk_bytes as u64 {
                    Ok((slot, left as usize))
                } else {
                    Ok((slot, self.shape.chunk_bytes))
                }
            },
            Err(fault) => Err(fault),
        }
    }

    /// Take the bytes that the source had for the next chunk.
    pub fn filled(&mut self, payload: &[u8]) -> (result: Result<(), Fault>)
        requires
            old(self).wf(),
            old(self).phase == ProducePhase::Filling,
            payload@.len() <= old(self).room(),
        ensures
            final(self).wf(),
            result is Ok <==> old(self).fill_defect(payload@.len() as int) is None,
            result is Ok ==> *final(self) == old(self).after_fill(payload@),
            result matches Err(fault) ==> old(self).fill_defect(payload@.len() as int) == Some(
                fault,
            ) && *final(self) == *old(self),
    {
        let (slot, generation) = match lease_of(self.shape, self.chunks) {
            Ok(lease) => lease,
            Err(fault) => {
                return Err(fault);
            },
        };
        let room: usize = match self.fill() {
            Ok((_, room)) => room,
            Err(fault) => {
                return Err(fault);
            },
        };
        let len: usize = payload.len();
        match self.ending {
            Ending::Exact => {
                if len < room {
                    return Err(Fault::Truncated);
                }
            },
            Ending::AtEnd => {},
        }
        if len == 0 {
            self.phase = self.tail();
            return Ok(());
        }
        let frame = Frame {
            kind: Kind::Data,
            flags: self.flags,
            transfer_id: self.transfer_id,
            offset: self.total,
            slot: slot as u32,
            generation,
            len: len as u32,
            checksum: checksum(payload),
        };
        self.aggregate = fold_checksum(self.aggregate, frame);
        self.phase = ProducePhase::Pushing(frame);
        Ok(())
    }

    /// Take the number of bytes that the source had beyond the ceiling.
    pub fn probed(&mut self, excess: usize) -> (result: Result<(), Fault>)
        requires
            old(self).wf(),
            old(self).phase == ProducePhase::Probing,
        ensures
            final(self).wf(),
            result is Ok <==> excess == 0,
            result is Ok ==> *final(self) == old(self).after_fill(Seq::empty()),
            result matches Err(fault) ==> fault == Fault::ByteCeiling && *final(self) == *old(self),
    {
        if excess != 0 {
            return Err(Fault::ByteCeiling);
        }
        self.phase = self.tail();
        Ok(())
    }

    /// Take a frame that gives a chunk back.
    pub fn released(&mut self, frame: Frame) -> (result: Result<(), Fault>)
        requires
            old(self).wf(),
            old(self).phase == ProducePhase::Releasing || old(self).phase == ProducePhase::Draining,
        ensures
            final(self).wf(),
            result is Ok <==> old(self).release_defect(frame) is None,
            result is Ok ==> *final(self) == old(self).after_release(),
            result matches Err(fault) ==> old(self).release_defect(frame) == Some(fault)
                && *final(self) == *old(self),
    {
        let verdict: Result<(), Fault> = match self.ending {
            Ending::Exact => validate_release(
                frame,
                self.released,
                self.shape,
                self.transfer_id,
                self.flags,
            ),
            Ending::AtEnd => validate_dynamic_release(
                frame,
                self.released,
                self.shape,
                self.transfer_id,
                self.flags,
            ),
        };
        match verdict {
            Ok(()) => {},
            Err(fault) => {
                return Err(fault);
            },
        }
        self.released = self.released + 1;
        match self.phase {
            ProducePhase::Releasing => {
                self.phase = ProducePhase::Filling;
            },
            _ => {
                self.phase = self.tail();
            },
        }
        Ok(())
    }

    /// The frame to announce, if there is one.
    pub open spec fn pending(&self) -> Option<Frame> {
        match self.phase {
            ProducePhase::Pushing(frame) => Some(frame),
            ProducePhase::Completing => Some(self.farewell()),
            _ => None,
        }
    }

    /// The frame to announce, if there is one.
    pub fn frame(&self) -> (frame: Option<Frame>)
        ensures
            frame == self.pending(),
    {
        match self.phase {
            ProducePhase::Pushing(frame) => Some(frame),
            ProducePhase::Completing => Some(
                Frame {
                    kind: Kind::Complete,
                    flags: self.flags,
                    transfer_id: self.transfer_id,
                    offset: self.total,
                    slot: 0,
                    generation: 0,
                    len: 0,
                    checksum: self.aggregate,
                },
            ),
            _ => None,
        }
    }

    /// Go on after the frame has been announced.
    pub fn pushed(&mut self)
        requires
            old(self).wf(),
            old(self).pending() is Some,
        ensures
            final(self).wf(),
            *final(self) == old(self).after_push(),
    {
        match self.phase {
            ProducePhase::Pushing(frame) => {
                proof {
                    if self.ending == Ending::Exact {
                        lemma_exact_total(self.shape, self.chunks as int);
                    }
                }
                self.total = self.total + frame.len as u64;
                self.chunks = self.chunks + 1;
                self.phase = self.top();
            },
            _ => {
                self.phase = ProducePhase::Confirming;
            },
        }
    }

    /// Why a frame does not confirm the end of the stream, if it does not.
    pub open spec fn confirm_defect(&self, frame: Frame) -> Option<Fault> {
        if frame == self.farewell() {
            None
        } else {
            match self.ending {
                Ending::Exact => Some(Fault::Complete),
                Ending::AtEnd => Some(Fault::DynamicComplete),
            }
        }
    }

    /// Take the frame that confirms the end of the stream.
    pub fn confirmed(&mut self, frame: Frame) -> (result: Result<(), Fault>)
        requires
            old(self).wf(),
            old(self).phase == ProducePhase::Confirming,
        ensures
            final(self).wf(),
            result is Ok <==> old(self).confirm_defect(frame) is None,
            result is Ok ==> *final(self) == (Produce { phase: ProducePhase::Done, ..*old(self) }),
            result matches Err(fault) ==> old(self).confirm_defect(frame) == Some(fault)
                && *final(self) == *old(self),
    {
        let verdict: Result<(), Fault> = match self.ending {
            Ending::Exact => validate_complete(
                frame,
                self.shape,
                self.transfer_id,
                self.flags,
                self.aggregate,
            ),
            Ending::AtEnd => validate_dynamic_complete(
                frame,
                self.shape,
                self.transfer_id,
                self.flags,
                self.total,
                self.aggregate,
            ),
        };
        match verdict {
            Ok(()) => {
                self.phase = ProducePhase::Done;
                Ok(())
            },
            Err(fault) => Err(fault),
        }
    }
}

/// How far a consumer has come.
#[derive(Clone, Copy, Debug, PartialEq, Eq, Structural)]
pub enum ConsumePhase {
    /// It needs a frame of the producer.
    Receiving,
    /// It has a chunk for the sink.
    Writing(Frame),
    /// It has a chunk to give back.
    Releasing(Frame),
    /// It has the end of the stream to confirm.
    Acknowledging(Frame),
    /// It is done.
    Done,
}

/// The receiving side of a transfer.
#[derive(Clone, Copy, Debug, PartialEq, Eq, Structural)]
pub struct Consume {
    /// The dimensions of the stream.
    pub shape: StreamShape,
    /// The transfer that the frames belong to.
    pub transfer_id: u64,
    /// The flags of the frames.
    pub flags: u8,
    /// Where the stream ends.
    pub ending: Ending,
    /// How far it has come.
    pub phase: ConsumePhase,
    /// The chunks that the sink has.
    pub chunks: u64,
    /// The bytes of those chunks.
    pub total: u64,
    /// Their checksum.
    pub aggregate: u64,
}

impl Consume {
    /// Whether the phase fits the counts.
    pub open spec fn wf(&self) -> bool {
        &&& self.shape.valid()
        &&& self.chunks <= self.total <= self.shape.total_bytes
        &&& self.ending == Ending::Exact ==> self.chunks <= self.shape.chunk_count() && self.total
            == exact_total(self.shape, self.chunks as int)
        &&& match self.phase {
            ConsumePhase::Receiving => true,
            ConsumePhase::Writing(frame) => {
                &&& frame.kind == Kind::Data
                &&& frame.slot < self.shape.slots
                &&& 0 < frame.len <= self.shape.chunk_bytes
                &&& self.total + frame.len <= self.shape.total_bytes
                &&& self.ending == Ending::Exact ==> self.chunks < self.shape.chunk_count()
                    && frame.len == self.shape.len_of(self.chunks as int)
            },
            ConsumePhase::Releasing(frame) => true,
            ConsumePhase::Acknowledging(_) | ConsumePhase::Done => self.ending == Ending::Exact
                ==> self.total == self.shape.total_bytes,
        }
    }

    /// A consumer that has received nothing.
    pub open spec fn started(
        shape: StreamShape,
        transfer_id: u64,
        flags: u8,
        ending: Ending,
    ) -> Consume {
        Consume {
            shape,
            transfer_id,
            flags,
            ending,
            phase: ConsumePhase::Receiving,
            chunks: 0,
            total: 0,
            aggregate: 0,
        }
    }

    /// Whether a frame is taken for the end of the stream.
    pub open spec fn at_end(&self, frame: Frame) -> bool {
        match self.ending {
            Ending::Exact => self.chunks == self.shape.chunk_count(),
            Ending::AtEnd => frame.kind == Kind::Complete,
        }
    }

    /// The frame that ends the stream here.
    pub open spec fn farewell(&self) -> Frame {
        complete_frame(self.total, self.transfer_id, self.flags, self.aggregate)
    }

    /// Why a frame is not acceptable, if it is not.
    pub open spec fn receive_defect(&self, frame: Frame, arena: Arena, bytes: Seq<u8>) -> Option<
        Fault,
    > {
        let index = self.chunks as int;
        match self.ending {
            Ending::Exact => if self.at_end(frame) {
                if frame == self.farewell() {
                    None
                } else {
                    Some(Fault::Complete)
                }
            } else if frame == data_frame(
                self.shape,
                index,
                self.transfer_id,
                self.flags,
                checksum_of(
                    arena.slot_bytes(bytes, self.shape.slot_of(index), self.shape.len_of(index)),
                ),
            ) {
                None
            } else {
                Some(Fault::Data)
            },
            Ending::AtEnd => if self.at_end(frame) {
                if frame == self.farewell() {
                    None
                } else {
                    Some(Fault::DynamicComplete)
                }
            } else if self.shape.generation_of(index) > u32::MAX {
                Some(Fault::GenerationExhausted)
            } else if announces_some(
                frame,
                self.shape,
                index,
                self.total,
                self.transfer_id,
                self.flags,
                arena,
                bytes,
            ) {
                None
            } else {
                Some(Fault::DynamicData)
            },
        }
    }

    /// The consumer with a frame accepted.
    pub open spec fn after_receive(&self, frame: Frame) -> Consume {
        Consume {
            phase: if self.at_end(frame) {
                ConsumePhase::Acknowledging(frame)
            } else {
                ConsumePhase::Writing(frame)
            },
            ..*self
        }
    }

    /// The consumer with its chunk in the sink.
    pub open spec fn after_write(&self, frame: Frame) -> Consume {
        Consume {
            phase: ConsumePhase::Releasing(Frame { kind: Kind::Released, ..frame }),
            chunks: (self.chunks + 1) as u64,
            total: (self.total + frame.len) as u64,
            aggregate: folded(self.aggregate, frame),
            ..*self
        }
    }

    /// The frame to send back, if there is one.
    pub open spec fn pending(&self) -> Option<Frame> {
        match self.phase {
            ConsumePhase::Releasing(frame) => Some(frame),
            ConsumePhase::Acknowledging(frame) => Some(frame),
            _ => None,
        }
    }

    /// The consumer with its frame sent back.
    pub open spec fn after_push(&self) -> Consume {
        Consume {
            phase: if self.phase is Acknowledging {
                ConsumePhase::Done
            } else {
                ConsumePhase::Receiving
            },
            ..*self
        }
    }

    /// Start a transfer.
    pub fn start(shape: StreamShape, transfer_id: u64, flags: u8, ending: Ending) -> (side: Consume)
        requires
            shape.valid(),
        ensures
            side == Consume::started(shape, transfer_id, flags, ending),
            side.wf(),
    {
        proof {
            lemma_div_ceil(shape.total_bytes as int, shape.chunk_bytes as int);
        }
        Consume {
            shape,
            transfer_id,
            flags,
            ending,
            phase: ConsumePhase::Receiving,
            chunks: 0,
            total: 0,
            aggregate: 0,
        }
    }

    /// Take a frame of the producer.
    pub fn received(&mut self, frame: Frame, data: &Arena, bytes: &[u8]) -> (result: Result<
        (),
        Fault,
    >)
        requires
            old(self).wf(),
            old(self).phase == ConsumePhase::Receiving,
            carries(*data, old(self).shape),
            bytes@.len() == data.extent(),
        ensures
            final(self).wf(),
            result is Ok <==> old(self).receive_defect(frame, *data, bytes@) is None,
            result is Ok ==> *final(self) == old(self).after_receive(frame),
            result matches Err(fault) ==> old(self).receive_defect(frame, *data, bytes@) == Some(
                fault,
            ) && *final(self) == *old(self),
    {
        proof {
            if self.ending == Ending::Exact {
                lemma_exact_total(self.shape, self.chunks as int);
                if self.chunks < self.shape.chunk_count() {
                    law_every_chunk_is_describable(self.shape, self.chunks as int);
                }
            }
            vstd::arithmetic::div_mod::lemma_mod_bound(
                self.chunks as int,
                self.shape.slots as int,
            );
        }
        match self.ending {
            Ending::Exact => {
                if self.chunks == self.shape.chunks() {
                    match validate_complete(
                        frame,
                        self.shape,
                        self.transfer_id,
                        self.flags,
                        self.aggregate,
                    ) {
                        Ok(()) => {},
                        Err(fault) => {
                            return Err(fault);
                        },
                    }
                    self.phase = ConsumePhase::Acknowledging(frame);
                    return Ok(());
                }
                match validate_chunk(
                    data,
                    bytes,
                    frame,
                    self.chunks,
                    self.shape,
                    self.transfer_id,
                    self.flags,
                ) {
                    Ok(()) => {},
                    Err(fault) => {
                        return Err(fault);
                    },
                }
            },
            Ending::AtEnd => {
                if frame.kind == Kind::Complete {
                    match validate_dynamic_complete(
                        frame,
                        self.shape,
                        self.transfer_id,
                        self.flags,
                        self.total,
                        self.aggregate,
                    ) {
                        Ok(()) => {},
                        Err(fault) => {
                            return Err(fault);
                        },
                    }
                    self.phase = ConsumePhase::Acknowledging(frame);
                    return Ok(());
                }
                match validate_dynamic_chunk(
                    data,
                    bytes,
                    frame,
                    self.chunks,
                    self.total,
                    self.shape,
                    self.transfer_id,
                    self.flags,
                ) {
                    Ok(()) => {},
                    Err(fault) => {
                        return Err(fault);
                    },
                }
            },
        }
        self.phase = ConsumePhase::Writing(frame);
        Ok(())
    }

    /// Go on after the sink has taken the chunk.
    pub fn written(&mut self)
        requires
            old(self).wf(),
            old(self).phase is Writing,
        ensures
            final(self).wf(),
            old(self).phase matches ConsumePhase::Writing(frame) ==> *final(self) == old(self).after_write(frame),
    {
        match self.phase {
            ConsumePhase::Writing(frame) => {
                proof {
                    if self.ending == Ending::Exact {
                        lemma_exact_total(self.shape, self.chunks as int);
                    }
                }
                self.aggregate = fold_checksum(self.aggregate, frame);
                self.total = self.total + frame.len as u64;
                self.chunks = self.chunks + 1;
                self.phase = ConsumePhase::Releasing(
                    Frame {
                        kind: Kind::Released,
                        flags: frame.flags,
                        transfer_id: frame.transfer_id,
                        offset: frame.offset,
                        slot: frame.slot,
                        generation: frame.generation,
                        len: frame.len,
                        checksum: frame.checksum,
                    },
                );
            },
            _ => {},
        }
    }

    /// The frame to send back, if there is one.
    pub fn frame(&self) -> (frame: Option<Frame>)
        ensures
            frame == self.pending(),
    {
        match self.phase {
            ConsumePhase::Releasing(frame) => Some(frame),
            ConsumePhase::Acknowledging(frame) => Some(frame),
            _ => None,
        }
    }

    /// Go on after the frame has been sent back.
    pub fn pushed(&mut self)
        requires
            old(self).wf(),
            old(self).pending() is Some,
        ensures
            final(self).wf(),
            *final(self) == old(self).after_push(),
    {
        match self.phase {
            ConsumePhase::Acknowledging(_) => {
                self.phase = ConsumePhase::Done;
            },
            _ => {
                self.phase = ConsumePhase::Receiving;
            },
        }
    }
}

/// A chunk is given back only after the sink has it: between taking a data frame and
/// writing it out, a consumer has nothing to send back.
pub proof fn law_chunks_are_released_after_writing(side: Consume, frame: Frame)
    requires
        side.wf(),
        side.phase is Receiving,
        !side.at_end(frame),
    ensures
        side.after_receive(frame).phase == ConsumePhase::Writing(frame),
        side.after_receive(frame).pending() is None,
        side.after_receive(frame).after_write(frame).pending() == Some(
            Frame { kind: Kind::Released, ..frame },
        ),
{
}

/// A consumer never takes more bytes than were declared, whatever its peer sends: no frame
/// that would go beyond them is acceptable.
pub proof fn law_consumers_respect_the_ceiling(
    side: Consume,
    frame: Frame,
    arena: Arena,
    bytes: Seq<u8>,
)
    requires
        side.wf(),
        side.phase is Receiving,
        !side.at_end(frame),
        side.receive_defect(frame, arena, bytes) is None,
    ensures
        side.after_receive(frame).after_write(frame).total == side.total + frame.len,
        side.total + frame.len <= side.shape.total_bytes,
        0 < frame.len <= side.shape.chunk_bytes,
{
    if side.ending == Ending::Exact {
        lemma_exact_total(side.shape, side.chunks as int);
        law_every_chunk_is_describable(side.shape, side.chunks as int);
    }
}

} // verus!
