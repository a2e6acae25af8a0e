//! A transfer whose two sides live in one process.
//!
//! Either side can take the next step at any time. Whatever the order of the steps, the
//! sink holds a beginning of the source, and all of it in the end.
use crate::ipc::Fault;
use crate::cursor::largest_power_of_two;
use super::arena::{law_slots_are_separate, spliced, Arena, Words, RELEASE_ARENA_FLAG};
use super::checksum::{checksum_of, folded};
use super::drive::{answered, consume_step, listens, produce_step, ConsumeStep, ProduceStep};
use super::layout::{arena_layout, descriptor_capacity, descriptors_for, layout_defect};
use super::frame::{
    flags_of, frame_flags, law_decoding_undoes_encoding, lemma_frame_len, Frame, Kind,
};
use super::shape::{
    div_ceil, law_a_slot_and_generation_name_one_chunk, law_every_chunk_is_describable,
    lemma_div_ceil, StreamFlow, StreamShape,
};
use super::transfer::{
    exact_total, lemma_exact_total, Consume, ConsumePhase, Ending, Produce, ProducePhase,
};
use super::validate::{carries, complete_frame};
use vstd::prelude::*;
use vstd::slice::slice_subrange;

verus! {

/// What a transfer carries, and how it falls into frames.
pub ghost struct Plan {
    /// The dimensions of the stream.
    pub shape: StreamShape,
    /// The transfer that the frames belong to.
    pub transfer_id: u64,
    /// The flags of the frames.
    pub flags: u8,
    /// The bytes of the source.
    pub input: Seq<u8>,
}

impl Plan {
    /// How many bytes of the source fit the stream.
    pub open spec fn extent(self) -> int {
        if self.input.len() < self.shape.total_bytes {
            self.input.len() as int
        } else {
            self.shape.total_bytes as int
        }
    }

    /// How many bytes the first `chunks` chunks have.
    pub open spec fn reach(self, chunks: int) -> int {
        if chunks * self.shape.chunk_bytes < self.extent() {
            chunks * self.shape.chunk_bytes
        } else {
            self.extent()
        }
    }

    /// How many chunks there are.
    pub open spec fn count(self) -> int {
        div_ceil(self.extent(), self.shape.chunk_bytes as int)
    }

    /// The bytes of a chunk.
    pub open spec fn content(self, index: int) -> Seq<u8> {
        self.input.subrange(self.reach(index), self.reach(index + 1))
    }

    /// The frame that announces a chunk.
    pub open spec fn chunk(self, index: int) -> Frame {
        Frame {
            kind: Kind::Data,
            flags: self.flags,
            transfer_id: self.transfer_id,
            offset: self.reach(index) as u64,
            slot: self.shape.slot_of(index) as u32,
            generation: self.shape.generation_of(index) as u32,
            len: (self.reach(index + 1) - self.reach(index)) as u32,
            checksum: checksum_of(self.content(index)),
        }
    }

    /// The frame that gives a chunk back.
    pub open spec fn given(self, index: int) -> Frame {
        Frame { kind: Kind::Released, ..self.chunk(index) }
    }

    /// The checksum of the first `chunks` chunks.
    pub open spec fn aggregate(self, chunks: int) -> u64
        decreases chunks,
    {
        if chunks <= 0 {
            0
        } else {
            folded(self.aggregate(chunks - 1), self.chunk(chunks - 1))
        }
    }

    /// The frame that ends the stream after `chunks` chunks.
    pub open spec fn farewell(self, chunks: int) -> Frame {
        complete_frame(
            self.reach(chunks) as u64,
            self.transfer_id,
            self.flags,
            self.aggregate(chunks),
        )
    }

    /// There are no fewer than no chunks.
    proof fn lemma_chunk_count(self)
        requires
            self.shape.valid(),
        ensures
            0 <= self.count(),
    {
        lemma_div_ceil(self.extent(), self.shape.chunk_bytes as int);
    }

    /// How the chunks lie in the stream.
    proof fn lemma_chunk(self, index: int)
        requires
            self.shape.valid(),
            0 <= index <= self.count(),
        ensures
            index <= self.count() <= self.shape.chunk_count(),
            0 <= self.reach(index) <= self.extent(),
            self.reach(index) == self.extent() <==> index == self.count(),
            index < self.count() ==> {
                &&& self.reach(index) == index * self.shape.chunk_bytes
                &&& 0 < self.reach(index + 1) - self.reach(index) <= self.shape.chunk_bytes
                &&& self.reach(index + 1) - self.reach(index) == if self.extent() - self.reach(
                    index,
                ) < self.shape.chunk_bytes {
                    self.extent() - self.reach(index)
                } else {
                    self.shape.chunk_bytes as int
                }
                &&& self.content(index).len() == self.reach(index + 1) - self.reach(index)
                &&& 1 <= self.shape.generation_of(index) <= u32::MAX
                &&& 0 <= self.shape.slot_of(index) < self.shape.slots
            },
    {
        let chunk = self.shape.chunk_bytes as int;
        let extent = self.extent();
        let total = self.shape.total_bytes as int;
        let n = self.count();
        lemma_div_ceil(extent, chunk);
        lemma_div_ceil(total, chunk);
        let m = self.shape.chunk_count();
        assert(n <= m) by (nonlinear_arith)
            requires
                extent <= total,
                total <= m * chunk,
                extent > 0 ==> (n - 1) * chunk < extent,
                extent == 0 ==> n == 0,
                extent >= 0,
                m >= 0,
                chunk > 0,
        ;
        assert((index + 1) * chunk == index * chunk + chunk) by (nonlinear_arith);
        if index < n {
            assert(0 <= index * chunk < extent) by (nonlinear_arith)
                requires
                    0 <= index <= n - 1,
                    (n - 1) * chunk < extent,
                    chunk > 0,
            ;
            law_every_chunk_is_describable(self.shape, index);
        }
    }

    /// On the chunks that an exact producer has announced, the plan is the shape's.
    proof fn lemma_exact(self, index: int, announced: int)
        requires
            self.shape.valid(),
            0 <= index < announced <= self.count(),
            self.reach(announced) == exact_total(self.shape, announced),
        ensures
            self.reach(index) == self.shape.offset_of(index),
            self.reach(index + 1) - self.reach(index) == self.shape.len_of(index),
            self.reach(index) == exact_total(self.shape, index),
    {
        let chunk = self.shape.chunk_bytes as int;
        self.lemma_chunk(index);
        self.lemma_chunk(announced);
        assert((index + 1) * chunk == index * chunk + chunk) by (nonlinear_arith);
        assert((index + 1) * chunk <= announced * chunk) by (nonlinear_arith)
            requires
                index + 1 <= announced,
                chunk > 0,
        ;
    }
}

/// A transfer whose two sides live in one process.
pub struct Loopback {
    /// The sending side.
    pub producer: Produce,
    /// The receiving side.
    pub consumer: Consume,
    /// The arena of the chunks.
    pub data: Arena,
    /// Its words.
    pub data_words: Words,
    /// Its bytes.
    pub data_bytes: Vec<u8>,
    /// The arena of the releases.
    pub releases: Arena,
    /// Its words.
    pub release_words: Words,
    /// Its bytes.
    pub release_bytes: Vec<u8>,
    /// The source.
    pub input: Vec<u8>,
    /// The sink.
    pub output: Vec<u8>,
}

/// How much of a ring is in use, as long as its cursors have not wrapped.
proof fn lemma_used(words: Words, bound: int)
    requires
        words.head <= words.tail <= words.head + bound,
    ensures
        0 <= words.used() <= bound,
        words.used() == words.tail - words.head,
{
}

/// One if so, else zero.
pub open spec fn count_of(so: bool) -> int {
    if so {
        1
    } else {
        0
    }
}

impl Loopback {
    /// What the transfer carries.
    pub open spec fn plan(&self) -> Plan {
        Plan {
            shape: self.producer.shape,
            transfer_id: self.producer.transfer_id,
            flags: self.producer.flags,
            input: self.input@,
        }
    }

    /// How many data frames the consumer has taken.
    pub open spec fn taken(&self) -> int {
        self.consumer.chunks + count_of(self.consumer.phase is Writing)
    }

    /// How many chunks the consumer has given back.
    pub open spec fn given(&self) -> int {
        self.consumer.chunks - count_of(self.consumer.phase is Releasing)
    }

    /// Whether the producer has announced the end.
    pub open spec fn ended(&self) -> bool {
        self.producer.phase == ProducePhase::Confirming || self.producer.phase == ProducePhase::Done
    }

    /// Whether the consumer has seen the end.
    pub open spec fn seen(&self) -> bool {
        self.consumer.phase is Acknowledging || self.consumer.phase is Done
    }

    /// Whether the producer has a filled slot to announce.
    pub open spec fn filled(&self) -> bool {
        self.producer.phase is Pushing
    }

    /// Whether the producer has no more chunks.
    pub open spec fn exhausted(&self) -> bool {
        self.producer.phase == ProducePhase::Draining || self.producer.phase
            == ProducePhase::Completing || self.ended()
    }

    /// The two sides and the arenas fit together.
    pub open spec fn shapes_fit(&self) -> bool {
        let shape = self.producer.shape;
        &&& self.producer.wf()
        &&& self.consumer.wf()
        &&& self.consumer.shape == shape
        &&& self.consumer.transfer_id == self.producer.transfer_id
        &&& self.consumer.flags == self.producer.flags
        &&& self.consumer.ending == self.producer.ending
        &&& carries(self.data, shape)
        &&& self.data_bytes@.len() == self.data.extent()
        &&& self.releases.wf()
        &&& self.release_bytes@.len() == self.releases.extent()
        &&& 2 * shape.slots + 2 <= self.data.descriptor_capacity
        &&& 2 * shape.slots + 2 <= self.releases.descriptor_capacity
    }

    /// The cursors count what has happened.
    pub open spec fn counts_fit(&self) -> bool {
        let announced = self.producer.chunks as int;
        &&& self.producer.released <= self.given()
        &&& self.taken() <= announced <= self.plan().count()
        &&& self.producer.total == self.plan().reach(announced)
        &&& self.consumer.total == self.plan().reach(self.consumer.chunks as int)
        &&& self.data_words.tail == announced + count_of(self.ended())
        &&& self.data_words.head == self.taken() + count_of(self.seen())
        &&& self.release_words.tail == self.given() + count_of(self.consumer.phase is Done)
        &&& self.release_words.head == self.producer.released + count_of(
            self.producer.phase is Done,
        )
        &&& self.producer.aggregate == self.plan().aggregate(announced + count_of(self.filled()))
        &&& self.consumer.aggregate == self.plan().aggregate(self.consumer.chunks as int)
        &&& self.output@ == self.input@.take(self.plan().reach(self.consumer.chunks as int))
    }

    /// The sides are where the frames say.
    pub open spec fn phases_fit(&self) -> bool {
        let plan = self.plan();
        let announced = self.producer.chunks as int;
        &&& self.producer.phase matches ProducePhase::Pushing(frame) ==> announced < plan.count()
            && frame == plan.chunk(announced)
        &&& self.exhausted() && self.producer.ending == Ending::AtEnd ==> self.producer.total
            == self.input@.len() && (self.producer.total == plan.shape.total_bytes
            || plan.shape.generation_of(announced) <= u32::MAX)
        &&& self.consumer.phase matches ConsumePhase::Writing(frame) ==> frame == plan.chunk(
            self.consumer.chunks as int,
        )
        &&& self.consumer.phase matches ConsumePhase::Releasing(frame) ==> self.consumer.chunks >= 1
            && frame == plan.given(self.consumer.chunks - 1)
        &&& self.consumer.phase matches ConsumePhase::Acknowledging(frame) ==> frame
            == plan.farewell(announced)
        &&& self.seen() ==> self.ended() && self.consumer.chunks == announced
        &&& self.producer.phase is Done ==> self.consumer.phase is Done
    }

    /// What is announced and not taken lies in the rings.
    pub open spec fn frames_fit(&self) -> bool {
        let plan = self.plan();
        let announced = self.producer.chunks as int;
        &&& forall|k: int|
            self.taken() <= k < announced ==> #[trigger] self.data.descriptor(self.data_bytes@, k)
                == plan.chunk(k).bytes()
        &&& self.ended() && !self.seen() ==> self.data.descriptor(self.data_bytes@, announced)
            == plan.farewell(announced).bytes()
        &&& forall|k: int|
            self.producer.released <= k < self.given() ==> #[trigger] self.releases.descriptor(
                self.release_bytes@,
                k,
            ) == plan.given(k).bytes()
        &&& self.consumer.phase is Done && !(self.producer.phase is Done)
            ==> self.releases.descriptor(self.release_bytes@, announced) == plan.farewell(
            announced,
        ).bytes()
    }

    /// What is announced and not in the sink lies in the slots.
    pub open spec fn slots_fit(&self) -> bool {
        let plan = self.plan();
        forall|k: int|
            self.consumer.chunks <= k < self.producer.chunks + count_of(self.filled())
                ==> self.data.slot_bytes(
                self.data_bytes@,
                #[trigger] plan.shape.slot_of(k),
                plan.content(k).len() as int,
            ) == plan.content(k)
    }

    /// What holds after every step.
    #[verifier::opaque]
    pub open spec fn wf(&self) -> bool {
        &&& self.shapes_fit()
        &&& self.counts_fit()
        &&& self.phases_fit()
        &&& self.frames_fit()
        &&& self.slots_fit()
    }
}

impl Loopback {
    /// Why the producer cannot go on: the source has too few or too many bytes, or has
    /// ended inside a chunk that used up the last generation of its slot.
    pub open spec fn source_fault(&self) -> Option<Fault> {
        if self.producer.phase == ProducePhase::Filling && self.producer.shape.generation_of(
            self.producer.chunks as int,
        ) > u32::MAX {
            Some(Fault::GenerationExhausted)
        } else if self.producer.phase == ProducePhase::Filling && self.producer.ending == Ending::Exact
            && self.input@.len() < self.producer.total + self.producer.room() {
            Some(Fault::Truncated)
        } else if self.producer.phase == ProducePhase::Probing && self.input@.len()
            > self.producer.shape.total_bytes {
            Some(Fault::ByteCeiling)
        } else {
            None
        }
    }

    /// Whether the producer has nothing to do for now.
    pub open spec fn producer_waits(&self) -> bool {
        ||| self.producer.phase is Done
        ||| listens(self.producer) && self.release_words.head == self.release_words.tail
    }

    /// Whether the consumer has nothing to do for now.
    pub open spec fn consumer_waits(&self) -> bool {
        ||| self.consumer.phase is Done
        ||| self.consumer.phase is Receiving && self.data_words.head == self.data_words.tail
    }

    /// How many steps the producer has left.
    pub open spec fn producer_rank(&self) -> int {
        2 * (self.plan().count() - self.producer.chunks) + (self.plan().count()
            - self.producer.released) + match self.producer.phase {
            ProducePhase::Filling | ProducePhase::Releasing | ProducePhase::Probing => 4int,
            ProducePhase::Pushing(_) | ProducePhase::Draining | ProducePhase::Completing => 3,
            ProducePhase::Confirming => 2,
            ProducePhase::Done => 1,
        }
    }

    /// How many steps the consumer has left.
    pub open spec fn consumer_rank(&self) -> int {
        3 * (self.plan().count() - self.consumer.chunks) + match self.consumer.phase {
            ConsumePhase::Receiving => 2int,
            ConsumePhase::Writing(_) => 1,
            ConsumePhase::Releasing(_) => 3,
            ConsumePhase::Acknowledging(_) => 1,
            ConsumePhase::Done => 0,
        }
    }

    /// The counters of a transfer stay far from their limits.
    proof fn lemma_counts_are_small(&self)
        requires
            self.shapes_fit(),
            self.counts_fit(),
        ensures
            self.plan().count() < u64::MAX - 1,
            self.data_words.tail < u64::MAX,
            self.data_words.head < u64::MAX,
            self.release_words.tail < u64::MAX,
            self.release_words.head < u64::MAX,
    {
        let shape = self.producer.shape;
        self.plan().lemma_chunk(self.producer.chunks as int);
        lemma_div_ceil(shape.total_bytes as int, shape.chunk_bytes as int);
        lemma_div_ceil(shape.chunk_count(), shape.slots as int);
        let g = shape.generations();
        let s = shape.slots as int;
        assert(g * s <= 0xFFFF_FFFF * 0xFFFF_FFFF) by (nonlinear_arith)
            requires
                0 <= g <= 0xFFFF_FFFF,
                0 <= s <= 0xFFFF_FFFF,
        ;
    }

    /// Neither ring is ever full.
    proof fn lemma_room_in_the_rings(&self)
        requires
            self.shapes_fit(),
            self.counts_fit(),
            self.phases_fit(),
        ensures
            self.data_words.used() < self.data.descriptor_capacity,
            self.release_words.used() < self.releases.descriptor_capacity,
            self.data_words.head <= self.data_words.tail,
            self.release_words.head <= self.release_words.tail,
    {
        lemma_used(self.data_words, self.producer.shape.slots + 1);
        lemma_used(self.release_words, self.producer.shape.slots + 1);
    }
}

/// Writing a descriptor keeps the ones of the window before it, and every slot.
proof fn lemma_written_descriptor(arena: Arena, bytes: Seq<u8>, sequence: int, frame: Frame)
    requires
        arena.wf(),
        bytes.len() == arena.extent(),
    ensures
        ({
            let after = spliced(bytes, arena.descriptor_at(sequence), frame.bytes());
            &&& after.len() == bytes.len()
            &&& arena.descriptor(after, sequence) == frame.bytes()
            &&& forall|k: int|
                sequence - arena.descriptor_capacity < k < sequence ==> #[trigger] arena.descriptor(
                    after,
                    k,
                ) == arena.descriptor(bytes, k)
            &&& forall|slot: int, len: int|
                0 <= slot < arena.slots && 0 <= len <= arena.slot_len
                    ==> #[trigger] arena.slot_bytes(after, slot, len) == arena.slot_bytes(
                    bytes,
                    slot,
                    len,
                )
        }),
{
    let after = spliced(bytes, arena.descriptor_at(sequence), frame.bytes());
    lemma_frame_len(frame);
    arena.lemma_descriptor_bounds(sequence);
    assert(arena.descriptor(after, sequence) =~= frame.bytes());
    assert forall|k: int|
        sequence - arena.descriptor_capacity < k < sequence implies #[trigger] arena.descriptor(
        after,
        k,
    ) == arena.descriptor(bytes, k) by {
        arena.lemma_descriptor_bounds(k);
        arena.lemma_descriptors_apart(k, sequence);
        assert(arena.descriptor(after, k) =~= arena.descriptor(bytes, k));
    }
    assert forall|slot: int, len: int|
        0 <= slot < arena.slots && 0 <= len <= arena.slot_len implies #[trigger] arena.slot_bytes(
        after,
        slot,
        len,
    ) == arena.slot_bytes(bytes, slot, len) by {
        arena.lemma_slot_bounds(slot);
        assert(arena.slot_bytes(after, slot, len) =~= arena.slot_bytes(bytes, slot, len));
    }
}

/// Writing a slot keeps the other slots and every descriptor.
proof fn lemma_written_slot(arena: Arena, bytes: Seq<u8>, slot: int, payload: Seq<u8>)
    requires
        arena.wf(),
        bytes.len() == arena.extent(),
        0 <= slot,
        arena.slot_fits(slot, payload.len() as int),
    ensures
        ({
            let after = spliced(bytes, arena.slot_at(slot), payload);
            &&& after.len() == bytes.len()
            &&& arena.slot_bytes(after, slot, payload.len() as int) == payload
            &&& forall|k: int| #[trigger] arena.descriptor(after, k) == arena.descriptor(bytes, k)
            &&& forall|other: int, len: int|
                0 <= other < arena.slots && other != slot && 0 <= len <= arena.slot_len
                    ==> #[trigger] arena.slot_bytes(after, other, len) == arena.slot_bytes(
                    bytes,
                    other,
                    len,
                )
        }),
{
    let after = spliced(bytes, arena.slot_at(slot), payload);
    law_slots_are_separate(arena, bytes, slot, payload);
    arena.lemma_slot_bounds(slot);
    assert forall|k: int| #[trigger] arena.descriptor(after, k) == arena.descriptor(bytes, k) by {
        arena.lemma_descriptor_bounds(k);
        assert(arena.descriptor(after, k) =~= arena.descriptor(bytes, k));
    }
}

impl Loopback {
    /// Whether nothing but the producer, and what it writes and reads, has changed.
    pub open spec fn producer_moved(&self, before: Loopback) -> bool {
        &&& self.consumer == before.consumer
        &&& self.data == before.data
        &&& self.releases == before.releases
        &&& self.release_bytes@ == before.release_bytes@
        &&& self.input@ == before.input@
        &&& self.output@ == before.output@
        &&& self.plan() == before.plan()
        &&& self.producer.ending == before.producer.ending
    }

    /// Whether nothing but the consumer, and what it writes and reads, has changed.
    pub open spec fn consumer_moved(&self, before: Loopback) -> bool {
        &&& self.producer == before.producer
        &&& self.data == before.data
        &&& self.releases == before.releases
        &&& self.data_bytes@ == before.data_bytes@
        &&& self.input@ == before.input@
        &&& self.plan() == before.plan()
        &&& self.consumer.ending == before.consumer.ending
    }

    /// Filling a slot keeps everything in order.
    proof fn lemma_after_fill(a: Loopback, b: Loopback)
        requires
            a.wf(),
            a.producer.phase == ProducePhase::Filling,
            a.source_fault() is None,
            a.producer.total < a.input@.len(),
            b.producer_moved(a),
            b.producer.wf(),
            b.producer == a.producer.after_fill(a.plan().content(a.producer.chunks as int)),
            b.data_words == a.data_words,
            b.release_words == a.release_words,
            b.data_bytes@ == spliced(
                a.data_bytes@,
                a.data.slot_at(a.producer.shape.slot_of(a.producer.chunks as int)),
                a.plan().content(a.producer.chunks as int),
            ),
        ensures
            b.wf(),
            b.producer_rank() < a.producer_rank(),
    {
        reveal(Loopback::wf);
        let plan = a.plan();
        let p = a.producer.chunks as int;
        let slot = plan.shape.slot_of(p);
        plan.lemma_chunk(p);
        lemma_written_slot(a.data, a.data_bytes@, slot, plan.content(p));
        assert(b.filled());
        assert(b.producer.phase == ProducePhase::Pushing(plan.chunk(p)));
        assert(b.shapes_fit());
        assert(b.counts_fit());
        assert(b.phases_fit());
        assert(b.frames_fit());
        assert forall|k: int| b.consumer.chunks <= k < p + 1 implies b.data.slot_bytes(
            b.data_bytes@,
            #[trigger] plan.shape.slot_of(k),
            plan.content(k).len() as int,
        ) == plan.content(k) by {
            plan.lemma_chunk(k);
            if k < p {
                if plan.shape.slot_of(k) == slot {
                    law_a_slot_and_generation_name_one_chunk(plan.shape, k, p);
                }
                assert(a.data.slot_bytes(
                    a.data_bytes@,
                    plan.shape.slot_of(k),
                    plan.content(k).len() as int,
                ) == plan.content(k));
            }
        }
    }
}

impl Loopback {
    /// Finding the source at its end keeps everything in order.
    proof fn lemma_after_last_chunk(a: Loopback, b: Loopback)
        requires
            a.wf(),
            a.source_fault() is None,
            a.producer.phase == ProducePhase::Filling || a.producer.phase == ProducePhase::Probing,
            a.producer.phase == ProducePhase::Filling ==> a.producer.total >= a.input@.len(),
            b.producer_moved(a),
            b.producer.wf(),
            b.producer == a.producer.after_fill(Seq::empty()),
            b.data_words == a.data_words,
            b.release_words == a.release_words,
            b.data_bytes@ == a.data_bytes@,
        ensures
            b.wf(),
            b.producer_rank() < a.producer_rank(),
    {
        reveal(Loopback::wf);
        a.plan().lemma_chunk(a.producer.chunks as int);
        assert(b.counts_fit());
        assert(b.phases_fit());
        assert(b.frames_fit());
        assert(b.slots_fit()) by {
            assert(!b.filled());
        }
    }

    /// Announcing a chunk keeps everything in order.
    proof fn lemma_after_chunk(a: Loopback, b: Loopback)
        requires
            a.wf(),
            a.producer.phase is Pushing,
            b.producer_moved(a),
            b.producer.wf(),
            b.producer == a.producer.after_push(),
            b.data_words == a.data_words.pushed(),
            b.release_words == a.release_words,
            b.data_bytes@ == spliced(
                a.data_bytes@,
                a.data.descriptor_at(a.data_words.tail as int),
                a.producer.pending()->0.bytes(),
            ),
        ensures
            b.wf(),
            b.producer_rank() < a.producer_rank(),
    {
        reveal(Loopback::wf);
        let plan = a.plan();
        let p = a.producer.chunks as int;
        plan.lemma_chunk(p);
        plan.lemma_chunk(p + 1);
        a.lemma_counts_are_small();
        lemma_written_descriptor(a.data, a.data_bytes@, p, plan.chunk(p));
        assert(b.producer.chunks == p + 1);
        assert(!b.filled() && !b.ended());
        assert(b.shapes_fit());
        assert(b.counts_fit());
        assert(b.phases_fit());
        assert forall|k: int| b.taken() <= k < p + 1 implies #[trigger] b.data.descriptor(
            b.data_bytes@,
            k,
        ) == plan.chunk(k).bytes() by {
            if k < p {
                assert(a.data.descriptor(a.data_bytes@, k) == plan.chunk(k).bytes());
            }
        }
        assert(b.frames_fit());
        Self::lemma_slots_kept(a, b);
    }

    /// What the slots hold does not depend on the descriptors.
    proof fn lemma_slots_kept(a: Loopback, b: Loopback)
        requires
            a.shapes_fit(),
            a.counts_fit(),
            a.slots_fit(),
            b.plan() == a.plan(),
            b.data == a.data,
            b.consumer.chunks >= a.consumer.chunks,
            b.producer.chunks + count_of(b.filled()) <= a.producer.chunks + count_of(a.filled()),
            a.producer.chunks + count_of(a.filled()) <= a.plan().count(),
            forall|slot: int, len: int|
                0 <= slot < a.data.slots && 0 <= len <= a.data.slot_len
                    ==> #[trigger] a.data.slot_bytes(b.data_bytes@, slot, len)
                    == a.data.slot_bytes(a.data_bytes@, slot, len),
        ensures
            b.slots_fit(),
    {
        let plan = a.plan();
        assert forall|k: int|
            b.consumer.chunks <= k < b.producer.chunks + count_of(b.filled()) implies b.data.slot_bytes(
            b.data_bytes@,
            #[trigger] plan.shape.slot_of(k),
            plan.content(k).len() as int,
        ) == plan.content(k) by {
            plan.lemma_chunk(k);
            assert(a.data.slot_bytes(
                a.data_bytes@,
                plan.shape.slot_of(k),
                plan.content(k).len() as int,
            ) == plan.content(k));
        }
    }

    /// Announcing the end keeps everything in order.
    proof fn lemma_after_farewell(a: Loopback, b: Loopback)
        requires
            a.wf(),
            a.producer.phase == ProducePhase::Completing,
            b.producer_moved(a),
            b.producer.wf(),
            b.producer == a.producer.after_push(),
            b.data_words == a.data_words.pushed(),
            b.release_words == a.release_words,
            b.data_bytes@ == spliced(
                a.data_bytes@,
                a.data.descriptor_at(a.data_words.tail as int),
                a.producer.pending()->0.bytes(),
            ),
        ensures
            b.wf(),
            b.producer_rank() < a.producer_rank(),
    {
        reveal(Loopback::wf);
        let plan = a.plan();
        let p = a.producer.chunks as int;
        plan.lemma_chunk(p);
        a.lemma_counts_are_small();
        assert(a.producer.pending()->0 == plan.farewell(p));
        lemma_written_descriptor(a.data, a.data_bytes@, p, plan.farewell(p));
        assert(b.ended() && !b.filled() && !b.seen());
        assert(b.shapes_fit());
        assert(b.counts_fit());
        assert(b.phases_fit());
        assert(b.frames_fit());
        Self::lemma_slots_kept(a, b);
    }

    /// A producer accepts the release of its oldest chunk.
    proof fn lemma_release_is_accepted(plan: Plan, side: Produce)
        requires
            side.wf(),
            plan.shape == side.shape,
            plan.transfer_id == side.transfer_id,
            plan.flags == side.flags,
            side.released < side.chunks <= plan.count(),
            side.total == plan.reach(side.chunks as int),
        ensures
            side.release_defect(plan.given(side.released as int)) is None,
    {
        let r = side.released as int;
        plan.lemma_chunk(r);
        plan.lemma_chunk(r + 1);
        if side.ending == Ending::Exact {
            plan.lemma_exact(r, side.chunks as int);
        }
    }

    /// The producer can use what the consumer sends back.
    proof fn lemma_answer(a: Loopback)
        requires
            a.wf(),
            listens(a.producer),
            a.release_words.head != a.release_words.tail,
        ensures
            ({
                let frame = Frame::parsed(
                    a.releases.descriptor(a.release_bytes@, a.release_words.head as int),
                );
                answered(a.producer, frame) == Ok::<Produce, Fault>(
                    if a.producer.phase == ProducePhase::Confirming {
                        Produce { phase: ProducePhase::Done, ..a.producer }
                    } else {
                        a.producer.after_release()
                    },
                )
            }),
            a.producer.phase == ProducePhase::Confirming ==> a.consumer.phase is Done,
            a.producer.phase != ProducePhase::Confirming ==> a.producer.released < a.given(),
    {
        let plan = a.plan();
        let p = a.producer.chunks as int;
        let r = a.producer.released as int;
        assert(a.shapes_fit() && a.counts_fit() && a.phases_fit() && a.frames_fit()) by {
            reveal(Loopback::wf);
        }
        if a.producer.phase == ProducePhase::Confirming {
            assert(r == p);
            assert(a.consumer.phase is Done);
            assert(a.releases.descriptor(a.release_bytes@, r) == plan.farewell(p).bytes());
            law_decoding_undoes_encoding(plan.farewell(p));
            assert(plan.farewell(p) == a.producer.farewell());
        } else {
            assert(!(a.consumer.phase is Done));
            assert(r < a.given());
            assert(a.releases.descriptor(a.release_bytes@, r) == plan.given(r).bytes());
            law_decoding_undoes_encoding(plan.given(r));
            Self::lemma_release_is_accepted(plan, a.producer);
        }
    }

    /// Taking an answer keeps everything in order.
    proof fn lemma_after_answer(a: Loopback, b: Loopback)
        requires
            a.wf(),
            listens(a.producer),
            a.release_words.head != a.release_words.tail,
            b.producer_moved(a),
            b.producer.wf(),
            b.producer == (if a.producer.phase == ProducePhase::Confirming {
                Produce { phase: ProducePhase::Done, ..a.producer }
            } else {
                a.producer.after_release()
            }),
            b.data_words == a.data_words,
            b.release_words == a.release_words.popped(),
            b.data_bytes@ == a.data_bytes@,
        ensures
            b.wf(),
            b.producer_rank() < a.producer_rank(),
    {
        reveal(Loopback::wf);
        Self::lemma_answer(a);
        a.plan().lemma_chunk(a.producer.chunks as int);
        a.lemma_counts_are_small();
        assert(b.shapes_fit());
        assert(b.counts_fit());
        assert(b.phases_fit());
        assert(b.frames_fit());
        assert(b.slots_fit());
    }

    /// A slot that is written and not announced holds nothing that anyone reads.
    proof fn lemma_after_refused_fill(a: Loopback, b: Loopback, payload: Seq<u8>)
        requires
            a.wf(),
            a.producer.phase == ProducePhase::Filling,
            0 < payload.len() <= a.producer.shape.chunk_bytes,
            a.producer.chunks < a.plan().count(),
            b.producer_moved(a),
            b.producer == a.producer,
            b.data_words == a.data_words,
            b.release_words == a.release_words,
            b.data_bytes@ == spliced(
                a.data_bytes@,
                a.data.slot_at(a.producer.shape.slot_of(a.producer.chunks as int)),
                payload,
            ),
        ensures
            b.wf(),
    {
        reveal(Loopback::wf);
        let plan = a.plan();
        let p = a.producer.chunks as int;
        let slot = plan.shape.slot_of(p);
        plan.lemma_chunk(p);
        lemma_written_slot(a.data, a.data_bytes@, slot, payload);
        assert(b.shapes_fit());
        assert(b.counts_fit());
        assert(b.phases_fit());
        assert(b.frames_fit());
        assert forall|k: int| b.consumer.chunks <= k < p implies b.data.slot_bytes(
            b.data_bytes@,
            #[trigger] plan.shape.slot_of(k),
            plan.content(k).len() as int,
        ) == plan.content(k) by {
            plan.lemma_chunk(k);
            if plan.shape.slot_of(k) == slot {
                law_a_slot_and_generation_name_one_chunk(plan.shape, k, p);
            }
            assert(a.data.slot_bytes(
                a.data_bytes@,
                plan.shape.slot_of(k),
                plan.content(k).len() as int,
            ) == plan.content(k));
        }
    }

    /// What the steps need to know.
    proof fn lemma_ready(&self)
        requires
            self.wf(),
        ensures
            self.producer.wf(),
            self.consumer.wf(),
            self.consumer.shape == self.producer.shape,
            carries(self.data, self.producer.shape),
            self.data_bytes@.len() == self.data.extent(),
            self.releases.wf(),
            self.release_bytes@.len() == self.releases.extent(),
            self.data_words.tail < u64::MAX,
            self.data_words.head < u64::MAX,
            self.release_words.tail < u64::MAX,
            self.release_words.head < u64::MAX,
            self.data_words.used() < self.data.descriptor_capacity,
            self.release_words.used() < self.releases.descriptor_capacity,
            self.producer.total <= self.input@.len(),
            0 <= self.producer.shape.slot_of(self.producer.chunks as int)
                < self.producer.shape.slots,
            self.producer.phase == ProducePhase::Filling ==> 0 < self.producer.room()
                <= self.producer.shape.chunk_bytes,
    {
        assert(self.shapes_fit() && self.counts_fit() && self.phases_fit()) by {
            reveal(Loopback::wf);
        }
        self.lemma_counts_are_small();
        self.lemma_room_in_the_rings();
        self.lemma_next_slot();
    }

    /// The slot of the next chunk.
    proof fn lemma_next_slot(&self)
        requires
            self.shapes_fit(),
            self.counts_fit(),
        ensures
            self.producer.total <= self.input@.len(),
            0 <= self.producer.shape.slot_of(self.producer.chunks as int)
                < self.producer.shape.slots,
            self.producer.phase == ProducePhase::Filling ==> 0 < self.producer.room()
                <= self.producer.shape.chunk_bytes,
    {
        let plan = self.plan();
        let p = self.producer.chunks as int;
        plan.lemma_chunk(p);
        vstd::arithmetic::div_mod::lemma_mod_bound(p, plan.shape.slots as int);
    }

    /// Nothing but the views of the memory matters.
    proof fn lemma_same(a: Loopback, b: Loopback)
        requires
            a.wf(),
            b.producer_moved(a) || b.consumer_moved(a),
            b.producer == a.producer,
            b.consumer == a.consumer,
            b.data_words == a.data_words,
            b.release_words == a.release_words,
            b.data_bytes@ == a.data_bytes@,
            b.release_bytes@ == a.release_bytes@,
            b.output@ == a.output@,
        ensures
            b.wf(),
    {
        reveal(Loopback::wf);
    }

    /// What the source has for the next chunk.
    proof fn lemma_source(&self, n: int)
        requires
            self.wf(),
            self.producer.phase == ProducePhase::Filling,
            n == if self.input@.len() - self.producer.total < self.producer.room() {
                self.input@.len() - self.producer.total
            } else {
                self.producer.room()
            },
        ensures
            n == 0 <==> self.producer.total == self.input@.len(),
            n > 0 ==> self.producer.chunks < self.plan().count() && self.input@.subrange(
                self.producer.total as int,
                self.producer.total + n,
            ) == self.plan().content(self.producer.chunks as int),
    {
        reveal(Loopback::wf);
        self.plan().lemma_chunk(self.producer.chunks as int);
        if n > 0 {
            assert(self.input@.subrange(self.producer.total as int, self.producer.total + n)
                =~= self.plan().content(self.producer.chunks as int));
        }
    }

    /// Read the source into a slot.
    fn fill_step(&mut self, slot: usize, len: usize) -> (result: Result<bool, Fault>)
        requires
            old(self).wf(),
            old(self).producer.phase == ProducePhase::Filling,
            old(self).producer.shape.generation_of(old(self).producer.chunks as int) <= u32::MAX,
            slot == old(self).producer.shape.slot_of(old(self).producer.chunks as int),
            len == old(self).producer.room(),
        ensures
            final(self).wf(),
            final(self).producer_moved(*old(self)),
            result is Err <==> old(self).source_fault() is Some,
            result matches Err(fault) ==> old(self).source_fault() == Some(fault),
            result matches Ok(moved) ==> moved && final(self).producer_rank() < old(self).producer_rank(),
    {
        let ghost before = *self;
        proof {
            self.lemma_ready();
        }
        let from: usize = self.producer.total as usize;
        let left: usize = self.input.len() - from;
        let n: usize = if left < len {
            left
        } else {
            len
        };
        let payload: &[u8] = slice_subrange(self.input.as_slice(), from, from + n);
        proof {
            before.lemma_source(n as int);
            if n == 0 {
                assert(payload@ =~= Seq::empty());
            }
        }
        if n > 0 {
            match self.data.write_slot(self.data_bytes.as_mut_slice(), slot, payload) {
                Ok(()) => {},
                Err(fault) => {
                    return Err(fault);
                },
            }
            proof {
                Self::lemma_after_refused_fill(before, *self, payload@);
            }
        }
        match self.producer.filled(payload) {
            Ok(()) => {
                proof {
                    if n > 0 {
                        Self::lemma_after_fill(before, *self);
                    } else {
                        Self::lemma_after_last_chunk(before, *self);
                    }
                }
                Ok(true)
            },
            Err(fault) => Err(fault),
        }
    }

    /// Take the producer one step further, and say whether it could go on.
    pub fn producer_step(&mut self) -> (result: Result<bool, Fault>)
        requires
            old(self).wf(),
        ensures
            final(self).wf(),
            final(self).producer_moved(*old(self)),
            result is Err <==> old(self).source_fault() is Some,
            result matches Err(fault) ==> old(self).source_fault() == Some(fault),
            result matches Ok(moved) ==> moved == !old(self).producer_waits(),
            result matches Ok(moved) ==> if moved {
                final(self).producer_rank() < old(self).producer_rank()
            } else {
                &&& final(self).producer == old(self).producer
                &&& final(self).data_words == old(self).data_words
                &&& final(self).release_words == old(self).release_words
            },
    {
        let ghost before = *self;
        proof {
            self.lemma_ready();
            if listens(self.producer) && self.release_words.head != self.release_words.tail {
                Self::lemma_answer(*self);
            }
        }
        match produce_step(
            &mut self.producer,
            &self.data,
            &mut self.data_words,
            self.data_bytes.as_mut_slice(),
            &self.releases,
            &mut self.release_words,
            self.release_bytes.as_slice(),
        ) {
            Err(fault) => {
                proof {
                    Self::lemma_same(before, *self);
                }
                Err(fault)
            },
            Ok(ProduceStep::Fill { slot, len }) => {
                proof {
                    Self::lemma_same(before, *self);
                }
                self.fill_step(slot, len)
            },
            Ok(ProduceStep::Probe) => {
                proof {
                    Self::lemma_same(before, *self);
                }
                let excess: usize = self.input.len() - self.producer.total as usize;
                match self.producer.probed(excess) {
                    Ok(()) => {
                        proof {
                            Self::lemma_after_last_chunk(before, *self);
                        }
                        Ok(true)
                    },
                    Err(fault) => Err(fault),
                }
            },
            Ok(ProduceStep::AwaitReleases) => {
                proof {
                    Self::lemma_same(before, *self);
                }
                Ok(false)
            },
            Ok(ProduceStep::AwaitSpace) => {
                proof {
                    Self::lemma_same(before, *self);
                }
                Ok(false)
            },
            Ok(ProduceStep::Moved { wake: _ }) => {
                proof {
                    if before.producer.phase is Pushing {
                        Self::lemma_after_chunk(before, *self);
                    } else if before.producer.phase == ProducePhase::Completing {
                        Self::lemma_after_farewell(before, *self);
                    } else {
                        Self::lemma_after_answer(before, *self);
                    }
                }
                Ok(true)
            },
            Ok(ProduceStep::Done) => {
                proof {
                    Self::lemma_same(before, *self);
                }
                Ok(false)
            },
        }
    }
}

impl Loopback {
    /// A consumer accepts the next chunk.
    proof fn lemma_chunk_is_accepted(plan: Plan, side: Consume, arena: Arena, bytes: Seq<u8>, announced: int)
        requires
            side.wf(),
            plan.shape == side.shape,
            plan.transfer_id == side.transfer_id,
            plan.flags == side.flags,
            side.chunks < announced <= plan.count(),
            side.total == plan.reach(side.chunks as int),
            side.ending == Ending::Exact ==> plan.reach(announced) == exact_total(
                plan.shape,
                announced,
            ),
            arena.slot_bytes(
                bytes,
                plan.shape.slot_of(side.chunks as int),
                plan.content(side.chunks as int).len() as int,
            ) == plan.content(side.chunks as int),
        ensures
            side.receive_defect(plan.chunk(side.chunks as int), arena, bytes) is None,
            !side.at_end(plan.chunk(side.chunks as int)),
    {
        let c = side.chunks as int;
        plan.lemma_chunk(c);
        plan.lemma_chunk(c + 1);
        plan.lemma_chunk(announced);
        if side.ending == Ending::Exact {
            plan.lemma_exact(c, announced);
        }
    }

    /// The consumer can use what the producer announces.
    proof fn lemma_frame(a: Loopback)
        requires
            a.wf(),
            a.consumer.phase is Receiving,
            a.data_words.head != a.data_words.tail,
        ensures
            ({
                let c = a.consumer.chunks as int;
                let frame = if c < a.producer.chunks {
                    a.plan().chunk(c)
                } else {
                    a.plan().farewell(c)
                };
                &&& Frame::parsed(a.data.descriptor(a.data_bytes@, a.data_words.head as int))
                    == Ok::<Frame, Fault>(frame)
                &&& a.consumer.receive_defect(frame, a.data, a.data_bytes@) is None
                &&& a.consumer.at_end(frame) == (c >= a.producer.chunks)
                &&& c >= a.producer.chunks ==> a.ended() && c == a.producer.chunks
            }),
    {
        let plan = a.plan();
        let p = a.producer.chunks as int;
        let c = a.consumer.chunks as int;
        assert(a.shapes_fit() && a.counts_fit() && a.phases_fit() && a.frames_fit()
            && a.slots_fit()) by {
            reveal(Loopback::wf);
        }
        assert(a.taken() == c);
        if c < p {
            assert(a.data.descriptor(a.data_bytes@, c) == plan.chunk(c).bytes());
            law_decoding_undoes_encoding(plan.chunk(c));
            assert(a.data.slot_bytes(
                a.data_bytes@,
                plan.shape.slot_of(c),
                plan.content(c).len() as int,
            ) == plan.content(c));
            Self::lemma_chunk_is_accepted(plan, a.consumer, a.data, a.data_bytes@, p);
        } else {
            assert(a.ended() && !a.seen());
            assert(a.data.descriptor(a.data_bytes@, p) == plan.farewell(p).bytes());
            law_decoding_undoes_encoding(plan.farewell(p));
            if a.producer.ending == Ending::Exact {
                lemma_exact_total(plan.shape, p);
            }
            assert(plan.farewell(p) == a.consumer.farewell());
        }
    }

    /// Taking a frame keeps everything in order.
    proof fn lemma_after_frame(a: Loopback, b: Loopback)
        requires
            a.wf(),
            a.consumer.phase is Receiving,
            a.data_words.head != a.data_words.tail,
            b.consumer_moved(a),
            b.consumer.wf(),
            b.consumer == a.consumer.after_receive(
                if a.consumer.chunks < a.producer.chunks {
                    a.plan().chunk(a.consumer.chunks as int)
                } else {
                    a.plan().farewell(a.consumer.chunks as int)
                },
            ),
            b.data_words == a.data_words.popped(),
            b.release_words == a.release_words,
            b.release_bytes@ == a.release_bytes@,
            b.output@ == a.output@,
        ensures
            b.wf(),
            b.consumer_rank() < a.consumer_rank(),
    {
        Self::lemma_frame(a);
        assert(a.shapes_fit() && a.counts_fit() && a.phases_fit() && a.frames_fit()
            && a.slots_fit()) by {
            reveal(Loopback::wf);
        }
        a.lemma_counts_are_small();
        assert(b.shapes_fit());
        assert(b.counts_fit());
        assert(b.phases_fit());
        assert(b.frames_fit());
        Self::lemma_slots_kept(a, b);
        reveal(Loopback::wf);
    }

    /// Taking a chunk into the sink keeps everything in order.
    proof fn lemma_after_sink(a: Loopback, b: Loopback)
        requires
            a.wf(),
            a.consumer.phase is Writing,
            b.consumer_moved(a),
            b.consumer.wf(),
            b.consumer == a.consumer.after_write(a.consumer.phase->Writing_0),
            b.data_words == a.data_words,
            b.release_words == a.release_words,
            b.release_bytes@ == a.release_bytes@,
            b.output@ == a.output@ + a.plan().content(a.consumer.chunks as int),
        ensures
            b.wf(),
            b.consumer_rank() < a.consumer_rank(),
    {
        let plan = a.plan();
        let c = a.consumer.chunks as int;
        assert(a.shapes_fit() && a.counts_fit() && a.phases_fit() && a.frames_fit()
            && a.slots_fit()) by {
            reveal(Loopback::wf);
        }
        plan.lemma_chunk(c);
        plan.lemma_chunk(c + 1);
        assert(a.consumer.phase->Writing_0 == plan.chunk(c));
        assert(b.consumer.chunks == c + 1);
        assert(b.output@ =~= b.input@.take(plan.reach(c + 1)));
        assert(b.shapes_fit());
        assert(b.counts_fit());
        assert(b.phases_fit());
        assert(b.frames_fit());
        Self::lemma_slots_kept(a, b);
        reveal(Loopback::wf);
    }

    /// Sending a frame back keeps everything in order.
    proof fn lemma_after_reply(a: Loopback, b: Loopback)
        requires
            a.wf(),
            a.consumer.pending() is Some,
            b.consumer_moved(a),
            b.consumer.wf(),
            b.consumer == a.consumer.after_push(),
            b.data_words == a.data_words,
            b.release_words == a.release_words.pushed(),
            b.release_bytes@ == spliced(
                a.release_bytes@,
                a.releases.descriptor_at(a.release_words.tail as int),
                a.consumer.pending()->0.bytes(),
            ),
            b.output@ == a.output@,
        ensures
            b.wf(),
            b.consumer_rank() < a.consumer_rank(),
    {
        let plan = a.plan();
        let g = a.given();
        let frame = a.consumer.pending()->0;
        assert(a.shapes_fit() && a.counts_fit() && a.phases_fit() && a.frames_fit()
            && a.slots_fit()) by {
            reveal(Loopback::wf);
        }
        a.lemma_counts_are_small();
        a.lemma_room_in_the_rings();
        assert(a.release_words.tail == g);
        lemma_written_descriptor(a.releases, a.release_bytes@, g, frame);
        assert(b.shapes_fit());
        assert(b.counts_fit());
        assert(b.phases_fit());
        assert forall|k: int|
            b.producer.released <= k < b.given() implies #[trigger] b.releases.descriptor(
            b.release_bytes@,
            k,
        ) == plan.given(k).bytes() by {
            if k < g {
                assert(a.releases.descriptor(a.release_bytes@, k) == plan.given(k).bytes());
            }
        }
        assert(b.frames_fit());
        Self::lemma_slots_kept(a, b);
        reveal(Loopback::wf);
    }

    /// The bytes that the consumer hands to its sink.
    proof fn lemma_sink(&self)
        requires
            self.wf(),
            self.consumer.phase is Writing,
        ensures
            ({
                let frame = self.consumer.phase->Writing_0;
                self.data.slot_bytes(self.data_bytes@, frame.slot as int, frame.len as int)
                    == self.plan().content(self.consumer.chunks as int)
            }),
    {
        let plan = self.plan();
        let c = self.consumer.chunks as int;
        assert(self.shapes_fit() && self.counts_fit() && self.phases_fit() && self.slots_fit()) by {
            reveal(Loopback::wf);
        }
        plan.lemma_chunk(c);
        plan.lemma_chunk(c + 1);
        assert(self.data.slot_bytes(
            self.data_bytes@,
            plan.shape.slot_of(c),
            plan.content(c).len() as int,
        ) == plan.content(c));
    }

    /// Take the consumer one step further, and say whether it could go on.
    pub fn consumer_step(&mut self) -> (moved: bool)
        requires
            old(self).wf(),
        ensures
            final(self).wf(),
            final(self).consumer_moved(*old(self)),
            moved == !old(self).consumer_waits(),
            if moved {
                final(self).consumer_rank() < old(self).consumer_rank()
            } else {
                &&& final(self).consumer == old(self).consumer
                &&& final(self).data_words == old(self).data_words
                &&& final(self).release_words == old(self).release_words
            },
    {
        let ghost before = *self;
        proof {
            self.lemma_ready();
            if self.consumer.phase is Receiving && self.data_words.head != self.data_words.tail {
                Self::lemma_frame(*self);
            }
        }
        match consume_step(
            &mut self.consumer,
            &self.data,
            &mut self.data_words,
            self.data_bytes.as_slice(),
            &self.releases,
            &mut self.release_words,
            self.release_bytes.as_mut_slice(),
        ) {
            Err(_) => {
                proof {
                    assert(false);
                }
                false
            },
            Ok(ConsumeStep::Write { at, len }) => {
                proof {
                    Self::lemma_same(before, *self);
                    self.lemma_sink();
                }
                let payload: &[u8] = slice_subrange(self.data_bytes.as_slice(), at, at + len);
                append(&mut self.output, payload);
                self.consumer.written();
                proof {
                    Self::lemma_after_sink(before, *self);
                }
                true
            },
            Ok(ConsumeStep::AwaitData) => {
                proof {
                    Self::lemma_same(before, *self);
                }
                false
            },
            Ok(ConsumeStep::AwaitSpace) => {
                proof {
                    Self::lemma_same(before, *self);
                }
                false
            },
            Ok(ConsumeStep::Moved { wake: _ }) => {
                proof {
                    if before.consumer.phase is Receiving {
                        Self::lemma_after_frame(before, *self);
                    } else {
                        Self::lemma_after_reply(before, *self);
                    }
                }
                true
            },
            Ok(ConsumeStep::Done) => {
                proof {
                    Self::lemma_same(before, *self);
                }
                false
            },
        }
    }
}

/// Append bytes to a sink.
fn append(out: &mut Vec<u8>, bytes: &[u8])
    ensures
        final(out)@ == old(out)@ + bytes@,
{
    let ghost before = out@;
    let len: usize = bytes.len();
    let mut k: usize = 0;
    assert(out@ =~= before + bytes@.take(0));
    while k < len
        invariant
            k <= len,
            len == bytes@.len(),
            out@ == before + bytes@.take(k as int),
        decreases len - k,
    {
        out.push(bytes[k]);
        k = k + 1;
        assert(out@ =~= before + bytes@.take(k as int));
    }
    assert(bytes@.take(len as int) =~= bytes@);
}

/// Why no direction has these dimensions, if none has.
pub open spec fn direction_defect(shape: StreamShape) -> Option<Fault> {
    if shape.defect() is Some {
        shape.defect()
    } else if 2 * shape.slots + 2 > largest_power_of_two() {
        Some(Fault::DescriptorCapacity)
    } else {
        let capacity = descriptors_for(shape.slots as int);
        match layout_defect(shape.slots as int, shape.chunk_bytes as int, capacity) {
            Some(fault) => Some(fault),
            None => layout_defect(0, 0, capacity),
        }
    }
}

/// Zeroed memory.
pub fn zeroed(len: usize) -> (bytes: Vec<u8>)
    ensures
        bytes@.len() == len,
        forall|i: int| 0 <= i < len ==> #[trigger] bytes@[i] == 0,
{
    let mut bytes: Vec<u8> = Vec::new();
    let mut k: usize = 0;
    while k < len
        invariant
            k <= len,
            bytes@.len() == k,
            forall|i: int| 0 <= i < k ==> #[trigger] bytes@[i] == 0,
        decreases len - k,
    {
        bytes.push(0);
        k = k + 1;
    }
    bytes
}

impl Plan {
    /// Why the source does not fit the stream, if it does not.
    pub open spec fn misfit(self, ending: Ending) -> Option<Fault> {
        match ending {
            Ending::Exact => if self.input.len() < self.shape.total_bytes {
                Some(Fault::Truncated)
            } else {
                None
            },
            Ending::AtEnd => if self.input.len() > self.shape.total_bytes {
                Some(Fault::ByteCeiling)
            } else if self.input.len() < self.shape.total_bytes && self.shape.generation_of(
                self.count(),
            ) > u32::MAX {
                Some(Fault::GenerationExhausted)
            } else {
                None
            },
        }
    }

    /// What the sink holds in the end.
    pub open spec fn carried(self, ending: Ending) -> Seq<u8> {
        match ending {
            Ending::Exact => self.input.take(self.shape.total_bytes as int),
            Ending::AtEnd => self.input,
        }
    }
}

/// The sink always holds a beginning of the source: nothing is lost, repeated, reordered
/// or changed on the way.
pub proof fn law_sink_holds_a_prefix(transfer: Loopback)
    requires
        transfer.wf(),
    ensures
        transfer.consumer.total <= transfer.input@.len(),
        transfer.output@ == transfer.input@.take(transfer.consumer.total as int),
{
    reveal(Loopback::wf);
    transfer.plan().lemma_chunk(transfer.consumer.chunks as int);
}

/// When the consumer is done, the sink holds what the source had to give, and the two
/// sides have counted the same bytes, chunks and checksum.
pub proof fn law_transfers_are_faithful(transfer: Loopback)
    requires
        transfer.wf(),
        transfer.consumer.phase is Done,
    ensures
        transfer.output@ == transfer.plan().carried(transfer.producer.ending),
        transfer.consumer.total == transfer.output@.len(),
        transfer.consumer.total == transfer.producer.total,
        transfer.consumer.chunks == transfer.producer.chunks,
        transfer.consumer.chunks == transfer.plan().count(),
        transfer.consumer.aggregate == transfer.producer.aggregate,
        transfer.plan().misfit(transfer.producer.ending) is None,
{
    assert(transfer.shapes_fit() && transfer.counts_fit() && transfer.phases_fit()) by {
        reveal(Loopback::wf);
    }
    let plan = transfer.plan();
    let c = transfer.consumer.chunks as int;
    plan.lemma_chunk(c);
    if transfer.producer.ending == Ending::AtEnd {
        assert(plan.input.take(plan.input.len() as int) =~= plan.input);
    }
}

/// A slot is filled again only after its last chunk was given back: the chunks between
/// the producer and the releases it has seen fit the slots.
pub proof fn law_slots_are_reused_after_release(transfer: Loopback)
    requires
        transfer.wf(),
    ensures
        transfer.producer.chunks + count_of(transfer.filled()) <= transfer.producer.released
            + transfer.producer.shape.slots,
        transfer.producer.released <= transfer.given() <= transfer.consumer.chunks
            <= transfer.producer.chunks,
{
    reveal(Loopback::wf);
}

/// A transfer never stops halfway: as long as the two sides are not both done, one of
/// them can go on.
pub proof fn law_transfers_do_not_stall(transfer: Loopback)
    requires
        transfer.wf(),
        transfer.producer_waits(),
        transfer.consumer_waits(),
    ensures
        transfer.producer.phase is Done,
        transfer.consumer.phase is Done,
{
    assert(transfer.shapes_fit() && transfer.counts_fit() && transfer.phases_fit()) by {
        reveal(Loopback::wf);
    }
}

/// Why the producer cannot go on is why the source does not fit.
proof fn lemma_fault_is_a_misfit(transfer: Loopback)
    requires
        transfer.wf(),
        transfer.source_fault() is Some,
    ensures
        transfer.plan().misfit(transfer.producer.ending) == transfer.source_fault(),
{
    assert(transfer.shapes_fit() && transfer.counts_fit() && transfer.phases_fit()) by {
        reveal(Loopback::wf);
    }
    let plan = transfer.plan();
    let p = transfer.producer.chunks as int;
    plan.lemma_chunk(p);
    if transfer.producer.phase == ProducePhase::Filling {
        if transfer.producer.ending == Ending::Exact {
            lemma_exact_total(plan.shape, p);
            law_every_chunk_is_describable(plan.shape, p);
        }
    }
}

impl Loopback {
    /// How many steps are left.
    pub open spec fn rank(&self) -> int {
        self.producer_rank() + self.consumer_rank()
    }

    /// The steps that are left can be counted.
    proof fn lemma_rank(&self)
        requires
            self.wf(),
        ensures
            self.producer_rank() >= 0,
            self.consumer_rank() >= 0,
    {
        reveal(Loopback::wf);
    }

    /// Start a transfer of `input`.
    pub fn start(
        shape: StreamShape,
        transfer_id: u64,
        flow: StreamFlow,
        ending: Ending,
        input: Vec<u8>,
    ) -> (result: Result<Loopback, Fault>)
        ensures
            result is Ok <==> direction_defect(shape) is None,
            result matches Err(fault) ==> direction_defect(shape) == Some(fault),
            result matches Ok(transfer) ==> {
                &&& transfer.wf()
                &&& transfer.plan() == (Plan {
                    shape,
                    transfer_id,
                    flags: flags_of(flow),
                    input: input@,
                })
                &&& transfer.producer.ending == ending
                &&& transfer.consumer.ending == ending
                &&& transfer.output@.len() == 0
            },
    {
        match shape.validate() {
            Ok(()) => {},
            Err(fault) => {
                return Err(fault);
            },
        }
        let capacity: usize = match descriptor_capacity(shape.slots) {
            Ok(capacity) => capacity,
            Err(fault) => {
                return Err(fault);
            },
        };
        let (data_len, _) = match arena_layout(shape.slots, shape.chunk_bytes, capacity) {
            Ok(layout) => layout,
            Err(fault) => {
                return Err(fault);
            },
        };
        let (release_len, _) = match arena_layout(0, 0, capacity) {
            Ok(layout) => layout,
            Err(fault) => {
                return Err(fault);
            },
        };
        let mut data_bytes: Vec<u8> = zeroed(data_len);
        let mut release_bytes: Vec<u8> = zeroed(release_len);
        let mut data_words = Words::zeroed();
        let mut release_words = Words::zeroed();
        let direction: u32 = flow.code() as u32;
        let data: Arena = match Arena::create(
            shape.slots,
            shape.chunk_bytes,
            capacity,
            transfer_id,
            direction,
            &mut data_words,
            data_bytes.as_mut_slice(),
        ) {
            Ok(arena) => arena,
            Err(fault) => {
                return Err(fault);
            },
        };
        let releases: Arena = match Arena::create(
            0,
            0,
            capacity,
            transfer_id,
            direction + RELEASE_ARENA_FLAG,
            &mut release_words,
            release_bytes.as_mut_slice(),
        ) {
            Ok(arena) => arena,
            Err(fault) => {
                return Err(fault);
            },
        };
        let flags: u8 = frame_flags(flow);
        let producer: Produce = Produce::start(shape, transfer_id, flags, ending);
        let consumer: Consume = Consume::start(shape, transfer_id, flags, ending);
        let transfer = Loopback {
            producer,
            consumer,
            data,
            data_words,
            data_bytes,
            releases,
            release_words,
            release_bytes,
            input,
            output: Vec::new(),
        };
        proof {
            let plan = transfer.plan();
            plan.lemma_chunk_count();
            plan.lemma_chunk(0);
            assert(transfer.output@ =~= transfer.input@.take(0));
            assert(transfer.shapes_fit());
            assert(transfer.counts_fit());
            assert(transfer.phases_fit());
            assert(transfer.frames_fit());
            assert(transfer.slots_fit());
            reveal(Loopback::wf);
        }
        Ok(transfer)
    }

    /// Take both sides to the end.
    pub fn run(&mut self) -> (result: Result<(), Fault>)
        requires
            old(self).wf(),
        ensures
            final(self).wf(),
            final(self).plan() == old(self).plan(),
            final(self).producer.ending == old(self).producer.ending,
            result is Ok <==> old(self).plan().misfit(old(self).producer.ending) is None,
            result matches Err(fault) ==> old(self).plan().misfit(old(self).producer.ending)
                == Some(fault),
            result is Ok ==> {
                &&& final(self).producer.phase is Done
                &&& final(self).consumer.phase is Done
                &&& final(self).output@ == old(self).plan().carried(old(self).producer.ending)
            },
    {
        let ghost before = *self;
        let mut idle: bool = false;
        proof {
            self.lemma_rank();
        }
        while !idle
            invariant
                self.wf(),
                self.plan() == before.plan(),
                self.producer.ending == before.producer.ending,
                self.rank() >= 0,
                before == *old(self),
                idle ==> self.producer_waits() && self.consumer_waits(),
            decreases self.rank() + count_of(!idle),
        {
            let ghost entry = *self;
            let consumed: bool = self.consumer_step();
            let ghost middle = *self;
            let produced: bool = match self.producer_step() {
                Ok(moved) => moved,
                Err(fault) => {
                    proof {
                        lemma_fault_is_a_misfit(middle);
                    }
                    return Err(fault);
                },
            };
            idle = !consumed && !produced;
            proof {
                self.lemma_rank();
            }
        }
        proof {
            law_transfers_do_not_stall(*self);
            law_transfers_are_faithful(*self);
        }
        Ok(())
    }
}

} // verus!
