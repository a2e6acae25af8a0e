//! Which streams there are and what they deliver, stated over byte counts and bytes alone.
use super::{
    aligned, answered, arena_len, descriptors_for, direction_defect, div_ceil, layout_defect,
    law_every_chunk_is_describable, law_transfers_are_faithful, lemma_div_ceil, listens,
    parts_defect, payload_start, Arena, Consume, ConsumePhase, DirectionConfig, Ending, Frame, Kind, Loopback,
    Plan, Produce, ProducePhase, StreamShape, CACHE_LINE, FRAME_LEN, HEADER_LEN,
};
use crate::cursor::{is_rounded_up, largest_power_of_two, lemma_next_power, lemma_rounds_up};
use vstd::prelude::*;

verus! {

/// A quotient that is rounded up stays within a limit exactly where the limit covers it.
proof fn lemma_ceil_within(a: int, b: int, most: int)
    requires
        0 <= a,
        0 < b,
        0 <= most,
    ensures
        div_ceil(a, b) <= most <==> a <= most * b,
{
    lemma_div_ceil(a, b);
    let q = div_ceil(a, b);
    if q <= most {
        assert(a <= most * b) by (nonlinear_arith)
            requires
                a <= q * b,
                q <= most,
                0 < b,
        ;
    } else {
        assert(a > most * b) by (nonlinear_arith)
            requires
                (q - 1) * b < a,
                most <= q - 1,
                0 < b,
        ;
    }
}

/// Every stream is possible whose chunks and slots can be counted in 32 bits, whose window fits
/// the address space, and whose bytes its slots can carry without using one of them more often
/// than 32 bits count; and no other one is.
pub proof fn law_streams_in_range_are_possible(shape: StreamShape)
    ensures
        shape.valid() <==> {
            &&& 1 <= shape.chunk_bytes <= 0xffff_ffff
            &&& 1 <= shape.slots <= 0xffff_ffff
            &&& shape.slots * shape.chunk_bytes <= isize::MAX
            &&& shape.total_bytes <= 0xffff_ffff * shape.slots * shape.chunk_bytes
        },
{
    if shape.chunk_bytes > 0 && shape.slots > 0 {
        let total = shape.total_bytes as int;
        let chunk = shape.chunk_bytes as int;
        let slots = shape.slots as int;
        lemma_div_ceil(total, chunk);
        lemma_ceil_within(div_ceil(total, chunk), slots, 0xffff_ffff);
        assert(0 <= 0xffff_ffff * slots) by (nonlinear_arith)
            requires
                0 < slots,
        ;
        lemma_ceil_within(total, chunk, 0xffff_ffff * slots);
    }
}

/// An aligned place is the next one that is a multiple of the alignment.
pub proof fn law_aligned_places_are_next(value: int, alignment: int)
    requires
        0 <= value,
        0 < alignment,
    ensures
        aligned(value, alignment) % alignment == 0,
        value <= aligned(value, alignment) < value + alignment,
{
    let up = value + (alignment - 1);
    vstd::arithmetic::div_mod::lemma_fundamental_div_mod(up, alignment);
    vstd::arithmetic::div_mod::lemma_mod_bound(up, alignment);
    let q = up / alignment;
    assert(aligned(value, alignment) == q * alignment) by (nonlinear_arith)
        requires
            up == alignment * q + up % alignment,
            aligned(value, alignment) == up - up % alignment,
    ;
    vstd::arithmetic::div_mod::lemma_mod_multiples_basic(q, alignment);
}

/// The descriptors of a direction are enough for all slots and both ends, twice over: no frame
/// ever waits for room.
pub proof fn law_descriptors_are_enough(slots: int)
    requires
        0 <= slots,
        2 * slots + 2 <= largest_power_of_two(),
    ensures
        2 * slots + 2 <= descriptors_for(slots) < 2 * (2 * slots + 2),
        is_rounded_up(2 * slots + 2, descriptors_for(slots)),
{
    let wanted = 2 * slots + 2;
    lemma_rounds_up(wanted);
    let rounded = choose|rounded: int| is_rounded_up(wanted, rounded);
    lemma_next_power(wanted, rounded);
    crate::cursor::law_rounding_up_never_doubles(wanted, rounded);
}

/// The payload of an arena lies behind its header and all of its descriptors, and the slots
/// behind each other up to its end.
pub proof fn law_arenas_hold_their_parts(slots: int, slot_len: int, descriptors: int)
    requires
        0 <= slots,
        0 <= slot_len,
        0 <= descriptors,
    ensures
        448 + 48 * descriptors <= payload_start(descriptors) < 448 + 48 * descriptors + 64,
        payload_start(descriptors) % 64 == 0,
        arena_len(slots, slot_len, descriptors) - payload_start(descriptors) == slots * slot_len,
{
    law_aligned_places_are_next(HEADER_LEN + descriptors * FRAME_LEN, CACHE_LINE as int);
}

/// Every possible stream has a direction whose arenas fit the address space: there are at most
/// twice as many descriptors as asked for, and header, descriptors and slots are all that an
/// arena holds.
pub proof fn law_directions_in_range_are_possible(shape: StreamShape)
    requires
        shape.valid(),
        8 * shape.slots <= 0xffff_ffff,
        shape.slots * shape.chunk_bytes + 200 * shape.slots + 800 <= isize::MAX,
    ensures
        direction_defect(shape) is None,
{
    let slots = shape.slots as int;
    let len = shape.chunk_bytes as int;
    vstd::layout::unsigned_int_max_values();
    assert(2 * slots + 2 <= largest_power_of_two());
    law_descriptors_are_enough(slots);
    let capacity = descriptors_for(slots);
    law_arenas_hold_their_parts(slots, len, capacity);
    law_arenas_hold_their_parts(0, 0, capacity);
    assert(capacity < 4 * slots + 4);
    assert(0 <= slots * len) by (nonlinear_arith)
        requires
            0 <= slots,
            0 <= len,
    ;
}

/// A direction can be configured exactly where it is possible and both its transfer and its
/// timeout are something.
pub proof fn law_configurations_need_a_transfer_and_a_timeout(config: DirectionConfig)
    ensures
        config.defect() is None <==> direction_defect(config.shape) is None && config.transfer_id
            != 0 && config.options.timeout_nanos != 0,
        parts_defect(config.shape, config.transfer_id) is None <==> config.shape.valid()
            && config.transfer_id != 0,
{
}

/// A transfer delivers its source: when the consumer is done, the sink of an exact transfer holds
/// the declared number of bytes from the start of the source, and that of a transfer to the end
/// holds all of it, which is never more than was declared.
pub proof fn law_transfers_deliver_the_source(transfer: Loopback)
    requires
        transfer.wf(),
        transfer.consumer.phase is Done,
    ensures
        transfer.producer.ending == Ending::Exact ==> {
            &&& transfer.output@.len() == transfer.producer.shape.total_bytes
            &&& transfer.producer.shape.total_bytes <= transfer.input@.len()
            &&& forall|i: int|
                0 <= i < transfer.output@.len() ==> #[trigger] transfer.output@[i]
                    == transfer.input@[i]
        },
        transfer.producer.ending == Ending::AtEnd ==> {
            &&& transfer.output@ == transfer.input@
            &&& transfer.input@.len() <= transfer.producer.shape.total_bytes
        },
{
    law_transfers_are_faithful(transfer);
}

/// A source fits an exact stream exactly where it has the declared bytes, and one to the end
/// wherever it has no more and its slots can count their uses: only a source that is too short
/// is truncated, and only one that is too long exceeds the ceiling.
pub proof fn law_sources_fit_where_they_have_the_bytes(plan: Plan)
    requires
        plan.shape.valid(),
    ensures
        plan.misfit(Ending::Exact) is None <==> plan.input.len() >= plan.shape.total_bytes,
        plan.misfit(Ending::AtEnd) is None ==> plan.input.len() <= plan.shape.total_bytes,
        plan.input.len() == plan.shape.total_bytes ==> plan.misfit(Ending::AtEnd) is None,
        plan.input.len() < plan.shape.total_bytes && plan.input.len() <= (0xffff_ffff
            * plan.shape.slots - 1) * plan.shape.chunk_bytes ==> plan.misfit(Ending::AtEnd) is None,
        plan.misfit(Ending::Exact) == Some(crate::ipc::Fault::Truncated) <==> plan.input.len()
            < plan.shape.total_bytes,
        plan.misfit(Ending::AtEnd) == Some(crate::ipc::Fault::ByteCeiling) <==> plan.input.len()
            > plan.shape.total_bytes,
{
    let slots = plan.shape.slots as int;
    let chunk = plan.shape.chunk_bytes as int;
    let len = plan.extent();
    if plan.input.len() < plan.shape.total_bytes && plan.input.len() <= (0xffff_ffff * slots - 1)
        * chunk {
        assert(0 <= 0xffff_ffff * slots - 1) by (nonlinear_arith)
            requires
                0 < slots,
        ;
        lemma_ceil_within(len, chunk, 0xffff_ffff * slots - 1);
        let count = plan.count();
        lemma_div_ceil(len, chunk);
        vstd::arithmetic::div_mod::lemma_fundamental_div_mod(count, slots);
        vstd::arithmetic::div_mod::lemma_mod_bound(count, slots);
        let q = count / slots;
        assert(q < 0xffff_ffff) by (nonlinear_arith)
            requires
                count == slots * q + count % slots,
                0 <= count % slots,
                count <= 0xffff_ffff * slots - 1,
                0 < slots,
        ;
    }
}

/// A consumer takes the chunk that a producer announces: where both have come equally far and the
/// slot holds the bytes of the announced checksum, the frame is acceptable.
pub proof fn law_announced_chunks_are_taken(
    producer: Produce,
    consumer: Consume,
    len: int,
    arena: Arena,
    bytes: Seq<u8>,
)
    requires
        producer.wf(),
        consumer.wf(),
        consumer.shape == producer.shape,
        consumer.transfer_id == producer.transfer_id,
        consumer.flags == producer.flags,
        consumer.ending == producer.ending,
        consumer.chunks == producer.chunks,
        consumer.total == producer.total,
        consumer.phase is Receiving,
        producer.total < producer.shape.total_bytes,
        producer.shape.generation_of(producer.chunks as int) <= u32::MAX,
        0 < len <= producer.room(),
        producer.ending == Ending::Exact ==> len == producer.room(),
    ensures
        ({
            let slot = producer.shape.slot_of(producer.chunks as int);
            let frame = producer.announcement(
                len,
                super::checksum_of(arena.slot_bytes(bytes, slot, len)),
            );
            &&& consumer.receive_defect(frame, arena, bytes) is None
            &&& consumer.after_receive(frame).phase == ConsumePhase::Writing(frame)
            &&& consumer.after_receive(frame).after_write(frame).total == producer.total + len
            &&& consumer.after_receive(frame).after_write(frame).chunks == producer.chunks + 1
        }),
{
    let shape = producer.shape;
    let index = producer.chunks as int;
    let slots = shape.slots as int;
    let slot = shape.slot_of(index);
    vstd::arithmetic::div_mod::lemma_mod_bound(index, slots);
    vstd::arithmetic::div_mod::lemma_div_pos_is_pos(index, slots);
    if producer.ending == Ending::Exact {
        super::lemma_exact_total(shape, index);
        assert(producer.total == super::exact_total(shape, index));
        assert(index < shape.chunk_count()) by {
            if index == shape.chunk_count() {
                lemma_div_ceil(shape.total_bytes as int, shape.chunk_bytes as int);
            }
        }
        law_every_chunk_is_describable(shape, index);
        assert(shape.len_of(index) == len);
    }
}

/// A producer recognises the chunk that a consumer gives back: the frame that the consumer sends
/// once it has written out the oldest chunk of an exact stream is acceptable, and no frame is
/// that says anything else.
pub proof fn law_released_chunks_are_recognised(side: Produce, frame: Frame)
    requires
        side.wf(),
        side.ending == Ending::Exact,
        side.released < side.shape.chunk_count(),
    ensures
        side.release_defect(frame) is None <==> {
            &&& frame.kind == Kind::Released
            &&& frame.flags == side.flags
            &&& frame.transfer_id == side.transfer_id
            &&& frame.offset == side.released * side.shape.chunk_bytes
            &&& frame.slot == side.released as int % side.shape.slots as int
            &&& frame.generation == side.released as int / side.shape.slots as int + 1
            &&& frame.len == (if (side.released + 1) * side.shape.chunk_bytes
                <= side.shape.total_bytes {
                side.shape.chunk_bytes as int
            } else {
                side.shape.total_bytes - side.released * side.shape.chunk_bytes
            })
        },
{
    let index = side.released as int;
    law_every_chunk_is_describable(side.shape, index);
    let chunk = side.shape.chunk_bytes as int;
    assert((index + 1) * chunk == index * chunk + chunk) by (nonlinear_arith);
}

/// A producer fills a slot again only when the chunk in it has come back: while it may fill one,
/// fewer chunks are out than there are slots.
pub proof fn law_producers_wait_for_a_free_slot(side: Produce)
    requires
        side.wf(),
        side.phase == ProducePhase::Filling || side.phase is Pushing,
    ensures
        side.chunks - side.released < side.shape.slots,
        side.total < side.shape.total_bytes,
{
}

/// An exact producer is done only when it has sent everything and everything has come back.
pub proof fn law_producers_are_done_when_all_is_back(side: Produce)
    requires
        side.wf(),
        side.phase is Completing || side.phase is Confirming || side.phase is Done,
    ensures
        side.released == side.chunks,
        side.ending == Ending::Exact ==> side.total == side.shape.total_bytes,
{
}


/// The next chunk has the bytes that are left, as far as a slot holds them.
pub proof fn law_chunks_have_what_is_left(side: Produce)
    requires
        side.wf(),
        side.total < side.shape.total_bytes,
    ensures
        0 < side.room() <= side.shape.chunk_bytes,
        side.total + side.room() <= side.shape.total_bytes,
        side.room() < side.shape.chunk_bytes ==> side.total + side.room()
            == side.shape.total_bytes,
{
}

/// A producer counts what it announces: each chunk is one more and has the bytes that were read,
/// nothing else changes, and it goes on to the next chunk only while there are bytes left.
pub proof fn law_producers_count_what_they_announce(side: Produce, payload: Seq<u8>)
    requires
        side.wf(),
        side.phase == ProducePhase::Filling,
        0 < payload.len() <= side.room(),
    ensures
        ({
            let filled = side.after_fill(payload);
            let sent = filled.after_push();
            &&& filled.phase is Pushing
            &&& filled.pending() matches Some(frame) && frame.kind == Kind::Data && frame.len
                == payload.len() && frame.offset == side.total && frame.checksum
                == super::checksum_of(payload)
            &&& filled.chunks == side.chunks && filled.total == side.total
            &&& sent.chunks == side.chunks + 1
            &&& sent.total == side.total + payload.len()
            &&& sent.released == side.released
            &&& sent.phase == ProducePhase::Filling || sent.phase == ProducePhase::Releasing
                ==> sent.total < side.shape.total_bytes
            &&& sent.phase == ProducePhase::Releasing ==> sent.chunks >= side.shape.slots
            &&& sent.phase == ProducePhase::Filling ==> sent.chunks < side.shape.slots
        }),
{
}

/// A source that ends before its time is truncated: an exact producer takes a chunk exactly where
/// it is whole, and one to the end takes every part, as long as the slot can count its uses.
pub proof fn law_only_whole_chunks_are_exact(side: Produce, len: int)
    requires
        side.wf(),
        0 <= len <= side.room(),
        side.shape.generation_of(side.chunks as int) <= u32::MAX,
    ensures
        side.ending == Ending::Exact ==> (side.fill_defect(len) is None <==> len == side.room()),
        side.ending == Ending::Exact && len < side.room() ==> side.fill_defect(len) == Some(
            crate::ipc::Fault::Truncated,
        ),
        side.ending == Ending::AtEnd ==> side.fill_defect(len) is None,
{
}

/// The end of a stream is agreed on: where both sides have counted the same bytes and checksum,
/// the consumer takes the farewell of the producer and answers with it, and the producer takes
/// the answer. A farewell that says anything else is refused by both.
pub proof fn law_ends_are_agreed_on(
    producer: Produce,
    consumer: Consume,
    frame: Frame,
    arena: Arena,
    bytes: Seq<u8>,
)
    requires
        producer.wf(),
        consumer.wf(),
        consumer.phase is Receiving,
        consumer.shape == producer.shape,
        consumer.transfer_id == producer.transfer_id,
        consumer.flags == producer.flags,
        consumer.ending == producer.ending,
        consumer.total == producer.total,
        consumer.aggregate == producer.aggregate,
        consumer.ending == Ending::Exact ==> consumer.chunks == consumer.shape.chunk_count(),
    ensures
        ({
            let end = producer.farewell();
            &&& end.kind == Kind::Complete
            &&& end.offset == producer.total
            &&& end.checksum == producer.aggregate
            &&& consumer.receive_defect(end, arena, bytes) is None
            &&& consumer.after_receive(end).phase is Acknowledging
            &&& consumer.after_receive(end).pending() == Some(end)
            &&& consumer.after_receive(end).after_push().phase is Done
            &&& producer.confirm_defect(end) is None
            &&& frame != end ==> producer.confirm_defect(frame) is Some
            &&& frame != end && frame.kind == Kind::Complete ==> consumer.receive_defect(
                frame,
                arena,
                bytes,
            ) is Some
        }),
{
}

/// A producer to the end recognises the chunk that comes back: a frame that names the slot and the
/// use of the oldest chunk, with bytes that the stream can have, is acceptable, and no frame is
/// that names another one.
pub proof fn law_released_parts_are_recognised(side: Produce, frame: Frame)
    requires
        side.wf(),
        side.ending == Ending::AtEnd,
        side.released < side.chunks,
        side.shape.generation_of(side.released as int) <= u32::MAX,
    ensures
        side.release_defect(frame) is None <==> {
            &&& frame.kind == Kind::Released
            &&& frame.flags == side.flags
            &&& frame.transfer_id == side.transfer_id
            &&& frame.slot == side.released as int % side.shape.slots as int
            &&& frame.generation == side.released as int / side.shape.slots as int + 1
            &&& 1 <= frame.len <= side.shape.chunk_bytes
            &&& frame.offset + frame.len <= side.shape.total_bytes
        },
        side.after_release().released == side.released + 1,
        side.after_release().chunks == side.chunks,
        side.after_release().total == side.total,
{
}


/// Both sides sum alike: where they had the same sum before a chunk, they have the same one once
/// the producer has announced it and the consumer has written it out.
pub proof fn law_both_sides_sum_alike(producer: Produce, consumer: Consume, payload: Seq<u8>)
    requires
        producer.wf(),
        producer.phase == ProducePhase::Filling,
        0 < payload.len() <= producer.room(),
        consumer.aggregate == producer.aggregate,
    ensures
        ({
            let filled = producer.after_fill(payload);
            let frame = filled.pending()->0;
            &&& consumer.after_receive(frame).after_write(frame).aggregate
                == filled.after_push().aggregate
            &&& consumer.after_receive(frame).after_write(frame).pending() == Some(
                Frame { kind: Kind::Released, ..frame },
            )
        }),
{
}

/// An answer takes the producer on: the right farewell ends it, a chunk that has come back is one
/// more of them, and what it cannot use leaves it where it is, with the reason.
pub proof fn law_answers_take_the_producer_on(side: Produce, frame: Frame)
    requires
        side.wf(),
        listens(side),
        side.released < side.chunks || side.phase == ProducePhase::Confirming,
    ensures
        side.phase == ProducePhase::Confirming && frame == side.farewell() ==> (answered(
            side,
            Ok(frame),
        ) matches Ok(next) && next.phase is Done && next.total == side.total && next.aggregate
            == side.aggregate),
        side.phase == ProducePhase::Confirming && frame != side.farewell() ==> answered(
            side,
            Ok(frame),
        ) is Err,
        side.phase != ProducePhase::Confirming && side.release_defect(frame) is None ==> (answered(
            side,
            Ok(frame),
        ) matches Ok(next) && next.released == side.released + 1 && next.chunks == side.chunks
            && next.total == side.total),
        side.phase != ProducePhase::Confirming && side.release_defect(frame) is Some ==> answered(
            side,
            Ok(frame),
        ) is Err,
        side.phase == ProducePhase::Releasing && side.release_defect(frame) is None ==> (answered(
            side,
            Ok(frame),
        ) matches Ok(next) && next.phase == ProducePhase::Filling),
        side.phase == ProducePhase::Draining && side.release_defect(frame) is None ==> (answered(
            side,
            Ok(frame),
        ) matches Ok(next) && (next.phase is Completing <==> next.released == next.chunks)),
        listens(side) <==> side.phase is Releasing || side.phase is Draining
            || side.phase is Confirming,
{
}


/// A consumer takes only the chunk that is next, and only where its bytes are those that were
/// announced: the frame names the transfer, the next offset, the slot whose turn it is and how
/// often it has been filled, and carries the checksum of what lies in that slot.
pub proof fn law_consumers_take_only_sound_chunks(
    side: Consume,
    frame: Frame,
    arena: Arena,
    bytes: Seq<u8>,
)
    requires
        side.wf(),
        side.phase is Receiving,
        side.receive_defect(frame, arena, bytes) is None,
        frame.kind != Kind::Complete,
    ensures
        frame.kind == Kind::Data,
        frame.flags == side.flags,
        frame.transfer_id == side.transfer_id,
        frame.offset == side.total,
        frame.slot == side.chunks as int % side.shape.slots as int,
        frame.generation == side.chunks as int / side.shape.slots as int + 1,
        frame.checksum == super::checksum_of(
            arena.slot_bytes(
                bytes,
                side.chunks as int % side.shape.slots as int,
                frame.len as int,
            ),
        ),
        side.ending == Ending::Exact ==> (frame.len == side.shape.chunk_bytes || side.total
            + frame.len == side.shape.total_bytes),
{
    if side.ending == Ending::Exact {
        assert(side.chunks < side.shape.chunk_count());
        law_every_chunk_is_describable(side.shape, side.chunks as int);
    }
}

/// A stream does not end early: an end that comes before the last byte of an exact stream is
/// refused, and so is one that counts other bytes than have come or sums them otherwise.
pub proof fn law_streams_do_not_end_early(
    side: Consume,
    frame: Frame,
    arena: Arena,
    bytes: Seq<u8>,
)
    requires
        side.wf(),
        side.phase is Receiving,
        frame.kind == Kind::Complete,
        side.receive_defect(frame, arena, bytes) is None,
    ensures
        frame.offset == side.total,
        frame.checksum == side.aggregate,
        frame.transfer_id == side.transfer_id,
        frame.flags == side.flags,
        side.ending == Ending::Exact ==> side.chunks == side.shape.chunk_count(),
{
}

/// A chunk that was changed in one of its words after it was announced is refused.
pub proof fn law_corrupted_chunks_are_refused(
    side: Consume,
    frame: Frame,
    arena: Arena,
    bytes: Seq<u8>,
    corrupted: Seq<u8>,
    k: int,
)
    requires
        side.wf(),
        side.phase is Receiving,
        side.receive_defect(frame, arena, bytes) is None,
        frame.kind != Kind::Complete,
        0 <= k,
        ({
            let slot = side.chunks as int % side.shape.slots as int;
            let sent = arena.slot_bytes(bytes, slot, frame.len as int);
            let found = arena.slot_bytes(corrupted, slot, frame.len as int);
            super::differ_in_word(sent, found, k) && sent != found
        }),
    ensures
        side.receive_defect(frame, arena, corrupted) is Some,
{
    let slot = side.chunks as int % side.shape.slots as int;
    super::law_a_corrupted_word_is_detected(
        arena.slot_bytes(bytes, slot, frame.len as int),
        arena.slot_bytes(corrupted, slot, frame.len as int),
        k,
    );
    law_consumers_take_only_sound_chunks(side, frame, arena, bytes);
    if side.receive_defect(frame, arena, corrupted) is None {
        law_consumers_take_only_sound_chunks(side, frame, arena, corrupted);
    }
}

} // verus!
