//! Where things lie in a shared arena.
use crate::cursor::{
    checked_next_power_of_two, largest_power_of_two, lemma_next_power, next_power, power_of_two,
};
use crate::ipc::Fault;
use super::frame::FRAME_LEN;
use vstd::arithmetic::div_mod::{lemma_fundamental_div_mod, lemma_mod_bound};
use vstd::prelude::*;

verus! {

/// The unit of alignment in an arena.
pub const CACHE_LINE: usize = 64;

/// Where the role claims lie in an arena.
pub const ROLE_CLAIMS_OFFSET: usize = 40;

/// Where the cursor of the reader lies in an arena.
pub const HEAD_OFFSET: usize = 64;

/// Where the cursor of the writer lies in an arena.
pub const TAIL_OFFSET: usize = 128;

/// Where the event for new descriptors lies in an arena.
pub const DATA_EVENT_OFFSET: usize = 192;

/// Where the event for free descriptors lies in an arena.
pub const SPACE_EVENT_OFFSET: usize = 320;

/// Where the descriptors start in an arena.
pub const HEADER_LEN: usize = 448;

/// The least multiple of `alignment` that is at least `value`.
pub open spec fn aligned(value: int, alignment: int) -> int {
    value + (alignment - 1) - (value + (alignment - 1)) % alignment
}

/// The least multiple of `alignment` that is at least `value`.
pub fn align_up(value: usize, alignment: usize) -> (result: Result<usize, Fault>)
    requires
        alignment > 0,
    ensures
        result is Ok <==> value + (alignment - 1) <= usize::MAX,
        result matches Ok(up) ==> up == aligned(value as int, alignment as int) && up % alignment
            == 0 && value <= up < value + alignment,
        result matches Err(fault) ==> fault == Fault::Alignment,
{
    match value.checked_add(alignment - 1) {
        Some(end) => {
            proof {
                lemma_fundamental_div_mod(end as int, alignment as int);
                lemma_mod_bound(end as int, alignment as int);
                let q = end as int / (alignment as int);
                vstd::arithmetic::div_mod::lemma_mod_multiples_basic(q, alignment as int);
                assert(end - end % alignment == q * alignment) by (nonlinear_arith)
                    requires
                        end as int == alignment as int * q + end as int % (alignment as int),
                ;
            }
            Ok(end - end % alignment)
        },
        None => Err(Fault::Alignment),
    }
}

/// How many descriptors a direction with `slots` slots has.
pub open spec fn descriptors_for(slots: int) -> int {
    next_power(2 * slots + 2)
}

/// How many descriptors a direction with `slots` slots has: one for each slot, its
/// release and the two ends of the stream, rounded up to a power of two.
pub fn descriptor_capacity(slots: usize) -> (result: Result<usize, Fault>)
    ensures
        result is Ok <==> 2 * slots + 2 <= largest_power_of_two(),
        result matches Ok(capacity) ==> capacity == descriptors_for(slots as int) && power_of_two(
            capacity as int,
        ) && 2 * slots + 2 <= capacity,
        result matches Err(fault) ==> fault == Fault::DescriptorCapacity,
{
    proof {
        crate::cursor::lemma_largest();
    }
    match slots.checked_mul(2) {
        Some(double) => match double.checked_add(2) {
            Some(wanted) => match checked_next_power_of_two(wanted) {
                Some(capacity) => {
                    proof {
                        lemma_next_power(wanted as int, capacity as int);
                    }
                    Ok(capacity)
                },
                None => Err(Fault::DescriptorCapacity),
            },
            None => Err(Fault::DescriptorCapacity),
        },
        None => Err(Fault::DescriptorCapacity),
    }
}

/// Where the payload starts in an arena.
pub open spec fn payload_start(descriptor_capacity: int) -> int {
    aligned(HEADER_LEN + descriptor_capacity * FRAME_LEN, CACHE_LINE as int)
}

/// The bytes of an arena.
pub open spec fn arena_len(slots: int, slot_len: int, descriptor_capacity: int) -> int {
    payload_start(descriptor_capacity) + slots * slot_len
}

/// Why no arena has these dimensions, if none has.
pub open spec fn layout_defect(slots: int, slot_len: int, descriptor_capacity: int) -> Option<
    Fault,
> {
    if (slots == 0) != (slot_len == 0) || descriptor_capacity < 2 || !power_of_two(
        descriptor_capacity,
    ) || descriptor_capacity > u32::MAX {
        Some(Fault::ArenaDimensions)
    } else if descriptor_capacity * FRAME_LEN > usize::MAX {
        Some(Fault::DescriptorBytes)
    } else if HEADER_LEN + descriptor_capacity * FRAME_LEN > usize::MAX {
        Some(Fault::ArenaOffset)
    } else if HEADER_LEN + descriptor_capacity * FRAME_LEN + (CACHE_LINE - 1) > usize::MAX {
        Some(Fault::Alignment)
    } else if slots * slot_len > usize::MAX {
        Some(Fault::ArenaPayload)
    } else if arena_len(slots, slot_len, descriptor_capacity) > isize::MAX {
        Some(Fault::ArenaLength)
    } else {
        None
    }
}

/// Whether `n` is a power of two.
pub fn is_power_of_two(n: usize) -> (yes: bool)
    ensures
        n > 0 ==> yes == power_of_two(n as int),
        n == 0 ==> !yes,
{
    if n == 0 {
        return false;
    }
    match checked_next_power_of_two(n) {
        Some(p) => {
            proof {
                if power_of_two(n as int) {
                    let e = choose|e: nat| #[trigger] vstd::arithmetic::power2::pow2(e) == n as int;
                    assert(vstd::arithmetic::power2::pow2(e) == n);
                }
            }
            p == n
        },
        None => {
            proof {
                crate::cursor::lemma_largest();
            }
            false
        },
    }
}

/// The bytes of an arena, and where its payload starts.
pub fn arena_layout(slots: usize, slot_len: usize, descriptor_capacity: usize) -> (result: Result<
    (usize, usize),
    Fault,
>)
    ensures
        result is Ok <==> layout_defect(slots as int, slot_len as int, descriptor_capacity as int)
            is None,
        result matches Ok(layout) ==> layout.0 == arena_len(
            slots as int,
            slot_len as int,
            descriptor_capacity as int,
        ) && layout.1 == payload_start(descriptor_capacity as int),
        result matches Err(fault) ==> layout_defect(
            slots as int,
            slot_len as int,
            descriptor_capacity as int,
        ) == Some(fault),
{
    if (slots == 0) != (slot_len == 0) || descriptor_capacity < 2 || !is_power_of_two(
        descriptor_capacity,
    ) || descriptor_capacity > u32::MAX as usize {
        return Err(Fault::ArenaDimensions);
    }
    let descriptors: usize = match descriptor_capacity.checked_mul(FRAME_LEN) {
        Some(bytes) => bytes,
        None => {
            return Err(Fault::DescriptorBytes);
        },
    };
    let header: usize = match HEADER_LEN.checked_add(descriptors) {
        Some(bytes) => bytes,
        None => {
            return Err(Fault::ArenaOffset);
        },
    };
    let payload_offset: usize = match align_up(header, CACHE_LINE) {
        Ok(offset) => offset,
        Err(fault) => {
            return Err(fault);
        },
    };
    let payload: usize = match slots.checked_mul(slot_len) {
        Some(bytes) => bytes,
        None => {
            return Err(Fault::ArenaPayload);
        },
    };
    match payload_offset.checked_add(payload) {
        Some(len) => {
            if len > isize::MAX as usize {
                return Err(Fault::ArenaLength);
            }
            Ok((len, payload_offset))
        },
        None => Err(Fault::ArenaLength),
    }
}

} // verus!
