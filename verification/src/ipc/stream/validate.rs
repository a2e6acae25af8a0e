//! What a peer's frames have to look like.
use crate::ipc::Fault;
use super::arena::Arena;
use super::checksum::{checksum, checksum_of};
use super::frame::{Frame, Kind};
use super::shape::{chunk_meta, law_every_chunk_is_describable, lease_of, ChunkMeta, StreamShape};
use vstd::prelude::*;

verus! {

/// Whether an arena carries the chunks of a shape.
pub open spec fn carries(arena: Arena, shape: StreamShape) -> bool {
    &&& arena.wf()
    &&& arena.slots == shape.slots
    &&& arena.slot_len == shape.chunk_bytes
}

/// The data frame of chunk `index` of a stream of exactly the given dimensions.
pub open spec fn data_frame(
    shape: StreamShape,
    index: int,
    transfer_id: u64,
    flags: u8,
    checksum: u64,
) -> Frame {
    Frame {
        kind: Kind::Data,
        flags,
        transfer_id,
        offset: shape.offset_of(index) as u64,
        slot: shape.slot_of(index) as u32,
        generation: shape.generation_of(index) as u32,
        len: shape.len_of(index) as u32,
        checksum,
    }
}

/// The frame that ends a stream of `total` bytes.
pub open spec fn complete_frame(
    total: u64,
    transfer_id: u64,
    flags: u8,
    aggregate: u64,
) -> Frame {
    Frame {
        kind: Kind::Complete,
        flags,
        transfer_id,
        offset: total,
        slot: 0,
        generation: 0,
        len: 0,
        checksum: aggregate,
    }
}

/// Whether a frame gives chunk `index` of a stream of exactly the given dimensions back.
pub open spec fn releases_exactly(
    frame: Frame,
    shape: StreamShape,
    index: int,
    transfer_id: u64,
    flags: u8,
) -> bool {
    frame == (Frame {
        kind: Kind::Released,
        ..data_frame(shape, index, transfer_id, flags, frame.checksum)
    })
}

/// Whether a frame gives chunk `index` of a stream of unknown length back.
pub open spec fn releases_some(
    frame: Frame,
    shape: StreamShape,
    index: int,
    transfer_id: u64,
    flags: u8,
) -> bool {
    &&& frame.kind == Kind::Released
    &&& frame.flags == flags
    &&& frame.transfer_id == transfer_id
    &&& frame.slot == shape.slot_of(index)
    &&& frame.generation == shape.generation_of(index)
    &&& 0 < frame.len <= shape.chunk_bytes
    &&& frame.offset + frame.len <= shape.total_bytes
}

/// Whether a frame announces chunk `index` of a stream of unknown length, which starts at
/// `offset`.
pub open spec fn announces_some(
    frame: Frame,
    shape: StreamShape,
    index: int,
    offset: u64,
    transfer_id: u64,
    flags: u8,
    arena: Arena,
    bytes: Seq<u8>,
) -> bool {
    &&& frame.kind == Kind::Data
    &&& frame.flags == flags
    &&& frame.transfer_id == transfer_id
    &&& frame.offset == offset
    &&& frame.slot == shape.slot_of(index)
    &&& frame.generation == shape.generation_of(index)
    &&& 0 < frame.len <= shape.chunk_bytes
    &&& offset + frame.len <= shape.total_bytes
    &&& frame.checksum == checksum_of(
        arena.slot_bytes(bytes, shape.slot_of(index), frame.len as int),
    )
}

/// Accept the data frame of chunk `index` of a stream of exactly the given dimensions.
pub fn validate_chunk(
    data: &Arena,
    bytes: &[u8],
    frame: Frame,
    index: u64,
    shape: StreamShape,
    transfer_id: u64,
    flags: u8,
) -> (result: Result<(), Fault>)
    requires
        shape.valid(),
        carries(*data, shape),
        bytes@.len() == data.extent(),
        index < shape.chunk_count(),
    ensures
        result is Ok <==> frame == data_frame(
            shape,
            index as int,
            transfer_id,
            flags,
            checksum_of(
                data.slot_bytes(bytes@, shape.slot_of(index as int), shape.len_of(index as int)),
            ),
        ),
        result matches Err(fault) ==> fault == Fault::Data,
{
    proof {
        law_every_chunk_is_describable(shape, index as int);
    }
    let meta: ChunkMeta = match chunk_meta(shape, index) {
        Ok(meta) => meta,
        Err(fault) => {
            return Err(fault);
        },
    };
    let payload: &[u8] = match data.slot(bytes, meta.slot, meta.len) {
        Ok(payload) => payload,
        Err(fault) => {
            return Err(fault);
        },
    };
    let expected = Frame {
        kind: Kind::Data,
        flags,
        transfer_id,
        offset: meta.offset,
        slot: meta.slot as u32,
        generation: meta.generation,
        len: meta.len as u32,
        checksum: checksum(payload),
    };
    if frame == expected {
        Ok(())
    } else {
        Err(Fault::Data)
    }
}

/// Accept the release of chunk `index` of a stream of exactly the given dimensions.
pub fn validate_release(
    frame: Frame,
    index: u64,
    shape: StreamShape,
    transfer_id: u64,
    flags: u8,
) -> (result: Result<(), Fault>)
    requires
        shape.valid(),
        index < shape.chunk_count(),
    ensures
        result is Ok <==> releases_exactly(frame, shape, index as int, transfer_id, flags),
        result matches Err(fault) ==> fault == Fault::Released,
{
    proof {
        law_every_chunk_is_describable(shape, index as int);
    }
    match chunk_meta(shape, index) {
        Ok(meta) => {
            if frame.kind == Kind::Released && frame.flags == flags && frame.transfer_id
                == transfer_id && frame.offset == meta.offset && frame.slot == meta.slot as u32
                && frame.generation == meta.generation && frame.len == meta.len as u32 {
                Ok(())
            } else {
                Err(Fault::Released)
            }
        },
        Err(fault) => Err(fault),
    }
}

/// Accept the end of a stream of exactly the given dimensions.
pub fn validate_complete(
    frame: Frame,
    shape: StreamShape,
    transfer_id: u64,
    flags: u8,
    aggregate: u64,
) -> (result: Result<(), Fault>)
    ensures
        result is Ok <==> frame == complete_frame(shape.total_bytes, transfer_id, flags, aggregate),
        result matches Err(fault) ==> fault == Fault::Complete,
{
    if frame.kind == Kind::Complete && frame.flags == flags && frame.transfer_id == transfer_id
        && frame.offset == shape.total_bytes && frame.slot == 0 && frame.generation == 0
        && frame.len == 0 && frame.checksum == aggregate {
        Ok(())
    } else {
        Err(Fault::Complete)
    }
}

/// Accept the data frame of chunk `index` of a stream of unknown length.
pub fn validate_dynamic_chunk(
    data: &Arena,
    bytes: &[u8],
    frame: Frame,
    index: u64,
    offset: u64,
    shape: StreamShape,
    transfer_id: u64,
    flags: u8,
) -> (result: Result<(), Fault>)
    requires
        shape.valid(),
        carries(*data, shape),
        bytes@.len() == data.extent(),
    ensures
        result is Ok <==> shape.generation_of(index as int) <= u32::MAX && announces_some(
            frame,
            shape,
            index as int,
            offset,
            transfer_id,
            flags,
            *data,
            bytes@,
        ),
        result matches Err(fault) ==> fault == if shape.generation_of(index as int) > u32::MAX {
            Fault::GenerationExhausted
        } else {
            Fault::DynamicData
        },
{
    let (slot, generation) = match lease_of(shape, index) {
        Ok(lease) => lease,
        Err(fault) => {
            return Err(fault);
        },
    };
    let len: usize = frame.len as usize;
    let within_ceiling: bool = match offset.checked_add(frame.len as u64) {
        Some(end) => end <= shape.total_bytes,
        None => false,
    };
    if frame.kind == Kind::Data && frame.flags == flags && frame.transfer_id == transfer_id
        && frame.offset == offset && frame.slot == slot as u32 && frame.generation == generation
        && len > 0 && len <= shape.chunk_bytes && within_ceiling {
        match data.slot(bytes, slot, len) {
            Ok(payload) => if frame.checksum == checksum(payload) {
                Ok(())
            } else {
                Err(Fault::DynamicData)
            },
            Err(fault) => Err(fault),
        }
    } else {
        Err(Fault::DynamicData)
    }
}

/// Accept the release of chunk `index` of a stream of unknown length.
pub fn validate_dynamic_release(
    frame: Frame,
    index: u64,
    shape: StreamShape,
    transfer_id: u64,
    flags: u8,
) -> (result: Result<(), Fault>)
    requires
        shape.valid(),
    ensures
        result is Ok <==> shape.generation_of(index as int) <= u32::MAX && releases_some(
            frame,
            shape,
            index as int,
            transfer_id,
            flags,
        ),
        result matches Err(fault) ==> fault == if shape.generation_of(index as int) > u32::MAX {
            Fault::GenerationExhausted
        } else {
            Fault::DynamicReleased
        },
{
    let (slot, generation) = match lease_of(shape, index) {
        Ok(lease) => lease,
        Err(fault) => {
            return Err(fault);
        },
    };
    let within_ceiling: bool = match frame.offset.checked_add(frame.len as u64) {
        Some(end) => end <= shape.total_bytes,
        None => false,
    };
    if frame.kind == Kind::Released && frame.flags == flags && frame.transfer_id == transfer_id
        && frame.slot == slot as u32 && frame.generation == generation && frame.len > 0
        && frame.len as usize <= shape.chunk_bytes && within_ceiling {
        Ok(())
    } else {
        Err(Fault::DynamicReleased)
    }
}

/// Accept the end of a stream of unknown length, after `total` bytes.
pub fn validate_dynamic_complete(
    frame: Frame,
    shape: StreamShape,
    transfer_id: u64,
    flags: u8,
    total: u64,
    aggregate: u64,
) -> (result: Result<(), Fault>)
    ensures
        result is Ok <==> total <= shape.total_bytes && frame == complete_frame(
            total,
            transfer_id,
            flags,
            aggregate,
        ),
        result matches Err(fault) ==> fault == Fault::DynamicComplete,
{
    if total <= shape.total_bytes && frame.kind == Kind::Complete && frame.flags == flags
        && frame.transfer_id == transfer_id && frame.offset == total && frame.slot == 0
        && frame.generation == 0 && frame.len == 0 && frame.checksum == aggregate {
        Ok(())
    } else {
        Err(Fault::DynamicComplete)
    }
}

} // verus!
