//! The dimensions of a stream, and how it falls into chunks.
use crate::ipc::Fault;
use vstd::arithmetic::div_mod::{lemma_fundamental_div_mod, lemma_mod_bound};
use vstd::prelude::*;

verus! {

/// `a / b`, rounded up.
pub open spec fn div_ceil(a: int, b: int) -> int {
    (a + b - 1) / b
}

/// Rounding up: the least multiple of `b` that reaches `a`.
pub proof fn lemma_div_ceil(a: int, b: int)
    requires
        0 <= a,
        0 < b,
    ensures
        0 <= div_ceil(a, b) <= a,
        a <= div_ceil(a, b) * b,
        a > 0 ==> (div_ceil(a, b) - 1) * b < a,
        a > 0 ==> div_ceil(a, b) >= 1,
        a == 0 ==> div_ceil(a, b) == 0,
        div_ceil(a, b) == a / b + (if a % b == 0 {
            0int
        } else {
            1
        }),
{
    let q = div_ceil(a, b);
    lemma_fundamental_div_mod(a + b - 1, b);
    lemma_mod_bound(a + b - 1, b);
    assert(q * b > a - 1 && (q - 1) * b < a) by (nonlinear_arith)
        requires
            a + b - 1 == b * q + (a + b - 1) % b,
            0 <= (a + b - 1) % b < b,
    ;
    assert(q >= 0) by (nonlinear_arith)
        requires
            q * b > a - 1,
            a >= 0,
            b > 0,
    ;
    if a == 0 {
        assert(q < 1) by (nonlinear_arith)
            requires
                (q - 1) * b < 0,
                b > 0,
        ;
    } else {
        assert(q >= 1) by (nonlinear_arith)
            requires
                q * b > a - 1,
                a > 0,
                b > 0,
        ;
        assert(q <= a) by (nonlinear_arith)
            requires
                (q - 1) * b < a,
                b >= 1,
                q >= 1,
        ;
    }
    lemma_fundamental_div_mod(a, b);
    lemma_mod_bound(a, b);
    let r = a % b;
    let d = a / b;
    if r == 0 {
        assert(q == d) by (nonlinear_arith)
            requires
                a == b * d,
                q * b > a - 1,
                (q - 1) * b < a,
                b > 0,
        ;
    } else {
        assert(q == d + 1) by (nonlinear_arith)
            requires
                a == b * d + r,
                0 < r < b,
                q * b > a - 1,
                (q - 1) * b < a,
                b > 0,
        ;
    }
}

/// `a / b`, rounded up.
pub fn div_ceil_u64(a: u64, b: u64) -> (q: u64)
    requires
        b > 0,
    ensures
        q == div_ceil(a as int, b as int),
{
    proof {
        lemma_div_ceil(a as int, b as int);
    }
    if a % b == 0 {
        a / b
    } else {
        a / b + 1
    }
}

/// Logical stream dimensions. `total_bytes` may be much larger than the resident
/// `chunk_bytes * slots` window and may be zero. Exact transfers treat it as the
/// byte count. Terminal-length transfers treat it as a ceiling for a length that is
/// discovered while streaming.
#[derive(Clone, Copy, Debug, PartialEq, Eq, Structural)]
pub struct StreamShape {
    /// Exact byte count, or the hard ceiling for terminal-length transfers.
    pub total_bytes: u64,
    /// Maximum payload bytes carried by one shared slot.
    pub chunk_bytes: usize,
    /// Number of reusable payload slots resident in shared memory.
    pub slots: usize,
}

impl StreamShape {
    /// How many chunks the stream falls into.
    pub open spec fn chunk_count(&self) -> int {
        div_ceil(self.total_bytes as int, self.chunk_bytes as int)
    }

    /// The bytes of the resident window.
    pub open spec fn resident(&self) -> int {
        self.slots * self.chunk_bytes
    }

    /// How often each slot is used at most.
    pub open spec fn generations(&self) -> int {
        div_ceil(self.chunk_count(), self.slots as int)
    }

    /// What is wrong with the dimensions, if anything is.
    pub open spec fn defect(&self) -> Option<Fault> {
        if self.chunk_bytes == 0 || self.chunk_bytes > u32::MAX {
            Some(Fault::ChunkBytes)
        } else if self.slots == 0 || self.slots > u32::MAX {
            Some(Fault::SlotCount)
        } else if self.resident() > isize::MAX {
            Some(Fault::ResidentSize)
        } else if self.generations() > u32::MAX {
            Some(Fault::Generations)
        } else {
            None
        }
    }

    /// Whether a transfer can have these dimensions.
    pub open spec fn valid(&self) -> bool {
        self.defect() is None
    }

    /// Number of fixed-window leases used by this logical stream.
    pub fn chunks(self) -> (count: u64)
        requires
            self.chunk_bytes > 0,
        ensures
            count == self.chunk_count(),
    {
        div_ceil_u64(self.total_bytes, self.chunk_bytes as u64)
    }

    /// Maximum resident payload bytes for this direction.
    pub fn resident_bytes(self) -> (bytes: usize)
        requires
            self.resident() <= usize::MAX,
        ensures
            bytes == self.resident(),
    {
        self.slots * self.chunk_bytes
    }

    /// Whether a transfer can have these dimensions.
    pub fn validate(self) -> (result: Result<(), Fault>)
        ensures
            result is Ok <==> self.valid(),
            result matches Err(fault) ==> self.defect() == Some(fault),
    {
        if self.chunk_bytes == 0 || self.chunk_bytes > u32::MAX as usize {
            return Err(Fault::ChunkBytes);
        }
        if self.slots == 0 || self.slots > u32::MAX as usize {
            return Err(Fault::SlotCount);
        }
        match self.slots.checked_mul(self.chunk_bytes) {
            Some(bytes) => {
                if bytes > isize::MAX as usize {
                    return Err(Fault::ResidentSize);
                }
            },
            None => {
                return Err(Fault::ResidentSize);
            },
        }
        let generations: u64 = div_ceil_u64(self.chunks(), self.slots as u64);
        if generations > u32::MAX as u64 {
            return Err(Fault::Generations);
        }
        Ok(())
    }
}

/// Direction relative to the supervising parent.
#[derive(Clone, Copy, Debug, PartialEq, Eq, Structural)]
pub enum StreamFlow {
    /// Data moves from the supervising parent to its worker.
    ParentToWorker,
    /// Data moves from the worker to its supervising parent.
    WorkerToParent,
}

impl StreamFlow {
    /// The number that stands for this flow.
    pub open spec fn number(&self) -> u8 {
        match self {
            StreamFlow::ParentToWorker => 1,
            StreamFlow::WorkerToParent => 2,
        }
    }

    /// The number that stands for this flow.
    pub fn code(self) -> (code: u8)
        ensures
            code == self.number(),
    {
        match self {
            StreamFlow::ParentToWorker => 1,
            StreamFlow::WorkerToParent => 2,
        }
    }

    /// The flow that a number stands for.
    pub fn from_code(code: u8) -> (result: Result<Self, Fault>)
        ensures
            result matches Ok(flow) ==> flow.number() == code,
            result is Ok <==> code == 1 || code == 2,
            result matches Err(fault) ==> fault == Fault::UnknownFlow,
    {
        match code {
            1 => Ok(StreamFlow::ParentToWorker),
            2 => Ok(StreamFlow::WorkerToParent),
            _ => Err(Fault::UnknownFlow),
        }
    }
}

/// Where a chunk lies in the stream, and in which slot it travels.
#[derive(Clone, Copy, Debug, PartialEq, Eq, Structural)]
pub struct ChunkMeta {
    /// Where the chunk starts in the stream.
    pub offset: u64,
    /// How many bytes it has.
    pub len: usize,
    /// The slot that carries it.
    pub slot: usize,
    /// How often the slot has been filled, this chunk counted.
    pub generation: u32,
}

impl StreamShape {
    /// Where chunk `index` starts.
    pub open spec fn offset_of(&self, index: int) -> int {
        index * self.chunk_bytes
    }

    /// How many bytes chunk `index` has.
    pub open spec fn len_of(&self, index: int) -> int {
        let remaining = self.total_bytes - self.offset_of(index);
        if remaining < 0 {
            0
        } else if remaining < self.chunk_bytes {
            remaining
        } else {
            self.chunk_bytes as int
        }
    }

    /// The slot that carries chunk `index`.
    pub open spec fn slot_of(&self, index: int) -> int {
        index % (self.slots as int)
    }

    /// How often that slot has been filled by then.
    pub open spec fn generation_of(&self, index: int) -> int {
        index / (self.slots as int) + 1
    }
}

/// The slot that carries chunk `index`, and how often it has been filled by then.
pub fn lease_of(shape: StreamShape, index: u64) -> (result: Result<(usize, u32), Fault>)
    requires
        0 < shape.slots <= u32::MAX,
    ensures
        result is Ok <==> shape.generation_of(index as int) <= u32::MAX,
        result matches Ok(lease) ==> lease.0 == shape.slot_of(index as int) && lease.0 < shape.slots
            && lease.1 == shape.generation_of(index as int),
        result matches Err(fault) ==> fault == Fault::GenerationExhausted,
{
    let slots: u64 = shape.slots as u64;
    let rounds: u64 = index / slots;
    proof {
        lemma_mod_bound(index as int, slots as int);
    }
    if rounds >= u32::MAX as u64 {
        return Err(Fault::GenerationExhausted);
    }
    Ok(((index % slots) as usize, (rounds + 1) as u32))
}

/// Where chunk `index` lies in a stream of exactly the given dimensions.
pub fn chunk_meta(shape: StreamShape, index: u64) -> (result: Result<ChunkMeta, Fault>)
    requires
        0 < shape.chunk_bytes <= u32::MAX,
        0 < shape.slots <= u32::MAX,
    ensures
        result is Ok <==> shape.offset_of(index as int) <= u64::MAX && shape.generation_of(
            index as int,
        ) <= u32::MAX,
        result matches Ok(meta) ==> {
            &&& meta.offset == shape.offset_of(index as int)
            &&& meta.len == shape.len_of(index as int)
            &&& meta.slot == shape.slot_of(index as int)
            &&& meta.slot < shape.slots
            &&& meta.generation == shape.generation_of(index as int)
        },
        result matches Err(fault) ==> fault == if shape.offset_of(index as int) > u64::MAX {
            Fault::OffsetOverflow
        } else {
            Fault::GenerationExhausted
        },
{
    let offset: u64 = match index.checked_mul(shape.chunk_bytes as u64) {
        Some(offset) => offset,
        None => {
            return Err(Fault::OffsetOverflow);
        },
    };
    let remaining: u64 = if shape.total_bytes > offset {
        shape.total_bytes - offset
    } else {
        0
    };
    let chunk: u64 = shape.chunk_bytes as u64;
    let len: usize = if remaining < chunk {
        remaining as usize
    } else {
        shape.chunk_bytes
    };
    match lease_of(shape, index) {
        Ok((slot, generation)) => Ok(ChunkMeta { offset, len, slot, generation }),
        Err(fault) => Err(fault),
    }
}

/// Every chunk of a valid shape can be described: its place and its generation fit
/// a frame.
pub proof fn law_every_chunk_is_describable(shape: StreamShape, index: int)
    requires
        shape.valid(),
        0 <= index < shape.chunk_count(),
    ensures
        0 <= shape.offset_of(index) < shape.total_bytes,
        0 < shape.len_of(index) <= shape.chunk_bytes,
        0 <= shape.slot_of(index) < shape.slots,
        1 <= shape.generation_of(index) <= u32::MAX,
        shape.offset_of(index) + shape.len_of(index) <= shape.total_bytes,
{
    let total = shape.total_bytes as int;
    let chunk = shape.chunk_bytes as int;
    let slots = shape.slots as int;
    lemma_div_ceil(total, chunk);
    let count = shape.chunk_count();
    assert(0 <= index * chunk < total) by (nonlinear_arith)
        requires
            0 <= index <= count - 1,
            (count - 1) * chunk < total,
            chunk > 0,
    ;
    lemma_mod_bound(index, slots);
    lemma_div_ceil(count, slots);
    lemma_fundamental_div_mod(index, slots);
    let d = index / slots;
    let g = shape.generations();
    assert(0 <= d < g) by (nonlinear_arith)
        requires
            index == slots * d + index % slots,
            0 <= index % slots < slots,
            0 <= index < count,
            count <= g * slots,
            slots > 0,
    ;
}

/// The chunks of a valid shape follow each other without a gap, and the last one ends
/// where the stream ends.
pub proof fn law_chunks_partition_the_stream(shape: StreamShape, index: int)
    requires
        shape.valid(),
        0 <= index < shape.chunk_count(),
    ensures
        shape.offset_of(0) == 0,
        index + 1 < shape.chunk_count() ==> shape.offset_of(index) + shape.len_of(index)
            == shape.offset_of(index + 1),
        index + 1 == shape.chunk_count() ==> shape.offset_of(index) + shape.len_of(index)
            == shape.total_bytes,
{
    let total = shape.total_bytes as int;
    let chunk = shape.chunk_bytes as int;
    lemma_div_ceil(total, chunk);
    let count = shape.chunk_count();
    assert((index + 1) * chunk == index * chunk + chunk) by (nonlinear_arith);
    law_every_chunk_is_describable(shape, index);
    if index + 1 < count {
        law_every_chunk_is_describable(shape, index + 1);
    }
}

/// Two chunks that share a slot are at least a whole window apart, and their
/// generations tell them apart.
pub proof fn law_a_slot_and_generation_name_one_chunk(shape: StreamShape, a: int, b: int)
    requires
        shape.slots > 0,
        0 <= a < b,
        shape.slot_of(a) == shape.slot_of(b),
    ensures
        shape.generation_of(a) < shape.generation_of(b),
        a + shape.slots <= b,
{
    let slots = shape.slots as int;
    lemma_fundamental_div_mod(a, slots);
    lemma_fundamental_div_mod(b, slots);
    let x = a / slots;
    let y = b / slots;
    assert(x < y && a + slots <= b) by (nonlinear_arith)
        requires
            a == slots * x + a % slots,
            b == slots * y + a % slots,
            a < b,
            slots > 0,
    ;
}

} // verus!
