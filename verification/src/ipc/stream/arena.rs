//! A shared arena: a ring of descriptors and the payload slots that they speak of.
//!
//! An arena lies in one mapping. Its words (the magic, the role claims, the two cursors
//! and the two events) are shared by single accesses; they are kept apart as [`Words`].
//! The rest of the mapping is plain bytes: whoever may write a byte is settled by the
//! cursors.
use crate::ipc::event::{claimed, stored, ProcessEvent, SharedEventState, WaitPhase, EVENT_MAGIC};
use crate::ipc::wire::{get, le_bytes, lemma_le_limits, lemma_value_of_le, put};
use crate::ipc::Fault;
use super::frame::{field, lemma_frame_len, Frame, FRAME_LEN, VERSION};
use super::layout::{arena_layout, arena_len, layout_defect, payload_start, HEADER_LEN};
use vstd::arithmetic::div_mod::{lemma_fundamental_div_mod, lemma_mod_bound};
use vstd::prelude::*;
use vstd::slice::slice_subrange;

verus! {

/// What an initialized arena starts with.
pub const ARENA_MAGIC: u32 = 0x5053_4152;

/// Set in the direction of the arena that carries releases.
pub const RELEASE_ARENA_FLAG: u32 = 0x8000_0000;

/// The claim of the producer of a direction.
pub const PRODUCER_CLAIM: u32 = 1;

/// The claim of the consumer of a direction.
pub const CONSUMER_CLAIM: u32 = 2;

/// Every claim there is.
pub const ROLE_CLAIM_MASK: u32 = 3;

/// What an endpoint does in a direction.
#[derive(Clone, Copy, Debug, PartialEq, Eq, Structural)]
pub enum DirectionRole {
    /// It sends.
    Producer,
    /// It receives.
    Consumer,
}

impl DirectionRole {
    /// The bit of this role.
    pub open spec fn bit(&self) -> u32 {
        match self {
            DirectionRole::Producer => PRODUCER_CLAIM,
            DirectionRole::Consumer => CONSUMER_CLAIM,
        }
    }

    /// Whether this role is taken.
    pub open spec fn taken(&self, claims: u32) -> bool {
        claims & self.bit() != 0
    }

    /// The bit of this role.
    pub fn claim(self) -> (bit: u32)
        ensures
            bit == self.bit(),
    {
        match self {
            DirectionRole::Producer => PRODUCER_CLAIM,
            DirectionRole::Consumer => CONSUMER_CLAIM,
        }
    }
}

/// Why a role cannot be claimed, if it cannot.
pub open spec fn claim_defect(claims: u32, role: DirectionRole) -> Option<Fault> {
    if claims > ROLE_CLAIM_MASK {
        Some(Fault::RoleClaims)
    } else if role.taken(claims) {
        Some(Fault::RoleClaimed)
    } else {
        None
    }
}

/// Claim a role of a direction, in one exchange. A refused claim changes nothing.
pub fn claim_direction_role(claims: &mut u32, role: DirectionRole) -> (result: Result<(), Fault>)
    ensures
        result is Ok <==> claim_defect(*old(claims), role) is None,
        result matches Err(fault) ==> claim_defect(*old(claims), role) == Some(fault) && *final(claims) == *old(claims),
        result is Ok ==> *final(claims) == *old(claims) | role.bit(),
{
    if *claims > ROLE_CLAIM_MASK {
        return Err(Fault::RoleClaims);
    }
    if *claims & role.claim() != 0 {
        return Err(Fault::RoleClaimed);
    }
    *claims = *claims | role.claim();
    Ok(())
}

/// A role is claimed once: after a claim it is taken for good, whatever else is claimed,
/// and the other role is as free as before.
pub proof fn law_roles_are_claimed_once(claims: u32, role: DirectionRole, other: DirectionRole)
    requires
        claim_defect(claims, role) is None,
    ensures
        claim_defect(claims | role.bit(), role) == Some(Fault::RoleClaimed),
        other != role ==> claim_defect(claims | role.bit(), other) == claim_defect(claims, other),
        claim_defect(claims | role.bit(), other) is None ==> role.taken(
            (claims | role.bit()) | other.bit(),
        ),
{
    let a = role.bit();
    let b = other.bit();
    assert(claims <= 3 && (a == 1 || a == 2) && (b == 1 || b == 2) ==> {
        &&& (claims | a) <= 3
        &&& ((claims | a) & a) != 0
        &&& (((claims | a) | b) & a) != 0
        &&& (a != b ==> ((claims | a) & b) == (claims & b))
    }) by (bit_vector);
}

/// The words of an arena that processes share.
#[derive(Clone, Copy, Debug, PartialEq, Eq, Structural)]
pub struct Words {
    /// [`ARENA_MAGIC`] once the arena can be used.
    pub magic: u32,
    /// The roles that are taken.
    pub claims: u32,
    /// How many descriptors have been read.
    pub head: u64,
    /// How many descriptors have been written.
    pub tail: u64,
    /// Notified when a descriptor has been written.
    pub data_ready: SharedEventState,
    /// Notified when a descriptor has been read.
    pub space_ready: SharedEventState,
}

impl Words {
    /// The words of a new arena.
    pub open spec fn fresh() -> Words {
        Words {
            magic: ARENA_MAGIC,
            claims: 0,
            head: 0,
            tail: 0,
            data_ready: SharedEventState::fresh(),
            space_ready: SharedEventState::fresh(),
        }
    }

    /// The words of zeroed memory.
    pub fn zeroed() -> (words: Words)
        ensures
            words.magic == 0 && words.claims == 0 && words.head == 0 && words.tail == 0,
            words.data_ready == (SharedEventState { magic: 0, sequence: 0, waiters: 0 }),
            words.space_ready == (SharedEventState { magic: 0, sequence: 0, waiters: 0 }),
    {
        let event = SharedEventState { magic: 0, sequence: 0, waiters: 0 };
        Words { magic: 0, claims: 0, head: 0, tail: 0, data_ready: event, space_ready: event }
    }

    /// How many descriptors are written and not read.
    pub open spec fn used(&self) -> int {
        (self.tail - self.head) % 0x1_0000_0000_0000_0000
    }

    /// The words after a descriptor has been written.
    pub open spec fn pushed(&self) -> Words {
        Words {
            tail: (self.tail + 1) as u64,
            data_ready: claimed(stored(self.data_ready, (self.tail + 1) as u64)),
            ..*self
        }
    }

    /// The words after a descriptor has been read.
    pub open spec fn popped(&self) -> Words {
        Words {
            head: (self.head + 1) as u64,
            space_ready: claimed(stored(self.space_ready, (self.head + 1) as u64)),
            ..*self
        }
    }
}

/// `bytes` with `part` written over them from `at` on.
pub open spec fn spliced(bytes: Seq<u8>, at: int, part: Seq<u8>) -> Seq<u8> {
    Seq::new(
        bytes.len(),
        |i: int|
            if at <= i < at + part.len() {
                part[i - at]
            } else {
                bytes[i]
            },
    )
}

/// Write `part` over `bytes` from `at` on.
pub fn splice(bytes: &mut [u8], at: usize, part: &[u8])
    requires
        at + part@.len() <= old(bytes)@.len(),
    ensures
        final(bytes)@ == spliced(old(bytes)@, at as int, part@),
{
    let ghost before = bytes@;
    let len: usize = part.len();
    let whole: usize = bytes.len();
    let mut k: usize = 0;
    assert(bytes@ =~= spliced(before, at as int, part@.take(0)));
    while k < len
        invariant
            k <= len,
            len == part@.len(),
            whole == before.len(),
            at + len <= whole,
            bytes@ == spliced(before, at as int, part@.take(k as int)),
        decreases len - k,
    {
        let here: usize = at + k;
        bytes[here] = part[k];
        k = k + 1;
        assert(bytes@ =~= spliced(before, at as int, part@.take(k as int)));
    }
    assert(part@.take(len as int) =~= part@);
}

/// What a push has come to.
#[derive(Clone, Copy, Debug, PartialEq, Eq, Structural)]
pub enum PushStep {
    /// There is no free descriptor.
    Full,
    /// The frame is written. If `wake` is set, the reader has to be woken.
    Pushed { wake: bool },
}

/// What a pop has come to.
#[derive(Clone, Copy, Debug, PartialEq, Eq)]
pub enum PopStep {
    /// There is no descriptor.
    Empty,
    /// A descriptor is read: a frame, or why it is none. If `wake` is set, the writer has
    /// to be woken.
    Popped { frame: Result<Frame, Fault>, wake: bool },
}

/// One endpoint's idea of a shared arena.
#[derive(Clone, Copy, Debug, PartialEq, Eq, Structural)]
pub struct Arena {
    /// The descriptors of the ring.
    pub descriptor_capacity: usize,
    /// The payload slots.
    pub slots: usize,
    /// The bytes of one slot.
    pub slot_len: usize,
    /// Where the slots start.
    pub payload_offset: usize,
}

/// Whether the header of an arena says what is expected.
pub open spec fn header_matches(
    bytes: Seq<u8>,
    slots: int,
    slot_len: int,
    descriptor_capacity: int,
    transfer_id: u64,
    direction: u32,
) -> bool {
    &&& bytes.len() >= HEADER_LEN
    &&& field(bytes, 4, 2) == VERSION
    &&& field(bytes, 6, 2) == FRAME_LEN
    &&& field(bytes, 8, 4) == descriptor_capacity
    &&& field(bytes, 12, 4) == slots
    &&& field(bytes, 16, 4) == slot_len
    &&& field(bytes, 20, 4) == direction
    &&& field(bytes, 24, 8) == transfer_id
    &&& field(bytes, 32, 8) == payload_start(descriptor_capacity)
}

/// Why a mapping is not the expected arena, if it is not.
pub open spec fn open_defect(
    words: Words,
    bytes: Seq<u8>,
    slots: int,
    slot_len: int,
    descriptor_capacity: int,
    transfer_id: u64,
    direction: u32,
) -> Option<Fault> {
    if words.magic != ARENA_MAGIC {
        Some(Fault::ArenaUninitialized)
    } else if bytes.len() >= HEADER_LEN && field(bytes, 32, 8) > usize::MAX {
        Some(Fault::ValueTooLarge)
    } else if layout_defect(slots, slot_len, descriptor_capacity) is Some {
        layout_defect(slots, slot_len, descriptor_capacity)
    } else if !header_matches(bytes, slots, slot_len, descriptor_capacity, transfer_id, direction)
        || bytes.len() != arena_len(slots, slot_len, descriptor_capacity) {
        Some(Fault::ArenaContract)
    } else if words.data_ready.magic != EVENT_MAGIC || words.space_ready.magic != EVENT_MAGIC {
        Some(Fault::EventUninitialized)
    } else {
        None
    }
}

impl Arena {
    /// Whether the dimensions are those of an arena.
    pub open spec fn wf(&self) -> bool {
        &&& layout_defect(
            self.slots as int,
            self.slot_len as int,
            self.descriptor_capacity as int,
        ) is None
        &&& self.payload_offset == payload_start(self.descriptor_capacity as int)
    }

    /// The bytes of the arena.
    pub open spec fn extent(&self) -> int {
        arena_len(self.slots as int, self.slot_len as int, self.descriptor_capacity as int)
    }

    /// Where descriptor `sequence` lies.
    pub open spec fn descriptor_at(&self, sequence: int) -> int {
        HEADER_LEN + (sequence % (self.descriptor_capacity as int)) * FRAME_LEN
    }

    /// Descriptor `sequence`.
    pub open spec fn descriptor(&self, bytes: Seq<u8>, sequence: int) -> Seq<u8> {
        bytes.subrange(self.descriptor_at(sequence), self.descriptor_at(sequence) + FRAME_LEN)
    }

    /// Whether the cursors are those of a ring that nobody has tampered with.
    pub open spec fn ordered(&self, words: Words) -> bool {
        words.head <= words.tail <= words.head + self.descriptor_capacity
    }

    /// The descriptors that are written and not read, in order.
    pub open spec fn queue(&self, words: Words, bytes: Seq<u8>) -> Seq<Seq<u8>> {
        Seq::new(
            (words.tail - words.head) as nat,
            |k: int| self.descriptor(bytes, words.head + k),
        )
    }

    /// Where a slot starts.
    pub open spec fn slot_at(&self, slot: int) -> int {
        self.payload_offset + slot * self.slot_len
    }

    /// The first `len` bytes of a slot.
    pub open spec fn slot_bytes(&self, bytes: Seq<u8>, slot: int, len: int) -> Seq<u8> {
        bytes.subrange(self.slot_at(slot), self.slot_at(slot) + len)
    }

    /// Whether a slot has the given number of bytes.
    pub open spec fn slot_fits(&self, slot: int, len: int) -> bool {
        slot < self.slots && 0 < len <= self.slot_len
    }

    /// A descriptor lies between the header and the payload.
    pub proof fn lemma_descriptor_bounds(&self, sequence: int)
        requires
            self.wf(),
        ensures
            0 <= sequence % (self.descriptor_capacity as int) < self.descriptor_capacity,
            HEADER_LEN <= self.descriptor_at(sequence),
            self.descriptor_at(sequence) + FRAME_LEN <= self.payload_offset,
            self.payload_offset <= self.extent(),
    {
        let c = self.descriptor_capacity as int;
        lemma_mod_bound(sequence, c);
        let m = sequence % c;
        assert(m * 48 + 48 <= c * 48) by (nonlinear_arith)
            requires
                0 <= m < c,
        ;
        lemma_mod_bound(HEADER_LEN + c * FRAME_LEN + 63, 64);
        assert(self.slots * self.slot_len >= 0) by (nonlinear_arith);
    }

    /// Two descriptors of one window do not overlap.
    pub proof fn lemma_descriptors_apart(&self, a: int, b: int)
        requires
            self.wf(),
            a < b < a + self.descriptor_capacity,
        ensures
            self.descriptor_at(a) + FRAME_LEN <= self.descriptor_at(b) || self.descriptor_at(b)
                + FRAME_LEN <= self.descriptor_at(a),
    {
        let c = self.descriptor_capacity as int;
        lemma_mod_bound(a, c);
        lemma_mod_bound(b, c);
        lemma_fundamental_div_mod(a, c);
        lemma_fundamental_div_mod(b, c);
        let x = a % c;
        let y = b % c;
        if x == y {
            let p = a / c;
            let q = b / c;
            assert(false) by (nonlinear_arith)
                requires
                    a == c * p + x,
                    b == c * q + x,
                    a < b < a + c,
                    c > 0,
            ;
        }
        assert(x < y ==> x * 48 + 48 <= y * 48) by (nonlinear_arith);
        assert(y < x ==> y * 48 + 48 <= x * 48) by (nonlinear_arith);
    }

    /// A slot lies behind the payload offset and in the arena.
    pub proof fn lemma_slot_bounds(&self, slot: int)
        requires
            self.wf(),
            0 <= slot < self.slots,
        ensures
            self.payload_offset <= self.slot_at(slot),
            self.slot_at(slot) + self.slot_len <= self.extent(),
            slot * self.slot_len <= usize::MAX,
    {
        let s = self.slot_len as int;
        let n = self.slots as int;
        assert(0 <= slot * s && slot * s + s <= n * s) by (nonlinear_arith)
            requires
                0 <= slot < n,
                0 <= s,
        ;
    }

    /// Two slots do not overlap.
    pub proof fn lemma_slots_apart(&self, a: int, b: int)
        requires
            0 <= a < b,
        ensures
            self.slot_at(a) + self.slot_len <= self.slot_at(b),
    {
        let s = self.slot_len as int;
        assert(a * s + s <= b * s) by (nonlinear_arith)
            requires
                a < b,
                s >= 0,
        ;
    }

    /// Lay out a new arena in a mapping. The mapping has [`arena_layout`]'s length.
    pub fn create(
        slots: usize,
        slot_len: usize,
        descriptor_capacity: usize,
        transfer_id: u64,
        direction: u32,
        words: &mut Words,
        bytes: &mut [u8],
    ) -> (result: Result<Arena, Fault>)
        requires
            slots <= u32::MAX,
            slot_len <= u32::MAX,
            layout_defect(slots as int, slot_len as int, descriptor_capacity as int) is None
                ==> old(bytes)@.len() == arena_len(
                slots as int,
                slot_len as int,
                descriptor_capacity as int,
            ),
        ensures
            result is Ok <==> layout_defect(
                slots as int,
                slot_len as int,
                descriptor_capacity as int,
            ) is None,
            result matches Err(fault) ==> layout_defect(
                slots as int,
                slot_len as int,
                descriptor_capacity as int,
            ) == Some(fault) && *final(words) == *old(words) && final(bytes)@ == old(bytes)@,
            result matches Ok(arena) ==> {
                &&& arena.wf()
                &&& arena.slots == slots
                &&& arena.slot_len == slot_len
                &&& arena.descriptor_capacity == descriptor_capacity
                &&& final(bytes)@.len() == arena.extent()
                &&& *final(words) == Words::fresh()
                &&& header_matches(
                    final(bytes)@,
                    slots as int,
                    slot_len as int,
                    descriptor_capacity as int,
                    transfer_id,
                    direction,
                )
                &&& open_defect(
                    *final(words),
                    final(bytes)@,
                    slots as int,
                    slot_len as int,
                    descriptor_capacity as int,
                    transfer_id,
                    direction,
                ) is None
                &&& forall|i: int|
                    0 <= i < 4 || 40 <= i < final(bytes)@.len() ==> #[trigger] final(bytes)@[i]
                        == old(bytes)@[i]
            },
    {
        let (len, payload_offset) = match arena_layout(slots, slot_len, descriptor_capacity) {
            Ok(layout) => layout,
            Err(fault) => {
                return Err(fault);
            },
        };
        let arena = Arena { descriptor_capacity, slots, slot_len, payload_offset };
        let mut header: Vec<u8> = Vec::new();
        put(&mut header, VERSION as u64, 2);
        put(&mut header, FRAME_LEN as u64, 2);
        put(&mut header, descriptor_capacity as u64, 4);
        put(&mut header, slots as u64, 4);
        put(&mut header, slot_len as u64, 4);
        put(&mut header, direction as u64, 4);
        put(&mut header, transfer_id, 8);
        put(&mut header, payload_offset as u64, 8);
        proof {
            lemma_le_limits();
            lemma_value_of_le(VERSION as nat, 2);
            lemma_value_of_le(FRAME_LEN as nat, 2);
            lemma_value_of_le(descriptor_capacity as nat, 4);
            lemma_value_of_le(slots as nat, 4);
            lemma_value_of_le(slot_len as nat, 4);
            lemma_value_of_le(direction as nat, 4);
            lemma_value_of_le(transfer_id as nat, 8);
            lemma_value_of_le(payload_offset as nat, 8);
            arena.lemma_descriptor_bounds(0);
            assert(header@.len() == 36);
        }
        words.magic = 0;
        splice(bytes, 4, header.as_slice());
        words.claims = 0;
        words.head = 0;
        words.tail = 0;
        let _data_ready = ProcessEvent::create(&mut words.data_ready);
        let _space_ready = ProcessEvent::create(&mut words.space_ready);
        words.magic = ARENA_MAGIC;
        proof {
            let b = bytes@;
            assert(b.subrange(4, 6) =~= le_bytes(VERSION as nat, 2));
            assert(b.subrange(6, 8) =~= le_bytes(FRAME_LEN as nat, 2));
            assert(b.subrange(8, 12) =~= le_bytes(descriptor_capacity as nat, 4));
            assert(b.subrange(12, 16) =~= le_bytes(slots as nat, 4));
            assert(b.subrange(16, 20) =~= le_bytes(slot_len as nat, 4));
            assert(b.subrange(20, 24) =~= le_bytes(direction as nat, 4));
            assert(b.subrange(24, 32) =~= le_bytes(transfer_id as nat, 8));
            assert(b.subrange(32, 40) =~= le_bytes(payload_offset as nat, 8));
        }
        Ok(arena)
    }

    /// Recognise an arena that another process has laid out.
    pub fn open(
        slots: usize,
        slot_len: usize,
        expected_descriptor_capacity: usize,
        transfer_id: u64,
        direction: u32,
        words: &Words,
        bytes: &[u8],
    ) -> (result: Result<Arena, Fault>)
        ensures
            result is Ok <==> open_defect(
                *words,
                bytes@,
                slots as int,
                slot_len as int,
                expected_descriptor_capacity as int,
                transfer_id,
                direction,
            ) is None,
            result matches Err(fault) ==> open_defect(
                *words,
                bytes@,
                slots as int,
                slot_len as int,
                expected_descriptor_capacity as int,
                transfer_id,
                direction,
            ) == Some(fault),
            result matches Ok(arena) ==> {
                &&& arena.wf()
                &&& arena.slots == slots
                &&& arena.slot_len == slot_len
                &&& arena.descriptor_capacity == expected_descriptor_capacity
                &&& bytes@.len() == arena.extent()
            },
    {
        if words.magic != ARENA_MAGIC {
            return Err(Fault::ArenaUninitialized);
        }
        let mapped: usize = bytes.len();
        if mapped >= HEADER_LEN && get(bytes, 32, 8) > usize::MAX as u64 {
            return Err(Fault::ValueTooLarge);
        }
        let (len, payload_offset) = match arena_layout(
            slots,
            slot_len,
            expected_descriptor_capacity,
        ) {
            Ok(layout) => layout,
            Err(fault) => {
                return Err(fault);
            },
        };
        if mapped < HEADER_LEN || get(bytes, 4, 2) != VERSION as u64 || get(bytes, 6, 2)
            != FRAME_LEN as u64 || get(bytes, 8, 4) != expected_descriptor_capacity as u64 || get(
            bytes,
            12,
            4,
        ) != slots as u64 || get(bytes, 16, 4) != slot_len as u64 || get(bytes, 20, 4)
            != direction as u64 || get(bytes, 24, 8) != transfer_id || get(bytes, 32, 8)
            != payload_offset as u64 || mapped != len {
            return Err(Fault::ArenaContract);
        }
        match ProcessEvent::open(&words.data_ready) {
            Ok(_) => {},
            Err(fault) => {
                return Err(fault);
            },
        }
        match ProcessEvent::open(&words.space_ready) {
            Ok(_) => {},
            Err(fault) => {
                return Err(fault);
            },
        }
        Ok(
            Arena {
                descriptor_capacity: expected_descriptor_capacity,
                slots,
                slot_len,
                payload_offset,
            },
        )
    }

    /// Write a frame into the next free descriptor, if there is one.
    pub fn push(&self, words: &mut Words, bytes: &mut [u8], frame: Frame) -> (step: PushStep)
        requires
            self.wf(),
            old(bytes)@.len() == self.extent(),
            old(words).tail < u64::MAX,
        ensures
            final(bytes)@.len() == old(bytes)@.len(),
            step == PushStep::Full <==> old(words).used() >= self.descriptor_capacity,
            step == PushStep::Full ==> *final(words) == *old(words) && final(bytes)@ == old(bytes)@,
            step matches PushStep::Pushed { wake } ==> {
                &&& wake == (old(words).data_ready.waiters != 0)
                &&& *final(words) == old(words).pushed()
                &&& final(bytes)@ == spliced(
                    old(bytes)@,
                    self.descriptor_at(old(words).tail as int),
                    frame.bytes(),
                )
            },
    {
        let used: u64 = words.tail.wrapping_sub(words.head);
        if used >= self.descriptor_capacity as u64 {
            return PushStep::Full;
        }
        let encoded: Vec<u8> = frame.encode();
        let at: usize = self.descriptor_offset(words.tail);
        proof {
            self.lemma_descriptor_bounds(words.tail as int);
        }
        splice(bytes, at, encoded.as_slice());
        let published: u64 = words.tail + 1;
        words.tail = published;
        let event = ProcessEvent { phase: WaitPhase::Idle };
        let wake: bool = event.notify(&mut words.data_ready, published);
        PushStep::Pushed { wake }
    }

    /// Read the oldest descriptor, if there is one.
    pub fn pop(&self, words: &mut Words, bytes: &[u8]) -> (step: PopStep)
        requires
            self.wf(),
            bytes@.len() == self.extent(),
            old(words).head < u64::MAX,
        ensures
            step == PopStep::Empty <==> old(words).head == old(words).tail,
            step == PopStep::Empty ==> *final(words) == *old(words),
            step matches PopStep::Popped { frame, wake } ==> {
                &&& wake == (old(words).space_ready.waiters != 0)
                &&& *final(words) == old(words).popped()
                &&& frame == Frame::parsed(self.descriptor(bytes@, old(words).head as int))
            },
    {
        if words.tail == words.head {
            return PopStep::Empty;
        }
        let at: usize = self.descriptor_offset(words.head);
        proof {
            self.lemma_descriptor_bounds(words.head as int);
        }
        let encoded: &[u8] = slice_subrange(bytes, at, at + FRAME_LEN);
        let published: u64 = words.head + 1;
        words.head = published;
        let event = ProcessEvent { phase: WaitPhase::Idle };
        let wake: bool = event.notify(&mut words.space_ready, published);
        PopStep::Popped { frame: Frame::decode(encoded), wake }
    }

    /// Where a descriptor lies.
    fn descriptor_offset(&self, sequence: u64) -> (at: usize)
        requires
            self.wf(),
        ensures
            at == self.descriptor_at(sequence as int),
    {
        proof {
            self.lemma_descriptor_bounds(sequence as int);
        }
        let index: usize = (sequence % (self.descriptor_capacity as u64)) as usize;
        HEADER_LEN + index * FRAME_LEN
    }

    /// Whether a slot has the given number of bytes.
    pub fn check_slot(&self, slot: usize, len: usize) -> (result: Result<(), Fault>)
        ensures
            result is Ok <==> self.slot_fits(slot as int, len as int),
            result matches Err(fault) ==> fault == Fault::SlotBounds,
    {
        if slot >= self.slots || len == 0 || len > self.slot_len {
            Err(Fault::SlotBounds)
        } else {
            Ok(())
        }
    }

    /// Where a slot starts, if it has the given number of bytes.
    pub fn slot_offset(&self, slot: usize, len: usize) -> (result: Result<usize, Fault>)
        requires
            self.wf(),
        ensures
            result is Ok <==> self.slot_fits(slot as int, len as int),
            result matches Ok(at) ==> at == self.slot_at(slot as int) && at + len
                <= self.extent(),
            result matches Err(fault) ==> fault == Fault::SlotBounds,
    {
        match self.check_slot(slot, len) {
            Ok(()) => {
                proof {
                    self.lemma_slot_bounds(slot as int);
                }
                Ok(self.payload_offset + slot * self.slot_len)
            },
            Err(fault) => Err(fault),
        }
    }

    /// Write a payload into a slot.
    pub fn write_slot(&self, bytes: &mut [u8], slot: usize, payload: &[u8]) -> (result: Result<
        (),
        Fault,
    >)
        requires
            self.wf(),
            old(bytes)@.len() == self.extent(),
        ensures
            final(bytes)@.len() == old(bytes)@.len(),
            result is Ok <==> self.slot_fits(slot as int, payload@.len() as int),
            result is Ok ==> final(bytes)@ == spliced(
                old(bytes)@,
                self.slot_at(slot as int),
                payload@,
            ),
            result matches Err(fault) ==> fault == Fault::SlotBounds && final(bytes)@ == old(bytes)@,
    {
        match self.slot_offset(slot, payload.len()) {
            Ok(at) => {
                splice(bytes, at, payload);
                Ok(())
            },
            Err(fault) => Err(fault),
        }
    }

    /// The first `len` bytes of a slot.
    pub fn slot<'a>(&self, bytes: &'a [u8], slot: usize, len: usize) -> (result: Result<
        &'a [u8],
        Fault,
    >)
        requires
            self.wf(),
            bytes@.len() == self.extent(),
        ensures
            result is Ok <==> self.slot_fits(slot as int, len as int),
            result matches Ok(payload) ==> payload@ == self.slot_bytes(
                bytes@,
                slot as int,
                len as int,
            ),
            result matches Err(fault) ==> fault == Fault::SlotBounds,
    {
        match self.slot_offset(slot, len) {
            Ok(at) => Ok(slice_subrange(bytes, at, at + len)),
            Err(fault) => Err(fault),
        }
    }

    /// Claim a role in this arena.
    pub fn claim_role(&self, words: &mut Words, role: DirectionRole) -> (result: Result<(), Fault>)
        ensures
            result is Ok <==> claim_defect(old(words).claims, role) is None,
            result matches Err(fault) ==> claim_defect(old(words).claims, role) == Some(fault)
                && *final(words) == *old(words),
            result is Ok ==> *final(words) == (Words {
                claims: old(words).claims | role.bit(),
                ..*old(words)
            }),
    {
        claim_direction_role(&mut words.claims, role)
    }
}

/// The descriptor ring is first in, first out: a push appends one descriptor, a pop takes
/// the oldest one, and neither touches a payload slot.
pub proof fn law_descriptor_ring_is_fifo(arena: Arena, words: Words, bytes: Seq<u8>, frame: Frame)
    requires
        arena.wf(),
        arena.ordered(words),
        bytes.len() == arena.extent(),
        words.tail < u64::MAX,
    ensures
        ({
            let after = spliced(bytes, arena.descriptor_at(words.tail as int), frame.bytes());
            words.used() < arena.descriptor_capacity ==> {
                &&& arena.ordered(words.pushed())
                &&& arena.queue(words.pushed(), after) == arena.queue(words, bytes).push(
                    frame.bytes(),
                )
                &&& forall|slot: int, len: int|
                    0 <= slot < arena.slots && 0 <= len <= arena.slot_len
                        ==> #[trigger] arena.slot_bytes(after, slot, len) == arena.slot_bytes(
                        bytes,
                        slot,
                        len,
                    )
            }
        }),
        words.head != words.tail ==> {
            &&& arena.ordered(words.popped())
            &&& arena.queue(words, bytes)[0] == arena.descriptor(bytes, words.head as int)
            &&& arena.queue(words.popped(), bytes) == arena.queue(words, bytes).drop_first()
        },
{
    let at = arena.descriptor_at(words.tail as int);
    let after = spliced(bytes, at, frame.bytes());
    lemma_frame_len(frame);
    arena.lemma_descriptor_bounds(words.tail as int);
    if words.used() < arena.descriptor_capacity {
        assert(words.used() == words.tail - words.head);
        let old_queue = arena.queue(words, bytes);
        let new_queue = arena.queue(words.pushed(), after);
        assert forall|k: int| 0 <= k < new_queue.len() implies new_queue[k] == old_queue.push(
            frame.bytes(),
        )[k] by {
            arena.lemma_descriptor_bounds(words.head + k);
            if k == old_queue.len() {
                assert(arena.descriptor(after, words.tail as int) =~= frame.bytes());
            } else {
                arena.lemma_descriptors_apart(words.head + k, words.tail as int);
                assert(arena.descriptor(after, words.head + k) =~= arena.descriptor(
                    bytes,
                    words.head + k,
                ));
            }
        }
        assert(new_queue =~= old_queue.push(frame.bytes()));
        assert forall|slot: int, len: int|
            0 <= slot < arena.slots && 0 <= len <= arena.slot_len implies #[trigger] arena.slot_bytes(
            after,
            slot,
            len,
        ) == arena.slot_bytes(bytes, slot, len) by {
            arena.lemma_slot_bounds(slot);
            assert(arena.slot_bytes(after, slot, len) =~= arena.slot_bytes(bytes, slot, len));
        }
    }
    if words.head != words.tail {
        assert(arena.queue(words.popped(), bytes) =~= arena.queue(words, bytes).drop_first());
    }
}

/// Writing a slot changes that slot alone: no descriptor, no other slot.
pub proof fn law_slots_are_separate(arena: Arena, bytes: Seq<u8>, slot: int, payload: Seq<u8>)
    requires
        arena.wf(),
        bytes.len() == arena.extent(),
        0 <= slot,
        arena.slot_fits(slot, payload.len() as int),
    ensures
        ({
            let after = spliced(bytes, arena.slot_at(slot), payload);
            &&& arena.slot_bytes(after, slot, payload.len() as int) == payload
            &&& forall|words: Words| #[trigger] arena.queue(words, after) == arena.queue(words, bytes)
            &&& forall|other: int, len: int|
                0 <= other < arena.slots && other != slot && 0 <= len <= arena.slot_len
                    ==> #[trigger] arena.slot_bytes(after, other, len) == arena.slot_bytes(
                    bytes,
                    other,
                    len,
                )
        }),
{
    let after = spliced(bytes, arena.slot_at(slot), payload);
    arena.lemma_slot_bounds(slot);
    assert(arena.slot_bytes(after, slot, payload.len() as int) =~= payload);
    assert forall|words: Words| #[trigger]
        arena.queue(words, after) == arena.queue(words, bytes) by {
        let a = arena.queue(words, after);
        let b = arena.queue(words, bytes);
        assert forall|k: int| 0 <= k < a.len() implies a[k] == b[k] by {
            arena.lemma_descriptor_bounds(words.head + k);
            assert(arena.descriptor(after, words.head + k) =~= arena.descriptor(
                bytes,
                words.head + k,
            ));
        }
        assert(a =~= b);
    }
    assert forall|other: int, len: int|
        0 <= other < arena.slots && other != slot && 0 <= len <= arena.slot_len implies #[trigger] arena.slot_bytes(
        after,
        other,
        len,
    ) == arena.slot_bytes(bytes, other, len) by {
        arena.lemma_slot_bounds(other);
        if other < slot {
            arena.lemma_slots_apart(other, slot);
        } else {
            arena.lemma_slots_apart(slot, other);
        }
        assert(arena.slot_bytes(after, other, len) =~= arena.slot_bytes(bytes, other, len));
    }
}


/// Both roles of a new arena can be claimed, each by one endpoint, in either order.
pub proof fn law_new_arenas_have_both_roles(role: DirectionRole, other: DirectionRole)
    requires
        role != other,
    ensures
        claim_defect(Words::fresh().claims, role) is None,
        claim_defect(Words::fresh().claims | role.bit(), other) is None,
        claim_defect(Words::fresh().claims | role.bit(), role) == Some(Fault::RoleClaimed),
        Words::fresh().head == 0,
        Words::fresh().tail == 0,
        Words::fresh().used() == 0,
{
    let a = role.bit();
    let b = other.bit();
    assert((a == 1 && b == 2) || (a == 2 && b == 1) ==> (0u32 & a) == 0 && (0u32 | a) <= 3 && ((0u32
        | a) & b) == 0 && ((0u32 | a) & a) != 0) by (bit_vector);
}

/// A mapping is taken for one arena only: whoever opens it with other dimensions, for another
/// transfer or in another direction is refused.
pub proof fn law_arenas_are_opened_as_they_were_made(
    words: Words,
    bytes: Seq<u8>,
    slots: int,
    slot_len: int,
    capacity: int,
    transfer_id: u64,
    direction: u32,
    other_slots: int,
    other_slot_len: int,
    other_capacity: int,
    other_transfer_id: u64,
    other_direction: u32,
)
    requires
        open_defect(words, bytes, slots, slot_len, capacity, transfer_id, direction) is None,
        open_defect(
            words,
            bytes,
            other_slots,
            other_slot_len,
            other_capacity,
            other_transfer_id,
            other_direction,
        ) is None,
    ensures
        slots == other_slots,
        slot_len == other_slot_len,
        capacity == other_capacity,
        transfer_id == other_transfer_id,
        direction == other_direction,
        bytes.len() == arena_len(slots, slot_len, capacity),
        words.magic == 0x5053_4152,
{
}

/// Descriptors that are written and not read are counted, and a ring takes another one exactly
/// while there are fewer of them than it has places.
pub proof fn law_descriptors_are_counted(arena: Arena, words: Words, bytes: Seq<u8>)
    requires
        arena.ordered(words),
    ensures
        words.used() == arena.queue(words, bytes).len(),
        words.used() == words.tail - words.head,
        0 <= words.used() <= arena.descriptor_capacity,
{
    vstd::arithmetic::div_mod::lemma_small_mod(
        (words.tail - words.head) as nat,
        0x1_0000_0000_0000_0000,
    );
}


/// A slot takes every payload from one byte up to its length, and nothing else; what it takes
/// lies behind the descriptors and within the arena.
pub proof fn law_slots_take_up_to_their_length(arena: Arena, slot: int, len: int)
    requires
        arena.wf(),
        0 <= slot,
    ensures
        arena.slot_fits(slot, len) <==> slot < arena.slots && 1 <= len <= arena.slot_len,
        arena.slot_fits(slot, len) ==> payload_start(arena.descriptor_capacity as int)
            <= arena.slot_at(slot) && arena.slot_at(slot) + len <= arena.extent(),
{
    if arena.slot_fits(slot, len) {
        assert(0 <= slot * arena.slot_len && slot * arena.slot_len + arena.slot_len <= arena.slots
            * arena.slot_len) by (nonlinear_arith)
            requires
                0 <= slot,
                slot + 1 <= arena.slots,
                0 <= arena.slot_len,
        ;
    }
}

/// Whoever waits is told: a push moves the tail on by one, publishes it where the consumer waits
/// for data and takes its registration, and a pop does the same with the head where the producer
/// waits for space. Neither touches the other's words.
pub proof fn law_pushes_and_pops_are_told(words: Words)
    requires
        words.tail < u64::MAX,
        words.head < u64::MAX,
    ensures
        words.pushed().tail == words.tail + 1,
        words.pushed().head == words.head,
        words.pushed().data_ready.sequence == (words.tail + 1) % 0x1_0000_0000,
        words.pushed().data_ready.sequence != words.tail as int % 0x1_0000_0000,
        words.pushed().data_ready.waiters == 0,
        words.pushed().space_ready == words.space_ready,
        words.popped().head == words.head + 1,
        words.popped().tail == words.tail,
        words.popped().space_ready.sequence == (words.head + 1) % 0x1_0000_0000,
        words.popped().space_ready.sequence != words.head as int % 0x1_0000_0000,
        words.popped().space_ready.waiters == 0,
        words.popped().data_ready == words.data_ready,
        words.pushed().claims == words.claims,
        words.popped().claims == words.claims,
{
}

/// An arena can be opened at any time: how far its cursors have come, who has claimed it and who
/// waits does not matter, nor what lies behind its header.
pub proof fn law_arenas_can_be_opened_at_any_time(
    words: Words,
    later: Words,
    bytes: Seq<u8>,
    then: Seq<u8>,
    slots: int,
    slot_len: int,
    capacity: int,
    transfer_id: u64,
    direction: u32,
)
    requires
        open_defect(words, bytes, slots, slot_len, capacity, transfer_id, direction) is None,
        later.magic == words.magic,
        later.data_ready.magic == words.data_ready.magic,
        later.space_ready.magic == words.space_ready.magic,
        then.len() == bytes.len(),
        forall|i: int| 0 <= i < 40 ==> #[trigger] then[i] == bytes[i],
    ensures
        open_defect(later, then, slots, slot_len, capacity, transfer_id, direction) is None,
{
    assert forall|at: int, len: int| 0 <= at && 0 <= len && at + len <= 40 implies field(
        then,
        at,
        len,
    ) == #[trigger] field(bytes, at, len) by {
        assert(then.subrange(at, at + len) =~= bytes.subrange(at, at + len));
    }
    assert(field(then, 4, 2) == field(bytes, 4, 2));
    assert(field(then, 6, 2) == field(bytes, 6, 2));
    assert(field(then, 8, 4) == field(bytes, 8, 4));
    assert(field(then, 12, 4) == field(bytes, 12, 4));
    assert(field(then, 16, 4) == field(bytes, 16, 4));
    assert(field(then, 20, 4) == field(bytes, 20, 4));
    assert(field(then, 24, 8) == field(bytes, 24, 8));
    assert(field(then, 32, 8) == field(bytes, 32, 8));
}

/// Claims that no role has made are refused, and a role is free wherever nobody has claimed it.
pub proof fn law_roles_are_free_until_claimed(role: DirectionRole, other: DirectionRole)
    requires
        role != other,
    ensures
        claim_defect(0, role) is None,
        claim_defect(other.bit(), role) is None,
        claim_defect(role.bit(), role) == Some(Fault::RoleClaimed),
        claim_defect(3, role) == Some(Fault::RoleClaimed),
        forall|claims: u32| claims >= 4 ==> #[trigger] claim_defect(claims, role) == Some(
            Fault::RoleClaims,
        ),
{
    assert(0u32 & 1u32 == 0 && 0u32 & 2u32 == 0 && 1u32 & 1u32 == 1 && 2u32 & 2u32 == 2 && 1u32
        & 2u32 == 0 && 2u32 & 1u32 == 0 && 3u32 & 1u32 == 1 && 3u32 & 2u32 == 2) by (bit_vector);
}

} // verus!
