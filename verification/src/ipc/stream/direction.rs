//! One direction of a process channel.
use crate::cursor::largest_power_of_two;
use crate::ipc::region::RegionHandle;
use crate::ipc::Fault;
use super::arena::{
    claim_defect, law_roles_are_claimed_once, open_defect, Arena, DirectionRole, Words,
    RELEASE_ARENA_FLAG,
};
use super::frame::{flags_of, frame_flags};
use super::layout::{arena_layout, arena_len, descriptor_capacity, descriptors_for};
use super::loopback::direction_defect;
use super::shape::{StreamFlow, StreamShape};
use super::transfer::{lemma_exact_total, Consume, Ending, Produce};
use super::validate::carries;
use vstd::prelude::*;

verus! {

/// The nanoseconds that an endpoint waits for its peer by default.
pub const DEFAULT_TIMEOUT_NANOS: u128 = 30_000_000_000;

/// Per-process transport policy. It is not serialized into an untrusted descriptor; each
/// endpoint applies its own lock and timeout requirements.
#[derive(Clone, Copy, Debug, PartialEq, Eq, Structural)]
pub struct EndpointOptions {
    /// Whether the mappings have to stay resident.
    pub lock_memory: bool,
    /// How long to wait for the peer, in nanoseconds.
    pub timeout_nanos: u128,
}

impl Default for EndpointOptions {
    fn default() -> (options: EndpointOptions)
        ensures
            !options.lock_memory,
            options.timeout_nanos == DEFAULT_TIMEOUT_NANOS,
            options.timeout_nanos == 30_000_000_000,
    {
        EndpointOptions { lock_memory: false, timeout_nanos: DEFAULT_TIMEOUT_NANOS }
    }
}

impl EndpointOptions {
    /// Whether the policy can be applied.
    pub fn validate(self) -> (result: Result<(), Fault>)
        ensures
            result is Ok <==> self.timeout_nanos != 0,
            result matches Err(fault) ==> fault == Fault::TimeoutZero,
    {
        if self.timeout_nanos == 0 {
            Err(Fault::TimeoutZero)
        } else {
            Ok(())
        }
    }
}

/// Configuration used by the process that creates a direction.
#[derive(Clone, Copy, Debug, PartialEq, Eq, Structural)]
pub struct DirectionConfig {
    /// The dimensions of the stream.
    pub shape: StreamShape,
    /// The transfer that the frames belong to.
    pub transfer_id: u64,
    /// Who sends.
    pub flow: StreamFlow,
    /// The policy of this endpoint.
    pub options: EndpointOptions,
}

impl DirectionConfig {
    /// What is wrong with the configuration, if anything is.
    pub open spec fn defect(&self) -> Option<Fault> {
        if self.shape.defect() is Some {
            self.shape.defect()
        } else if self.transfer_id == 0 {
            Some(Fault::TransferIdZero)
        } else if self.options.timeout_nanos == 0 {
            Some(Fault::TimeoutZero)
        } else {
            direction_defect(self.shape)
        }
    }

    /// Whether the configuration makes sense.
    pub fn validate(self) -> (result: Result<(), Fault>)
        ensures
            result is Ok <==> self.shape.valid() && self.transfer_id != 0
                && self.options.timeout_nanos != 0,
            result matches Err(fault) ==> self.defect() == Some(fault),
    {
        match self.shape.validate() {
            Ok(()) => {},
            Err(fault) => {
                return Err(fault);
            },
        }
        if self.transfer_id == 0 {
            return Err(Fault::TransferIdZero);
        }
        self.options.validate()
    }
}

/// Serializable capability locators for one direction. These names identify private
/// regions; they do not replace an authenticated supervisor handshake.
#[derive(Debug)]
pub struct DirectionHandle {
    data: RegionHandle,
    releases: RegionHandle,
    shape: StreamShape,
    transfer_id: u64,
    flow: StreamFlow,
}

/// What is wrong with the numbers of a handle, if anything is.
pub open spec fn parts_defect(shape: StreamShape, transfer_id: u64) -> Option<Fault> {
    if shape.defect() is Some {
        shape.defect()
    } else if transfer_id == 0 {
        Some(Fault::TransferIdZero)
    } else {
        None
    }
}

impl DirectionHandle {
    /// The region of the payload.
    pub closed spec fn data(&self) -> RegionHandle {
        self.data
    }

    /// The region of the releases.
    pub closed spec fn releases(&self) -> RegionHandle {
        self.releases
    }

    /// The dimensions of the stream.
    pub closed spec fn dimensions(&self) -> StreamShape {
        self.shape
    }

    /// The transfer that the frames belong to.
    pub closed spec fn id(&self) -> u64 {
        self.transfer_id
    }

    /// Who sends.
    pub closed spec fn course(&self) -> StreamFlow {
        self.flow
    }

    /// Whether a direction can have this handle.
    pub open spec fn wf(&self) -> bool {
        &&& self.data().wf()
        &&& self.releases().wf()
        &&& parts_defect(self.dimensions(), self.id()) is None
    }

    /// Whether two handles say the same.
    pub open spec fn same(&self, other: DirectionHandle) -> bool {
        &&& self.data().same(other.data())
        &&& self.releases().same(other.releases())
        &&& self.dimensions() == other.dimensions()
        &&& self.id() == other.id()
        &&& self.course() == other.course()
    }

    /// Reconstruct a handle decoded from an authenticated private control frame.
    pub fn from_parts(
        data: RegionHandle,
        releases: RegionHandle,
        shape: StreamShape,
        transfer_id: u64,
        flow: StreamFlow,
    ) -> (result: Result<Self, Fault>)
        ensures
            result is Ok <==> parts_defect(shape, transfer_id) is None,
            result matches Ok(handle) ==> {
                &&& handle.data() == data
                &&& handle.releases() == releases
                &&& handle.dimensions() == shape
                &&& handle.id() == transfer_id
                &&& handle.course() == flow
            },
            result matches Err(fault) ==> parts_defect(shape, transfer_id) == Some(fault),
    {
        match shape.validate() {
            Ok(()) => {},
            Err(fault) => {
                return Err(fault);
            },
        }
        if transfer_id == 0 {
            return Err(Fault::TransferIdZero);
        }
        Ok(DirectionHandle { data, releases, shape, transfer_id, flow })
    }

    /// Return the shared payload-region locator.
    pub fn data_region(&self) -> (region: &RegionHandle)
        ensures
            *region == self.data(),
    {
        &self.data
    }

    /// Return the shared release-descriptor-region locator.
    pub fn release_region(&self) -> (region: &RegionHandle)
        ensures
            *region == self.releases(),
    {
        &self.releases
    }

    /// Return the validated logical and resident stream dimensions.
    pub fn shape(&self) -> (shape: StreamShape)
        ensures
            shape == self.dimensions(),
    {
        self.shape
    }

    /// Return the nonzero identifier authenticating this transfer.
    pub fn transfer_id(&self) -> (id: u64)
        ensures
            id == self.id(),
    {
        self.transfer_id
    }

    /// Return the direction relative to the supervising parent.
    pub fn flow(&self) -> (flow: StreamFlow)
        ensures
            flow == self.course(),
    {
        self.flow
    }
}

/// Result of one completed direction.
#[derive(Clone, Copy, Debug, PartialEq, Eq, Structural)]
pub struct TransferReport {
    /// Total number of payload bytes transferred.
    pub total_bytes: u64,
    /// Number of payload chunks transferred.
    pub chunks: u64,
    /// Deterministic checksum of transferred bytes.
    pub checksum: u64,
    /// Maximum shared payload bytes resident during the transfer.
    pub resident_bytes: usize,
    /// Whether this endpoint successfully locked its shared regions in memory.
    pub memory_locked: bool,
}

/// The number of a flow in the header of an arena.
pub open spec fn data_direction(flow: StreamFlow) -> u32 {
    flow.number() as u32
}

/// The number of a flow in the header of a release arena.
pub open spec fn release_direction(flow: StreamFlow) -> u32 {
    (flow.number() + RELEASE_ARENA_FLAG) as u32
}

/// Why a direction cannot be opened, if it cannot.
pub open spec fn reopen_defect(
    handle: DirectionHandle,
    options: EndpointOptions,
    role: DirectionRole,
    data_words: Words,
    data_bytes: Seq<u8>,
    release_words: Words,
    release_bytes: Seq<u8>,
) -> Option<Fault> {
    let shape = handle.dimensions();
    if options.timeout_nanos == 0 {
        Some(Fault::TimeoutZero)
    } else if shape.defect() is Some {
        shape.defect()
    } else if 2 * shape.slots + 2 > largest_power_of_two() {
        Some(Fault::DescriptorCapacity)
    } else {
        let capacity = descriptors_for(shape.slots as int);
        let data = open_defect(
            data_words,
            data_bytes,
            shape.slots as int,
            shape.chunk_bytes as int,
            capacity,
            handle.id(),
            data_direction(handle.course()),
        );
        let releases = open_defect(
            release_words,
            release_bytes,
            0,
            0,
            capacity,
            handle.id(),
            release_direction(handle.course()),
        );
        if data is Some {
            data
        } else if releases is Some {
            releases
        } else {
            claim_defect(data_words.claims, role)
        }
    }
}

/// One endpoint for a direction.
#[derive(Clone, Copy, Debug, PartialEq, Eq, Structural)]
pub struct Direction {
    data: Arena,
    releases: Arena,
    shape: StreamShape,
    transfer_id: u64,
    flow: StreamFlow,
    options: EndpointOptions,
    memory_locked: bool,
}

impl Direction {
    /// The arena of the chunks.
    pub closed spec fn chunk_arena(&self) -> Arena {
        self.data
    }

    /// The arena of the releases.
    pub closed spec fn release_arena(&self) -> Arena {
        self.releases
    }

    /// The dimensions of the stream.
    pub closed spec fn dimensions(&self) -> StreamShape {
        self.shape
    }

    /// The transfer that the frames belong to.
    pub closed spec fn id(&self) -> u64 {
        self.transfer_id
    }

    /// Who sends.
    pub closed spec fn course(&self) -> StreamFlow {
        self.flow
    }

    /// The policy of this endpoint.
    pub closed spec fn policy(&self) -> EndpointOptions {
        self.options
    }

    /// Whether both mappings stay resident.
    pub closed spec fn locked(&self) -> bool {
        self.memory_locked
    }

    /// Whether the arenas carry the stream.
    pub open spec fn wf(&self) -> bool {
        &&& self.dimensions().valid()
        &&& carries(self.chunk_arena(), self.dimensions())
        &&& self.release_arena().wf()
        &&& self.release_arena().slots == 0
        &&& self.release_arena().slot_len == 0
    }

    /// Return the dimensions of the stream.
    pub fn shape(&self) -> (shape: StreamShape)
        ensures
            shape == self.dimensions(),
    {
        self.shape
    }

    /// The bytes of the two regions that a direction needs.
    pub fn extents(config: DirectionConfig) -> (result: Result<(usize, usize), Fault>)
        ensures
            result is Ok <==> config.defect() is None,
            result matches Ok(lens) ==> {
                let capacity = descriptors_for(config.shape.slots as int);
                &&& lens.0 == arena_len(
                    config.shape.slots as int,
                    config.shape.chunk_bytes as int,
                    capacity,
                )
                &&& lens.1 == arena_len(0, 0, capacity)
            },
            result matches Err(fault) ==> config.defect() == Some(fault),
    {
        match config.validate() {
            Ok(()) => {},
            Err(fault) => {
                return Err(fault);
            },
        }
        let capacity: usize = match descriptor_capacity(config.shape.slots) {
            Ok(capacity) => capacity,
            Err(fault) => {
                return Err(fault);
            },
        };
        let (data_len, _) = match arena_layout(
            config.shape.slots,
            config.shape.chunk_bytes,
            capacity,
        ) {
            Ok(layout) => layout,
            Err(fault) => {
                return Err(fault);
            },
        };
        match arena_layout(0, 0, capacity) {
            Ok((release_len, _)) => Ok((data_len, release_len)),
            Err(fault) => Err(fault),
        }
    }

    /// Lay out both regions, claim a role, and return the handle for the peer. The handle
    /// may be sent only over authenticated setup. The regions have the lengths of
    /// [`Direction::extents`].
    pub fn create(
        config: DirectionConfig,
        role: DirectionRole,
        data_region: RegionHandle,
        data_words: &mut Words,
        data_bytes: &mut [u8],
        release_region: RegionHandle,
        release_words: &mut Words,
        release_bytes: &mut [u8],
    ) -> (result: Result<(Self, DirectionHandle), Fault>)
        requires
            config.defect() is None ==> {
                let capacity = descriptors_for(config.shape.slots as int);
                &&& old(data_bytes)@.len() == arena_len(
                    config.shape.slots as int,
                    config.shape.chunk_bytes as int,
                    capacity,
                )
                &&& old(release_bytes)@.len() == arena_len(0, 0, capacity)
            },
        ensures
            result is Ok <==> config.defect() is None,
            result matches Err(fault) ==> config.defect() == Some(fault),
            result matches Ok(made) ==> {
                &&& made.0.wf()
                &&& made.0.dimensions() == config.shape
                &&& made.0.id() == config.transfer_id
                &&& made.0.course() == config.flow
                &&& made.0.policy() == config.options
                &&& !made.0.locked()
                &&& made.1.data() == data_region
                &&& made.1.releases() == release_region
                &&& made.1.dimensions() == config.shape
                &&& made.1.id() == config.transfer_id
                &&& made.1.course() == config.flow
                &&& final(data_bytes)@.len() == made.0.chunk_arena().extent()
                &&& final(release_bytes)@.len() == made.0.release_arena().extent()
                &&& *final(data_words) == (Words { claims: role.bit(), ..Words::fresh() })
                &&& *final(release_words) == Words::fresh()
                &&& forall|options: EndpointOptions, other: DirectionRole|
                    options.timeout_nanos != 0 ==> #[trigger] reopen_defect(
                        made.1,
                        options,
                        other,
                        *final(data_words),
                        final(data_bytes)@,
                        *final(release_words),
                        final(release_bytes)@,
                    ) == if other == role {
                        Some(Fault::RoleClaimed)
                    } else {
                        None
                    }
            },
    {
        match Direction::extents(config) {
            Ok(_) => {},
            Err(fault) => {
                return Err(fault);
            },
        }
        let capacity: usize = match descriptor_capacity(config.shape.slots) {
            Ok(capacity) => capacity,
            Err(fault) => {
                return Err(fault);
            },
        };
        let arena_direction: u32 = config.flow.code() as u32;
        let data: Arena = match Arena::create(
            config.shape.slots,
            config.shape.chunk_bytes,
            capacity,
            config.transfer_id,
            arena_direction,
            data_words,
            data_bytes,
        ) {
            Ok(arena) => arena,
            Err(fault) => {
                return Err(fault);
            },
        };
        let releases: Arena = match Arena::create(
            0,
            0,
            capacity,
            config.transfer_id,
            arena_direction + RELEASE_ARENA_FLAG,
            release_words,
            release_bytes,
        ) {
            Ok(arena) => arena,
            Err(fault) => {
                return Err(fault);
            },
        };
        proof {
            lemma_first_claim(role);
        }
        match data.claim_role(data_words, role) {
            Ok(()) => {},
            Err(fault) => {
                return Err(fault);
            },
        }
        match DirectionHandle::from_parts(
            data_region,
            release_region,
            config.shape,
            config.transfer_id,
            config.flow,
        ) {
            Ok(handle) => Ok(
                (
                    Direction {
                        data,
                        releases,
                        shape: config.shape,
                        transfer_id: config.transfer_id,
                        flow: config.flow,
                        options: config.options,
                        memory_locked: false,
                    },
                    handle,
                ),
            ),
            Err(fault) => Err(fault),
        }
    }

    /// Recognise a direction that another process has laid out, and claim a role.
    pub fn open(
        handle: &DirectionHandle,
        options: EndpointOptions,
        role: DirectionRole,
        data_words: &mut Words,
        data_bytes: &[u8],
        release_words: &Words,
        release_bytes: &[u8],
    ) -> (result: Result<Self, Fault>)
        ensures
            result is Ok <==> reopen_defect(
                *handle,
                options,
                role,
                *old(data_words),
                data_bytes@,
                *release_words,
                release_bytes@,
            ) is None,
            result matches Err(fault) ==> reopen_defect(
                *handle,
                options,
                role,
                *old(data_words),
                data_bytes@,
                *release_words,
                release_bytes@,
            ) == Some(fault) && *final(data_words) == *old(data_words),
            result matches Ok(direction) ==> {
                &&& direction.wf()
                &&& direction.dimensions() == handle.dimensions()
                &&& direction.id() == handle.id()
                &&& direction.course() == handle.course()
                &&& direction.policy() == options
                &&& !direction.locked()
                &&& data_bytes@.len() == direction.chunk_arena().extent()
                &&& release_bytes@.len() == direction.release_arena().extent()
                &&& *final(data_words) == (Words {
                    claims: old(data_words).claims | role.bit(),
                    ..*old(data_words)
                })
            },
    {
        match options.validate() {
            Ok(()) => {},
            Err(fault) => {
                return Err(fault);
            },
        }
        match handle.shape.validate() {
            Ok(()) => {},
            Err(fault) => {
                return Err(fault);
            },
        }
        let capacity: usize = match descriptor_capacity(handle.shape.slots) {
            Ok(capacity) => capacity,
            Err(fault) => {
                return Err(fault);
            },
        };
        let arena_direction: u32 = handle.flow.code() as u32;
        let data: Arena = match Arena::open(
            handle.shape.slots,
            handle.shape.chunk_bytes,
            capacity,
            handle.transfer_id,
            arena_direction,
            data_words,
            data_bytes,
        ) {
            Ok(arena) => arena,
            Err(fault) => {
                return Err(fault);
            },
        };
        let releases: Arena = match Arena::open(
            0,
            0,
            capacity,
            handle.transfer_id,
            arena_direction + RELEASE_ARENA_FLAG,
            release_words,
            release_bytes,
        ) {
            Ok(arena) => arena,
            Err(fault) => {
                return Err(fault);
            },
        };
        match data.claim_role(data_words, role) {
            Ok(()) => {},
            Err(fault) => {
                return Err(fault);
            },
        }
        Ok(
            Direction {
                data,
                releases,
                shape: handle.shape,
                transfer_id: handle.transfer_id,
                flow: handle.flow,
                options,
                memory_locked: false,
            },
        )
    }
}

/// Every role of a new direction is free, and taking one leaves the other.
proof fn lemma_first_claim(role: DirectionRole)
    ensures
        claim_defect(0, role) is None,
        0u32 | role.bit() == role.bit(),
        forall|other: DirectionRole|
            #[trigger] claim_defect(role.bit(), other) == if other == role {
                Some(Fault::RoleClaimed)
            } else {
                None
            },
{
    assert(0u32 & 1 == 0 && 0u32 & 2 == 0 && 0u32 | 1 == 1 && 0u32 | 2 == 2) by (bit_vector);
    law_roles_are_claimed_once(0, role, DirectionRole::Producer);
    law_roles_are_claimed_once(0, role, DirectionRole::Consumer);
    assert forall|other: DirectionRole| #[trigger] claim_defect(role.bit(), other) == if other
        == role {
        Some(Fault::RoleClaimed)
    } else {
        None
    } by {
        match other {
            DirectionRole::Producer => {},
            DirectionRole::Consumer => {},
        }
    }
}

impl Direction {
    /// Note that the system keeps both mappings resident.
    pub fn lock(&mut self)
        ensures
            final(self).locked(),
            final(self).chunk_arena() == old(self).chunk_arena(),
            final(self).release_arena() == old(self).release_arena(),
            final(self).dimensions() == old(self).dimensions(),
            final(self).id() == old(self).id(),
            final(self).course() == old(self).course(),
            final(self).policy() == old(self).policy(),
    {
        self.memory_locked = true;
    }

    /// Start to stream exactly the declared bytes.
    pub fn produce(&self) -> (side: Produce)
        requires
            self.wf(),
        ensures
            side.wf(),
            side == Produce::started(
                self.dimensions(),
                self.id(),
                flags_of(self.course()),
                Ending::Exact,
            ),
    {
        Produce::start(self.shape, self.transfer_id, frame_flags(self.flow), Ending::Exact)
    }

    /// Start to stream until the source ends, with the declared bytes as a hard ceiling.
    pub fn produce_to_end(&self) -> (side: Produce)
        requires
            self.wf(),
        ensures
            side.wf(),
            side == Produce::started(
                self.dimensions(),
                self.id(),
                flags_of(self.course()),
                Ending::AtEnd,
            ),
    {
        Produce::start(self.shape, self.transfer_id, frame_flags(self.flow), Ending::AtEnd)
    }

    /// Start to take exactly the declared bytes.
    pub fn consume(&self) -> (side: Consume)
        requires
            self.wf(),
        ensures
            side.wf(),
            side == Consume::started(
                self.dimensions(),
                self.id(),
                flags_of(self.course()),
                Ending::Exact,
            ),
    {
        Consume::start(self.shape, self.transfer_id, frame_flags(self.flow), Ending::Exact)
    }

    /// Start to take chunks until the producer announces the end.
    pub fn consume_to_end(&self) -> (side: Consume)
        requires
            self.wf(),
        ensures
            side.wf(),
            side == Consume::started(
                self.dimensions(),
                self.id(),
                flags_of(self.course()),
                Ending::AtEnd,
            ),
    {
        Consume::start(self.shape, self.transfer_id, frame_flags(self.flow), Ending::AtEnd)
    }

    /// The two arenas of this direction.
    pub fn arenas(&self) -> (arenas: (Arena, Arena))
        ensures
            arenas.0 == self.chunk_arena(),
            arenas.1 == self.release_arena(),
    {
        (self.data, self.releases)
    }

    /// How long to wait for the peer, in nanoseconds.
    pub fn timeout_nanos(&self) -> (nanos: u128)
        ensures
            nanos == self.policy().timeout_nanos,
    {
        self.options.timeout_nanos
    }

    /// The report of a transfer.
    pub open spec fn report(&self, total_bytes: u64, chunks: u64, checksum: u64) -> TransferReport {
        TransferReport {
            total_bytes,
            chunks,
            checksum,
            resident_bytes: self.dimensions().resident() as usize,
            memory_locked: self.locked(),
        }
    }

    /// Report a transfer that the producer has completed.
    pub fn produced(&self, side: &Produce) -> (report: TransferReport)
        requires
            self.wf(),
            side.phase is Done,
        ensures
            report == self.report(side.total, side.chunks, side.aggregate),
    {
        TransferReport {
            total_bytes: side.total,
            chunks: side.chunks,
            checksum: side.aggregate,
            resident_bytes: self.shape.resident_bytes(),
            memory_locked: self.memory_locked,
        }
    }

    /// Report a transfer that the consumer has completed.
    pub fn consumed(&self, side: &Consume) -> (report: TransferReport)
        requires
            self.wf(),
            side.phase is Done,
        ensures
            report == self.report(side.total, side.chunks, side.aggregate),
    {
        TransferReport {
            total_bytes: side.total,
            chunks: side.chunks,
            checksum: side.aggregate,
            resident_bytes: self.shape.resident_bytes(),
            memory_locked: self.memory_locked,
        }
    }
}

/// A completed exact transfer reports the declared bytes, in the chunks of its shape.
pub proof fn law_exact_transfers_report_the_shape(direction: Direction, side: Produce)
    requires
        side.wf(),
        side.phase is Done,
        side.ending == Ending::Exact,
    ensures
        ({
            let report = direction.report(side.total, side.chunks, side.aggregate);
            &&& report.total_bytes == side.shape.total_bytes
            &&& report.chunks == side.shape.chunk_count()
        }),
{
    lemma_exact_total(side.shape, side.chunks as int);
}


/// The four arenas of a channel are told apart: no two of them have the same number.
pub proof fn law_arenas_have_numbers_of_their_own(a: StreamFlow, b: StreamFlow)
    ensures
        data_direction(a) == data_direction(b) ==> a == b,
        release_direction(a) == release_direction(b) ==> a == b,
        data_direction(a) != release_direction(b),
{
}

} // verus!
