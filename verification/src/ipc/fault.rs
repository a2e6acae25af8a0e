//! Why a process channel operation failed.
use super::token::{cause, cause_text};
use vstd::prelude::*;
use vstd::string::StringExecFns;

verus! {

/// The class of a [`Fault`].
#[derive(Clone, Copy, PartialEq, Eq, Structural, Debug)]
pub enum FaultKind {
    /// The caller has asked for something impossible.
    InvalidInput,
    /// The peer or the shared memory holds something impossible.
    InvalidData,
    /// What can exist once exists already.
    AlreadyExists,
    /// Something ended too early.
    UnexpectedEof,
    /// Something took too long.
    TimedOut,
    /// A destination took nothing.
    WriteZero,
    /// Anything else.
    Other,
}

/// Why a process channel operation failed.
#[derive(Clone, Copy, PartialEq, Eq, Structural, Debug)]
pub enum Fault {
    /// A stream shape has no chunk size, or one that a frame cannot carry.
    ChunkBytes,
    /// A stream shape has no slots, or more than a frame can name.
    SlotCount,
    /// The resident window of a stream shape cannot be mapped.
    ResidentSize,
    /// A stream shape reuses its slots more often than a frame can count.
    Generations,
    /// A setup frame names no flow.
    UnknownFlow,
    /// The role claims of a shared direction hold unknown bits.
    RoleClaims,
    /// Another endpoint has the role.
    RoleClaimed,
    /// Transfer identifier zero.
    TransferIdZero,
    /// A timeout of zero.
    TimeoutZero,
    /// A stream frame of no known kind.
    FrameKind,
    /// A stream frame with a wrong header.
    FrameHeader,
    /// A shared arena without its magic.
    ArenaUninitialized,
    /// A shared arena with other dimensions than announced.
    ArenaContract,
    /// A slot or a length beyond the arena.
    SlotBounds,
    /// A source with more bytes than the ceiling.
    ByteCeiling,
    /// A chunk whose slot generation a frame cannot carry.
    GenerationExhausted,
    /// A chunk whose offset cannot be counted.
    OffsetOverflow,
    /// A data frame of a terminal-length stream that does not match.
    DynamicData,
    /// A release frame of a terminal-length stream that does not match.
    DynamicReleased,
    /// A completion frame of a terminal-length stream that does not match.
    DynamicComplete,
    /// A data frame that does not match.
    Data,
    /// A release frame that does not match.
    Released,
    /// A completion frame that does not match.
    Complete,
    /// Waiting for the peer took too long.
    WaitTimedOut,
    /// The peer is gone.
    PeerClosed,
    /// Dimensions that no arena has.
    ArenaDimensions,
    /// Descriptors that cannot be counted in bytes.
    DescriptorBytes,
    /// A payload offset that cannot be counted.
    ArenaOffset,
    /// A payload that cannot be counted in bytes.
    ArenaPayload,
    /// An arena that cannot be mapped.
    ArenaLength,
    /// A descriptor ring that cannot be counted.
    DescriptorCapacity,
    /// An offset that cannot be aligned.
    Alignment,
    /// A number that this machine cannot address.
    ValueTooLarge,
    /// A process event without its magic.
    EventUninitialized,
    /// A second waiter on a process event.
    EventWaiter,
    /// A process event name that does not fit.
    EventName,
    /// No random bytes for a process event name.
    EventRandomness {
        /// The number of the failure, or zero where it is not known.
        code: u32,
    },
    /// A stored process event name of impossible length.
    EventNameLength,
    /// A stored process event name that is no text.
    EventNameUtf8,
    /// A region name that is empty or too long.
    RegionName,
    /// A region length that cannot be mapped.
    RegionLength,
    /// A region whose backing has another length than announced.
    RegionBacking,
    /// A region length that cannot be rounded to pages.
    RegionSize,
    /// No random bytes for a region name.
    RegionRandomness {
        /// The number of the failure, or zero where it is not known.
        code: u32,
    },
    /// A setup frame without its magic.
    SetupMagic,
    /// A setup frame of another version.
    SetupVersion,
    /// Something ended before it was complete.
    Truncated,
    /// A setup frame that names no payload kind.
    SetupPayloadKind,
    /// An element size that this machine cannot address.
    SetupPayloadSize,
    /// An element alignment that this machine cannot address.
    SetupPayloadAlign,
    /// A chunk size that this machine cannot address.
    SetupChunkSize,
    /// A slot count that this machine cannot address.
    SetupSlotCount,
    /// A region length that this machine cannot address.
    SetupRegionLength,
    /// A setup frame with an empty or too long region name.
    SetupRegionName,
    /// A setup frame with a region name that is no text.
    SetupRegionUtf8,
    /// The peer has refused the setup.
    SetupRejected,
    /// The peer has answered the setup with nonsense.
    SetupAcknowledgement,
    /// A payload contract that contradicts itself.
    PayloadContract,
    /// The peer uses another payload contract.
    PayloadMismatch,
    /// Two directions that do not belong together.
    Unpaired,
    /// A byte count that is no whole number of values.
    PodShape,
    /// The second direction has no transfer identifier.
    TransferIdOverflow,
    /// Values that cannot be counted in bytes.
    PodSliceSize,
    /// A byte count that this machine cannot address.
    PodShapeSize,
    /// Values that are not the declared byte count.
    PodSliceShape,
    /// A destination that holds no whole number of values.
    PodDestinationShape,
    /// A destination that was not filled.
    PodDestinationShort,
    /// A destination that takes no more.
    WriteZero,
    /// An endpoint name that is no plain short name.
    EndpointName,
    /// A deadline that cannot be counted.
    DeadlineOverflow,
    /// No peer has connected in time.
    AcceptTimedOut,
    /// No endpoint has appeared in time.
    ConnectTimedOut,
}

impl Fault {
    /// The class of this fault.
    pub open spec fn class(&self) -> FaultKind {
        match self {
            Fault::ChunkBytes => FaultKind::InvalidInput,
            Fault::SlotCount => FaultKind::InvalidInput,
            Fault::ResidentSize => FaultKind::InvalidInput,
            Fault::Generations => FaultKind::InvalidInput,
            Fault::UnknownFlow => FaultKind::InvalidInput,
            Fault::RoleClaims => FaultKind::InvalidData,
            Fault::RoleClaimed => FaultKind::AlreadyExists,
            Fault::TransferIdZero => FaultKind::InvalidInput,
            Fault::TimeoutZero => FaultKind::InvalidInput,
            Fault::FrameKind => FaultKind::InvalidData,
            Fault::FrameHeader => FaultKind::InvalidData,
            Fault::ArenaUninitialized => FaultKind::InvalidData,
            Fault::ArenaContract => FaultKind::InvalidData,
            Fault::SlotBounds => FaultKind::InvalidData,
            Fault::ByteCeiling => FaultKind::InvalidData,
            Fault::GenerationExhausted => FaultKind::InvalidData,
            Fault::OffsetOverflow => FaultKind::InvalidData,
            Fault::DynamicData => FaultKind::InvalidData,
            Fault::DynamicReleased => FaultKind::InvalidData,
            Fault::DynamicComplete => FaultKind::InvalidData,
            Fault::Data => FaultKind::InvalidData,
            Fault::Released => FaultKind::InvalidData,
            Fault::Complete => FaultKind::InvalidData,
            Fault::WaitTimedOut => FaultKind::TimedOut,
            Fault::PeerClosed => FaultKind::UnexpectedEof,
            Fault::ArenaDimensions => FaultKind::InvalidInput,
            Fault::DescriptorBytes => FaultKind::InvalidInput,
            Fault::ArenaOffset => FaultKind::InvalidInput,
            Fault::ArenaPayload => FaultKind::InvalidInput,
            Fault::ArenaLength => FaultKind::InvalidInput,
            Fault::DescriptorCapacity => FaultKind::InvalidInput,
            Fault::Alignment => FaultKind::InvalidInput,
            Fault::ValueTooLarge => FaultKind::InvalidInput,
            Fault::EventUninitialized => FaultKind::InvalidData,
            Fault::EventWaiter => FaultKind::InvalidInput,
            Fault::EventName => FaultKind::InvalidInput,
            Fault::EventRandomness { .. } => FaultKind::Other,
            Fault::EventNameLength => FaultKind::InvalidData,
            Fault::EventNameUtf8 => FaultKind::InvalidData,
            Fault::RegionName => FaultKind::InvalidInput,
            Fault::RegionLength => FaultKind::InvalidInput,
            Fault::RegionBacking => FaultKind::InvalidData,
            Fault::RegionSize => FaultKind::InvalidInput,
            Fault::RegionRandomness { .. } => FaultKind::Other,
            Fault::SetupMagic => FaultKind::InvalidData,
            Fault::SetupVersion => FaultKind::InvalidData,
            Fault::Truncated => FaultKind::UnexpectedEof,
            Fault::SetupPayloadKind => FaultKind::InvalidData,
            Fault::SetupPayloadSize => FaultKind::InvalidData,
            Fault::SetupPayloadAlign => FaultKind::InvalidData,
            Fault::SetupChunkSize => FaultKind::InvalidData,
            Fault::SetupSlotCount => FaultKind::InvalidData,
            Fault::SetupRegionLength => FaultKind::InvalidData,
            Fault::SetupRegionName => FaultKind::InvalidData,
            Fault::SetupRegionUtf8 => FaultKind::InvalidData,
            Fault::SetupRejected => FaultKind::InvalidData,
            Fault::SetupAcknowledgement => FaultKind::InvalidData,
            Fault::PayloadContract => FaultKind::InvalidInput,
            Fault::PayloadMismatch => FaultKind::InvalidInput,
            Fault::Unpaired => FaultKind::InvalidInput,
            Fault::PodShape => FaultKind::InvalidInput,
            Fault::TransferIdOverflow => FaultKind::InvalidInput,
            Fault::PodSliceSize => FaultKind::InvalidInput,
            Fault::PodShapeSize => FaultKind::InvalidInput,
            Fault::PodSliceShape => FaultKind::InvalidInput,
            Fault::PodDestinationShape => FaultKind::InvalidInput,
            Fault::PodDestinationShort => FaultKind::UnexpectedEof,
            Fault::WriteZero => FaultKind::WriteZero,
            Fault::EndpointName => FaultKind::InvalidInput,
            Fault::DeadlineOverflow => FaultKind::InvalidInput,
            Fault::AcceptTimedOut => FaultKind::TimedOut,
            Fault::ConnectTimedOut => FaultKind::TimedOut,
        }
    }

    /// The class of this fault.
    pub fn kind(&self) -> (kind: FaultKind)
        ensures
            kind == self.class(),
    {
        match self {
            Fault::ChunkBytes => FaultKind::InvalidInput,
            Fault::SlotCount => FaultKind::InvalidInput,
            Fault::ResidentSize => FaultKind::InvalidInput,
            Fault::Generations => FaultKind::InvalidInput,
            Fault::UnknownFlow => FaultKind::InvalidInput,
            Fault::RoleClaims => FaultKind::InvalidData,
            Fault::RoleClaimed => FaultKind::AlreadyExists,
            Fault::TransferIdZero => FaultKind::InvalidInput,
            Fault::TimeoutZero => FaultKind::InvalidInput,
            Fault::FrameKind => FaultKind::InvalidData,
            Fault::FrameHeader => FaultKind::InvalidData,
            Fault::ArenaUninitialized => FaultKind::InvalidData,
            Fault::ArenaContract => FaultKind::InvalidData,
            Fault::SlotBounds => FaultKind::InvalidData,
            Fault::ByteCeiling => FaultKind::InvalidData,
            Fault::GenerationExhausted => FaultKind::InvalidData,
            Fault::OffsetOverflow => FaultKind::InvalidData,
            Fault::DynamicData => FaultKind::InvalidData,
            Fault::DynamicReleased => FaultKind::InvalidData,
            Fault::DynamicComplete => FaultKind::InvalidData,
            Fault::Data => FaultKind::InvalidData,
            Fault::Released => FaultKind::InvalidData,
            Fault::Complete => FaultKind::InvalidData,
            Fault::WaitTimedOut => FaultKind::TimedOut,
            Fault::PeerClosed => FaultKind::UnexpectedEof,
            Fault::ArenaDimensions => FaultKind::InvalidInput,
            Fault::DescriptorBytes => FaultKind::InvalidInput,
            Fault::ArenaOffset => FaultKind::InvalidInput,
            Fault::ArenaPayload => FaultKind::InvalidInput,
            Fault::ArenaLength => FaultKind::InvalidInput,
            Fault::DescriptorCapacity => FaultKind::InvalidInput,
            Fault::Alignment => FaultKind::InvalidInput,
            Fault::ValueTooLarge => FaultKind::InvalidInput,
            Fault::EventUninitialized => FaultKind::InvalidData,
            Fault::EventWaiter => FaultKind::InvalidInput,
            Fault::EventName => FaultKind::InvalidInput,
            Fault::EventRandomness { .. } => FaultKind::Other,
            Fault::EventNameLength => FaultKind::InvalidData,
            Fault::EventNameUtf8 => FaultKind::InvalidData,
            Fault::RegionName => FaultKind::InvalidInput,
            Fault::RegionLength => FaultKind::InvalidInput,
            Fault::RegionBacking => FaultKind::InvalidData,
            Fault::RegionSize => FaultKind::InvalidInput,
            Fault::RegionRandomness { .. } => FaultKind::Other,
            Fault::SetupMagic => FaultKind::InvalidData,
            Fault::SetupVersion => FaultKind::InvalidData,
            Fault::Truncated => FaultKind::UnexpectedEof,
            Fault::SetupPayloadKind => FaultKind::InvalidData,
            Fault::SetupPayloadSize => FaultKind::InvalidData,
            Fault::SetupPayloadAlign => FaultKind::InvalidData,
            Fault::SetupChunkSize => FaultKind::InvalidData,
            Fault::SetupSlotCount => FaultKind::InvalidData,
            Fault::SetupRegionLength => FaultKind::InvalidData,
            Fault::SetupRegionName => FaultKind::InvalidData,
            Fault::SetupRegionUtf8 => FaultKind::InvalidData,
            Fault::SetupRejected => FaultKind::InvalidData,
            Fault::SetupAcknowledgement => FaultKind::InvalidData,
            Fault::PayloadContract => FaultKind::InvalidInput,
            Fault::PayloadMismatch => FaultKind::InvalidInput,
            Fault::Unpaired => FaultKind::InvalidInput,
            Fault::PodShape => FaultKind::InvalidInput,
            Fault::TransferIdOverflow => FaultKind::InvalidInput,
            Fault::PodSliceSize => FaultKind::InvalidInput,
            Fault::PodShapeSize => FaultKind::InvalidInput,
            Fault::PodSliceShape => FaultKind::InvalidInput,
            Fault::PodDestinationShape => FaultKind::InvalidInput,
            Fault::PodDestinationShort => FaultKind::UnexpectedEof,
            Fault::WriteZero => FaultKind::WriteZero,
            Fault::EndpointName => FaultKind::InvalidInput,
            Fault::DeadlineOverflow => FaultKind::InvalidInput,
            Fault::AcceptTimedOut => FaultKind::TimedOut,
            Fault::ConnectTimedOut => FaultKind::TimedOut,
        }
    }

    /// What a reader is told, without the cause.
    pub open spec fn text(&self) -> &'static str {
        match self {
            Fault::ChunkBytes => "stream chunk_bytes must be in 1..=u32::MAX",
            Fault::SlotCount => "stream slots must be in 1..=u32::MAX",
            Fault::ResidentSize => "stream resident size overflows address space",
            Fault::Generations => "stream slot generation would overflow",
            Fault::UnknownFlow => "unknown process stream flow",
            Fault::RoleClaims => "shared stream role claims are invalid",
            Fault::RoleClaimed => "IPC direction role is already claimed",
            Fault::TransferIdZero => "transfer id zero is reserved",
            Fault::TimeoutZero => "stream timeout must be non-zero",
            Fault::FrameKind => "unknown stream frame kind",
            Fault::FrameHeader => "stream frame header is invalid",
            Fault::ArenaUninitialized => "shared stream arena is not initialized",
            Fault::ArenaContract => "shared stream arena contract mismatch",
            Fault::SlotBounds => "stream slot or length is out of bounds",
            Fault::ByteCeiling => "stream exceeded its byte ceiling",
            Fault::GenerationExhausted => "stream generation exhausted",
            Fault::OffsetOverflow => "stream offset overflow",
            Fault::DynamicData => "streaming DATA frame or payload is invalid",
            Fault::DynamicReleased => "streaming RELEASED frame is invalid",
            Fault::DynamicComplete => "streaming COMPLETE frame is invalid",
            Fault::Data => "DATA frame or payload is invalid",
            Fault::Released => "RELEASED frame is invalid",
            Fault::Complete => "COMPLETE frame is invalid",
            Fault::WaitTimedOut => "process stream arena wait timed out",
            Fault::PeerClosed => "process stream peer closed",
            Fault::ArenaDimensions => "stream arena dimensions are invalid",
            Fault::DescriptorBytes => "descriptor bytes overflow",
            Fault::ArenaOffset => "arena offset overflow",
            Fault::ArenaPayload => "arena payload bytes overflow",
            Fault::ArenaLength => "arena length overflow",
            Fault::DescriptorCapacity => "descriptor capacity overflow",
            Fault::Alignment => "alignment overflow",
            Fault::ValueTooLarge => "value does not fit usize",
            Fault::EventUninitialized => "process event is not initialized",
            Fault::EventWaiter => "process event supports one waiter",
            Fault::EventName => "process event name is empty or too long",
            Fault::EventRandomness { .. } => "event name randomness failed",
            Fault::EventNameLength => "invalid process event name length",
            Fault::EventNameUtf8 => "event name is not UTF-8",
            Fault::RegionName => "shared-region name length is invalid",
            Fault::RegionLength => "shared-region length is invalid",
            Fault::RegionBacking => "shared-region length does not match descriptor",
            Fault::RegionSize => "region size overflow",
            Fault::RegionRandomness { .. } => "region name randomness failed",
            Fault::SetupMagic => "invalid IPC setup magic",
            Fault::SetupVersion => "unsupported IPC setup version",
            Fault::Truncated => "failed to fill whole buffer",
            Fault::SetupPayloadKind => "invalid IPC payload kind",
            Fault::SetupPayloadSize => "payload size",
            Fault::SetupPayloadAlign => "payload alignment",
            Fault::SetupChunkSize => "chunk size",
            Fault::SetupSlotCount => "slot count",
            Fault::SetupRegionLength => "region length",
            Fault::SetupRegionName => "shared-region name length is invalid",
            Fault::SetupRegionUtf8 => "shared-region name is not UTF-8",
            Fault::SetupRejected => "peer rejected IPC setup",
            Fault::SetupAcknowledgement => "invalid IPC setup acknowledgement",
            Fault::PayloadContract => "invalid IPC payload contract",
            Fault::PayloadMismatch => "IPC payload contract mismatch",
            Fault::Unpaired => "IPC setup does not describe one paired transport",
            Fault::PodShape => "IPC POD shape must contain a whole number of values",
            Fault::TransferIdOverflow => "duplex transfer id overflows",
            Fault::PodSliceSize => "POD slice is too large",
            Fault::PodShapeSize => "POD shape is too large",
            Fault::PodSliceShape => "POD slice does not match the declared byte shape",
            Fault::PodDestinationShape => "POD byte shape is not a whole number of non-zero-sized values",
            Fault::PodDestinationShort => "POD destination is not completely initialized",
            Fault::WriteZero => "failed to write whole buffer",
            Fault::EndpointName => "IPC endpoint names must be 1..=20 ASCII letters, digits, dots, dashes, or underscores",
            Fault::DeadlineOverflow => "IPC timeout is too large",
            Fault::AcceptTimedOut => "timed out waiting for IPC peer",
            Fault::ConnectTimedOut => "timed out waiting for IPC endpoint",
        }
    }

    /// What a reader is told, without the cause.
    pub fn message(&self) -> (message: &'static str)
        ensures
            message@ == self.text()@,
    {
        match self {
            Fault::ChunkBytes => "stream chunk_bytes must be in 1..=u32::MAX",
            Fault::SlotCount => "stream slots must be in 1..=u32::MAX",
            Fault::ResidentSize => "stream resident size overflows address space",
            Fault::Generations => "stream slot generation would overflow",
            Fault::UnknownFlow => "unknown process stream flow",
            Fault::RoleClaims => "shared stream role claims are invalid",
            Fault::RoleClaimed => "IPC direction role is already claimed",
            Fault::TransferIdZero => "transfer id zero is reserved",
            Fault::TimeoutZero => "stream timeout must be non-zero",
            Fault::FrameKind => "unknown stream frame kind",
            Fault::FrameHeader => "stream frame header is invalid",
            Fault::ArenaUninitialized => "shared stream arena is not initialized",
            Fault::ArenaContract => "shared stream arena contract mismatch",
            Fault::SlotBounds => "stream slot or length is out of bounds",
            Fault::ByteCeiling => "stream exceeded its byte ceiling",
            Fault::GenerationExhausted => "stream generation exhausted",
            Fault::OffsetOverflow => "stream offset overflow",
            Fault::DynamicData => "streaming DATA frame or payload is invalid",
            Fault::DynamicReleased => "streaming RELEASED frame is invalid",
            Fault::DynamicComplete => "streaming COMPLETE frame is invalid",
            Fault::Data => "DATA frame or payload is invalid",
            Fault::Released => "RELEASED frame is invalid",
            Fault::Complete => "COMPLETE frame is invalid",
            Fault::WaitTimedOut => "process stream arena wait timed out",
            Fault::PeerClosed => "process stream peer closed",
            Fault::ArenaDimensions => "stream arena dimensions are invalid",
            Fault::DescriptorBytes => "descriptor bytes overflow",
            Fault::ArenaOffset => "arena offset overflow",
            Fault::ArenaPayload => "arena payload bytes overflow",
            Fault::ArenaLength => "arena length overflow",
            Fault::DescriptorCapacity => "descriptor capacity overflow",
            Fault::Alignment => "alignment overflow",
            Fault::ValueTooLarge => "value does not fit usize",
            Fault::EventUninitialized => "process event is not initialized",
            Fault::EventWaiter => "process event supports one waiter",
            Fault::EventName => "process event name is empty or too long",
            Fault::EventRandomness { .. } => "event name randomness failed",
            Fault::EventNameLength => "invalid process event name length",
            Fault::EventNameUtf8 => "event name is not UTF-8",
            Fault::RegionName => "shared-region name length is invalid",
            Fault::RegionLength => "shared-region length is invalid",
            Fault::RegionBacking => "shared-region length does not match descriptor",
            Fault::RegionSize => "region size overflow",
            Fault::RegionRandomness { .. } => "region name randomness failed",
            Fault::SetupMagic => "invalid IPC setup magic",
            Fault::SetupVersion => "unsupported IPC setup version",
            Fault::Truncated => "failed to fill whole buffer",
            Fault::SetupPayloadKind => "invalid IPC payload kind",
            Fault::SetupPayloadSize => "payload size",
            Fault::SetupPayloadAlign => "payload alignment",
            Fault::SetupChunkSize => "chunk size",
            Fault::SetupSlotCount => "slot count",
            Fault::SetupRegionLength => "region length",
            Fault::SetupRegionName => "shared-region name length is invalid",
            Fault::SetupRegionUtf8 => "shared-region name is not UTF-8",
            Fault::SetupRejected => "peer rejected IPC setup",
            Fault::SetupAcknowledgement => "invalid IPC setup acknowledgement",
            Fault::PayloadContract => "invalid IPC payload contract",
            Fault::PayloadMismatch => "IPC payload contract mismatch",
            Fault::Unpaired => "IPC setup does not describe one paired transport",
            Fault::PodShape => "IPC POD shape must contain a whole number of values",
            Fault::TransferIdOverflow => "duplex transfer id overflows",
            Fault::PodSliceSize => "POD slice is too large",
            Fault::PodShapeSize => "POD shape is too large",
            Fault::PodSliceShape => "POD slice does not match the declared byte shape",
            Fault::PodDestinationShape => "POD byte shape is not a whole number of non-zero-sized values",
            Fault::PodDestinationShort => "POD destination is not completely initialized",
            Fault::WriteZero => "failed to write whole buffer",
            Fault::EndpointName => "IPC endpoint names must be 1..=20 ASCII letters, digits, dots, dashes, or underscores",
            Fault::DeadlineOverflow => "IPC timeout is too large",
            Fault::AcceptTimedOut => "timed out waiting for IPC peer",
            Fault::ConnectTimedOut => "timed out waiting for IPC endpoint",
        }
    }

    /// The number of the failure behind this fault, if there is one that is known.
    pub open spec fn cause_code(&self) -> Option<u32> {
        match self {
            Fault::EventRandomness { code } => if *code == 0 {
                None
            } else {
                Some(*code)
            },
            Fault::RegionRandomness { code } => if *code == 0 {
                None
            } else {
                Some(*code)
            },
            _ => None,
        }
    }

    /// What a reader is told, followed by a colon, a space and the cause where there is
    /// one. The wording of a cause is fixed only where the system has no part in it.
    pub fn description(&self) -> (text: String)
        ensures
            self.cause_code() is None ==> text@ == self.text()@,
            self.cause_code() matches Some(code) ==> {
                &&& text@.len() >= self.text()@.len() + 2
                &&& text@.take(self.text()@.len() as int + 2) == self.text()@ + seq![':', ' ']
                &&& code >= 0x8000_0000 ==> text@ == self.text()@ + seq![':', ' '] + cause_text(
                    code,
                )
            },
    {
        let mut text: String = String::from_str(self.message());
        let code: u32 = match self {
            Fault::EventRandomness { code } => *code,
            Fault::RegionRandomness { code } => *code,
            _ => 0,
        };
        if code != 0 {
            text.append(": ");
            proof {
                reveal_strlit(": ");
                assert(text@ =~= self.text()@ + seq![':', ' ']);
            }
            let reason: String = cause(code);
            text.append(reason.as_str());
            proof {
                let head = self.text()@ + seq![':', ' '];
                assert(text@.take(head.len() as int) =~= head);
            }
        }
        text
    }
}


/// A fault is classed by whose fault it is: waiting in vain is a timeout, a peer or a source that
/// ended too early an unexpected end, a role that is taken already exists, a destination that
/// takes nothing more a failed write, missing randomness none of these; what a peer has sent or
/// shared wrongly is invalid data, and everything else is an invalid argument.
pub proof fn law_faults_are_classed_by_their_origin(fault: Fault)
    ensures
        fault.class() == FaultKind::TimedOut <==> fault is WaitTimedOut || fault is AcceptTimedOut
            || fault is ConnectTimedOut,
        fault.class() == FaultKind::UnexpectedEof <==> fault is PeerClosed || fault is Truncated
            || fault is PodDestinationShort,
        fault.class() == FaultKind::AlreadyExists <==> fault is RoleClaimed,
        fault.class() == FaultKind::WriteZero <==> fault is WriteZero,
        fault.class() == FaultKind::Other <==> fault is EventRandomness || fault is RegionRandomness,
        fault.class() == FaultKind::InvalidData <==> {
            ||| fault is RoleClaims || fault is FrameKind || fault is FrameHeader
            ||| fault is ArenaUninitialized || fault is ArenaContract || fault is SlotBounds
            ||| fault is ByteCeiling || fault is GenerationExhausted || fault is OffsetOverflow
            ||| fault is DynamicData || fault is DynamicReleased || fault is DynamicComplete
            ||| fault is Data || fault is Released || fault is Complete
            ||| fault is EventUninitialized || fault is EventNameLength || fault is EventNameUtf8
            ||| fault is RegionBacking || fault is SetupMagic || fault is SetupVersion
            ||| fault is SetupPayloadKind || fault is SetupPayloadSize || fault is SetupPayloadAlign
            ||| fault is SetupChunkSize || fault is SetupSlotCount || fault is SetupRegionLength
            ||| fault is SetupRegionName || fault is SetupRegionUtf8 || fault is SetupRejected
            ||| fault is SetupAcknowledgement
        },
{
}

} // verus!
