//! Descriptors: the fixed-width messages of a stream.
use crate::ipc::wire::{
    get, le_bytes, le_value, lemma_le_len, lemma_le_limits, lemma_le_of_value, lemma_value_of_le,
    put,
};
use crate::ipc::Fault;
use super::shape::StreamFlow;
use vstd::prelude::*;

verus! {

/// What every frame starts with.
pub const FRAME_MAGIC: u32 = 0x5053_5354;

/// The version of the frame and arena formats.
pub const VERSION: u16 = 2;

/// The bytes of an encoded frame.
pub const FRAME_LEN: usize = 48;

/// The flag of every frame of a byte stream.
pub const STREAM_FLAG: u8 = 0x40;

/// What a frame announces.
#[derive(Clone, Copy, Debug, PartialEq, Eq, Structural)]
pub enum Kind {
    /// A slot has been filled.
    Data,
    /// A slot may be filled again.
    Released,
    /// The stream has ended.
    Complete,
}

impl Kind {
    /// The number that stands for this kind.
    pub open spec fn number(&self) -> u8 {
        match self {
            Kind::Data => 1,
            Kind::Released => 2,
            Kind::Complete => 3,
        }
    }

    /// The kind that a number stands for.
    pub open spec fn numbered(code: u8) -> Option<Kind> {
        if code == 1 {
            Some(Kind::Data)
        } else if code == 2 {
            Some(Kind::Released)
        } else if code == 3 {
            Some(Kind::Complete)
        } else {
            None
        }
    }

    /// The number that stands for this kind.
    pub fn code(self) -> (code: u8)
        ensures
            code == self.number(),
    {
        match self {
            Kind::Data => 1,
            Kind::Released => 2,
            Kind::Complete => 3,
        }
    }

    /// The kind that a number stands for.
    pub fn from_code(code: u8) -> (result: Result<Kind, Fault>)
        ensures
            result matches Ok(kind) ==> Kind::numbered(code) == Some(kind),
            result is Ok <==> Kind::numbered(code) is Some,
            result matches Err(fault) ==> fault == Fault::FrameKind,
    {
        match code {
            1 => Ok(Kind::Data),
            2 => Ok(Kind::Released),
            3 => Ok(Kind::Complete),
            _ => Err(Fault::FrameKind),
        }
    }
}

/// The flags of the frames of a flow.
pub open spec fn flags_of(flow: StreamFlow) -> u8 {
    (0x40 + flow.number()) as u8
}

/// The flags of the frames of a flow.
pub fn frame_flags(flow: StreamFlow) -> (flags: u8)
    ensures
        flags == flags_of(flow),
{
    STREAM_FLAG + flow.code()
}

/// One message of a stream.
#[derive(Clone, Copy, Debug, PartialEq, Eq, Structural)]
pub struct Frame {
    /// What it announces.
    pub kind: Kind,
    /// The flags of its flow.
    pub flags: u8,
    /// The transfer that it belongs to.
    pub transfer_id: u64,
    /// Where the chunk starts, or where the stream ends.
    pub offset: u64,
    /// The slot of the chunk.
    pub slot: u32,
    /// How often that slot has been filled.
    pub generation: u32,
    /// The bytes of the chunk.
    pub len: u32,
    /// The checksum of the chunk, or of the stream.
    pub checksum: u64,
}

/// The number in `n` bytes from `at` on.
pub open spec fn field(bytes: Seq<u8>, at: int, n: int) -> nat {
    le_value(bytes.subrange(at, at + n))
}

impl Frame {
    /// The encoding of this frame.
    pub open spec fn bytes(&self) -> Seq<u8> {
        le_bytes(FRAME_MAGIC as nat, 4) + le_bytes(VERSION as nat, 2) + le_bytes(
            self.kind.number() as nat,
            1,
        ) + le_bytes(self.flags as nat, 1) + le_bytes(self.transfer_id as nat, 8) + le_bytes(
            self.offset as nat,
            8,
        ) + le_bytes(self.slot as nat, 4) + le_bytes(self.generation as nat, 4) + le_bytes(
            self.len as nat,
            4,
        ) + le_bytes(0, 4) + le_bytes(self.checksum as nat, 8)
    }

    /// The frame that bytes stand for, or why they stand for none.
    pub open spec fn parsed(bytes: Seq<u8>) -> Result<Frame, Fault> {
        if field(bytes, 0, 4) != FRAME_MAGIC || field(bytes, 4, 2) != VERSION || field(
            bytes,
            36,
            4,
        ) != 0 {
            Err(Fault::FrameHeader)
        } else {
            match Kind::numbered(bytes[6]) {
                None => Err(Fault::FrameKind),
                Some(kind) => Ok(
                    Frame {
                        kind,
                        flags: bytes[7],
                        transfer_id: field(bytes, 8, 8) as u64,
                        offset: field(bytes, 16, 8) as u64,
                        slot: field(bytes, 24, 4) as u32,
                        generation: field(bytes, 28, 4) as u32,
                        len: field(bytes, 32, 4) as u32,
                        checksum: field(bytes, 40, 8) as u64,
                    },
                ),
            }
        }
    }

    /// The encoding of this frame.
    pub fn encode(self) -> (encoded: Vec<u8>)
        ensures
            encoded@ == self.bytes(),
            encoded@.len() == FRAME_LEN,
    {
        let mut encoded: Vec<u8> = Vec::with_capacity(FRAME_LEN);
        put(&mut encoded, FRAME_MAGIC as u64, 4);
        put(&mut encoded, VERSION as u64, 2);
        put(&mut encoded, self.kind.code() as u64, 1);
        put(&mut encoded, self.flags as u64, 1);
        put(&mut encoded, self.transfer_id, 8);
        put(&mut encoded, self.offset, 8);
        put(&mut encoded, self.slot as u64, 4);
        put(&mut encoded, self.generation as u64, 4);
        put(&mut encoded, self.len as u64, 4);
        put(&mut encoded, 0, 4);
        put(&mut encoded, self.checksum, 8);
        proof {
            assert(encoded@ =~= self.bytes());
            lemma_frame_len(self);
        }
        encoded
    }

    /// The frame that bytes stand for.
    pub fn decode(bytes: &[u8]) -> (result: Result<Frame, Fault>)
        requires
            bytes@.len() == FRAME_LEN,
        ensures
            result == Frame::parsed(bytes@),
    {
        proof {
            lemma_le_limits();
        }
        let magic: u64 = get(bytes, 0, 4);
        let version: u64 = get(bytes, 4, 2);
        let zeros: u64 = get(bytes, 36, 4);
        if magic != FRAME_MAGIC as u64 || version != VERSION as u64 || zeros != 0 {
            return Err(Fault::FrameHeader);
        }
        match Kind::from_code(bytes[6]) {
            Ok(kind) => Ok(
                Frame {
                    kind,
                    flags: bytes[7],
                    transfer_id: get(bytes, 8, 8),
                    offset: get(bytes, 16, 8),
                    slot: get(bytes, 24, 4) as u32,
                    generation: get(bytes, 28, 4) as u32,
                    len: get(bytes, 32, 4) as u32,
                    checksum: get(bytes, 40, 8),
                },
            ),
            Err(fault) => Err(fault),
        }
    }
}

/// Every encoding has the same length.
pub proof fn lemma_frame_len(frame: Frame)
    ensures
        frame.bytes().len() == FRAME_LEN,
{
    lemma_le_len(FRAME_MAGIC as nat, 4);
    lemma_le_len(VERSION as nat, 2);
    lemma_le_len(frame.kind.number() as nat, 1);
    lemma_le_len(frame.flags as nat, 1);
    lemma_le_len(frame.transfer_id as nat, 8);
    lemma_le_len(frame.offset as nat, 8);
    lemma_le_len(frame.slot as nat, 4);
    lemma_le_len(frame.generation as nat, 4);
    lemma_le_len(frame.len as nat, 4);
    lemma_le_len(0, 4);
    lemma_le_len(frame.checksum as nat, 8);
}

/// One byte stands for itself.
proof fn lemma_one_byte(byte: u8)
    ensures
        le_bytes(byte as nat, 1) == seq![byte],
{
    reveal_with_fuel(le_bytes, 2);
    assert(le_bytes(byte as nat, 1) =~= seq![byte]);
}

/// Decoding gives back what was encoded.
pub proof fn law_decoding_undoes_encoding(frame: Frame)
    ensures
        Frame::parsed(frame.bytes()) == Ok::<Frame, Fault>(frame),
{
    let b = frame.bytes();
    lemma_frame_len(frame);
    lemma_le_limits();
    lemma_value_of_le(FRAME_MAGIC as nat, 4);
    lemma_value_of_le(VERSION as nat, 2);
    lemma_value_of_le(frame.kind.number() as nat, 1);
    lemma_value_of_le(frame.flags as nat, 1);
    lemma_value_of_le(frame.transfer_id as nat, 8);
    lemma_value_of_le(frame.offset as nat, 8);
    lemma_value_of_le(frame.slot as nat, 4);
    lemma_value_of_le(frame.generation as nat, 4);
    lemma_value_of_le(frame.len as nat, 4);
    lemma_value_of_le(0, 4);
    lemma_value_of_le(frame.checksum as nat, 8);
    lemma_one_byte(frame.kind.number());
    lemma_one_byte(frame.flags);
    assert(b.subrange(0, 4) =~= le_bytes(FRAME_MAGIC as nat, 4));
    assert(b.subrange(4, 6) =~= le_bytes(VERSION as nat, 2));
    assert(b[6] == frame.kind.number());
    assert(b[7] == frame.flags);
    assert(b.subrange(8, 16) =~= le_bytes(frame.transfer_id as nat, 8));
    assert(b.subrange(16, 24) =~= le_bytes(frame.offset as nat, 8));
    assert(b.subrange(24, 28) =~= le_bytes(frame.slot as nat, 4));
    assert(b.subrange(28, 32) =~= le_bytes(frame.generation as nat, 4));
    assert(b.subrange(32, 36) =~= le_bytes(frame.len as nat, 4));
    assert(b.subrange(36, 40) =~= le_bytes(0, 4));
    assert(b.subrange(40, 48) =~= le_bytes(frame.checksum as nat, 8));
}

/// Bytes that stand for a frame are the encoding of that frame: there is no second
/// way to write it.
pub proof fn law_encodings_are_unique(bytes: Seq<u8>, frame: Frame)
    requires
        bytes.len() == FRAME_LEN,
        Frame::parsed(bytes) == Ok::<Frame, Fault>(frame),
    ensures
        bytes == frame.bytes(),
{
    lemma_le_limits();
    lemma_le_of_value(bytes.subrange(0, 4));
    lemma_le_of_value(bytes.subrange(4, 6));
    lemma_le_of_value(bytes.subrange(8, 16));
    lemma_le_of_value(bytes.subrange(16, 24));
    lemma_le_of_value(bytes.subrange(24, 28));
    lemma_le_of_value(bytes.subrange(28, 32));
    lemma_le_of_value(bytes.subrange(32, 36));
    lemma_le_of_value(bytes.subrange(36, 40));
    lemma_le_of_value(bytes.subrange(40, 48));
    lemma_one_byte(bytes[6]);
    lemma_one_byte(bytes[7]);
    assert(bytes =~= bytes.subrange(0, 4) + bytes.subrange(4, 6) + seq![bytes[6]] + seq![bytes[7]]
        + bytes.subrange(8, 16) + bytes.subrange(16, 24) + bytes.subrange(24, 28)
        + bytes.subrange(28, 32) + bytes.subrange(32, 36) + bytes.subrange(36, 40)
        + bytes.subrange(40, 48));
}


/// Kinds and their numbers stand for each other, and the frames of the two flows are told apart
/// by their flags.
pub proof fn law_frames_tell_kind_and_flow(kind: Kind, code: u8, a: StreamFlow, b: StreamFlow)
    ensures
        Kind::numbered(kind.number()) == Some(kind),
        Kind::numbered(code) == Some(kind) ==> code == kind.number(),
        Kind::numbered(code) is None <==> !(1 <= code <= 3),
        flags_of(a) == flags_of(b) ==> a == b,
{
}


/// Every part of a frame has its place: both processes find it there without asking.
pub proof fn law_frames_have_fixed_places(frame: Frame)
    ensures
        ({
            let bytes = frame.bytes();
            &&& bytes.len() == 48
            &&& field(bytes, 0, 4) == 0x5053_5354
            &&& field(bytes, 4, 2) == 2
            &&& bytes[6] == frame.kind.number()
            &&& bytes[7] == frame.flags
            &&& field(bytes, 8, 8) as u64 == frame.transfer_id
            &&& field(bytes, 16, 8) as u64 == frame.offset
            &&& field(bytes, 24, 4) as u32 == frame.slot
            &&& field(bytes, 28, 4) as u32 == frame.generation
            &&& field(bytes, 32, 4) as u32 == frame.len
            &&& field(bytes, 36, 4) == 0
            &&& field(bytes, 40, 8) as u64 == frame.checksum
        }),
{
    law_decoding_undoes_encoding(frame);
    law_frames_tell_kind_and_flow(
        frame.kind,
        frame.bytes()[6],
        StreamFlow::ParentToWorker,
        StreamFlow::WorkerToParent,
    );
    lemma_frame_len(frame);
}

} // verus!
