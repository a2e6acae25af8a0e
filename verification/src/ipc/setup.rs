//! The setup frame: how the creator of a process channel tells its peer where the
//! channel is.
use super::payload::{sound_contract, PayloadContract, PayloadKind};
use super::region::{RegionHandle, MAX_REGION_NAME};
use super::stream::{field, parts_defect, DirectionHandle, StreamFlow, StreamShape};
use super::text::text_of;
use super::wire::{get, le_bytes, le_limit, lemma_le_limits, lemma_value_of_le, put};
use super::Fault;
use vstd::prelude::*;
use vstd::slice::slice_subrange;
use vstd::utf8::{encode_utf8, encode_utf8_valid_utf8, valid_utf8};

verus! {

/// The version of the setup frame.
pub const SETUP_VERSION: u16 = 1;

/// The answer of a peer that takes the setup.
pub const ACCEPTED: u8 = 0xa5;

/// The answer of a peer that refuses the setup.
pub const REJECTED: u8 = 0x5a;

/// What every setup frame starts with.
pub open spec fn magic() -> Seq<u8> {
    seq![0x50u8, 0x53, 0x43, 0x49, 0x50, 0x43, 0, 0]
}

/// What every setup frame starts with.
pub fn setup_magic() -> (bytes: Vec<u8>)
    ensures
        bytes@ == magic(),
{
    let bytes: Vec<u8> = vec![0x50, 0x53, 0x43, 0x49, 0x50, 0x43, 0, 0];
    assert(bytes@ =~= magic());
    bytes
}

/// Where both directions of a process channel are, and what they carry.
#[derive(Debug)]
pub struct DuplexHandle {
    /// From the creator to its peer.
    pub parent_to_worker: DirectionHandle,
    /// From the peer to the creator.
    pub worker_to_parent: DirectionHandle,
    /// What they carry.
    pub payload: PayloadContract,
}

/// What a setup frame says of a region.
pub ghost struct RegionImage {
    /// The bytes of its name.
    pub name: Seq<u8>,
    /// Its length.
    pub len: int,
}

/// What a setup frame says of a direction.
pub ghost struct DirectionImage {
    /// The region of the payload.
    pub data: RegionImage,
    /// The region of the releases.
    pub releases: RegionImage,
    /// The dimensions.
    pub shape: StreamShape,
    /// The transfer.
    pub transfer_id: u64,
    /// Who sends.
    pub flow: StreamFlow,
}

/// What a setup frame says.
pub ghost struct SetupImage {
    /// What the channel carries.
    pub payload: PayloadContract,
    /// From the creator to its peer.
    pub parent_to_worker: DirectionImage,
    /// From the peer to the creator.
    pub worker_to_parent: DirectionImage,
}

impl RegionImage {
    /// What a frame says of a handle.
    pub open spec fn of(handle: RegionHandle) -> RegionImage {
        RegionImage { name: encode_utf8(handle.text()), len: handle.extent() as int }
    }

    /// Whether a region can be so.
    pub open spec fn valid(self) -> bool {
        &&& 0 < self.name.len() <= MAX_REGION_NAME
        &&& valid_utf8(self.name)
        &&& 0 < self.len <= isize::MAX
    }

    /// The bytes that say it.
    pub open spec fn bytes(self) -> Seq<u8> {
        le_bytes(self.name.len(), 2) + self.name + le_bytes(self.len as nat, 8)
    }
}

impl DirectionImage {
    /// What a frame says of a handle.
    pub open spec fn of(handle: DirectionHandle) -> DirectionImage {
        DirectionImage {
            data: RegionImage::of(handle.data()),
            releases: RegionImage::of(handle.releases()),
            shape: handle.dimensions(),
            transfer_id: handle.id(),
            flow: handle.course(),
        }
    }

    /// Whether a direction can be so.
    pub open spec fn valid(self) -> bool {
        &&& self.data.valid()
        &&& self.releases.valid()
        &&& parts_defect(self.shape, self.transfer_id) is None
    }

    /// The bytes that say its numbers.
    pub open spec fn numbers(self) -> Seq<u8> {
        le_bytes(self.shape.total_bytes as nat, 8) + le_bytes(self.shape.chunk_bytes as nat, 8)
            + le_bytes(self.shape.slots as nat, 8) + le_bytes(self.transfer_id as nat, 8)
            + le_bytes(self.flow.number() as nat, 1)
    }

    /// The bytes that say it.
    pub open spec fn bytes(self) -> Seq<u8> {
        self.data.bytes() + self.releases.bytes() + self.numbers()
    }
}

/// The bytes that say what a channel carries.
pub open spec fn contract_bytes(payload: PayloadContract) -> Seq<u8> {
    le_bytes(payload.form().number() as nat, 1) + le_bytes(payload.schema() as nat, 8) + le_bytes(
        payload.size() as nat,
        8,
    ) + le_bytes(payload.align() as nat, 8)
}

impl SetupImage {
    /// What a frame says of a handle.
    pub open spec fn of(handle: DuplexHandle) -> SetupImage {
        SetupImage {
            payload: handle.payload,
            parent_to_worker: DirectionImage::of(handle.parent_to_worker),
            worker_to_parent: DirectionImage::of(handle.worker_to_parent),
        }
    }

    /// Whether a channel can be so.
    pub open spec fn valid(self) -> bool {
        &&& self.payload.valid()
        &&& self.parent_to_worker.valid()
        &&& self.worker_to_parent.valid()
    }

    /// The bytes that say it.
    pub open spec fn bytes(self) -> Seq<u8> {
        magic() + le_bytes(SETUP_VERSION as nat, 2) + contract_bytes(self.payload)
            + self.parent_to_worker.bytes() + self.worker_to_parent.bytes()
    }
}

impl DuplexHandle {
    /// Whether a channel can have this handle.
    pub open spec fn wf(&self) -> bool {
        &&& self.payload.valid()
        &&& self.parent_to_worker.wf()
        &&& self.worker_to_parent.wf()
    }
}

/// The region that the bytes from `at` on speak of and where they end, or what is wrong
/// with them.
#[verifier::opaque]
pub open spec fn parsed_region(bytes: Seq<u8>, at: int) -> Result<(RegionImage, int), Fault> {
    let name_len = field(bytes, at, 2);
    let end = at + 2 + name_len;
    let name = bytes.subrange(at + 2, end);
    let len = field(bytes, end, 8);
    if at + 2 > bytes.len() {
        Err(Fault::Truncated)
    } else if name_len == 0 || name_len > MAX_REGION_NAME {
        Err(Fault::SetupRegionName)
    } else if end > bytes.len() {
        Err(Fault::Truncated)
    } else if !valid_utf8(name) {
        Err(Fault::SetupRegionUtf8)
    } else if end + 8 > bytes.len() {
        Err(Fault::Truncated)
    } else if len > usize::MAX {
        Err(Fault::SetupRegionLength)
    } else if len == 0 || len > isize::MAX {
        Err(Fault::RegionLength)
    } else {
        Ok((RegionImage { name, len: len as int }, end + 8))
    }
}

/// The flow that a number stands for.
pub open spec fn numbered_flow(code: int) -> Option<StreamFlow> {
    if code == 1 {
        Some(StreamFlow::ParentToWorker)
    } else if code == 2 {
        Some(StreamFlow::WorkerToParent)
    } else {
        None
    }
}

/// The numbers of a direction that the bytes from `at` on speak of, or what is wrong with
/// them.
#[verifier::opaque]
pub open spec fn parsed_numbers(bytes: Seq<u8>, at: int) -> Result<
    (StreamShape, u64, StreamFlow),
    Fault,
> {
    let flow = numbered_flow(bytes[at + 32] as int);
    let shape = StreamShape {
        total_bytes: field(bytes, at, 8) as u64,
        chunk_bytes: field(bytes, at + 8, 8) as usize,
        slots: field(bytes, at + 16, 8) as usize,
    };
    let transfer_id = field(bytes, at + 24, 8) as u64;
    if at + 16 > bytes.len() {
        Err(Fault::Truncated)
    } else if field(bytes, at + 8, 8) > usize::MAX {
        Err(Fault::SetupChunkSize)
    } else if at + 24 > bytes.len() {
        Err(Fault::Truncated)
    } else if field(bytes, at + 16, 8) > usize::MAX {
        Err(Fault::SetupSlotCount)
    } else if at + 33 > bytes.len() {
        Err(Fault::Truncated)
    } else if flow is None {
        Err(Fault::UnknownFlow)
    } else if parts_defect(shape, transfer_id) is Some {
        Err(parts_defect(shape, transfer_id)->0)
    } else {
        Ok((shape, transfer_id, flow->0))
    }
}

/// The direction that the bytes from `at` on speak of and where they end, or what is wrong
/// with them.
#[verifier::opaque]
pub open spec fn parsed_direction(bytes: Seq<u8>, at: int) -> Result<(DirectionImage, int), Fault> {
    match parsed_region(bytes, at) {
        Err(fault) => Err(fault),
        Ok((data, next)) => match parsed_region(bytes, next) {
            Err(fault) => Err(fault),
            Ok((releases, last)) => match parsed_numbers(bytes, last) {
                Err(fault) => Err(fault),
                Ok((shape, transfer_id, flow)) => Ok(
                    (DirectionImage { data, releases, shape, transfer_id, flow }, last + 33),
                ),
            },
        },
    }
}

/// The parts of the payload contract that the bytes from `at` on speak of, or what is
/// wrong with them.
#[verifier::opaque]
pub open spec fn parsed_contract(bytes: Seq<u8>, at: int) -> Result<
    (PayloadKind, int, int, int),
    Fault,
> {
    let kind = PayloadKind::numbered(bytes[at] as int);
    let schema = field(bytes, at + 1, 8) as int;
    let size = field(bytes, at + 9, 8) as int;
    let align = field(bytes, at + 17, 8) as int;
    if at + 1 > bytes.len() {
        Err(Fault::Truncated)
    } else if kind is None {
        Err(Fault::SetupPayloadKind)
    } else if at + 17 > bytes.len() {
        Err(Fault::Truncated)
    } else if size > usize::MAX {
        Err(Fault::SetupPayloadSize)
    } else if at + 25 > bytes.len() {
        Err(Fault::Truncated)
    } else if align > usize::MAX {
        Err(Fault::SetupPayloadAlign)
    } else if !sound_contract(kind->0, schema, size, align) {
        Err(Fault::PayloadContract)
    } else {
        Ok((kind->0, schema, size, align))
    }
}

/// Whether a contract has the given parts.
pub open spec fn made_of(payload: PayloadContract, parts: (PayloadKind, int, int, int)) -> bool {
    &&& payload.form() == parts.0
    &&& payload.schema() == parts.1
    &&& payload.size() == parts.2
    &&& payload.align() == parts.3
}

/// What is wrong with a setup frame, if anything is.
pub open spec fn frame_defect(bytes: Seq<u8>) -> Option<Fault> {
    if bytes.len() < 8 {
        Some(Fault::Truncated)
    } else if bytes.take(8) != magic() {
        Some(Fault::SetupMagic)
    } else if bytes.len() < 10 {
        Some(Fault::Truncated)
    } else if field(bytes, 8, 2) != SETUP_VERSION {
        Some(Fault::SetupVersion)
    } else {
        match parsed_contract(bytes, 10) {
            Err(fault) => Some(fault),
            Ok(_) => match parsed_direction(bytes, 35) {
                Err(fault) => Some(fault),
                Ok((_, next)) => match parsed_direction(bytes, next) {
                    Err(fault) => Some(fault),
                    Ok(_) => None,
                },
            },
        }
    }
}

/// Whether a setup frame says `image` and ends at `end`.
pub open spec fn says(bytes: Seq<u8>, image: SetupImage, end: int) -> bool {
    &&& frame_defect(bytes) is None
    &&& parsed_contract(bytes, 10) matches Ok(parts) && made_of(image.payload, parts)
    &&& parsed_direction(bytes, 35) matches Ok((first, next)) && first == image.parent_to_worker
        && parsed_direction(bytes, next) == Ok::<(DirectionImage, int), Fault>(
        (image.worker_to_parent, end),
    )
}

/// Append what a frame says of a region.
fn write_region(out: &mut Vec<u8>, handle: &RegionHandle)
    requires
        handle.wf(),
    ensures
        final(out)@ == old(out)@ + RegionImage::of(*handle).bytes(),
{
    let ghost before = out@;
    let name: &[u8] = handle.name().as_bytes();
    let len: usize = name.len();
    put(out, len as u64, 2);
    let ghost middle = out@;
    let mut k: usize = 0;
    assert(out@ =~= middle + name@.take(0));
    while k < len
        invariant
            k <= len,
            len == name@.len(),
            out@ == middle + name@.take(k as int),
        decreases len - k,
    {
        out.push(name[k]);
        k = k + 1;
        assert(out@ =~= middle + name@.take(k as int));
    }
    assert(name@.take(len as int) =~= name@);
    put(out, handle.len() as u64, 8);
    assert(out@ =~= before + RegionImage::of(*handle).bytes());
}

/// Append what a frame says of a direction.
fn write_direction(out: &mut Vec<u8>, handle: &DirectionHandle)
    requires
        handle.wf(),
    ensures
        final(out)@ == old(out)@ + DirectionImage::of(*handle).bytes(),
{
    let ghost before = out@;
    write_region(out, handle.data_region());
    write_region(out, handle.release_region());
    let shape: StreamShape = handle.shape();
    put(out, shape.total_bytes, 8);
    put(out, shape.chunk_bytes as u64, 8);
    put(out, shape.slots as u64, 8);
    put(out, handle.transfer_id(), 8);
    put(out, handle.flow().code() as u64, 1);
    assert(out@ =~= before + DirectionImage::of(*handle).bytes());
}

/// Append what a frame says of a payload contract.
pub fn write_payload(out: &mut Vec<u8>, payload: PayloadContract)
    ensures
        final(out)@ == old(out)@ + contract_bytes(payload),
{
    let ghost before = out@;
    put(out, payload.kind().code() as u64, 1);
    put(out, payload.schema_id(), 8);
    put(out, payload.element_size() as u64, 8);
    put(out, payload.element_align() as u64, 8);
    assert(out@ =~= before + contract_bytes(payload));
}

/// The setup frame of a handle.
pub fn write_frame(handle: &DuplexHandle) -> (frame: Vec<u8>)
    requires
        handle.wf(),
    ensures
        frame@ == SetupImage::of(*handle).bytes(),
{
    let mut frame: Vec<u8> = setup_magic();
    put(&mut frame, SETUP_VERSION as u64, 2);
    write_payload(&mut frame, handle.payload);
    write_direction(&mut frame, &handle.parent_to_worker);
    write_direction(&mut frame, &handle.worker_to_parent);
    assert(frame@ =~= SetupImage::of(*handle).bytes());
    frame
}

/// Read a region.
fn read_region(bytes: &[u8], at: usize) -> (result: Result<(RegionHandle, usize), Fault>)
    requires
        at <= bytes@.len(),
    ensures
        result matches Ok(read) ==> read.0.wf() && read.1 <= bytes@.len() && parsed_region(
            bytes@,
            at as int,
        ) == Ok::<(RegionImage, int), Fault>((RegionImage::of(read.0), read.1 as int)),
        result matches Err(fault) ==> parsed_region(bytes@, at as int) == Err::<
            (RegionImage, int),
            Fault,
        >(fault),
{
    proof {
        reveal(parsed_region);
    }
    let len: usize = bytes.len();
    if len - at < 2 {
        return Err(Fault::Truncated);
    }
    proof {
        lemma_le_limits();
    }
    let name_len: usize = get(bytes, at, 2) as usize;
    if name_len == 0 || name_len > MAX_REGION_NAME {
        return Err(Fault::SetupRegionName);
    }
    let start: usize = at + 2;
    if len - start < name_len {
        return Err(Fault::Truncated);
    }
    let end: usize = start + name_len;
    let name: String = match text_of(slice_subrange(bytes, start, end)) {
        Some(name) => name,
        None => {
            return Err(Fault::SetupRegionUtf8);
        },
    };
    if len - end < 8 {
        return Err(Fault::Truncated);
    }
    let extent: u64 = get(bytes, end, 8);
    if extent > usize::MAX as u64 {
        return Err(Fault::SetupRegionLength);
    }
    match RegionHandle::from_parts(name, extent as usize) {
        Ok(handle) => Ok((handle, end + 8)),
        Err(fault) => Err(fault),
    }
}

/// Read a direction.
fn read_direction(bytes: &[u8], at: usize) -> (result: Result<(DirectionHandle, usize), Fault>)
    requires
        at <= bytes@.len(),
    ensures
        result matches Ok(read) ==> read.0.wf() && read.1 <= bytes@.len() && parsed_direction(
            bytes@,
            at as int,
        ) == Ok::<(DirectionImage, int), Fault>((DirectionImage::of(read.0), read.1 as int)),
        result matches Err(fault) ==> parsed_direction(bytes@, at as int) == Err::<
            (DirectionImage, int),
            Fault,
        >(fault),
{
    proof {
        reveal(parsed_direction);
        reveal(parsed_numbers);
    }
    let len: usize = bytes.len();
    let (data, next) = match read_region(bytes, at) {
        Ok(read) => read,
        Err(fault) => {
            return Err(fault);
        },
    };
    let (releases, last) = match read_region(bytes, next) {
        Ok(read) => read,
        Err(fault) => {
            return Err(fault);
        },
    };
    let left: usize = len - last;
    if left < 16 {
        return Err(Fault::Truncated);
    }
    let total_bytes: u64 = get(bytes, last, 8);
    let chunk_bytes: u64 = get(bytes, last + 8, 8);
    if chunk_bytes > usize::MAX as u64 {
        return Err(Fault::SetupChunkSize);
    }
    if left < 24 {
        return Err(Fault::Truncated);
    }
    let slots: u64 = get(bytes, last + 16, 8);
    if slots > usize::MAX as u64 {
        return Err(Fault::SetupSlotCount);
    }
    if left < 33 {
        return Err(Fault::Truncated);
    }
    let transfer_id: u64 = get(bytes, last + 24, 8);
    let flow: StreamFlow = match StreamFlow::from_code(bytes[last + 32]) {
        Ok(flow) => flow,
        Err(fault) => {
            return Err(fault);
        },
    };
    let shape = StreamShape {
        total_bytes,
        chunk_bytes: chunk_bytes as usize,
        slots: slots as usize,
    };
    match DirectionHandle::from_parts(data, releases, shape, transfer_id, flow) {
        Ok(handle) => Ok((handle, last + 33)),
        Err(fault) => Err(fault),
    }
}

/// Read a payload contract.
fn read_payload(bytes: &[u8], at: usize) -> (result: Result<PayloadContract, Fault>)
    requires
        at <= bytes@.len(),
    ensures
        result matches Ok(payload) ==> at + 25 <= bytes@.len() && payload.valid() && (
        parsed_contract(bytes@, at as int) matches Ok(parts) && made_of(payload, parts)),
        result matches Err(fault) ==> parsed_contract(bytes@, at as int) == Err::<
            (PayloadKind, int, int, int),
            Fault,
        >(fault),
{
    proof {
        reveal(parsed_contract);
    }
    let left: usize = bytes.len() - at;
    if left < 1 {
        return Err(Fault::Truncated);
    }
    let kind: PayloadKind = match PayloadKind::from_code(bytes[at]) {
        Some(kind) => kind,
        None => {
            return Err(Fault::SetupPayloadKind);
        },
    };
    if left < 17 {
        return Err(Fault::Truncated);
    }
    let schema_id: u64 = get(bytes, at + 1, 8);
    let size: u64 = get(bytes, at + 9, 8);
    if size > usize::MAX as u64 {
        return Err(Fault::SetupPayloadSize);
    }
    if left < 25 {
        return Err(Fault::Truncated);
    }
    let align: u64 = get(bytes, at + 17, 8);
    if align > usize::MAX as u64 {
        return Err(Fault::SetupPayloadAlign);
    }
    let payload: PayloadContract = PayloadContract::from_parts(
        kind,
        schema_id,
        size as usize,
        align as usize,
    );
    match payload.validate() {
        Ok(()) => Ok(payload),
        Err(fault) => Err(fault),
    }
}

/// Read a setup frame, and say where it ends.
pub fn read_frame(bytes: &[u8]) -> (result: Result<(DuplexHandle, usize), Fault>)
    ensures
        result is Ok <==> frame_defect(bytes@) is None,
        result matches Ok(read) ==> read.0.wf() && read.1 <= bytes@.len() && says(
            bytes@,
            SetupImage::of(read.0),
            read.1 as int,
        ),
        result matches Err(fault) ==> frame_defect(bytes@) == Some(fault),
{
    let len: usize = bytes.len();
    if len < 8 {
        return Err(Fault::Truncated);
    }
    let magic: Vec<u8> = setup_magic();
    let mut k: usize = 0;
    while k < 8
        invariant
            k <= 8,
            8 <= len,
            len == bytes@.len(),
            magic@ == self::magic(),
            bytes@.take(k as int) == self::magic().take(k as int),
        decreases 8 - k,
    {
        if bytes[k] != magic[k] {
            assert(bytes@.take(8)[k as int] != self::magic()[k as int]);
            return Err(Fault::SetupMagic);
        }
        k = k + 1;
        assert(bytes@.take(k as int) =~= self::magic().take(k as int));
    }
    assert(self::magic().take(8) =~= self::magic());
    if len < 10 {
        return Err(Fault::Truncated);
    }
    if get(bytes, 8, 2) != SETUP_VERSION as u64 {
        return Err(Fault::SetupVersion);
    }
    let payload: PayloadContract = match read_payload(bytes, 10) {
        Ok(payload) => payload,
        Err(fault) => {
            return Err(fault);
        },
    };
    let (parent_to_worker, next) = match read_direction(bytes, 35) {
        Ok(read) => read,
        Err(fault) => {
            return Err(fault);
        },
    };
    match read_direction(bytes, next) {
        Ok((worker_to_parent, end)) => Ok(
            (DuplexHandle { parent_to_worker, worker_to_parent, payload }, end),
        ),
        Err(fault) => Err(fault),
    }
}

/// What the peer's answer means.
pub fn acknowledged(answer: u8) -> (result: Result<(), Fault>)
    ensures
        result is Ok <==> answer == ACCEPTED,
        result matches Err(fault) ==> fault == if answer == REJECTED {
            Fault::SetupRejected
        } else {
            Fault::SetupAcknowledgement
        },
{
    if answer == ACCEPTED {
        Ok(())
    } else if answer == REJECTED {
        Err(Fault::SetupRejected)
    } else {
        Err(Fault::SetupAcknowledgement)
    }
}

/// A number in the middle of other bytes.
proof fn lemma_field_between(before: Seq<u8>, value: nat, n: nat, after: Seq<u8>)
    requires
        value < le_limit(n),
    ensures
        field(before + le_bytes(value, n) + after, before.len() as int, n as int) == value,
        le_bytes(value, n).len() == n,
{
    lemma_value_of_le(value, n);
    assert((before + le_bytes(value, n) + after).subrange(
        before.len() as int,
        (before.len() + n) as int,
    ) =~= le_bytes(value, n));
}

/// A region in the middle of other bytes is read as it was written.
proof fn lemma_region_between(before: Seq<u8>, image: RegionImage, after: Seq<u8>)
    requires
        image.valid(),
    ensures
        parsed_region(before + image.bytes() + after, before.len() as int) == Ok::<
            (RegionImage, int),
            Fault,
        >((image, (before.len() + image.bytes().len()) as int)),
{
    reveal(parsed_region);
    lemma_le_limits();
    let b = before + image.bytes() + after;
    let at = before.len() as int;
    let head = le_bytes(image.name.len(), 2);
    let tail = le_bytes(image.len as nat, 8);
    lemma_field_between(before, image.name.len(), 2, image.name + tail + after);
    assert(b =~= before + head + (image.name + tail + after));
    lemma_field_between(before + head + image.name, image.len as nat, 8, after);
    assert(b =~= (before + head + image.name) + tail + after);
    let end = at + 2 + image.name.len();
    assert(b.subrange(at + 2, end) =~= image.name);
}

/// The numbers of a direction in the middle of other bytes are read as they were written.
proof fn lemma_numbers_between(before: Seq<u8>, image: DirectionImage, after: Seq<u8>)
    requires
        image.valid(),
    ensures
        parsed_numbers(before + image.numbers() + after, before.len() as int) == Ok::<
            (StreamShape, u64, StreamFlow),
            Fault,
        >((image.shape, image.transfer_id, image.flow)),
        image.numbers().len() == 33,
{
    reveal(parsed_numbers);
    lemma_le_limits();
    let b = before + image.numbers() + after;
    let at = before.len() as int;
    let f0 = le_bytes(image.shape.total_bytes as nat, 8);
    let f1 = le_bytes(image.shape.chunk_bytes as nat, 8);
    let f2 = le_bytes(image.shape.slots as nat, 8);
    let f3 = le_bytes(image.transfer_id as nat, 8);
    let f4 = le_bytes(image.flow.number() as nat, 1);
    lemma_value_of_le(image.shape.total_bytes as nat, 8);
    lemma_value_of_le(image.shape.chunk_bytes as nat, 8);
    lemma_value_of_le(image.shape.slots as nat, 8);
    lemma_value_of_le(image.transfer_id as nat, 8);
    lemma_value_of_le(image.flow.number() as nat, 1);
    assert(b.subrange(at, at + 8) =~= f0);
    assert(b.subrange(at + 8, at + 16) =~= f1);
    assert(b.subrange(at + 16, at + 24) =~= f2);
    assert(b.subrange(at + 24, at + 32) =~= f3);
    reveal_with_fuel(le_bytes, 2);
    assert(b[at + 32] == f4[0]);
}

/// A direction in the middle of other bytes is read as it was written.
proof fn lemma_direction_between(before: Seq<u8>, image: DirectionImage, after: Seq<u8>)
    requires
        image.valid(),
    ensures
        parsed_direction(before + image.bytes() + after, before.len() as int) == Ok::<
            (DirectionImage, int),
            Fault,
        >((image, (before.len() + image.bytes().len()) as int)),
{
    reveal(parsed_direction);
    let b = before + image.bytes() + after;
    let x = image.data.bytes();
    let y = image.releases.bytes();
    let z = image.numbers();
    lemma_region_between(before, image.data, y + z + after);
    assert(b =~= before + x + (y + z + after));
    lemma_region_between(before + x, image.releases, z + after);
    assert(b =~= (before + x) + y + (z + after));
    lemma_numbers_between(before + x + y, image, after);
    assert(b =~= (before + x + y) + z + after);
}

/// A payload contract in the middle of other bytes is read as it was written.
proof fn lemma_contract_between(before: Seq<u8>, payload: PayloadContract, after: Seq<u8>)
    requires
        payload.valid(),
    ensures
        parsed_contract(before + contract_bytes(payload) + after, before.len() as int) == Ok::<
            (PayloadKind, int, int, int),
            Fault,
        >(
            (
                payload.form(),
                payload.schema() as int,
                payload.size() as int,
                payload.align() as int,
            ),
        ),
        contract_bytes(payload).len() == 25,
{
    reveal(parsed_contract);
    lemma_le_limits();
    let b = before + contract_bytes(payload) + after;
    let at = before.len() as int;
    let f0 = le_bytes(payload.form().number() as nat, 1);
    lemma_value_of_le(payload.form().number() as nat, 1);
    lemma_value_of_le(payload.schema() as nat, 8);
    lemma_value_of_le(payload.size() as nat, 8);
    lemma_value_of_le(payload.align() as nat, 8);
    reveal_with_fuel(le_bytes, 2);
    assert(b[at] == f0[0]);
    assert(b.subrange(at + 1, at + 9) =~= le_bytes(payload.schema() as nat, 8));
    assert(b.subrange(at + 9, at + 17) =~= le_bytes(payload.size() as nat, 8));
    assert(b.subrange(at + 17, at + 25) =~= le_bytes(payload.align() as nat, 8));
}

/// Reading a setup frame gives back what was written, whatever follows it.
pub proof fn law_setup_survives_the_wire(image: SetupImage, after: Seq<u8>)
    requires
        image.valid(),
    ensures
        says(image.bytes() + after, image, image.bytes().len() as int),
{
    lemma_le_limits();
    let b = image.bytes() + after;
    let version = le_bytes(SETUP_VERSION as nat, 2);
    let contract = contract_bytes(image.payload);
    let first = image.parent_to_worker.bytes();
    let second = image.worker_to_parent.bytes();
    lemma_value_of_le(SETUP_VERSION as nat, 2);
    assert(b.take(8) =~= magic());
    assert(b.subrange(8, 10) =~= version);
    lemma_contract_between(magic() + version, image.payload, first + second + after);
    assert(b =~= (magic() + version) + contract + (first + second + after));
    let before = magic() + version + contract;
    assert(before.len() == 35);
    lemma_direction_between(before, image.parent_to_worker, second + after);
    assert(b =~= before + first + (second + after));
    lemma_direction_between(before + first, image.worker_to_parent, after);
    assert(b =~= (before + first) + second + after);
}

/// A setup frame says one thing.
pub proof fn law_setup_is_unambiguous(bytes: Seq<u8>, a: SetupImage, b: SetupImage, m: int, n: int)
    requires
        says(bytes, a, m),
        says(bytes, b, n),
    ensures
        a == b,
        m == n,
{
    PayloadContract::lemma_parts(a.payload, b.payload);
}

/// The handle of a channel can be written: what a frame says of it is valid.
pub proof fn law_handles_can_be_written(handle: DuplexHandle)
    requires
        handle.wf(),
    ensures
        SetupImage::of(handle).valid(),
{
    encode_utf8_valid_utf8(handle.parent_to_worker.data().text());
    encode_utf8_valid_utf8(handle.parent_to_worker.releases().text());
    encode_utf8_valid_utf8(handle.worker_to_parent.data().text());
    encode_utf8_valid_utf8(handle.worker_to_parent.releases().text());
}


/// A channel can be announced exactly where its contract is valid, each of its four regions has a
/// name of one to 240 bytes and some length, its streams are possible, and its transfers have
/// numbers.
pub proof fn law_possible_channels_can_be_announced(handle: DuplexHandle)
    ensures
        handle.wf() <==> {
            let there = handle.parent_to_worker;
            let back = handle.worker_to_parent;
            &&& handle.payload.valid()
            &&& 1 <= encode_utf8(there.data().text()).len() <= 240
            &&& 1 <= encode_utf8(there.releases().text()).len() <= 240
            &&& 1 <= encode_utf8(back.data().text()).len() <= 240
            &&& 1 <= encode_utf8(back.releases().text()).len() <= 240
            &&& 1 <= there.data().extent() <= isize::MAX
            &&& 1 <= there.releases().extent() <= isize::MAX
            &&& 1 <= back.data().extent() <= isize::MAX
            &&& 1 <= back.releases().extent() <= isize::MAX
            &&& there.dimensions().valid() && there.id() != 0
            &&& back.dimensions().valid() && back.id() != 0
        },
{
}

/// A frame is taken for a setup only where it starts with the name and the version of setups, and
/// a frame that does is refused only for what it says of the contract or of the directions.
pub proof fn law_setups_start_with_their_name(bytes: Seq<u8>)
    ensures
        frame_defect(bytes) is None ==> {
            &&& bytes.len() >= 10
            &&& bytes[0] == 0x50 && bytes[1] == 0x53 && bytes[2] == 0x43 && bytes[3] == 0x49
            &&& bytes[4] == 0x50 && bytes[5] == 0x43 && bytes[6] == 0 && bytes[7] == 0
            &&& field(bytes, 8, 2) == 1
            &&& parsed_contract(bytes, 10) is Ok
            &&& parsed_direction(bytes, 35) is Ok
        },
        frame_defect(bytes) == Some(Fault::SetupMagic) ==> bytes.take(8) != seq![
            0x50u8,
            0x53,
            0x43,
            0x49,
            0x50,
            0x43,
            0,
            0,
        ],
        frame_defect(bytes) == Some(Fault::SetupVersion) ==> {
            ||| field(bytes, 8, 2) != 1
            ||| parsed_contract(bytes, 10) == Err::<(PayloadKind, int, int, int), Fault>(
                Fault::SetupVersion,
            )
            ||| parsed_direction(bytes, 35) == Err::<(DirectionImage, int), Fault>(
                Fault::SetupVersion,
            )
            ||| parsed_direction(bytes, 35) is Ok
        },
{
    if frame_defect(bytes) is None {
        let start = bytes.take(8);
        assert(start == magic());
        assert(start[0] == bytes[0] && start[1] == bytes[1] && start[2] == bytes[2] && start[3]
            == bytes[3]);
        assert(start[4] == bytes[4] && start[5] == bytes[5] && start[6] == bytes[6] && start[7]
            == bytes[7]);
    }
    if frame_defect(bytes) == Some(Fault::SetupMagic) && bytes.len() >= 10 && bytes.take(8)
        == magic() {
        lemma_no_inner_magic_fault(bytes);
    }
}

/// What a setup says after its start is never refused for its start.
proof fn lemma_no_inner_magic_fault(bytes: Seq<u8>)
    ensures
        parsed_contract(bytes, 10) != Err::<(PayloadKind, int, int, int), Fault>(Fault::SetupMagic),
        forall|at: int| #[trigger]
            parsed_direction(bytes, at) != Err::<(DirectionImage, int), Fault>(Fault::SetupMagic),
{
    reveal(parsed_contract);
    assert forall|at: int| #[trigger]
        parsed_direction(bytes, at) != Err::<(DirectionImage, int), Fault>(Fault::SetupMagic) by {
        reveal(parsed_direction);
        reveal(parsed_region);
        reveal(parsed_numbers);
    }
}


/// Courses and their numbers stand for each other.
pub proof fn law_courses_have_numbers_of_their_own(flow: StreamFlow, code: int)
    ensures
        numbered_flow(flow.number() as int) == Some(flow),
        numbered_flow(code) == Some(flow) ==> code == flow.number(),
        numbered_flow(code) is None <==> !(1 <= code <= 2),
{
}

} // verus!
