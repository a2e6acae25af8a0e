//! Opened process channels.
use super::destination::{bytes_of, images, PodDestination};
use super::payload::{IpcCodec, IpcPod, PayloadContract, PayloadKind};
use super::setup::{DuplexHandle, ACCEPTED, REJECTED};
use super::region::RegionHandle;
use super::stream::{
    arena_len, descriptors_for, flags_of, reopen_defect, Consume, Direction, DirectionConfig,
    DirectionHandle, DirectionRole, EndpointOptions, Ending, Produce, StreamFlow, StreamShape,
    Words,
};
use super::wire::ByteOrder;
use super::Fault;
use core::marker::PhantomData;
use vstd::prelude::*;

verus! {

/// The sending half of an opened byte-stream process channel.
#[derive(Clone, Copy, Debug, PartialEq, Eq, Structural)]
pub struct Sender {
    direction: Direction,
}

/// The receiving half of an opened byte-stream process channel.
#[derive(Clone, Copy, Debug, PartialEq, Eq, Structural)]
pub struct Receiver {
    direction: Direction,
}

/// The producer of a direction that has sent nothing.
pub open spec fn sending(direction: Direction, ending: Ending) -> Produce {
    Produce::started(direction.dimensions(), direction.id(), flags_of(direction.course()), ending)
}

/// The consumer of a direction that has received nothing.
pub open spec fn receiving(direction: Direction, ending: Ending) -> Consume {
    Consume::started(direction.dimensions(), direction.id(), flags_of(direction.course()), ending)
}

impl Sender {
    /// The direction that it sends in.
    pub closed spec fn course(&self) -> Direction {
        self.direction
    }

    /// Return the validated stream dimensions for this direction.
    pub fn shape(&self) -> (shape: StreamShape)
        ensures
            shape == self.course().dimensions(),
    {
        self.direction.shape()
    }

    /// Start to transfer exactly the declared byte count.
    pub fn send(&self) -> (side: Produce)
        requires
            self.course().wf(),
        ensures
            side == sending(self.course(), Ending::Exact),
            side.wf(),
    {
        self.direction.produce()
    }

    /// Start to transfer to the end of the source, bounded by the declared byte limit.
    pub fn send_to_end(&self) -> (side: Produce)
        requires
            self.course().wf(),
        ensures
            side == sending(self.course(), Ending::AtEnd),
            side.wf(),
    {
        self.direction.produce_to_end()
    }

    /// The direction that it sends in.
    pub fn direction(&self) -> (direction: Direction)
        ensures
            direction == self.course(),
    {
        self.direction
    }
}

impl Receiver {
    /// The direction that it receives from.
    pub closed spec fn course(&self) -> Direction {
        self.direction
    }

    /// Return the validated stream dimensions for this direction.
    pub fn shape(&self) -> (shape: StreamShape)
        ensures
            shape == self.course().dimensions(),
    {
        self.direction.shape()
    }

    /// Start to receive exactly the declared byte count.
    pub fn receive(&self) -> (side: Consume)
        requires
            self.course().wf(),
        ensures
            side == receiving(self.course(), Ending::Exact),
            side.wf(),
    {
        self.direction.consume()
    }

    /// Start to receive a terminal-length stream within the declared byte limit.
    pub fn receive_to_end(&self) -> (side: Consume)
        requires
            self.course().wf(),
        ensures
            side == receiving(self.course(), Ending::AtEnd),
            side.wf(),
    {
        self.direction.consume_to_end()
    }

    /// The direction that it receives from.
    pub fn direction(&self) -> (direction: Direction)
        ensures
            direction == self.course(),
    {
        self.direction
    }
}

/// An opened full-duplex raw-byte process channel.
#[derive(Clone, Copy, Debug, PartialEq, Eq, Structural)]
pub struct Duplex {
    outbound: Direction,
    inbound: Direction,
}

impl Duplex {
    /// The direction that it sends in.
    pub closed spec fn out(&self) -> Direction {
        self.outbound
    }

    /// The direction that it receives from.
    pub closed spec fn back(&self) -> Direction {
        self.inbound
    }

    /// Whether both directions can be used.
    pub open spec fn wf(&self) -> bool {
        self.out().wf() && self.back().wf()
    }

    /// A channel of two opened directions.
    pub fn new(outbound: Direction, inbound: Direction) -> (duplex: Duplex)
        ensures
            duplex.out() == outbound,
            duplex.back() == inbound,
    {
        Duplex { outbound, inbound }
    }

    /// Return the common dimensions of both directions.
    pub fn shape(&self) -> (shape: StreamShape)
        ensures
            shape == self.out().dimensions(),
    {
        self.outbound.shape()
    }

    /// Start to send exactly the declared byte count.
    pub fn send(&self) -> (side: Produce)
        requires
            self.wf(),
        ensures
            side == sending(self.out(), Ending::Exact),
            side.wf(),
    {
        self.outbound.produce()
    }

    /// Start to send to the end of the source within the declared byte ceiling.
    pub fn send_to_end(&self) -> (side: Produce)
        requires
            self.wf(),
        ensures
            side == sending(self.out(), Ending::AtEnd),
            side.wf(),
    {
        self.outbound.produce_to_end()
    }

    /// Start to receive exactly the declared byte count.
    pub fn receive(&self) -> (side: Consume)
        requires
            self.wf(),
        ensures
            side == receiving(self.back(), Ending::Exact),
            side.wf(),
    {
        self.inbound.consume()
    }

    /// Start to receive a terminal-length stream within the declared byte ceiling.
    pub fn receive_to_end(&self) -> (side: Consume)
        requires
            self.wf(),
        ensures
            side == receiving(self.back(), Ending::AtEnd),
            side.wf(),
    {
        self.inbound.consume_to_end()
    }

    /// Split the session into independently movable send and receive halves.
    pub fn split(self) -> (halves: (Sender, Receiver))
        ensures
            halves.0.course() == self.out(),
            halves.1.course() == self.back(),
    {
        (Sender { direction: self.outbound }, Receiver { direction: self.inbound })
    }
}

/// A process duplex whose byte stream is exactly a sequence of `P` values.
pub struct PodDuplex<P: IpcPod> {
    raw: Duplex,
    order: ByteOrder,
    payload: PhantomData<P>,
}

/// Why values cannot be sent, if they cannot.
pub open spec fn slice_defect(bytes: int, shape: StreamShape) -> Option<Fault> {
    if bytes > usize::MAX {
        Some(Fault::PodSliceSize)
    } else if shape.total_bytes > usize::MAX {
        Some(Fault::PodShapeSize)
    } else if bytes != shape.total_bytes {
        Some(Fault::PodSliceShape)
    } else {
        None
    }
}

impl<P: IpcPod> PodDuplex<P> {
    /// The channel underneath.
    pub closed spec fn channel(&self) -> Duplex {
        self.raw
    }

    /// The byte order of the values.
    pub closed spec fn order(&self) -> ByteOrder {
        self.order
    }

    /// A channel of values on a machine of some byte order.
    pub fn new(raw: Duplex, order: ByteOrder) -> (duplex: Self)
        ensures
            duplex.channel() == raw,
            duplex.order() == order,
    {
        PodDuplex { raw, order, payload: PhantomData }
    }

    /// Start to send exactly the values that the declared byte count asks for. The bytes of
    /// the values are the source.
    pub fn send(&self, values: &[P]) -> (result: Result<(Vec<u8>, Produce), Fault>)
        requires
            self.channel().wf(),
        ensures
            result is Ok <==> slice_defect(
                (values@.len() * P::width()) as int,
                self.channel().out().dimensions(),
            ) is None,
            result matches Ok(started) ==> started.0@ == images(values@, self.order()) && started.0@.len()
                == self.channel().out().dimensions().total_bytes && started.1 == sending(
                self.channel().out(),
                Ending::Exact,
            ) && started.1.wf(),
            result matches Err(fault) ==> slice_defect(
                (values@.len() * P::width()) as int,
                self.channel().out().dimensions(),
            ) == Some(fault),
    {
        let bytes_len: usize = match values.len().checked_mul(P::size()) {
            Some(len) => len,
            None => {
                return Err(Fault::PodSliceSize);
            },
        };
        let total: u64 = self.raw.shape().total_bytes;
        if total > usize::MAX as u64 {
            return Err(Fault::PodShapeSize);
        }
        if bytes_len != total as usize {
            return Err(Fault::PodSliceShape);
        }
        Ok((bytes_of(values, self.order), self.raw.send()))
    }

    /// Start to receive the declared values. The destination is the sink.
    pub fn receive(&self) -> (result: Result<(PodDestination<P>, Consume), Fault>)
        requires
            self.channel().wf(),
        ensures
            ({
                let total = self.channel().back().dimensions().total_bytes as int;
                &&& result is Ok <==> total <= usize::MAX && P::width() > 0 && total % (
                P::width() as int) == 0
                &&& result matches Err(fault) ==> fault == if total > usize::MAX {
                    Fault::PodShapeSize
                } else {
                    Fault::PodDestinationShape
                }
                &&& result matches Ok(started) ==> started.0.wf() && started.0.extent() == total
                    && started.0.order() == self.order() && started.0.held() == Seq::<u8>::empty() && started.1 == receiving(
                    self.channel().back(),
                    Ending::Exact,
                ) && started.1.wf()
            }),
    {
        let total: u64 = self.raw.inbound.shape().total_bytes;
        if total > usize::MAX as u64 {
            return Err(Fault::PodShapeSize);
        }
        match PodDestination::<P>::new(total as usize, self.order) {
            Ok(destination) => Ok((destination, self.raw.receive())),
            Err(fault) => Err(fault),
        }
    }
}

/// A process duplex that encodes and decodes values through `C`.
pub struct CodecDuplex<T, C: IpcCodec<T>> {
    raw: Duplex,
    codec: PhantomData<(T, C)>,
}

impl<T, C: IpcCodec<T>> CodecDuplex<T, C> {
    /// The channel underneath.
    pub closed spec fn channel(&self) -> Duplex {
        self.raw
    }

    /// A channel of encoded values.
    pub fn new(raw: Duplex) -> (duplex: Self)
        ensures
            duplex.channel() == raw,
    {
        CodecDuplex { raw, codec: PhantomData }
    }

    /// Encode one value, and start to send it, bounded by the declared byte limit. The
    /// encoding is the source.
    pub fn send(&self, value: &T) -> (result: Result<(Vec<u8>, Produce), C::Error>)
        requires
            self.channel().wf(),
        ensures
            result matches Ok(started) ==> C::encodes(*value, Ok(started.0@)) && started.1
                == sending(self.channel().out(), Ending::AtEnd) && started.1.wf(),
            result matches Err(error) ==> C::encodes(*value, Err(error)),
    {
        let mut encoded: Vec<u8> = Vec::new();
        match C::encode(value, &mut encoded) {
            Ok(()) => {},
            Err(error) => {
                return Err(error);
            },
        }
        assert(encoded@.skip(0) =~= encoded@);
        Ok((encoded, self.raw.send_to_end()))
    }

    /// Start to receive one encoded value.
    pub fn receive(&self) -> (side: Consume)
        requires
            self.channel().wf(),
        ensures
            side == receiving(self.channel().back(), Ending::AtEnd),
            side.wf(),
    {
        self.raw.receive_to_end()
    }

    /// Decode what was received.
    pub fn received(&self, encoded: &[u8]) -> (result: Result<T, C::Error>)
        ensures
            C::decodes(encoded@, result),
    {
        C::decode(encoded)
    }
}

/// The configurations of the two directions of a new channel.
pub fn paired_configs(shape: StreamShape, transfer_id: u64, options: EndpointOptions) -> (result:
    Result<(DirectionConfig, DirectionConfig), Fault>)
    ensures
        result is Ok <==> transfer_id < u64::MAX,
        result matches Ok(pair) ==> pair.0 == (DirectionConfig {
            shape,
            transfer_id,
            flow: StreamFlow::ParentToWorker,
            options,
        }) && pair.1 == (DirectionConfig {
            shape,
            transfer_id: (transfer_id + 1) as u64,
            flow: StreamFlow::WorkerToParent,
            options,
        }),
        result matches Err(fault) ==> fault == Fault::TransferIdOverflow,
{
    match transfer_id.checked_add(1) {
        Some(reverse_id) => Ok(
            (
                DirectionConfig { shape, transfer_id, flow: StreamFlow::ParentToWorker, options },
                DirectionConfig {
                    shape,
                    transfer_id: reverse_id,
                    flow: StreamFlow::WorkerToParent,
                    options,
                },
            ),
        ),
        None => Err(Fault::TransferIdOverflow),
    }
}

/// Whether a handle announces a direction of the given configuration.
pub open spec fn announces(handle: DirectionHandle, config: DirectionConfig) -> bool {
    &&& handle.dimensions() == config.shape
    &&& handle.id() == config.transfer_id
    &&& handle.course() == config.flow
}

/// Whether the two directions of a handle belong together.
pub open spec fn paired(handle: DuplexHandle) -> bool {
    &&& handle.parent_to_worker.dimensions() == handle.worker_to_parent.dimensions()
    &&& handle.parent_to_worker.course() == StreamFlow::ParentToWorker
    &&& handle.worker_to_parent.course() == StreamFlow::WorkerToParent
    &&& handle.parent_to_worker.id() + 1 == handle.worker_to_parent.id()
}

/// Why a peer refuses a setup, if it does.
pub open spec fn setup_defect(handle: DuplexHandle, expected: PayloadContract) -> Option<Fault> {
    if !handle.payload.valid() {
        Some(Fault::PayloadContract)
    } else if handle.payload != expected {
        Some(Fault::PayloadMismatch)
    } else if !paired(handle) {
        Some(Fault::Unpaired)
    } else if handle.payload.form() == PayloadKind::Pod
        && handle.parent_to_worker.dimensions().total_bytes as int % (handle.payload.size() as int)
        != 0 {
        Some(Fault::PodShape)
    } else {
        None
    }
}

/// Check a setup before any region is mapped.
pub fn check_setup(handle: &DuplexHandle, expected: PayloadContract) -> (result: Result<(), Fault>)
    ensures
        result is Ok <==> setup_defect(*handle, expected) is None,
        result matches Err(fault) ==> setup_defect(*handle, expected) == Some(fault),
{
    match handle.payload.validate() {
        Ok(()) => {},
        Err(fault) => {
            return Err(fault);
        },
    }
    if handle.payload != expected {
        return Err(Fault::PayloadMismatch);
    }
    let outbound: StreamShape = handle.parent_to_worker.shape();
    let consecutive: bool = match handle.parent_to_worker.transfer_id().checked_add(1) {
        Some(next) => next == handle.worker_to_parent.transfer_id(),
        None => false,
    };
    if outbound != handle.worker_to_parent.shape() || handle.parent_to_worker.flow()
        != StreamFlow::ParentToWorker || handle.worker_to_parent.flow()
        != StreamFlow::WorkerToParent || !consecutive {
        return Err(Fault::Unpaired);
    }
    match handle.payload.kind() {
        PayloadKind::Pod => {
            if outbound.total_bytes % (handle.payload.element_size() as u64) != 0 {
                return Err(Fault::PodShape);
            }
        },
        _ => {},
    }
    Ok(())
}

/// What a peer answers: it takes the setup exactly when it could open both directions.
pub fn setup_answer(opened: bool) -> (answer: u8)
    ensures
        answer == if opened {
            ACCEPTED
        } else {
            REJECTED
        },
{
    if opened {
        ACCEPTED
    } else {
        REJECTED
    }
}

/// What a creator announces is what its peer takes: the two directions of a new channel
/// belong together.
pub proof fn law_new_channels_are_paired(
    shape: StreamShape,
    transfer_id: u64,
    options: EndpointOptions,
    outbound: DirectionConfig,
    inbound: DirectionConfig,
    handle: DuplexHandle,
)
    requires
        transfer_id < u64::MAX,
        outbound == (DirectionConfig {
            shape,
            transfer_id,
            flow: StreamFlow::ParentToWorker,
            options,
        }),
        inbound == (DirectionConfig {
            shape,
            transfer_id: (transfer_id + 1) as u64,
            flow: StreamFlow::WorkerToParent,
            options,
        }),
        announces(handle.parent_to_worker, outbound),
        announces(handle.worker_to_parent, inbound),
        handle.payload.valid(),
        handle.payload.form() == PayloadKind::Pod ==> shape.total_bytes as int % (
        handle.payload.size() as int) == 0,
    ensures
        setup_defect(handle, handle.payload) is None,
{
}

/// A channel of plain data is joined by every peer that expects the same type: a creator that
/// announces room for a whole number of values of a type whose identifier and width are not
/// zero is never refused, however wide the values are.
pub proof fn law_plain_data_channels_are_joined<P: IpcPod>(
    shape: StreamShape,
    values: int,
    transfer_id: u64,
    options: EndpointOptions,
    handle: DuplexHandle,
    expected: PayloadContract,
)
    requires
        P::schema() != 0,
        P::width() > 0,
        shape.total_bytes == values * P::width(),
        transfer_id < u64::MAX,
        announces(
            handle.parent_to_worker,
            DirectionConfig { shape, transfer_id, flow: StreamFlow::ParentToWorker, options },
        ),
        announces(
            handle.worker_to_parent,
            DirectionConfig {
                shape,
                transfer_id: (transfer_id + 1) as u64,
                flow: StreamFlow::WorkerToParent,
                options,
            },
        ),
        handle.payload.form() == PayloadKind::Pod,
        handle.payload.schema() == P::schema(),
        handle.payload.size() == P::width(),
        handle.payload.align() == vstd::layout::align_of::<P>(),
        expected.form() == PayloadKind::Pod,
        expected.schema() == P::schema(),
        expected.size() == P::width(),
        expected.align() == vstd::layout::align_of::<P>(),
    ensures
        setup_defect(handle, expected) is None,
{
    crate::ipc::payload::law_plain_data_contracts_are_valid::<P>(handle.payload);
    PayloadContract::lemma_parts(handle.payload, expected);
    vstd::arithmetic::div_mod::lemma_mod_multiples_basic(values, P::width() as int);
}

/// Both ends of a direction speak of the same stream: where they agree on its dimensions, its
/// transfer and its course, what one starts to send is what the other starts to receive.
pub proof fn law_both_ends_speak_of_one_stream(
    sender: Direction,
    receiver: Direction,
    ending: Ending,
)
    requires
        sender.dimensions() == receiver.dimensions(),
        sender.id() == receiver.id(),
        sender.course() == receiver.course(),
    ensures
        ({
            let tx = sending(sender, ending);
            let rx = receiving(receiver, ending);
            &&& tx.shape == sender.dimensions() && rx.shape == tx.shape
            &&& tx.transfer_id == sender.id() && rx.transfer_id == tx.transfer_id
            &&& rx.flags == tx.flags
            &&& tx.ending == ending && rx.ending == ending
            &&& tx.chunks == 0 && tx.released == 0 && tx.total == 0 && tx.aggregate == 0
            &&& rx.chunks == 0 && rx.total == 0 && rx.aggregate == 0
        }),
{
}

/// A peer takes a setup only where both sides mean the same: the same contract, equal dimensions,
/// opposite courses and consecutive transfers, and for plain data a whole number of values. It
/// refuses every other one.
pub proof fn law_peers_take_only_what_they_expect(handle: DuplexHandle, expected: PayloadContract)
    requires
        expected.valid(),
    ensures
        setup_defect(handle, expected) is None <==> {
            &&& handle.payload == expected
            &&& handle.parent_to_worker.dimensions() == handle.worker_to_parent.dimensions()
            &&& handle.parent_to_worker.course() == StreamFlow::ParentToWorker
            &&& handle.worker_to_parent.course() == StreamFlow::WorkerToParent
            &&& handle.worker_to_parent.id() - handle.parent_to_worker.id() == 1
            &&& expected.form() == PayloadKind::Pod ==> exists|values: int|
                handle.parent_to_worker.dimensions().total_bytes == #[trigger] (values
                    * expected.size())
        },
{
    let total = handle.parent_to_worker.dimensions().total_bytes as int;
    let size = expected.size() as int;
    if expected.form() == PayloadKind::Pod {
        crate::ipc::payload::law_valid_contracts_tell_their_elements(expected);
        vstd::arithmetic::div_mod::lemma_fundamental_div_mod(total, size);
        if total % size == 0 {
            let values = total / size;
            assert(total == values * expected.size()) by (nonlinear_arith)
                requires
                    total == size * values,
                    size == expected.size(),
            ;
        }
        assert forall|values: int| total == #[trigger] (values * expected.size()) implies total
            % size == 0 by {
            vstd::arithmetic::div_mod::lemma_mod_multiples_basic(values, size);
        }
    }
}

/// A list of values is sent exactly where its bytes are as many as the declared byte count and
/// both can be counted.
pub proof fn law_lists_are_sent_where_they_fill_the_stream(bytes: int, shape: StreamShape)
    requires
        0 <= bytes,
    ensures
        slice_defect(bytes, shape) is None <==> bytes == shape.total_bytes && bytes <= usize::MAX,
{
}

/// Why a channel cannot be created, if it cannot.
pub open spec fn create_defect(
    shape: StreamShape,
    transfer_id: u64,
    options: EndpointOptions,
) -> Option<Fault> {
    let out = DirectionConfig { shape, transfer_id, flow: StreamFlow::ParentToWorker, options };
    let back = DirectionConfig {
        shape,
        transfer_id: (transfer_id + 1) as u64,
        flow: StreamFlow::WorkerToParent,
        options,
    };
    if transfer_id == u64::MAX {
        Some(Fault::TransferIdOverflow)
    } else if out.defect() is Some {
        out.defect()
    } else {
        back.defect()
    }
}

/// A channel can be created exactly where its stream is possible, where its transfer has a number
/// and there is one more for the way back, and where waiting takes some time.
pub proof fn law_possible_channels_are_created(
    shape: StreamShape,
    transfer_id: u64,
    options: EndpointOptions,
)
    ensures
        create_defect(shape, transfer_id, options) is None <==> super::stream::direction_defect(
            shape,
        ) is None && 0 < transfer_id < u64::MAX && options.timeout_nanos != 0,
{
}

/// Create a channel: lay out the regions of both directions, claim a role in each, and
/// return the handle for the peer.
pub fn create(
    shape: StreamShape,
    transfer_id: u64,
    options: EndpointOptions,
    payload: PayloadContract,
    out_data: RegionHandle,
    out_data_words: &mut Words,
    out_data_bytes: &mut [u8],
    out_releases: RegionHandle,
    out_release_words: &mut Words,
    out_release_bytes: &mut [u8],
    back_data: RegionHandle,
    back_data_words: &mut Words,
    back_data_bytes: &mut [u8],
    back_releases: RegionHandle,
    back_release_words: &mut Words,
    back_release_bytes: &mut [u8],
) -> (result: Result<(Duplex, DuplexHandle), Fault>)
    requires
        create_defect(shape, transfer_id, options) is None ==> {
            let capacity = descriptors_for(shape.slots as int);
            let data_len = arena_len(shape.slots as int, shape.chunk_bytes as int, capacity);
            let release_len = arena_len(0, 0, capacity);
            &&& old(out_data_bytes)@.len() == data_len
            &&& old(out_release_bytes)@.len() == release_len
            &&& old(back_data_bytes)@.len() == data_len
            &&& old(back_release_bytes)@.len() == release_len
        },
    ensures
        result is Ok <==> create_defect(shape, transfer_id, options) is None,
        result matches Err(fault) ==> create_defect(shape, transfer_id, options) == Some(fault),
        result matches Ok(made) ==> {
            let (duplex, handle) = made;
            &&& duplex.wf()
            &&& duplex.out().dimensions() == shape
            &&& duplex.back().dimensions() == shape
            &&& duplex.out().id() == transfer_id
            &&& duplex.back().id() == transfer_id + 1
            &&& duplex.out().course() == StreamFlow::ParentToWorker
            &&& duplex.back().course() == StreamFlow::WorkerToParent
            &&& duplex.out().policy() == options
            &&& duplex.back().policy() == options
            &&& final(out_data_bytes)@.len() == duplex.out().chunk_arena().extent()
            &&& final(out_release_bytes)@.len() == duplex.out().release_arena().extent()
            &&& final(back_data_bytes)@.len() == duplex.back().chunk_arena().extent()
            &&& final(back_release_bytes)@.len() == duplex.back().release_arena().extent()
            &&& *final(out_data_words) == (Words {
                claims: DirectionRole::Producer.bit(),
                ..Words::fresh()
            })
            &&& *final(out_release_words) == Words::fresh()
            &&& *final(back_data_words) == (Words {
                claims: DirectionRole::Consumer.bit(),
                ..Words::fresh()
            })
            &&& *final(back_release_words) == Words::fresh()
            &&& handle.payload == payload
            &&& paired(handle)
            &&& handle.parent_to_worker.dimensions() == shape
            &&& handle.parent_to_worker.id() == transfer_id
            &&& handle.parent_to_worker.data() == out_data
            &&& handle.parent_to_worker.releases() == out_releases
            &&& handle.worker_to_parent.data() == back_data
            &&& handle.worker_to_parent.releases() == back_releases
            &&& forall|peer: EndpointOptions|
                peer.timeout_nanos != 0 ==> #[trigger] reopen_defect(
                    handle.parent_to_worker,
                    peer,
                    DirectionRole::Consumer,
                    *final(out_data_words),
                    final(out_data_bytes)@,
                    *final(out_release_words),
                    final(out_release_bytes)@,
                ) is None
            &&& forall|peer: EndpointOptions|
                peer.timeout_nanos != 0 ==> #[trigger] reopen_defect(
                    handle.worker_to_parent,
                    peer,
                    DirectionRole::Producer,
                    *final(back_data_words),
                    final(back_data_bytes)@,
                    *final(back_release_words),
                    final(back_release_bytes)@,
                ) is None
        },
{
    let (out_config, back_config) = match paired_configs(shape, transfer_id, options) {
        Ok(pair) => pair,
        Err(fault) => {
            return Err(fault);
        },
    };
    // Without a second direction there is no channel: decide before anything is laid out.
    match Direction::extents(out_config) {
        Ok(_) => {},
        Err(fault) => {
            return Err(fault);
        },
    }
    match Direction::extents(back_config) {
        Ok(_) => {},
        Err(fault) => {
            return Err(fault);
        },
    }
    let (outbound, parent_to_worker) = match Direction::create(
        out_config,
        DirectionRole::Producer,
        out_data,
        out_data_words,
        out_data_bytes,
        out_releases,
        out_release_words,
        out_release_bytes,
    ) {
        Ok(made) => made,
        Err(fault) => {
            return Err(fault);
        },
    };
    let (inbound, worker_to_parent) = match Direction::create(
        back_config,
        DirectionRole::Consumer,
        back_data,
        back_data_words,
        back_data_bytes,
        back_releases,
        back_release_words,
        back_release_bytes,
    ) {
        Ok(made) => made,
        Err(fault) => {
            return Err(fault);
        },
    };
    let handle = DuplexHandle { parent_to_worker, worker_to_parent, payload };
    Ok((Duplex::new(outbound, inbound), handle))
}

/// Join a channel: check the setup, recognise the regions of both directions, and claim
/// the other role in each. A role that was claimed stays claimed even if the second
/// direction is refused.
pub fn attach_peer(
    handle: &DuplexHandle,
    options: EndpointOptions,
    expected: PayloadContract,
    in_data_words: &mut Words,
    in_data_bytes: &[u8],
    in_release_words: &Words,
    in_release_bytes: &[u8],
    out_data_words: &mut Words,
    out_data_bytes: &[u8],
    out_release_words: &Words,
    out_release_bytes: &[u8],
) -> (result: Result<Duplex, Fault>)
    ensures
        ({
            let setup = setup_defect(*handle, expected);
            let first = reopen_defect(
                handle.parent_to_worker,
                options,
                DirectionRole::Consumer,
                *old(in_data_words),
                in_data_bytes@,
                *in_release_words,
                in_release_bytes@,
            );
            let second = reopen_defect(
                handle.worker_to_parent,
                options,
                DirectionRole::Producer,
                *old(out_data_words),
                out_data_bytes@,
                *out_release_words,
                out_release_bytes@,
            );
            &&& result is Ok <==> setup is None && first is None && second is None
            &&& result matches Err(fault) ==> Some(fault) == if setup is Some {
                setup
            } else if first is Some {
                first
            } else {
                second
            }
            &&& setup is Some || first is Some ==> *final(in_data_words) == *old(in_data_words)
            &&& result is Err ==> *final(out_data_words) == *old(out_data_words)
            &&& setup is None && first is None ==> *final(in_data_words) == (Words {
                claims: old(in_data_words).claims | DirectionRole::Consumer.bit(),
                ..*old(in_data_words)
            })
            &&& result matches Ok(duplex) ==> {
                &&& duplex.wf()
                &&& duplex.back().dimensions() == handle.parent_to_worker.dimensions()
                &&& duplex.back().id() == handle.parent_to_worker.id()
                &&& duplex.back().course() == StreamFlow::ParentToWorker
                &&& duplex.out().dimensions() == handle.worker_to_parent.dimensions()
                &&& duplex.out().id() == handle.worker_to_parent.id()
                &&& duplex.out().course() == StreamFlow::WorkerToParent
                &&& duplex.out().policy() == options
                &&& duplex.back().policy() == options
                &&& in_data_bytes@.len() == duplex.back().chunk_arena().extent()
                &&& in_release_bytes@.len() == duplex.back().release_arena().extent()
                &&& out_data_bytes@.len() == duplex.out().chunk_arena().extent()
                &&& out_release_bytes@.len() == duplex.out().release_arena().extent()
                &&& *final(out_data_words) == (Words {
                    claims: old(out_data_words).claims | DirectionRole::Producer.bit(),
                    ..*old(out_data_words)
                })
            }
        }),
{
    match check_setup(handle, expected) {
        Ok(()) => {},
        Err(fault) => {
            return Err(fault);
        },
    }
    let inbound: Direction = match Direction::open(
        &handle.parent_to_worker,
        options,
        DirectionRole::Consumer,
        in_data_words,
        in_data_bytes,
        in_release_words,
        in_release_bytes,
    ) {
        Ok(direction) => direction,
        Err(fault) => {
            return Err(fault);
        },
    };
    match Direction::open(
        &handle.worker_to_parent,
        options,
        DirectionRole::Producer,
        out_data_words,
        out_data_bytes,
        out_release_words,
        out_release_bytes,
    ) {
        Ok(outbound) => Ok(Duplex::new(outbound, inbound)),
        Err(fault) => Err(fault),
    }
}

} // verus!
