//! Type-state channel declarations.
//!
//! A [`Channel`] is a zero-work declaration. Configuration changes its concrete type or
//! its numeric shape.
use crate::backend::Ring;
use crate::routing::{PubSub, RoundRobin, Route, Router, Subscriber};
use core::marker::PhantomData;
use vstd::prelude::*;
use vstd::string::StringExecFns;

pub mod broker;
pub mod codec;
pub mod engine;
pub mod execution;
pub mod membership;
pub mod reclaim;
pub mod topology;
pub mod transport;
pub mod wait;

verus! {

/// The numbers of a declaration.
#[derive(Clone, Copy, Debug, PartialEq, Eq)]
pub struct Shape {
    /// Producer endpoints, or how many are expected.
    pub producers: usize,
    /// Consumer endpoints.
    pub consumers: usize,
    /// Broker workers.
    pub brokers: usize,
    /// The capacity, if it was chosen.
    pub capacity: Option<usize>,
    /// The values of one receive or drain.
    pub batch: usize,
    /// The producer slots of a pool.
    pub max_producers: usize,
    /// The readers of a broadcast.
    pub max_readers: usize,
    /// The finished rings that are kept, if any are.
    pub recycling: Option<usize>,
    /// How long a process channel waits for progress, in nanoseconds.
    pub timeout_nanos: u128,
    /// Whether shared regions have to stay resident.
    pub lock_memory: bool,
    /// The bytes of a process stream.
    pub total_bytes: u64,
    /// The bytes of a shared slot.
    pub chunk_bytes: usize,
    /// The shared slots.
    pub slots: usize,
    /// The identifier of a process transfer.
    pub transfer_id: u64,
    /// The producers of a bounded dynamic channel.
    pub array_producers: usize,
}

impl Shape {
    /// The numbers of a new declaration: one of each endpoint, automatic capacity, batches
    /// of 64, and an empty process stream in eight slots of 64 KiB with a timeout of half
    /// a minute.
    pub open spec fn initial() -> Shape {
        Shape {
            producers: 1,
            consumers: 1,
            brokers: 1,
            capacity: None,
            batch: 64,
            max_producers: 64,
            max_readers: 64,
            recycling: None,
            timeout_nanos: 30_000_000_000,
            lock_memory: false,
            total_bytes: 0,
            chunk_bytes: 65_536,
            slots: 8,
            transfer_id: 1,
            array_producers: 0,
        }
    }
}

impl Default for Shape {
    fn default() -> (shape: Shape)
        ensures
            shape == Shape::initial(),
    {
        Shape {
            producers: 1,
            consumers: 1,
            brokers: 1,
            capacity: None,
            batch: 64,
            max_producers: 64,
            max_readers: 64,
            recycling: None,
            timeout_nanos: 30_000_000_000,
            lock_memory: false,
            total_bytes: 0,
            chunk_bytes: 65_536,
            slots: 8,
            transfer_id: 1,
            array_producers: 0,
        }
    }
}

/// A typed channel declaration.
///
/// The value stores only numeric and resource configuration and a routing policy. All
/// behavioral axes are type parameters and disappear when the endpoints are made.
pub struct Channel<
    T,
    Topology = topology::MpscFixed,
    Backend = Ring,
    Execution = execution::Sync,
    Wait = wait::Park,
    Routing = RoundRobin,
    Transport = transport::Local,
    Codec = codec::Native,
> {
    /// The numbers.
    pub shape: Shape,
    /// The routing policy.
    pub routing: Routing,
    /// The address space.
    pub transport: Transport,
    /// The axes that are only types.
    pub axes: PhantomData<(T, Topology, Backend, Execution, Wait, Codec)>,
}

impl<T> Channel<T> {
    /// Declare the default local channel: fixed MPSC, Ring storage, synchronous execution,
    /// parking wait, one producer, automatic bounded capacity, and batch 64.
    pub fn new() -> (channel: Self)
        ensures
            channel.shape == Shape::initial(),
            channel.routing.cursor == 0,
    {
        Channel {
            shape: Shape::default(),
            routing: RoundRobin { cursor: 0 },
            transport: transport::Local,
            axes: PhantomData,
        }
    }
}

impl<T> Default for Channel<T> {
    fn default() -> (channel: Self)
        ensures
            channel.shape == Shape::initial(),
            channel.routing.cursor == 0,
    {
        Channel::new()
    }
}

impl<T, Top, B, E, W, R, A, C> Channel<T, Top, B, E, W, R, A, C> {
    /// The same numbers, on other axes.
    fn axes<Top2, B2, E2, W2, C2>(self) -> (channel: Channel<T, Top2, B2, E2, W2, R, A, C2>)
        ensures
            channel.shape == self.shape,
            channel.routing == self.routing,
            channel.transport == self.transport,
    {
        Channel {
            shape: self.shape,
            routing: self.routing,
            transport: self.transport,
            axes: PhantomData,
        }
    }

    /// Select fixed-membership MPSC.
    pub fn mpsc_fixed(self) -> (channel: Channel<T, topology::MpscFixed, B, E, W, R, A, C>)
        ensures
            channel.shape == self.shape,
            channel.routing == self.routing,
            channel.transport == self.transport,
    {
        self.axes()
    }

    /// Select allocation-free bounded producer-pool MPSC.
    pub fn mpsc_pool(self) -> (channel: Channel<T, topology::MpscPool, B, E, W, R, A, C>)
        ensures
            channel.shape == self.shape,
            channel.routing == self.routing,
            channel.transport == self.transport,
    {
        self.axes()
    }

    /// Select runtime-registration MPSC.
    pub fn mpsc_dynamic(self) -> (channel: Channel<T, topology::MpscDynamic, B, E, W, R, A, C>)
        ensures
            channel.shape == self.shape,
            channel.routing == self.routing,
            channel.transport == self.transport,
    {
        self.axes()
    }

    /// Select fixed-membership competing-consumer MPMC, with the claim engine.
    pub fn mpmc(self) -> (channel: Channel<
        T,
        topology::Mpmc<engine::Claim>,
        B,
        E,
        wait::SpinYield,
        R,
        A,
        C,
    >)
        ensures
            channel.shape == self.shape,
            channel.routing == self.routing,
            channel.transport == self.transport,
    {
        self.axes()
    }

    /// Select unbounded, locked-membership dynamic MPMC.
    pub fn mpmc_dynamic_locked(self) -> (channel: Channel<
        T,
        topology::MpmcDynamicLocked,
        B,
        E,
        wait::SpinYield,
        R,
        A,
        C,
    >)
        ensures
            channel.shape == self.shape,
            channel.routing == self.routing,
            channel.transport == self.transport,
    {
        self.axes()
    }

    /// Select bounded, array-membership dynamic MPMC.
    pub fn mpmc_dynamic_array(self, max_producers: usize) -> (channel: Channel<
        T,
        topology::MpmcDynamicArray,
        B,
        E,
        wait::SpinYield,
        R,
        A,
        C,
    >)
        ensures
            channel.shape == (Shape { array_producers: max_producers, ..self.shape }),
            channel.routing == self.routing,
            channel.transport == self.transport,
    {
        let mut channel = self;
        channel.shape.array_producers = max_producers;
        channel.axes()
    }

    /// Select brokered MPMC.
    pub fn mpmc_brokered(self) -> (channel: Channel<
        T,
        topology::MpmcBrokered<broker::Spawned>,
        B,
        E,
        wait::SpinYield,
        R,
        A,
        C,
    >)
        ensures
            channel.shape == self.shape,
            channel.routing == self.routing,
            channel.transport == self.transport,
    {
        self.axes()
    }

    /// Select publish/subscribe broadcast.
    pub fn broadcast(self) -> (channel: Channel<
        T,
        topology::Broadcast,
        B,
        E,
        wait::SpinYield,
        R,
        A,
        C,
    >)
        ensures
            channel.shape == self.shape,
            channel.routing == self.routing,
            channel.transport == self.transport,
    {
        self.axes()
    }

    /// Select a concrete local storage backend.
    pub fn backend<B2>(self) -> (channel: Channel<T, Top, B2, E, W, R, A, C>)
        ensures
            channel.shape == self.shape,
            channel.routing == self.routing,
            channel.transport == self.transport,
    {
        self.axes()
    }

    /// Select the runtime-neutral asynchronous execution surface and task wakeups.
    pub fn asynchronous(self) -> (channel: Channel<
        T,
        Top,
        B,
        execution::Async,
        wait::Task,
        R,
        A,
        C,
    >)
        ensures
            channel.shape == self.shape,
            channel.routing == self.routing,
            channel.transport == self.transport,
    {
        self.axes()
    }

    /// Override automatic ring capacity or the selected backend's chunk hint.
    pub fn capacity(self, capacity: usize) -> (channel: Self)
        ensures
            channel.shape == (Shape { capacity: Some(capacity), ..self.shape }),
            channel.routing == self.routing,
            channel.transport == self.transport,
    {
        let mut channel = self;
        channel.shape.capacity = Some(capacity);
        channel
    }

    /// Override the receive/drain batch.
    pub fn batch(self, batch: usize) -> (channel: Self)
        ensures
            channel.shape == (Shape { batch: batch, ..self.shape }),
            channel.routing == self.routing,
            channel.transport == self.transport,
    {
        let mut channel = self;
        channel.shape.batch = batch;
        channel
    }

    /// Select byte-oriented process duplex transport at the endpoint `default`. Shared
    /// memory is an address-space choice, never a local storage backend. The topology
    /// establishes its Park wait default while preserving the execution marker.
    pub fn ipc(self) -> (channel: Channel<
        T,
        topology::ProcessDuplex,
        Ring,
        E,
        wait::Park,
        R,
        transport::ProcessCreate,
        codec::Bytes,
    >)
        ensures
            channel.shape == self.shape,
            channel.routing == self.routing,
            channel.transport.endpoint@ == "default"@,
    {
        Channel {
            shape: self.shape,
            routing: self.routing,
            transport: transport::ProcessCreate { endpoint: String::from_str("default") },
            axes: PhantomData,
        }
    }
}

impl<T, Top, B, W, R, A, C> Channel<T, Top, B, execution::Sync, W, R, A, C> {
    /// Keep synchronous execution and preserve the selected waiting policy.
    pub fn sync(self) -> (channel: Self)
        ensures
            channel == self,
    {
        self
    }

    /// Select the exact synchronous consumer wait policy.
    pub fn wait<W2>(self) -> (channel: Channel<T, Top, B, execution::Sync, W2, R, A, C>)
        ensures
            channel.shape == self.shape,
            channel.routing == self.routing,
            channel.transport == self.transport,
    {
        self.axes()
    }
}

impl<T, B, W, R, A, C> Channel<T, topology::MpscFixed, B, execution::Async, W, R, A, C> {
    /// Select synchronous execution with this topology's default waiter.
    pub fn sync(self) -> (channel: Channel<
        T,
        topology::MpscFixed,
        B,
        execution::Sync,
        wait::Park,
        R,
        A,
        C,
    >)
        ensures
            channel.shape == self.shape,
            channel.routing == self.routing,
            channel.transport == self.transport,
    {
        self.axes()
    }
}

impl<T, B, W, R, A, C> Channel<T, topology::MpscPool, B, execution::Async, W, R, A, C> {
    /// Select synchronous execution with this topology's default waiter.
    pub fn sync(self) -> (channel: Channel<
        T,
        topology::MpscPool,
        B,
        execution::Sync,
        wait::Park,
        R,
        A,
        C,
    >)
        ensures
            channel.shape == self.shape,
            channel.routing == self.routing,
            channel.transport == self.transport,
    {
        self.axes()
    }
}

impl<T, M, Q, B, W, R, A, C> Channel<T, topology::MpscDynamic<M, Q>, B, execution::Async, W, R, A, C> {
    /// Select synchronous execution with this topology's default waiter.
    pub fn sync(self) -> (channel: Channel<
        T,
        topology::MpscDynamic<M, Q>,
        B,
        execution::Sync,
        wait::Park,
        R,
        A,
        C,
    >)
        ensures
            channel.shape == self.shape,
            channel.routing == self.routing,
            channel.transport == self.transport,
    {
        self.axes()
    }
}

impl<T, Engine, B, W, R, A, C> Channel<T, topology::Mpmc<Engine>, B, execution::Async, W, R, A, C> {
    /// Select synchronous execution with this topology's default waiter.
    pub fn sync(self) -> (channel: Channel<
        T,
        topology::Mpmc<Engine>,
        B,
        execution::Sync,
        wait::SpinYield,
        R,
        A,
        C,
    >)
        ensures
            channel.shape == self.shape,
            channel.routing == self.routing,
            channel.transport == self.transport,
    {
        self.axes()
    }
}

impl<T, B, W, R, A, C> Channel<T, topology::MpmcDynamicLocked, B, execution::Async, W, R, A, C> {
    /// Select synchronous execution with this topology's default waiter.
    pub fn sync(self) -> (channel: Channel<
        T,
        topology::MpmcDynamicLocked,
        B,
        execution::Sync,
        wait::SpinYield,
        R,
        A,
        C,
    >)
        ensures
            channel.shape == self.shape,
            channel.routing == self.routing,
            channel.transport == self.transport,
    {
        self.axes()
    }
}

impl<T, B, W, R, A, C> Channel<T, topology::MpmcDynamicArray, B, execution::Async, W, R, A, C> {
    /// Select synchronous execution with this topology's default waiter.
    pub fn sync(self) -> (channel: Channel<
        T,
        topology::MpmcDynamicArray,
        B,
        execution::Sync,
        wait::SpinYield,
        R,
        A,
        C,
    >)
        ensures
            channel.shape == self.shape,
            channel.routing == self.routing,
            channel.transport == self.transport,
    {
        self.axes()
    }
}

impl<T, Run, B, W, R, A, C> Channel<T, topology::MpmcBrokered<Run>, B, execution::Async, W, R, A, C> {
    /// Select synchronous execution with this topology's default waiter.
    pub fn sync(self) -> (channel: Channel<
        T,
        topology::MpmcBrokered<Run>,
        B,
        execution::Sync,
        wait::SpinYield,
        R,
        A,
        C,
    >)
        ensures
            channel.shape == self.shape,
            channel.routing == self.routing,
            channel.transport == self.transport,
    {
        self.axes()
    }
}

impl<T, B, W, R, A, C> Channel<T, topology::Broadcast, B, execution::Async, W, R, A, C> {
    /// Select synchronous execution with this topology's default waiter.
    pub fn sync(self) -> (channel: Channel<
        T,
        topology::Broadcast,
        B,
        execution::Sync,
        wait::SpinYield,
        R,
        A,
        C,
    >)
        ensures
            channel.shape == self.shape,
            channel.routing == self.routing,
            channel.transport == self.transport,
    {
        self.axes()
    }
}

impl<T, B, W, R, A, C> Channel<T, topology::ProcessDuplex, B, execution::Async, W, R, A, C> {
    /// Select synchronous execution with this topology's default waiter.
    pub fn sync(self) -> (channel: Channel<
        T,
        topology::ProcessDuplex,
        B,
        execution::Sync,
        wait::Park,
        R,
        A,
        C,
    >)
        ensures
            channel.shape == self.shape,
            channel.routing == self.routing,
            channel.transport == self.transport,
    {
        self.axes()
    }
}

impl<T, B, E, W, R, A, C> Channel<T, topology::MpscFixed, B, E, W, R, A, C> {
    /// Set the number of producer endpoints.
    pub fn producers(self, producers: usize) -> (channel: Self)
        ensures
            channel.shape == (Shape { producers: producers, ..self.shape }),
            channel.routing == self.routing,
            channel.transport == self.transport,
    {
        let mut channel = self;
        channel.shape.producers = producers;
        channel
    }
}

impl<T, B, E, W, R, A, C> Channel<T, topology::MpscPool, B, E, W, R, A, C> {
    /// Set the maximum number of producer slots managed by the pool.
    pub fn max_producers(self, max_producers: usize) -> (channel: Self)
        ensures
            channel.shape == (Shape { max_producers: max_producers, ..self.shape }),
            channel.routing == self.routing,
            channel.transport == self.transport,
    {
        let mut channel = self;
        channel.shape.max_producers = max_producers;
        channel
    }
}

impl<T, M, Q, B, E, W, R, A, C> Channel<T, topology::MpscDynamic<M, Q>, B, E, W, R, A, C> {
    /// Set the expected concurrent producer count for automatic capacity sizing. This is a
    /// sizing hint; it neither creates nor limits producer endpoints.
    pub fn expected_producers(self, expected_producers: usize) -> (channel: Self)
        ensures
            channel.shape == (Shape { producers: expected_producers, ..self.shape }),
            channel.routing == self.routing,
            channel.transport == self.transport,
    {
        let mut channel = self;
        channel.shape.producers = expected_producers;
        channel
    }

    /// Select the exact dynamic-membership inbox implementation.
    pub fn membership<M2>(self) -> (channel: Channel<
        T,
        topology::MpscDynamic<M2, Q>,
        B,
        E,
        W,
        R,
        A,
        C,
    >)
        ensures
            channel.shape == self.shape,
            channel.routing == self.routing,
            channel.transport == self.transport,
    {
        self.axes()
    }

    /// Retain finished rings in a bounded pool for allocation-free reuse.
    pub fn recycling(self, max_pooled: usize) -> (channel: Channel<
        T,
        topology::MpscDynamic<M, reclaim::Pooled>,
        B,
        E,
        W,
        R,
        A,
        C,
    >)
        ensures
            channel.shape == (Shape { recycling: Some(max_pooled), ..self.shape }),
            channel.routing == self.routing,
            channel.transport == self.transport,
    {
        let mut channel = self;
        channel.shape.recycling = Some(max_pooled);
        channel.axes()
    }
}

impl<T, B, E, W, R, A> Channel<T, topology::Mpmc<engine::Claim>, B, E, W, R, A, codec::Native> {
    /// Select reusable payload blocks with explicit write/read leases.
    ///
    /// Capacity bounds all payload slots per producer, not just queued values; batch is the
    /// maximum values per block.
    pub fn leased(self) -> (channel: Channel<
        T,
        topology::Mpmc<engine::Claim>,
        B,
        E,
        W,
        R,
        A,
        codec::Leased,
    >)
        ensures
            channel.shape == self.shape,
            channel.routing == self.routing,
            channel.transport == self.transport,
    {
        self.axes()
    }
}

impl<T, Engine, B, E, W, R, A, C> Channel<T, topology::Mpmc<Engine>, B, E, W, R, A, C> {
    /// Select the exact fixed-MPMC transfer engine.
    pub fn engine<Engine2>(self) -> (channel: Channel<
        T,
        topology::Mpmc<Engine2>,
        B,
        E,
        W,
        R,
        A,
        C,
    >)
        ensures
            channel.shape == self.shape,
            channel.routing == self.routing,
            channel.transport == self.transport,
    {
        self.axes()
    }

    /// Set the number of producer endpoints.
    pub fn producers(self, producers: usize) -> (channel: Self)
        ensures
            channel.shape == (Shape { producers: producers, ..self.shape }),
            channel.routing == self.routing,
            channel.transport == self.transport,
    {
        let mut channel = self;
        channel.shape.producers = producers;
        channel
    }

    /// Set the number of consumer endpoints.
    pub fn consumers(self, consumers: usize) -> (channel: Self)
        ensures
            channel.shape == (Shape { consumers: consumers, ..self.shape }),
            channel.routing == self.routing,
            channel.transport == self.transport,
    {
        let mut channel = self;
        channel.shape.consumers = consumers;
        channel
    }
}

impl<T, B, E, W, R, A, C> Channel<T, topology::MpmcDynamicLocked, B, E, W, R, A, C> {
    /// Set the expected concurrent producer count for automatic capacity sizing. This is a
    /// sizing hint; locked membership remains unbounded.
    pub fn expected_producers(self, expected_producers: usize) -> (channel: Self)
        ensures
            channel.shape == (Shape { producers: expected_producers, ..self.shape }),
            channel.routing == self.routing,
            channel.transport == self.transport,
    {
        let mut channel = self;
        channel.shape.producers = expected_producers;
        channel
    }

    /// Set the number of consumer endpoints.
    pub fn consumers(self, consumers: usize) -> (channel: Self)
        ensures
            channel.shape == (Shape { consumers: consumers, ..self.shape }),
            channel.routing == self.routing,
            channel.transport == self.transport,
    {
        let mut channel = self;
        channel.shape.consumers = consumers;
        channel
    }
}

impl<T, B, E, W, R, A, C> Channel<T, topology::MpmcDynamicArray, B, E, W, R, A, C> {
    /// Set the number of consumer endpoints.
    pub fn consumers(self, consumers: usize) -> (channel: Self)
        ensures
            channel.shape == (Shape { consumers: consumers, ..self.shape }),
            channel.routing == self.routing,
            channel.transport == self.transport,
    {
        let mut channel = self;
        channel.shape.consumers = consumers;
        channel
    }
}

impl<T, Run, B, E, W, A, C> Channel<T, topology::MpmcBrokered<Run>, B, E, W, RoundRobin, A, C> {
    /// Route each message to the chosen index modulo the current consumer count.
    pub fn route<F: Router<T>>(self, route: F) -> (channel: Channel<
        T,
        topology::MpmcBrokered<Run>,
        B,
        E,
        W,
        Route<F>,
        A,
        C,
    >)
        ensures
            channel.shape == self.shape,
            channel.routing.router == route,
            channel.transport == self.transport,
    {
        Channel {
            shape: self.shape,
            routing: Route { router: route },
            transport: self.transport,
            axes: PhantomData,
        }
    }

    /// Send each message to the consumer set chosen by `subscribe`.
    pub fn pubsub<F: Subscriber<T>>(self, subscribe: F) -> (channel: Channel<
        T,
        topology::MpmcBrokered<Run>,
        B,
        E,
        W,
        PubSub<F>,
        A,
        C,
    >)
        ensures
            channel.shape == self.shape,
            channel.routing.subscribe == subscribe,
            channel.routing.consumer_mask == 0,
            channel.transport == self.transport,
    {
        Channel {
            shape: self.shape,
            routing: PubSub { subscribe, consumer_mask: 0 },
            transport: self.transport,
            axes: PhantomData,
        }
    }
}

impl<T, Run, B, E, W, R, A, C> Channel<T, topology::MpmcBrokered<Run>, B, E, W, R, A, C> {
    /// Set the number of producer endpoints.
    pub fn producers(self, producers: usize) -> (channel: Self)
        ensures
            channel.shape == (Shape { producers: producers, ..self.shape }),
            channel.routing == self.routing,
            channel.transport == self.transport,
    {
        let mut channel = self;
        channel.shape.producers = producers;
        channel
    }

    /// Set the number of consumer endpoints.
    pub fn consumers(self, consumers: usize) -> (channel: Self)
        ensures
            channel.shape == (Shape { consumers: consumers, ..self.shape }),
            channel.routing == self.routing,
            channel.transport == self.transport,
    {
        let mut channel = self;
        channel.shape.consumers = consumers;
        channel
    }

    /// Set the number of broker workers.
    pub fn brokers(self, brokers: usize) -> (channel: Self)
        ensures
            channel.shape == (Shape { brokers: brokers, ..self.shape }),
            channel.routing == self.routing,
            channel.transport == self.transport,
    {
        let mut channel = self;
        channel.shape.brokers = brokers;
        channel
    }
}

impl<T, B, E, W, R, A, C> Channel<T, topology::MpmcBrokered<broker::Spawned>, B, E, W, R, A, C> {
    /// Return concrete broker handles instead of spawning them.
    pub fn manual(self) -> (channel: Channel<
        T,
        topology::MpmcBrokered<broker::Manual>,
        B,
        E,
        W,
        R,
        A,
        C,
    >)
        ensures
            channel.shape == self.shape,
            channel.routing == self.routing,
            channel.transport == self.transport,
    {
        self.axes()
    }
}

impl<T, B, E, W, R, A, C> Channel<T, topology::Broadcast, B, E, W, R, A, C> {
    /// Set the maximum number of simultaneously active broadcast readers.
    pub fn max_readers(self, max_readers: usize) -> (channel: Self)
        ensures
            channel.shape == (Shape { max_readers: max_readers, ..self.shape }),
            channel.routing == self.routing,
            channel.transport == self.transport,
    {
        let mut channel = self;
        channel.shape.max_readers = max_readers;
        channel
    }
}

impl<T, B, E, W, R, C> Channel<
    T,
    topology::ProcessDuplex,
    B,
    E,
    W,
    R,
    transport::ProcessCreate,
    C,
> {
    /// Select the peer side that joins a process channel created by another process.
    pub fn attach(self) -> (channel: Channel<
        T,
        topology::ProcessDuplex,
        B,
        E,
        W,
        R,
        transport::ProcessAttach,
        C,
    >)
        ensures
            channel.shape == self.shape,
            channel.routing == self.routing,
            channel.transport.endpoint == self.transport.endpoint,
    {
        Channel {
            shape: self.shape,
            routing: self.routing,
            transport: transport::ProcessAttach { endpoint: self.transport.endpoint },
            axes: PhantomData,
        }
    }

    /// Override the semantic rendezvous name. Names contain 1 to 20 ASCII letters, digits,
    /// dots, dashes, or underscores.
    pub fn endpoint(self, name: String) -> (channel: Self)
        ensures
            channel.shape == self.shape,
            channel.routing == self.routing,
            channel.transport.endpoint == name,
    {
        let mut channel = self;
        channel.transport.endpoint = name;
        channel
    }

    /// Set the total byte limit, bytes per shared slot, and number of shared slots.
    pub fn shape(self, total_bytes: u64, chunk_bytes: usize, slots: usize) -> (channel: Self)
        ensures
            channel.shape == (Shape { total_bytes, chunk_bytes, slots, ..self.shape }),
            channel.routing == self.routing,
            channel.transport == self.transport,
    {
        let mut channel = self;
        channel.shape.total_bytes = total_bytes;
        channel.shape.chunk_bytes = chunk_bytes;
        channel.shape.slots = slots;
        channel
    }

    /// Set the nonzero transfer identifier used to validate both duplex directions.
    pub fn transfer_id(self, transfer_id: u64) -> (channel: Self)
        ensures
            channel.shape == (Shape { transfer_id: transfer_id, ..self.shape }),
            channel.routing == self.routing,
            channel.transport == self.transport,
    {
        let mut channel = self;
        channel.shape.transfer_id = transfer_id;
        channel
    }
}

impl<T, B, E, W, R, C> Channel<
    T,
    topology::ProcessDuplex,
    B,
    E,
    W,
    R,
    transport::ProcessAttach,
    C,
> {
    /// Override the semantic rendezvous name. Names contain 1 to 20 ASCII letters, digits,
    /// dots, dashes, or underscores.
    pub fn endpoint(self, name: String) -> (channel: Self)
        ensures
            channel.shape == self.shape,
            channel.routing == self.routing,
            channel.transport.endpoint == name,
    {
        let mut channel = self;
        channel.transport.endpoint = name;
        channel
    }
}

impl<T, B, E, W, R, A, C> Channel<T, topology::ProcessDuplex, B, E, W, R, A, C> {
    /// Set the maximum blocking interval for process-transport progress, in nanoseconds.
    pub fn timeout(self, timeout: u128) -> (channel: Self)
        ensures
            channel.shape == (Shape { timeout_nanos: timeout, ..self.shape }),
            channel.routing == self.routing,
            channel.transport == self.transport,
    {
        let mut channel = self;
        channel.shape.timeout_nanos = timeout;
        channel
    }

    /// Require shared regions to be memory-locked.
    pub fn lock_memory(self, lock_memory: bool) -> (channel: Self)
        ensures
            channel.shape == (Shape { lock_memory: lock_memory, ..self.shape }),
            channel.routing == self.routing,
            channel.transport == self.transport,
    {
        let mut channel = self;
        channel.shape.lock_memory = lock_memory;
        channel
    }

    /// Select raw byte-stream payloads.
    pub fn bytes(self) -> (channel: Channel<
        T,
        topology::ProcessDuplex,
        B,
        E,
        W,
        R,
        A,
        codec::Bytes,
    >)
        ensures
            channel.shape == self.shape,
            channel.routing == self.routing,
            channel.transport == self.transport,
    {
        self.axes()
    }

    /// Select a POD representation for `T`.
    pub fn pod(self) -> (channel: Channel<
        T,
        topology::ProcessDuplex,
        B,
        E,
        W,
        R,
        A,
        codec::Pod<T>,
    >)
        ensures
            channel.shape == self.shape,
            channel.routing == self.routing,
            channel.transport == self.transport,
    {
        self.axes()
    }

    /// Select the explicit process payload codec `C2`.
    pub fn codec<C2>(self) -> (channel: Channel<
        T,
        topology::ProcessDuplex,
        B,
        E,
        W,
        R,
        A,
        codec::Encoded<C2>,
    >)
        ensures
            channel.shape == self.shape,
            channel.routing == self.routing,
            channel.transport == self.transport,
    {
        self.axes()
    }
}


/// A new declaration can be opened as it is: it has one of each endpoint, its batch and its limits
/// are something that every channel takes, its process stream is possible, and it waits for a
/// while.
pub proof fn law_new_declarations_can_be_opened()
    ensures
        ({
            let shape = Shape::initial();
            let stream = crate::ipc::stream::StreamShape {
                total_bytes: shape.total_bytes,
                chunk_bytes: shape.chunk_bytes,
                slots: shape.slots,
            };
            &&& shape.producers == 1 && shape.consumers == 1 && shape.brokers == 1
            &&& shape.capacity is None && shape.recycling is None && !shape.lock_memory
            &&& shape.batch == 64 && shape.max_producers == 64
            &&& 1 <= shape.max_readers <= 64
            &&& crate::ipc::stream::direction_defect(stream) is None
            &&& stream.resident() == 524_288
            &&& 0 < shape.transfer_id < u64::MAX
            &&& shape.timeout_nanos == 30_000_000_000
        }),
{
    let shape = Shape::initial();
    let stream = crate::ipc::stream::StreamShape {
        total_bytes: shape.total_bytes,
        chunk_bytes: shape.chunk_bytes,
        slots: shape.slots,
    };
    vstd::layout::unsigned_int_max_values();
    crate::ipc::stream::laws::law_streams_in_range_are_possible(stream);
    crate::ipc::stream::laws::law_directions_in_range_are_possible(stream);
}

} // verus!
