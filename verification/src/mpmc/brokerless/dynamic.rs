//! Dynamic (runtime-registered) brokerless MPMC.
//!
//! Like [`brokerless`](super), but the producer set grows at runtime: duplicate a
//! [`Registrar`] and call [`register`](Registrar::register) whenever you need another
//! producer. Competing consumers discover the new rings on their own. Producers and
//! consumers are those of the fixed channel, working on the [`pool`](Shared::pool).
//!
//! Membership comes in two kinds:
//!
//! * [`LockedRings`] — **unbounded**.
//! * [`ArrayRings`] — **bounded** (you pass a max producer count). A registration
//!   first reserves the next index and then publishes its ring; consumers skip a ring
//!   that is reserved and not yet published.
//!
//! Same guarantee: each value to exactly one consumer.
use super::{Backend, Batch, Cursor, Endpoint, Link, Rx};
use vstd::prelude::*;

pub use super::{Consumer, Producer};

verus! {

/// Which producers a channel admits — the membership kind.
pub trait Rings: Sized {
    /// How many rings may be registered; `None` where any number may.
    spec fn limit(&self) -> Option<nat>;

    /// Whether another ring may join `registered` ones.
    fn admits(&self, registered: usize) -> (admitted: bool)
        ensures
            admitted == has_room(self.limit(), registered as nat),
    ;
}

/// Whether another ring may join `registered` ones under `limit`.
pub open spec fn has_room(limit: Option<nat>, registered: nat) -> bool {
    limit matches Some(most) ==> registered < most
}

/// Unbounded membership.
pub struct LockedRings;

impl Rings for LockedRings {
    open spec fn limit(&self) -> Option<nat> {
        None
    }

    fn admits(&self, registered: usize) -> bool {
        true
    }
}

/// **Bounded** membership: a pre-allocated array of cells.
pub struct ArrayRings {
    cells: usize,
}

impl ArrayRings {
    /// Number of cells.
    pub closed spec fn cells(&self) -> nat {
        self.cells as nat
    }
}

impl Rings for ArrayRings {
    open spec fn limit(&self) -> Option<nat> {
        Some(self.cells())
    }

    fn admits(&self, registered: usize) -> bool {
        registered < self.cells
    }
}

/// What all endpoints of the channel share.
pub struct Shared<T, B: Backend<T>, R: Rings> {
    /// The registered rings and the counters.
    pub pool: super::Shared<T, B>,
    /// The membership kind.
    pub rings: R,
}

impl<T, B: Backend<T>, R: Rings> Shared<T, B, R> {
    /// How many rings may be registered.
    pub open spec fn limit(&self) -> Option<nat> {
        self.rings.limit()
    }

    /// Registrars and producers still there. A registrar keeps this above zero, so a
    /// consumer never quits while more producers could still be registered.
    pub open spec fn live(&self) -> nat {
        self.pool.live_producers()
    }

    /// The rings are consistent and no more than admitted.
    pub open spec fn wf(&self) -> bool {
        &&& self.pool.wf()
        &&& self.limit() matches Some(most) ==> self.pool.rings() <= most
    }
}

/// Mints producers at runtime. Duplicate it to hand registration on; consumers keep
/// running as long as any registrar or producer is there.
pub struct Registrar {
    capacity: usize,
}

impl Registrar {
    /// The capacity that new rings are made with.
    pub closed spec fn capacity(&self) -> usize {
        self.capacity
    }

    /// Create a new producer with its own ring and publish it to the consumers.
    ///
    /// The channel must have room for it: bounded membership takes no more than its
    /// number of cells.
    pub fn register<T, B: Backend<T>, R: Rings>(&self, shared: &mut Shared<T, B, R>) -> (producer:
        Producer<T, B>)
        requires
            old(shared).wf(),
            B::supports(self.capacity()),
            has_room(old(shared).limit(), old(shared).pool.rings()),
            old(shared).live() < usize::MAX,
        ensures
            final(shared).wf(),
            final(shared).limit() == old(shared).limit(),
            registered(old(shared).pool, final(shared).pool, producer, self.capacity(), false),
    {
        shared.pool.add_ring(self.capacity, false)
    }

    /// Reserve the next index for a producer whose ring is not published yet. It is
    /// the first half of a registration; `None` where the membership is full.
    pub fn reserve<T, B: Backend<T>, R: Rings>(&self, shared: &mut Shared<T, B, R>) -> (producer:
        Option<Producer<T, B>>)
        requires
            old(shared).wf(),
            B::supports(self.capacity()),
            old(shared).live() < usize::MAX,
        ensures
            final(shared).wf(),
            final(shared).limit() == old(shared).limit(),
            producer is Some <==> has_room(old(shared).limit(), old(shared).pool.rings()),
            producer is None ==> *final(shared) == *old(shared),
            producer matches Some(p) ==> registered(
                old(shared).pool,
                final(shared).pool,
                p,
                self.capacity(),
                true,
            ),
    {
        let count: usize = shared.pool.count();
        if !shared.rings.admits(count) {
            return None;
        }
        Some(shared.pool.add_ring(self.capacity, true))
    }

    /// Publish the ring of a reserved registration.
    pub fn publish<T, B: Backend<T>, R: Rings>(
        &self,
        shared: &mut Shared<T, B, R>,
        producer: &Producer<T, B>,
    )
        requires
            old(shared).wf(),
            producer.attached(old(shared).pool),
        ensures
            final(shared).wf(),
            final(shared).limit() == old(shared).limit(),
            final(shared).live() == old(shared).live(),
            final(shared).pool.live_consumers() == old(shared).pool.live_consumers(),
            final(shared).pool.rings() == old(shared).pool.rings(),
            final(shared).pool.queues() == old(shared).pool.queues(),
            !final(shared).pool.claimed(producer.ring()),
            forall|i: int|
                0 <= i < final(shared).pool.rings() ==> #[trigger] final(shared).pool.link(i)
                    == old(shared).pool.link(i) && final(shared).pool.rx(i) == old(shared).pool.rx(i) && (i != producer.ring() ==> final(shared).pool.claimed(i)
                    == old(shared).pool.claimed(i)),
            forall|p: Producer<T, B>| #[trigger]
                p.attached(old(shared).pool) ==> p.attached(final(shared).pool),
    {
        let ghost before = shared.pool;
        shared.pool.release(producer.ring);
        proof {
            assert forall|i: int| 0 <= i < shared.pool.rings() implies #[trigger] shared.pool.link(
                i,
            ).wf() && shared.pool.rx(i).attached(shared.pool.link(i)) by {
                assert(before.link(i).wf());
            }
            assert(shared.pool.queues() =~= before.queues());
            assert forall|i: int| 0 <= i < shared.pool.rings() implies #[trigger] shared.pool.link(i)
                == before.link(i) && shared.pool.rx(i) == before.rx(i) && (i != producer.ring()
                ==> shared.pool.claimed(i) == before.claimed(i)) by {
            }
            assert forall|p: Producer<T, B>| #[trigger] p.attached(before) implies p.attached(
                shared.pool,
            ) by {
                assert(shared.pool.link(p.ring()) == before.link(p.ring()));
            }
        }
    }

    /// Another registrar of the same channel.
    pub fn duplicate<T, B: Backend<T>, R: Rings>(&self, shared: &mut Shared<T, B, R>) -> (other:
        Registrar)
        requires
            old(shared).wf(),
            old(shared).live() < usize::MAX,
        ensures
            final(shared).wf(),
            final(shared).limit() == old(shared).limit(),
            final(shared).live() == old(shared).live() + 1,
            final(shared).pool.live_consumers() == old(shared).pool.live_consumers(),
            final(shared).pool.same_rings(&old(shared).pool),
            other.capacity() == self.capacity(),
    {
        let live: usize = shared.pool.live_producers;
        shared.pool.live_producers = live + 1;
        proof {
            shared.pool.lemma_same_rings(&old(shared).pool);
        }
        Registrar { capacity: self.capacity }
    }

    /// This registrar leaves.
    pub fn disconnect<T, B: Backend<T>, R: Rings>(self, shared: &mut Shared<T, B, R>)
        requires
            old(shared).wf(),
            old(shared).live() > 0,
        ensures
            final(shared).wf(),
            final(shared).limit() == old(shared).limit(),
            final(shared).live() == old(shared).live() - 1,
            final(shared).pool.live_consumers() == old(shared).pool.live_consumers(),
            final(shared).pool.same_rings(&old(shared).pool),
    {
        let live: usize = shared.pool.live_producers;
        shared.pool.live_producers = live - 1;
        proof {
            shared.pool.lemma_same_rings(&old(shared).pool);
        }
    }
}

/// What a registration does: one more ring, empty, at the end, and nothing else
/// moves. The ring is `held` back from the consumers until it is published.
pub open spec fn registered<T, B: Backend<T>>(
    before: super::Shared<T, B>,
    after: super::Shared<T, B>,
    producer: Producer<T, B>,
    capacity: usize,
    held: bool,
) -> bool {
    let ring = before.rings() as int;
    &&& after.rings() == before.rings() + 1
    &&& after.live_producers() == before.live_producers() + 1
    &&& after.live_consumers() == before.live_consumers()
    &&& after.queues() == before.queues().push(Seq::<T>::empty())
    &&& after.link(ring).accepts()
    &&& B::sized(capacity, after.link(ring).bound())
    &&& after.claimed(ring) == held
    &&& after.known(ring) == 0
    &&& !after.link(ring).producer_gone()
    &&& !after.link(ring).consumer_gone()
    &&& forall|i: int|
        0 <= i < ring ==> #[trigger] after.link(i) == before.link(i) && after.rx(i) == before.rx(i)
            && after.claimed(i) == before.claimed(i)
    &&& producer.ring() == ring
    &&& producer.attached(after)
    &&& forall|p: Producer<T, B>| #[trigger] p.attached(before) ==> p.attached(after)
}

fn channel_with_rings<T, B: Backend<T>, R: Rings>(rings: R, capacity: usize) -> (parts: (
    Shared<T, B, R>,
    Registrar,
    Consumer<T>,
))
    ensures
        parts.0.wf(),
        parts.0.limit() == rings.limit(),
        opened(parts.0.pool, parts.1, parts.2, capacity),
{
    let pool = super::Shared::without_rings(1);
    let consumer = Consumer { cursor: Cursor::new(0), staging: Batch::new(), batch: 64 };
    (
        Shared { pool, rings },
        Registrar {
            capacity: if capacity < 1 {
                1
            } else {
                capacity
            },
        },
        consumer,
    )
}

/// A channel right after it was opened: no rings, one registrar, one consumer.
pub open spec fn opened<T, B: Backend<T>>(
    pool: super::Shared<T, B>,
    registrar: Registrar,
    consumer: Consumer<T>,
    capacity: usize,
) -> bool {
    &&& pool.rings() == 0
    &&& pool.live_producers() == 1
    &&& pool.live_consumers() == 1
    &&& registrar.capacity() == if capacity < 1 {
        1
    } else {
        capacity
    }
    &&& consumer.wf()
    &&& consumer.staged() == Seq::<T>::empty()
    &&& consumer.batch() == 64
    &&& consumer.position() == 0
    &&& consumer.credits() == super::scan::QUANTUM - 1
}

/// Open a channel with unbounded membership.
pub fn open_locked<T, B: Backend<T>>(capacity: usize) -> (parts: (
    Shared<T, B, LockedRings>,
    Registrar,
    Consumer<T>,
))
    ensures
        parts.0.wf(),
        parts.0.limit() is None,
        opened(parts.0.pool, parts.1, parts.2, capacity),
{
    channel_with_rings(LockedRings, capacity)
}

/// Open a channel with bounded membership: at most `max_producers` registrations,
/// and at least one.
pub fn open_array<T, B: Backend<T>>(capacity: usize, max_producers: usize) -> (parts: (
    Shared<T, B, ArrayRings>,
    Registrar,
    Consumer<T>,
))
    ensures
        parts.0.wf(),
        parts.0.limit() == Some(
            if max_producers < 1 {
                1
            } else {
                max_producers as nat
            },
        ),
        opened(parts.0.pool, parts.1, parts.2, capacity),
{
    let cells: usize = if max_producers < 1 {
        1
    } else {
        max_producers
    };
    channel_with_rings(ArrayRings { cells }, capacity)
}

/// A ring that is reserved and not published is never taken from, whatever it holds.
pub proof fn law_unpublished_rings_are_skipped<T, B: Backend<T>>(
    before: super::Shared<T, B>,
    after: super::Shared<T, B>,
    producer: Producer<T, B>,
    capacity: usize,
)
    requires
        registered(before, after, producer, capacity, true),
    ensures
        !after.takeable(producer.ring()),
{
}

/// Declare dynamic MPMC with unbounded, locked membership.
pub fn locked<T>() -> (channel: crate::Channel<
    T,
    crate::topology::MpmcDynamicLocked,
    crate::backend::Ring,
    crate::execution::Sync,
    crate::wait::SpinYield,
>)
    ensures
        channel.shape == crate::Shape::initial(),
        channel.routing.cursor == 0,
{
    crate::Channel::new().mpmc_dynamic_locked()
}

/// Declare dynamic MPMC with bounded array membership.
pub fn array<T>(max_producers: usize) -> (channel: crate::Channel<
    T,
    crate::topology::MpmcDynamicArray,
    crate::backend::Ring,
    crate::execution::Sync,
    crate::wait::SpinYield,
>)
    ensures
        channel.shape == (crate::Shape { array_producers: max_producers, ..crate::Shape::initial() }),
        channel.routing.cursor == 0,
{
    crate::Channel::new().mpmc_dynamic_array(max_producers)
}


/// A bounded membership admits exactly so many producers as it has places for, one after the
/// other, and an unbounded one any number.
pub proof fn law_memberships_admit_up_to_their_limit(limit: Option<nat>, registered: nat)
    ensures
        limit is None ==> has_room(limit, registered),
        limit matches Some(most) ==> (has_room(limit, registered) <==> registered + 1 <= most),
{
}

/// A registration disturbs nobody: the channel has one ring more, which is empty and which only
/// its producer fills, and every other ring holds what it held and is held by whom it was.
pub proof fn law_registrations_disturb_nobody<T, B: Backend<T>>(
    before: super::Shared<T, B>,
    after: super::Shared<T, B>,
    producer: Producer<T, B>,
    capacity: usize,
    held: bool,
    i: int,
)
    requires
        registered(before, after, producer, capacity, held),
        0 <= i < before.rings(),
    ensures
        after.rings() == before.rings() + 1,
        after.live_producers() == before.live_producers() + 1,
        after.live_consumers() == before.live_consumers(),
        producer.ring() != i,
        after.link(i).queue() == before.link(i).queue(),
        after.claimed(i) == before.claimed(i),
        after.link(producer.ring()).queue().len() == 0,
        after.link(producer.ring()).accepts(),
        after.claimed(producer.ring()) == held,
{
    assert(after.queues()[producer.ring()] == Seq::<T>::empty());
    assert(after.queues()[producer.ring()] == after.link(producer.ring()).queue());
    assert(after.link(i) == before.link(i));
}


/// A new dynamic channel has nobody but its registrar and its consumer: no ring, nothing staged,
/// and rings of the capacity that was asked for, at least one, for those who join.
pub proof fn law_new_channels_wait_for_producers<T, B: Backend<T>>(
    pool: super::Shared<T, B>,
    registrar: Registrar,
    consumer: Consumer<T>,
    capacity: usize,
)
    requires
        opened(pool, registrar, consumer, capacity),
    ensures
        pool.rings() == 0,
        pool.live_producers() == 1,
        pool.live_consumers() == 1,
        registrar.capacity() >= 1,
        registrar.capacity() >= capacity,
        capacity >= 1 ==> registrar.capacity() == capacity,
        consumer.staged().len() == 0,
        consumer.batch() == 64,
{
}

} // verus!
