//! Brokerless competing-consumer MPMC.
//!
//! One ring per producer. Consumers prefer a productive ring for a bounded
//! number of drains, then advance round-robin. Failed claims or empty rings
//! advance the scan, so any consumer can steal available work. To read a
//! ring a consumer must first win its `claimed` flag, which grants exclusive
//! access to that ring's receiver for the duration of a batch drain. The claim is
//! what upholds the ring's single-consumer invariant while any number of consumers
//! work across *different* rings.
use crate::backend::{min, Backend, Batch, Endpoint, Link, Rx, Sink, Tx};
use crate::pause::{counted, pause_after, Backoff, Pause};
use vstd::prelude::*;

pub mod dynamic;
pub mod laws;
pub mod leased;
pub mod scan;

use crate::round_robin::{attempt, law_rotation_visits_every_slot, lemma_next_attempt};
use scan::{preferred_credits, preferred_position, Cursor};

verus! {

/// One producer's ring plus the claim flag that serializes consumer access to it.
pub struct Slot<T, B: Backend<T>> {
    /// Set while a consumer has exclusive access to the receiver.
    claimed: bool,
    link: B::Link,
    rx: B::Rx,
}

/// What all endpoints of the channel share.
pub struct Shared<T, B: Backend<T>> {
    slots: Vec<Slot<T, B>>,
    /// Producers still there. A consumer that sees this hit zero, then makes one
    /// full claim-pass finding nothing, is done.
    live_producers: usize,
    /// Consumers still there (the initial consumer counts as one). A blocking
    /// `send` that finds its ring full *and* this at zero gives up.
    live_consumers: usize,
}

impl<T, B: Backend<T>> Shared<T, B> {
    /// Number of producer rings.
    pub closed spec fn rings(&self) -> nat {
        self.slots@.len()
    }

    /// The storage of ring `i`.
    pub closed spec fn link(&self, i: int) -> B::Link {
        self.slots@[i].link
    }

    /// The receiver of ring `i`.
    pub closed spec fn rx(&self, i: int) -> B::Rx {
        self.slots@[i].rx
    }

    /// Whether a consumer holds ring `i`.
    pub closed spec fn claimed(&self, i: int) -> bool {
        self.slots@[i].claimed
    }

    /// Producers still there.
    pub closed spec fn live_producers(&self) -> nat {
        self.live_producers as nat
    }

    /// Consumers still there.
    pub closed spec fn live_consumers(&self) -> nat {
        self.live_consumers as nat
    }

    /// The values waiting in each ring.
    pub open spec fn queues(&self) -> Seq<Seq<T>> {
        Seq::new(self.rings(), |i: int| self.link(i).queue())
    }

    /// Every ring is consistent and its receiver knows it.
    pub open spec fn wf(&self) -> bool {
        forall|i: int|
            0 <= i < self.rings() ==> (#[trigger] self.link(i)).wf() && self.rx(i).attached(
                self.link(i),
            )
    }

    /// A scan can take something from ring `i`.
    pub open spec fn takeable(&self, i: int) -> bool {
        !self.claimed(i) && self.link(i).queue().len() > 0
    }

    /// The first attempt of a scan from `start` on, not before attempt `from`, that
    /// finds something to take; the number of rings where none does.
    pub open spec fn pick(&self, start: int, from: int) -> int
        decreases self.rings() - from,
    {
        if from >= self.rings() || self.takeable(attempt(start, from, self.rings() as int)) {
            from
        } else {
            self.pick(start, from + 1)
        }
    }

    /// Nothing but the values in the rings may have changed.
    pub open spec fn same_but_queues(&self, before: &Self) -> bool {
        &&& self.rings() == before.rings()
        &&& self.live_producers() == before.live_producers()
        &&& self.live_consumers() == before.live_consumers()
        &&& forall|i: int|
            0 <= i < self.rings() ==> {
                &&& #[trigger] self.claimed(i) == before.claimed(i)
                &&& self.link(i).bound() == before.link(i).bound()
                &&& self.link(i).producer_gone() == before.link(i).producer_gone()
                &&& self.link(i).consumer_gone() == before.link(i).consumer_gone()
            }
    }

    /// What the receiver of ring `i` remembers of it.
    pub open spec fn known(&self, i: int) -> int {
        self.rx(i).known(self.link(i))
    }

    /// Every receiver remembers what it did.
    pub open spec fn same_knowledge(&self, before: &Self) -> bool {
        forall|i: int| 0 <= i < self.rings() ==> #[trigger] self.known(i) == before.known(i)
    }

    /// Number of producer rings.
    pub fn count(&self) -> (n: usize)
        ensures
            n == self.rings(),
    {
        self.slots.len()
    }

    /// Win ring `i` unless another consumer holds it.
    fn try_acquire(&mut self, i: usize) -> (won: bool)
        requires
            i < old(self).rings(),
        ensures
            won <==> !old(self).claimed(i as int),
            final(self).claimed(i as int),
            final(self).rings() == old(self).rings(),
            final(self).live_producers() == old(self).live_producers(),
            final(self).live_consumers() == old(self).live_consumers(),
            forall|j: int|
                0 <= j < final(self).rings() ==> {
                    &&& #[trigger] final(self).link(j) == old(self).link(j)
                    &&& final(self).rx(j) == old(self).rx(j)
                    &&& j != i ==> final(self).claimed(j) == old(self).claimed(j)
                },
    {
        let won = !self.slots[i].claimed;
        self.slots[i].claimed = true;
        won
    }

    /// Give ring `i` back.
    fn release(&mut self, i: usize)
        requires
            i < old(self).rings(),
        ensures
            !final(self).claimed(i as int),
            final(self).rings() == old(self).rings(),
            final(self).live_producers() == old(self).live_producers(),
            final(self).live_consumers() == old(self).live_consumers(),
            forall|j: int|
                0 <= j < final(self).rings() ==> {
                    &&& #[trigger] final(self).link(j) == old(self).link(j)
                    &&& final(self).rx(j) == old(self).rx(j)
                    &&& j != i ==> final(self).claimed(j) == old(self).claimed(j)
                },
    {
        self.slots[i].claimed = false;
    }

    /// Drain ring `i` under its claim.
    fn drain_ring<S: Sink<T>>(&mut self, i: usize, max: usize, out: &mut S) -> (n: usize)
        requires
            old(self).wf(),
            i < old(self).rings(),
        ensures
            final(self).wf(),
            final(self).same_but_queues(old(self)),
            n == min(old(self).rx(i as int).ready(old(self).link(i as int)), max as int),
            n <= old(self).link(i as int).queue().len(),
            final(self).known(i as int) == B::Rx::kept(
                old(self).rx(i as int).ready(old(self).link(i as int)),
                n as int,
            ),
            final(out).seen() == old(out).seen() + old(self).link(i as int).queue().take(n as int),
            final(self).queues() == old(self).queues().update(
                i as int,
                old(self).link(i as int).queue().skip(n as int),
            ),
            forall|j: int|
                0 <= j < final(self).rings() && j != i ==> #[trigger] final(self).link(j) == old(self).link(j) && final(self).rx(j) == old(self).rx(j),
            forall|p: Producer<T, B>| #[trigger]
                p.attached(*old(self)) ==> p.attached(*final(self)),
    {
        let ghost before = *self;
        assert(before.link(i as int).wf());
        let slot = &mut self.slots[i];
        let n: usize = slot.rx.drain_in_place(&mut slot.link, max, out);
        proof {
            assert(self.queues() =~= before.queues().update(
                i as int,
                before.link(i as int).queue().skip(n as int),
            ));
            assert forall|j: int| 0 <= j < self.rings() implies (#[trigger] self.link(j)).wf()
                && self.rx(j).attached(self.link(j)) by {
                assert(before.link(j).wf());
            }
            assert forall|p: Producer<T, B>| #[trigger] p.attached(before) implies p.attached(
                *self,
            ) by {
                assert(p.tx.attached(before.link(p.ring as int)));
            }
        }
        n
    }
}

/// A producer half. One dedicated ring; never contends with other producers.
pub struct Producer<T, B: Backend<T>> {
    ring: usize,
    tx: B::Tx,
}

impl<T, B: Backend<T>> Producer<T, B> {
    /// The ring that this producer fills.
    pub closed spec fn ring(&self) -> int {
        self.ring as int
    }

    /// This producer's ring is one of the channel's, and its sender knows it.
    pub closed spec fn attached(&self, shared: Shared<T, B>) -> bool {
        &&& self.ring < shared.rings()
        &&& self.tx.attached(shared.link(self.ring as int))
    }
}


/// A consumer half. Duplicate it to add more competing consumers; each pulls from
/// the shared pool of producer rings, and any given value goes to exactly one of
/// them.
pub struct Consumer<T> {
    /// Consumer-local bounded preference; no claim survives a drain.
    cursor: Cursor,
    /// Values drained under a single claim but not yet returned.
    staging: Batch<T>,
    batch: usize,
}

impl<T> Consumer<T> {
    /// The batch limit is at least one, and the cursor is consistent.
    pub closed spec fn wf(&self) -> bool {
        self.cursor.wf() && self.batch > 0
    }

    /// Values drained under an earlier claim and not yet returned.
    pub closed spec fn staged(&self) -> Seq<T> {
        self.staging@
    }

    /// Values drained per claim at most.
    pub closed spec fn batch(&self) -> nat {
        self.batch as nat
    }

    /// Where the scan stands.
    pub closed spec fn position(&self) -> int {
        self.cursor.position() as int
    }

    /// Productive drains left on the preferred ring.
    pub closed spec fn credits(&self) -> nat {
        self.cursor.credits()
    }
}

/// Where a scan that ended at attempt `k` leaves position and credits: a productive
/// attempt may keep its ring preferred, a scan that found nothing went all the way.
pub open spec fn scanned(start: int, credits: nat, k: int, rings: int) -> (int, nat) {
    if k >= rings {
        (
            if rings == 0 {
                start
            } else {
                attempt(start, rings - 1, rings) + 1
            },
            credits,
        )
    } else {
        (
            preferred_position(attempt(start, k, rings) + 1, credits),
            preferred_credits(credits),
        )
    }
}

/// What one scan of `consumer` takes, with room for `max` values: the values it
/// gets, and the queues it leaves.
pub open spec fn taken<T, B: Backend<T>>(shared: Shared<T, B>, start: int, max: int) -> (
    Seq<T>,
    Seq<Seq<T>>,
) {
    let rings = shared.rings() as int;
    let k = shared.pick(start, 0);
    if k >= rings {
        (Seq::empty(), shared.queues())
    } else {
        let ring = attempt(start, k, rings);
        let n = min(shared.rx(ring).ready(shared.link(ring)), max);
        (
            shared.link(ring).queue().take(n),
            shared.queues().update(ring, shared.link(ring).queue().skip(n)),
        )
    }
}

/// What the receiver of ring `i` remembers after one scan with room for `max` values.
pub open spec fn remembered<T, B: Backend<T>>(
    shared: Shared<T, B>,
    start: int,
    max: int,
    i: int,
) -> int {
    let rings = shared.rings() as int;
    let k = shared.pick(start, 0);
    if k < rings && i == attempt(start, k, rings) {
        let ready = shared.rx(i).ready(shared.link(i));
        B::Rx::kept(ready, min(ready, max))
    } else {
        shared.known(i)
    }
}

impl<T> Consumer<T> {
    /// One pass over the rings: take up to `max` values from the first ring that is
    /// free and has any, and hand them to `out`.
    fn scan<B: Backend<T>, S: Sink<T>>(
        cursor: &mut Cursor,
        shared: &mut Shared<T, B>,
        max: usize,
        out: &mut S,
    ) -> (got: usize)
        requires
            old(shared).wf(),
            old(cursor).wf(),
            0 < max,
        ensures
            final(shared).wf(),
            final(cursor).wf(),
            final(shared).same_but_queues(old(shared)),
            got <= max,
            ({
                let start = old(cursor).position() as int;
                let (values, queues) = taken(*old(shared), start, max as int);
                let k = old(shared).pick(start, 0);
                let rings = old(shared).rings() as int;
                &&& got == values.len()
                &&& got > 0 <==> k < rings
                &&& final(out).seen() == old(out).seen() + values
                &&& final(shared).queues() == queues
                &&& forall|i: int|
                    0 <= i < rings ==> #[trigger] final(shared).known(i) == remembered(
                        *old(shared),
                        start,
                        max as int,
                        i,
                    )
                &&& (final(cursor).position() as int, final(cursor).credits()) == scanned(
                    start,
                    old(cursor).credits(),
                    k,
                    rings,
                )
            }),
            forall|p: Producer<T, B>| #[trigger]
                p.attached(*old(shared)) ==> p.attached(*final(shared)),
    {
        let ghost before = *shared;
        let ghost start = cursor.position() as int;
        let ghost credits = cursor.credits();
        let ghost seen = out.seen();
        let n: usize = shared.slots.len();
        let mut k: usize = 0;
        while k < n
            invariant
                before == *old(shared),
                start == old(cursor).position(),
                credits == old(cursor).credits(),
                seen == old(out).seen(),
                n == before.rings(),
                n == shared.rings(),
                before.wf(),
                shared.wf(),
                cursor.wf(),
                0 < max,
                k <= n,
                cursor.credits() == credits,
                before.pick(start, 0) == before.pick(start, k as int),
                k == 0 ==> cursor.position() == start,
                k > 0 ==> cursor.position() == attempt(start, k - 1, n as int) + 1,
                shared.same_but_queues(&before),
                shared.queues() == before.queues(),
                shared.same_knowledge(&before),
                out.seen() == seen,
                forall|i: int|
                    0 <= i < n ==> {
                        &&& #[trigger] shared.rx(i).ready(shared.link(i)) == before.rx(i).ready(
                            before.link(i),
                        )
                    },
                forall|p: Producer<T, B>| #[trigger] p.attached(before) ==> p.attached(*shared),
            decreases n - k,
        {
            let i: usize = cursor.next(n);
            let ghost entry = *shared;
            proof {
                if k > 0 {
                    lemma_next_attempt(start, k - 1, n as int);
                }
                assert(i == attempt(start, k as int, n as int));
                assert(entry.queues()[i as int] == before.queues()[i as int]);
                assert(entry.claimed(i as int) == before.claimed(i as int));
                assert(entry.link(i as int).wf());
                entry.rx(i as int).ready_bounds(entry.link(i as int));
            }
            // On failure another consumer owns the ring: skip it.
            if shared.try_acquire(i) {
                let ghost held = *shared;
                proof {
                    assert(held.queues() =~= entry.queues());
                    assert forall|j: int| 0 <= j < n implies (#[trigger] held.link(j)).wf()
                        && held.rx(j).attached(held.link(j)) by {
                        assert(entry.link(j).wf());
                    }
                    assert forall|p: Producer<T, B>| #[trigger] p.attached(
                        before,
                    ) implies p.attached(held) by {
                        assert(p.attached(entry));
                    }
                }
                let got: usize = shared.drain_ring(i, max, out);
                let ghost drained = *shared;
                shared.release(i);
                proof {
                    assert(shared.queues() =~= drained.queues());
                    assert forall|j: int| 0 <= j < n implies (#[trigger] shared.link(j)).wf()
                        && shared.rx(j).attached(shared.link(j)) by {
                        assert(drained.link(j).wf());
                    }
                    assert forall|j: int| 0 <= j < n implies {
                        &&& #[trigger] shared.claimed(j) == before.claimed(j)
                        &&& shared.link(j).bound() == before.link(j).bound()
                        &&& shared.link(j).producer_gone() == before.link(j).producer_gone()
                        &&& shared.link(j).consumer_gone() == before.link(j).consumer_gone()
                    } by {
                        assert(entry.claimed(j) == before.claimed(j));
                        assert(drained.claimed(j) == held.claimed(j));
                        assert(held.link(j) == entry.link(j));
                        assert(shared.link(j) == drained.link(j));
                        assert(shared.claimed(j) == before.claimed(j));
                        assert(shared.link(j).bound() == before.link(j).bound());
                        assert(shared.link(j).producer_gone() == before.link(j).producer_gone());
                    }
                    assert forall|p: Producer<T, B>| #[trigger] p.attached(
                        before,
                    ) implies p.attached(*shared) by {
                        assert(p.attached(held));
                        assert(p.attached(drained));
                    }
                }
                proof {
                    assert forall|j: int| 0 <= j < n && j != i implies #[trigger] shared.known(j)
                        == before.known(j) by {
                        assert(entry.known(j) == before.known(j));
                        assert(drained.link(j) == held.link(j));
                    }
                }
                if got > 0 {
                    cursor.prefer();
                    assert(before.takeable(i as int));
                    proof {
                        assert(entry.rx(i as int).ready(entry.link(i as int)) == before.rx(
                            i as int,
                        ).ready(before.link(i as int)));
                        assert(shared.known(i as int) == drained.known(i as int));
                        assert forall|j: int| 0 <= j < n implies #[trigger] shared.known(j)
                            == remembered(before, start, max as int, j) by {
                        }
                    }
                    return got;
                }
                proof {
                    assert(out.seen() =~= seen);
                    assert(entry.link(i as int).queue().skip(0) =~= entry.link(i as int).queue());
                    assert(shared.queues() =~= before.queues());
                    assert(shared.queues()[i as int] == before.queues()[i as int]);
                    assert(shared.link(i as int).wf());
                    shared.rx(i as int).ready_bounds(shared.link(i as int));
                    assert(entry.known(i as int) == before.known(i as int));
                    assert forall|j: int| 0 <= j < n implies #[trigger] shared.rx(j).ready(
                        shared.link(j),
                    ) == before.rx(j).ready(before.link(j)) by {
                        assert(entry.rx(j).ready(entry.link(j)) == before.rx(j).ready(
                            before.link(j),
                        ));
                        if j != i {
                            assert(drained.link(j) == held.link(j));
                        }
                    }
                }
            } else {
                proof {
                    assert(shared.queues() =~= entry.queues());
                    assert forall|j: int| 0 <= j < n implies (#[trigger] shared.link(j)).wf()
                        && shared.rx(j).attached(shared.link(j)) by {
                        assert(entry.link(j).wf());
                    }
                    assert forall|j: int| 0 <= j < n implies {
                        &&& #[trigger] shared.claimed(j) == before.claimed(j)
                        &&& shared.link(j).bound() == before.link(j).bound()
                        &&& shared.link(j).producer_gone() == before.link(j).producer_gone()
                        &&& shared.link(j).consumer_gone() == before.link(j).consumer_gone()
                    } by {
                        assert(entry.claimed(j) == before.claimed(j));
                        assert(shared.link(j) == entry.link(j));
                    }
                    assert forall|j: int| 0 <= j < n implies #[trigger] shared.known(j)
                        == before.known(j) by {
                        assert(shared.link(j) == entry.link(j));
                        assert(entry.known(j) == before.known(j));
                    }
                    assert forall|j: int| 0 <= j < n implies #[trigger] shared.rx(j).ready(
                        shared.link(j),
                    ) == before.rx(j).ready(before.link(j)) by {
                        assert(shared.link(j) == entry.link(j));
                        assert(entry.rx(j).ready(entry.link(j)) == before.rx(j).ready(
                            before.link(j),
                        ));
                    }
                    assert forall|p: Producer<T, B>| #[trigger] p.attached(
                        before,
                    ) implies p.attached(*shared) by {
                        assert(p.attached(entry));
                    }
                }
            }
            k = k + 1;
        }
        proof {
            assert(out.seen() =~= seen + Seq::<T>::empty());
        }
        0
    }
}


/// Open a channel: the shared part, one producer per ring, and the first consumer.
pub fn open<T, B: Backend<T>>(n_producers: usize, capacity: usize) -> (parts: (
    Shared<T, B>,
    Vec<Producer<T, B>>,
    Consumer<T>,
))
    requires
        B::supports(capacity),
    ensures
        ({
            let (shared, producers, consumer) = parts;
            &&& shared.wf()
            &&& shared.rings() == n_producers
            &&& shared.live_producers() == n_producers
            &&& shared.live_consumers() == 1
            &&& forall|i: int|
                0 <= i < n_producers ==> {
                    &&& (#[trigger] shared.link(i)).queue() == Seq::<T>::empty()
                    &&& shared.link(i).accepts()
                    &&& B::sized(capacity, shared.link(i).bound())
                    &&& !shared.claimed(i)
                    &&& shared.known(i) == 0
                }
            &&& producers@.len() == n_producers
            &&& forall|i: int|
                0 <= i < n_producers ==> (#[trigger] producers@[i]).ring() == i
                    && producers@[i].attached(shared)
            &&& consumer.wf()
            &&& consumer.staged() == Seq::<T>::empty()
            &&& consumer.batch() == 64
            &&& consumer.position() == 0
            &&& consumer.credits() == scan::QUANTUM - 1
        }),
{
    let mut producers: Vec<Producer<T, B>> = Vec::with_capacity(n_producers);
    let mut slots: Vec<Slot<T, B>> = Vec::with_capacity(n_producers);
    while slots.len() < n_producers
        invariant
            B::supports(capacity),
            slots@.len() <= n_producers,
            producers@.len() == slots@.len(),
            forall|i: int|
                0 <= i < slots@.len() ==> {
                    &&& (#[trigger] slots@[i]).link.wf()
                    &&& slots@[i].rx.attached(slots@[i].link)
                    &&& slots@[i].link.queue() == Seq::<T>::empty()
                    &&& slots@[i].link.accepts()
                    &&& B::sized(capacity, slots@[i].link.bound())
                    &&& !slots@[i].claimed
                    &&& slots@[i].rx.known(slots@[i].link) == 0
                    &&& producers@[i].ring == i
                    &&& producers@[i].tx.attached(slots@[i].link)
                },
        decreases n_producers - slots@.len(),
    {
        let (link, tx, rx) = B::channel(capacity);
        producers.push(Producer { ring: slots.len(), tx });
        slots.push(Slot { claimed: false, link, rx });
    }
    let shared = Shared { slots, live_producers: n_producers, live_consumers: 1 };
    let consumer = Consumer { cursor: Cursor::new(0), staging: Batch::new(), batch: 64 };
    proof {
        assert forall|i: int| 0 <= i < shared.rings() implies (#[trigger] shared.link(i)).wf()
            && shared.rx(i).attached(shared.link(i)) by {
            assert(shared.slots@[i].link.wf());
        }
        assert forall|i: int| 0 <= i < n_producers implies (#[trigger] producers@[i]).ring() == i
            && producers@[i].attached(shared) by {
            assert(shared.slots@[i].link.wf());
        }
    }
    (shared, producers, consumer)
}

/// How an attempt to send went.
pub enum SendStep<T> {
    /// The value is in the ring.
    Sent,
    /// No consumer remained, and the value was dropped.
    Discarded,
    /// The ring is full: pause and try again with the value.
    Wait(T, Pause),
}

/// How an attempt to send a batch went.
#[derive(Clone, Copy, PartialEq, Eq, Structural, Debug)]
pub enum BatchStep {
    /// The source is empty.
    Sent,
    /// No consumer remains; the unsent suffix stays in the source.
    Disconnected,
    /// The ring is full: pause and try again.
    Wait(Pause),
}

impl<T, B: Backend<T>> Producer<T, B> {
    /// Non-blocking send. Returns the value back if this producer's ring is full.
    pub fn try_send(&mut self, shared: &mut Shared<T, B>, v: T) -> (result: Result<(), T>)
        requires
            old(shared).wf(),
            old(self).attached(*old(shared)),
        ensures
            final(shared).wf(),
            final(self).attached(*final(shared)),
            final(self).ring() == old(self).ring(),
            final(shared).same_but_queues(old(shared)),
            final(shared).same_knowledge(old(shared)),
            result is Ok <==> old(shared).link(old(self).ring()).accepts(),
            result is Ok ==> final(shared).queues() == old(shared).queues().update(
                old(self).ring(),
                old(shared).link(old(self).ring()).queue().push(v),
            ),
            result matches Err(back) ==> back == v && final(shared).queues() == old(shared).queues(),
            final(shared).keeps_other_producers(old(shared), old(self).ring()),
    {
        let ghost before = *shared;
        let ghost ring = self.ring as int;
        assert(before.link(ring).wf());
        let slot = &mut shared.slots[self.ring];
        let result = self.tx.try_push(&mut slot.link, v);
        proof {
            lemma_only_ring_changed(before, *shared, ring);
            if result is Ok {
                assert(shared.queues() =~= before.queues().update(
                    ring,
                    before.link(ring).queue().push(v),
                ));
            } else {
                assert(shared.queues() =~= before.queues());
            }
        }
        result
    }

    /// One attempt of a blocking send, which spins while this producer's ring is full
    /// (a consumer will drain it).
    ///
    /// If every consumer has left while the ring is full, the value is
    /// undeliverable and is dropped rather than tried forever.
    pub fn send(&mut self, shared: &mut Shared<T, B>, backoff: &mut Backoff, v: T) -> (step:
        SendStep<T>)
        requires
            old(shared).wf(),
            old(self).attached(*old(shared)),
        ensures
            final(shared).wf(),
            final(self).attached(*final(shared)),
            final(self).ring() == old(self).ring(),
            final(shared).same_but_queues(old(shared)),
            final(shared).same_knowledge(old(shared)),
            step is Sent <==> old(shared).link(old(self).ring()).accepts(),
            step is Discarded <==> !old(shared).link(old(self).ring()).accepts() && old(shared).live_consumers() == 0,
            step is Sent ==> final(shared).queues() == old(shared).queues().update(
                old(self).ring(),
                old(shared).link(old(self).ring()).queue().push(v),
            ) && *final(backoff) == *old(backoff),
            step !is Sent ==> final(shared).queues() == old(shared).queues(),
            step is Discarded ==> *final(backoff) == *old(backoff),
            step matches SendStep::Wait(back, pause) ==> back == v && final(backoff).spins
                == counted(old(backoff).spins) && pause == pause_after(final(backoff).spins as int),
            final(shared).keeps_other_producers(old(shared), old(self).ring()),
    {
        match self.try_send(shared, v) {
            Ok(()) => SendStep::Sent,
            Err(back) => {
                if shared.live_consumers == 0 {
                    return SendStep::Discarded;
                }
                SendStep::Wait(back, backoff.pause())
            },
        }
    }
}

impl<T, B: Backend<T>> Shared<T, B> {
    /// Every producer of another ring is as attached as it was.
    pub open spec fn keeps_other_producers(&self, before: &Self, ring: int) -> bool {
        forall|p: Producer<T, B>|
            p.ring() != ring && #[trigger] p.attached(*before) ==> p.attached(*self)
    }
}

proof fn lemma_only_ring_changed<T, B: Backend<T>>(
    before: Shared<T, B>,
    after: Shared<T, B>,
    ring: int,
)
    requires
        before.wf(),
        0 <= ring < before.rings(),
        after.rings() == before.rings(),
        after.live_producers == before.live_producers,
        after.live_consumers == before.live_consumers,
        forall|i: int|
            0 <= i < before.rings() && i != ring ==> #[trigger] after.slots@[i] == before.slots@[i],
        after.claimed(ring) == before.claimed(ring),
        after.link(ring).wf(),
        after.rx(ring).attached(after.link(ring)),
        after.link(ring).bound() == before.link(ring).bound(),
        after.link(ring).producer_gone() == before.link(ring).producer_gone(),
        after.link(ring).consumer_gone() == before.link(ring).consumer_gone(),
        after.known(ring) == before.known(ring),
    ensures
        after.wf(),
        after.same_but_queues(&before),
        after.same_knowledge(&before),
        after.keeps_other_producers(&before, ring),
{
    assert forall|i: int| 0 <= i < after.rings() implies (#[trigger] after.link(i)).wf()
        && after.rx(i).attached(after.link(i)) by {
        assert(before.link(i).wf());
        if i != ring {
            assert(after.slots@[i] == before.slots@[i]);
        }
    }
    assert forall|i: int| 0 <= i < after.rings() implies {
        &&& #[trigger] after.claimed(i) == before.claimed(i)
        &&& after.link(i).bound() == before.link(i).bound()
        &&& after.link(i).producer_gone() == before.link(i).producer_gone()
        &&& after.link(i).consumer_gone() == before.link(i).consumer_gone()
    } by {
        if i != ring {
            assert(after.slots@[i] == before.slots@[i]);
        }
    }
    assert forall|i: int| 0 <= i < after.rings() implies #[trigger] after.known(i)
        == before.known(i) by {
        if i != ring {
            assert(after.slots@[i] == before.slots@[i]);
        }
    }
    assert forall|p: Producer<T, B>|
        p.ring() != ring && #[trigger] p.attached(before) implies p.attached(after) by {
        assert(after.slots@[p.ring()] == before.slots@[p.ring()]);
    }
}


impl<T, B: Backend<T>> Producer<T, B> {
    /// One attempt to publish an already-owned batch: push while the ring takes
    /// anything, then say how to go on.
    ///
    /// If no consumer remains and no progress is possible, the unsent suffix is still
    /// owned by `source`. Accepted values are not delivery acknowledgements.
    /// Empty batches succeed; call `Batch::clear` before reusing consumed storage.
    pub fn send_batch(
        &mut self,
        shared: &mut Shared<T, B>,
        backoff: &mut Backoff,
        source: &mut Batch<T>,
    ) -> (step: BatchStep)
        requires
            old(shared).wf(),
            old(self).attached(*old(shared)),
        ensures
            final(shared).wf(),
            final(self).attached(*final(shared)),
            final(self).ring() == old(self).ring(),
            final(shared).same_but_queues(old(shared)),
            final(shared).same_knowledge(old(shared)),
            ({
                let ring = old(self).ring();
                let sent = old(source)@.len() - final(source)@.len();
                let spins = if sent > 0 {
                    0
                } else {
                    old(backoff).spins
                };
                &&& 0 <= sent
                &&& final(source)@ == old(source)@.skip(sent)
                &&& final(shared).queues() == old(shared).queues().update(
                    ring,
                    old(shared).link(ring).queue() + old(source)@.take(sent),
                )
                &&& final(source)@.len() > 0 ==> !final(shared).link(ring).accepts()
                &&& step == (if final(source)@.len() == 0 {
                    BatchStep::Sent
                } else if old(shared).live_consumers() == 0 {
                    BatchStep::Disconnected
                } else {
                    BatchStep::Wait(pause_after(counted(spins) as int))
                })
                &&& final(backoff).spins == if step is Wait {
                    counted(spins)
                } else {
                    spins
                }
            }),
            final(shared).keeps_other_producers(old(shared), old(self).ring()),
    {
        let ghost before = *shared;
        let ghost ring = self.ring as int;
        let ghost values = source@;
        let ghost mut sent: int = 0;
        proof {
            assert(values.skip(0) =~= values);
            assert(before.queues().update(ring, before.link(ring).queue() + values.take(0))
                =~= before.queues()) by {
                assert(before.link(ring).queue() + values.take(0) =~= before.link(ring).queue());
            }
        }
        while !source.is_empty()
            invariant
                before == *old(shared),
                values == old(source)@,
                before.wf(),
                shared.wf(),
                ring == self.ring,
                ring == old(self).ring(),
                self.attached(*shared),
                old(self).attached(before),
                shared.same_but_queues(&before),
                shared.same_knowledge(&before),
                shared.keeps_other_producers(&before, ring),
                0 <= sent <= values.len(),
                source@ == values.skip(sent),
                shared.queues() == before.queues().update(
                    ring,
                    before.link(ring).queue() + values.take(sent),
                ),
                backoff.spins == if sent > 0 {
                    0
                } else {
                    old(backoff).spins
                },
            decreases source@.len(),
        {
            let ghost entry = *shared;
            let have: usize = source.len();
            assert(entry.link(ring).wf());
            proof {
                self.tx.grant_bounds(entry.link(ring), have as int);
                assert(entry.queues()[ring] == entry.link(ring).queue());
            }
            let slot = &mut shared.slots[self.ring];
            let n: usize = self.tx.push_from(&mut slot.link, usize::MAX, source);
            proof {
                assert(min(have as int, usize::MAX as int) == have);
                lemma_only_ring_changed(entry, *shared, ring);
                assert forall|p: Producer<T, B>|
                    p.ring() != ring && #[trigger] p.attached(before) implies p.attached(
                    *shared,
                ) by {
                    assert(p.attached(entry));
                }
                assert(values.take(sent) + values.skip(sent).take(n as int) =~= values.take(
                    sent + n,
                ));
                assert(source@ =~= values.skip(sent + n));
                assert(shared.link(ring).queue() =~= before.link(ring).queue() + values.take(
                    sent + n,
                ));
                assert forall|i: int| 0 <= i < shared.rings() implies #[trigger] shared.queues()[i]
                    == before.queues().update(
                    ring,
                    before.link(ring).queue() + values.take(sent + n),
                )[i] by {
                    if i != ring {
                        assert(shared.slots@[i] == entry.slots@[i]);
                        assert(entry.queues()[i] == before.queues()[i]);
                    }
                }
                assert(shared.queues() =~= before.queues().update(
                    ring,
                    before.link(ring).queue() + values.take(sent + n),
                ));
                assert forall|i: int| 0 <= i < shared.rings() implies {
                    &&& #[trigger] shared.claimed(i) == before.claimed(i)
                    &&& shared.link(i).bound() == before.link(i).bound()
                    &&& shared.link(i).producer_gone() == before.link(i).producer_gone()
                    &&& shared.link(i).consumer_gone() == before.link(i).consumer_gone()
                } by {
                    assert(entry.claimed(i) == before.claimed(i));
                }
                assert forall|i: int| 0 <= i < shared.rings() implies #[trigger] shared.known(i)
                    == before.known(i) by {
                    assert(entry.known(i) == before.known(i));
                }
                sent = sent + n;
            }
            if source.len() < have {
                backoff.reset();
                continue;
            }
            if shared.live_consumers == 0 {
                return BatchStep::Disconnected;
            }
            return BatchStep::Wait(backoff.pause());
        }
        BatchStep::Sent
    }

    /// This producer leaves; what it has sent stays in its ring.
    pub fn disconnect(self, shared: &mut Shared<T, B>)
        requires
            old(shared).wf(),
            self.attached(*old(shared)),
            old(shared).live_producers() > 0,
        ensures
            final(shared).wf(),
            final(shared).queues() == old(shared).queues(),
            final(shared).live_producers() == old(shared).live_producers() - 1,
            final(shared).live_consumers() == old(shared).live_consumers(),
            final(shared).rings() == old(shared).rings(),
            final(shared).link(self.ring()).producer_gone(),
            final(shared).same_knowledge(old(shared)),
            forall|i: int|
                0 <= i < final(shared).rings() ==> {
                    &&& #[trigger] final(shared).claimed(i) == old(shared).claimed(i)
                    &&& final(shared).rx(i) == old(shared).rx(i)
                    &&& final(shared).link(i).bound() == old(shared).link(i).bound()
                    &&& final(shared).link(i).accepts() == old(shared).link(i).accepts()
                    &&& final(shared).link(i).consumer_gone() == old(shared).link(i).consumer_gone()
                    &&& i != self.ring() ==> final(shared).link(i) == old(shared).link(i)
                },
            final(shared).keeps_other_producers(old(shared), self.ring()),
    {
        let ghost before = *shared;
        let ghost ring = self.ring as int;
        assert(before.link(ring).wf());
        let mut tx = self.tx;
        let slot = &mut shared.slots[self.ring];
        tx.close(&mut slot.link);
        shared.live_producers = shared.live_producers - 1;
        proof {
            assert(shared.queues() =~= before.queues());
            assert forall|i: int| 0 <= i < shared.rings() implies (#[trigger] shared.link(i)).wf()
                && shared.rx(i).attached(shared.link(i)) by {
                assert(before.link(i).wf());
            }
            assert forall|p: Producer<T, B>|
                p.ring() != ring && #[trigger] p.attached(before) implies p.attached(*shared) by {
                assert(shared.slots@[p.ring()] == before.slots@[p.ring()]);
            }
        }
    }
}

/// What one scan of a consumer, with room for `max` values, does to the rings and to
/// the consumer's position.
pub open spec fn scan_effect<T, B: Backend<T>>(
    before: Shared<T, B>,
    after: Shared<T, B>,
    was: Consumer<T>,
    is: Consumer<T>,
    max: int,
) -> bool {
    let start = was.position();
    &&& after.queues() == taken(before, start, max).1
    &&& forall|i: int|
        0 <= i < before.rings() ==> #[trigger] after.known(i) == remembered(before, start, max, i)
    &&& (is.position(), is.credits()) == scanned(
        start,
        was.credits(),
        before.pick(start, 0),
        before.rings() as int,
    )
    &&& is.batch() == was.batch()
}

/// How an attempt to receive went.
pub enum RecvStep<T> {
    /// The next value.
    Value(T),
    /// Every producer is gone and nothing more is reachable.
    Finished,
    /// Nothing now: pause and try again.
    Wait(Pause),
}

impl<T> Consumer<T> {
    /// Set the max values drained per claim. Default 64.
    pub fn set_batch(&mut self, batch: usize)
        requires
            old(self).wf(),
        ensures
            final(self).wf(),
            final(self).batch() == if batch == 0 {
                1
            } else {
                batch as nat
            },
            final(self).staged() == old(self).staged(),
            final(self).position() == old(self).position(),
            final(self).credits() == old(self).credits(),
    {
        self.batch = if batch < 1 {
            1
        } else {
            batch
        };
    }

    /// Replace what is staged by what one scan takes.
    fn refill<B: Backend<T>>(&mut self, shared: &mut Shared<T, B>)
        requires
            old(shared).wf(),
            old(self).wf(),
        ensures
            final(shared).wf(),
            final(self).wf(),
            final(shared).same_but_queues(old(shared)),
            final(self).staged() == taken(
                *old(shared),
                old(self).position(),
                old(self).batch() as int,
            ).0,
            final(self).staged().len() > 0 <==> old(shared).pick(old(self).position(), 0) < old(shared).rings(),
            scan_effect(
                *old(shared),
                *final(shared),
                *old(self),
                *final(self),
                old(self).batch() as int,
            ),
            forall|p: Producer<T, B>| #[trigger]
                p.attached(*old(shared)) ==> p.attached(*final(shared)),
    {
        self.staging.clear();
        let max: usize = self.batch;
        let got: usize = Self::scan(&mut self.cursor, shared, max, &mut self.staging);
        proof {
            let values = taken(*old(shared), old(self).position(), max as int).0;
            assert(Seq::<T>::empty() + values =~= values);
        }
    }

    /// Non-blocking receive. Returns `None` if no ring currently yields a value to
    /// this consumer — which does *not* prove the channel is empty (another
    /// consumer may hold a non-empty ring).
    pub fn try_recv<B: Backend<T>>(&mut self, shared: &mut Shared<T, B>) -> (value: Option<T>)
        requires
            old(shared).wf(),
            old(self).wf(),
        ensures
            final(shared).wf(),
            final(self).wf(),
            final(shared).same_but_queues(old(shared)),
            old(self).staged().len() > 0 ==> {
                &&& value == Some(old(self).staged()[0])
                &&& final(self).staged() == old(self).staged().skip(1)
                &&& *final(shared) == *old(shared)
                &&& final(self).position() == old(self).position()
                &&& final(self).credits() == old(self).credits()
                &&& final(self).batch() == old(self).batch()
            },
            old(self).staged().len() == 0 ==> {
                let values = taken(
                    *old(shared),
                    old(self).position(),
                    old(self).batch() as int,
                ).0;
                &&& value is Some <==> old(shared).pick(old(self).position(), 0) < old(shared).rings()
                &&& value matches Some(v) ==> v == values[0] && final(self).staged()
                    == values.skip(1)
                &&& value is None ==> final(self).staged() == Seq::<T>::empty()
                &&& scan_effect(
                    *old(shared),
                    *final(shared),
                    *old(self),
                    *final(self),
                    old(self).batch() as int,
                )
            },
            forall|p: Producer<T, B>| #[trigger]
                p.attached(*old(shared)) ==> p.attached(*final(shared)),
    {
        if let Some(v) = self.staging.pop_front() {
            return Some(v);
        }
        self.refill(shared);
        let value = self.staging.pop_front();
        assert(value is None ==> self.staging@ =~= Seq::<T>::empty());
        value
    }

    /// Receive a fresh owned batch without moving each value through `recv`.
    ///
    /// Drops unread values in `out` first. Any values already staged by `recv` are
    /// returned together before claiming another ring; changing the batch limit does
    /// not truncate that staged prefix. Otherwise the configured batch limit bounds
    /// the next refill.
    pub fn try_recv_batch<B: Backend<T>>(
        &mut self,
        shared: &mut Shared<T, B>,
        out: &mut Batch<T>,
    ) -> (n: usize)
        requires
            old(shared).wf(),
            old(self).wf(),
        ensures
            final(shared).wf(),
            final(self).wf(),
            final(shared).same_but_queues(old(shared)),
            n == final(out)@.len(),
            final(self).staged() == Seq::<T>::empty(),
            old(self).staged().len() > 0 ==> {
                &&& final(out)@ == old(self).staged()
                &&& *final(shared) == *old(shared)
                &&& final(self).position() == old(self).position()
                &&& final(self).credits() == old(self).credits()
                &&& final(self).batch() == old(self).batch()
            },
            old(self).staged().len() == 0 ==> {
                &&& final(out)@ == taken(
                    *old(shared),
                    old(self).position(),
                    old(self).batch() as int,
                ).0
                &&& n > 0 <==> old(shared).pick(old(self).position(), 0) < old(shared).rings()
                &&& scan_effect(
                    *old(shared),
                    *final(shared),
                    *old(self),
                    *final(self),
                    old(self).batch() as int,
                )
            },
            forall|p: Producer<T, B>| #[trigger]
                p.attached(*old(shared)) ==> p.attached(*final(shared)),
    {
        out.clear();
        if self.staging.is_empty() {
            assert(self.staging@ =~= Seq::<T>::empty());
            // Lend the cleared allocation to refill, then return it below.
            core::mem::swap(&mut self.staging, out);
            self.refill(shared);
        }
        core::mem::swap(&mut self.staging, out);
        out.len()
    }

    /// True once every producer has left. Values may remain in rings —
    /// only `is_disconnected() && try_recv().is_none()` means this consumer is done.
    pub fn is_disconnected<B: Backend<T>>(&self, shared: &Shared<T, B>) -> (gone: bool)
        ensures
            gone == (shared.live_producers() == 0),
    {
        shared.live_producers == 0
    }
}


impl<T, B: Backend<T>> Shared<T, B> {
    /// Some ring is free and has a value.
    pub open spec fn any_takeable(&self) -> bool {
        exists|i: int| 0 <= i < self.rings() && #[trigger] self.takeable(i)
    }
}

proof fn lemma_pick_passes<T, B: Backend<T>>(shared: Shared<T, B>, start: int, from: int)
    requires
        0 <= from <= shared.rings(),
    ensures
        from <= shared.pick(start, from) <= shared.rings(),
        shared.pick(start, from) < shared.rings() ==> shared.takeable(
            attempt(start, shared.pick(start, from), shared.rings() as int),
        ),
        forall|k: int|
            from <= k < shared.pick(start, from) ==> !shared.takeable(
                #[trigger] attempt(start, k, shared.rings() as int),
            ),
    decreases shared.rings() - from,
{
    if from < shared.rings() && !shared.takeable(attempt(start, from, shared.rings() as int)) {
        lemma_pick_passes(shared, start, from + 1);
    }
}

/// A scan comes back empty-handed only where every ring is claimed by a peer or
/// empty, wherever the scan started.
pub proof fn law_scan_finds_what_is_there<T, B: Backend<T>>(shared: Shared<T, B>, start: int)
    requires
        0 <= start,
    ensures
        shared.pick(start, 0) < shared.rings() <==> shared.any_takeable(),
{
    let rings = shared.rings() as int;
    lemma_pick_passes(shared, start, 0);
    if shared.pick(start, 0) < rings {
        let ring = attempt(start, shared.pick(start, 0), rings);
        lemma_next_attempt(start, shared.pick(start, 0), rings);
        assert(shared.takeable(ring));
    } else if shared.any_takeable() {
        let ring = choose|i: int| 0 <= i < rings && #[trigger] shared.takeable(i);
        law_rotation_visits_every_slot(start, ring, rings);
    }
}

/// A second scan right after one that found nothing finds nothing either, and
/// leaves the position where the first one left it.
proof fn lemma_rescan<T, B: Backend<T>>(
    before: Shared<T, B>,
    after: Shared<T, B>,
    start: int,
    credits: nat,
)
    requires
        0 <= start,
        after.same_but_queues(&before),
        after.queues() == before.queues(),
        !before.any_takeable(),
    ensures
        !after.any_takeable(),
        ({
            let (p, c) = scanned(start, credits, before.rings() as int, before.rings() as int);
            scanned(p, c, before.rings() as int, before.rings() as int) == (p, c) && 0 <= p
        }),
{
    let rings = before.rings() as int;
    if after.any_takeable() {
        let i = choose|i: int| 0 <= i < rings && #[trigger] after.takeable(i);
        assert(after.queues()[i] == before.queues()[i]);
        assert(after.claimed(i) == before.claimed(i));
        assert(before.takeable(i));
    }
    if rings > 0 {
        let p = attempt(start, rings - 1, rings) + 1;
        lemma_next_attempt(start, rings - 1, rings);
        crate::cursor::lemma_slot_repeats(p - 1, rings);
        assert(attempt(p, rings - 1, rings) == (p - 1) % rings);
        vstd::arithmetic::div_mod::lemma_small_mod((p - 1) as nat, rings as nat);
    }
}

impl<T> Consumer<T> {
    /// One attempt of a blocking receive: a value as long as any is reachable, then,
    /// once every producer has left, the end.
    ///
    /// A consumer may finish while values still sit in rings that are momentarily
    /// claimed by *other* consumers — those values are delivered by those consumers,
    /// so nothing is lost; this consumer just finishes first.
    pub fn recv<B: Backend<T>>(&mut self, shared: &mut Shared<T, B>, backoff: &mut Backoff) -> (step:
        RecvStep<T>)
        requires
            old(shared).wf(),
            old(self).wf(),
        ensures
            final(shared).wf(),
            final(self).wf(),
            final(shared).same_but_queues(old(shared)),
            step is Value <==> old(self).staged().len() > 0 || old(shared).any_takeable(),
            step is Finished <==> step !is Value && old(shared).live_producers() == 0,
            step matches RecvStep::Value(v) ==> {
                let values = taken(
                    *old(shared),
                    old(self).position(),
                    old(self).batch() as int,
                ).0;
                if old(self).staged().len() > 0 {
                    &&& v == old(self).staged()[0]
                    &&& final(self).staged() == old(self).staged().skip(1)
                    &&& *final(shared) == *old(shared)
                    &&& final(self).position() == old(self).position()
                    &&& final(self).credits() == old(self).credits()
                    &&& final(self).batch() == old(self).batch()
                } else {
                    &&& v == values[0]
                    &&& final(self).staged() == values.skip(1)
                    &&& scan_effect(
                        *old(shared),
                        *final(shared),
                        *old(self),
                        *final(self),
                        old(self).batch() as int,
                    )
                }
            },
            step !is Value ==> {
                &&& final(shared).queues() == old(shared).queues()
                &&& final(self).staged() == Seq::<T>::empty()
                &&& scan_effect(
                    *old(shared),
                    *final(shared),
                    *old(self),
                    *final(self),
                    old(self).batch() as int,
                )
            },
            step matches RecvStep::Wait(pause) ==> pause == pause_after(
                counted(old(backoff).spins) as int,
            ) && final(backoff).spins == if pause == Pause::Yield {
                0
            } else {
                counted(old(backoff).spins)
            },
            step !is Wait ==> *final(backoff) == *old(backoff),
            forall|p: Producer<T, B>| #[trigger]
                p.attached(*old(shared)) ==> p.attached(*final(shared)),
    {
        proof {
            law_scan_finds_what_is_there(*old(shared), old(self).position());
            lemma_pick_passes(*old(shared), old(self).position(), 0);
        }
        if let Some(v) = self.try_recv(shared) {
            return RecvStep::Value(v);
        }
        let ghost between = *shared;
        if shared.live_producers == 0 {
            proof {
                lemma_rescan(*old(shared), between, old(self).position(), old(self).credits());
                law_scan_finds_what_is_there(between, self.position());
                lemma_pick_passes(between, self.position(), 0);
            }
            // Producers gone => no new values. One more full claim-pass; if it
            // finds nothing, everything reachable by us is drained.
            if let Some(v) = self.try_recv(shared) {
                return RecvStep::Value(v);
            }
            proof {
                lemma_same_twice(*old(shared), between, *shared);
                assert forall|p: Producer<T, B>| #[trigger] p.attached(
                    *old(shared),
                ) implies p.attached(*shared) by {
                    assert(p.attached(between));
                }
            }
            return RecvStep::Finished;
        }
        RecvStep::Wait(backoff.pause_and_restart())
    }

    /// One attempt of a blocking [`Consumer::try_recv_batch`].
    ///
    /// It finishes when producers are gone and no more values are reachable by
    /// this consumer. Unread values in `out` are dropped before receiving the next
    /// batch.
    pub fn recv_batch<B: Backend<T>>(
        &mut self,
        shared: &mut Shared<T, B>,
        backoff: &mut Backoff,
        out: &mut Batch<T>,
    ) -> (step: RecvStep<usize>)
        requires
            old(shared).wf(),
            old(self).wf(),
        ensures
            final(shared).wf(),
            final(self).wf(),
            final(shared).same_but_queues(old(shared)),
            final(self).staged() == Seq::<T>::empty(),
            step is Value <==> old(self).staged().len() > 0 || old(shared).any_takeable(),
            step is Finished <==> step !is Value && old(shared).live_producers() == 0,
            step matches RecvStep::Value(n) ==> {
                &&& n == final(out)@.len()
                &&& if old(self).staged().len() > 0 {
                    &&& final(out)@ == old(self).staged()
                    &&& *final(shared) == *old(shared)
                    &&& final(self).position() == old(self).position()
                    &&& final(self).credits() == old(self).credits()
                    &&& final(self).batch() == old(self).batch()
                } else {
                    &&& final(out)@ == taken(
                        *old(shared),
                        old(self).position(),
                        old(self).batch() as int,
                    ).0
                    &&& scan_effect(
                        *old(shared),
                        *final(shared),
                        *old(self),
                        *final(self),
                        old(self).batch() as int,
                    )
                }
            },
            step !is Value ==> final(out)@ == Seq::<T>::empty() && scan_effect(
                *old(shared),
                *final(shared),
                *old(self),
                *final(self),
                old(self).batch() as int,
            ),
            step matches RecvStep::Wait(pause) ==> pause == pause_after(
                counted(old(backoff).spins) as int,
            ) && final(backoff).spins == if pause == Pause::Yield {
                0
            } else {
                counted(old(backoff).spins)
            },
            step !is Wait ==> *final(backoff) == *old(backoff),
            forall|p: Producer<T, B>| #[trigger]
                p.attached(*old(shared)) ==> p.attached(*final(shared)),
    {
        proof {
            law_scan_finds_what_is_there(*old(shared), old(self).position());
            lemma_pick_passes(*old(shared), old(self).position(), 0);
        }
        let received: usize = self.try_recv_batch(shared, out);
        if received != 0 {
            return RecvStep::Value(received);
        }
        let ghost between = *shared;
        if self.is_disconnected(shared) {
            proof {
                lemma_rescan(*old(shared), between, old(self).position(), old(self).credits());
                law_scan_finds_what_is_there(between, self.position());
                lemma_pick_passes(between, self.position(), 0);
            }
            let last: usize = self.try_recv_batch(shared, out);
            proof {
                lemma_same_twice(*old(shared), between, *shared);
                assert forall|p: Producer<T, B>| #[trigger] p.attached(
                    *old(shared),
                ) implies p.attached(*shared) by {
                    assert(p.attached(between));
                }
                assert(out@ =~= Seq::<T>::empty());
            }
            if last != 0 {
                return RecvStep::Value(last);
            }
            return RecvStep::Finished;
        }
        assert(out@ =~= Seq::<T>::empty());
        RecvStep::Wait(backoff.pause_and_restart())
    }
}

proof fn lemma_same_twice<T, B: Backend<T>>(a: Shared<T, B>, b: Shared<T, B>, c: Shared<T, B>)
    requires
        b.same_but_queues(&a),
        c.same_but_queues(&b),
    ensures
        c.same_but_queues(&a),
{
    assert forall|i: int| 0 <= i < c.rings() implies {
        &&& #[trigger] c.claimed(i) == a.claimed(i)
        &&& c.link(i).bound() == a.link(i).bound()
        &&& c.link(i).producer_gone() == a.link(i).producer_gone()
        &&& c.link(i).consumer_gone() == a.link(i).consumer_gone()
    } by {
        assert(b.claimed(i) == a.claimed(i));
    }
}


impl<T> Consumer<T> {
    /// Batch receive without staging. Hands over what a prior `recv` left staged,
    /// then claims the next ready ring and hands up to the rest of `max` items
    /// straight to `out`. Returns the number processed this call (0 if no ring
    /// yielded anything). Non-blocking.
    pub fn drain<B: Backend<T>, S: Sink<T>>(
        &mut self,
        shared: &mut Shared<T, B>,
        max: usize,
        out: &mut S,
    ) -> (done: usize)
        requires
            old(shared).wf(),
            old(self).wf(),
        ensures
            final(shared).wf(),
            final(self).wf(),
            final(shared).same_but_queues(old(shared)),
            ({
                let staged = old(self).staged();
                let flushed = min(staged.len() as int, max as int);
                let values = taken(*old(shared), old(self).position(), max - flushed).0;
                &&& final(self).staged() == staged.skip(flushed)
                &&& if flushed == max {
                    &&& done == max
                    &&& final(out).seen() == old(out).seen() + staged.take(flushed)
                    &&& *final(shared) == *old(shared)
                    &&& final(self).position() == old(self).position()
                    &&& final(self).credits() == old(self).credits()
                    &&& final(self).batch() == old(self).batch()
                } else {
                    &&& done == flushed + values.len()
                    &&& values.len() > 0 <==> old(shared).any_takeable()
                    &&& final(out).seen() == old(out).seen() + staged + values
                    &&& scan_effect(
                        *old(shared),
                        *final(shared),
                        *old(self),
                        *final(self),
                        max - flushed,
                    )
                }
            }),
            forall|p: Producer<T, B>| #[trigger]
                p.attached(*old(shared)) ==> p.attached(*final(shared)),
    {
        let ghost staged = self.staging@;
        let ghost seen = out.seen();
        let mut done: usize = 0;
        proof {
            assert(staged.skip(0) =~= staged);
            assert(seen + staged.take(0) =~= seen);
        }
        while done < max && !self.staging.is_empty()
            invariant
                done <= max,
                done <= staged.len(),
                self.staging@ == staged.skip(done as int),
                out.seen() == seen + staged.take(done as int),
                self.wf(),
                self.position() == old(self).position(),
                self.credits() == old(self).credits(),
                self.batch() == old(self).batch(),
            decreases max - done,
        {
            let value = self.staging.pop_front().unwrap();
            let ghost held = value;
            out.accept(value);
            done = done + 1;
            proof {
                assert(self.staging@ =~= staged.skip(done as int));
                assert(staged.take(done as int) =~= staged.take(done - 1).push(held));
                assert(seen + staged.take(done as int) =~= (seen + staged.take(done - 1)).push(
                    held,
                ));
            }
        }
        if done >= max {
            return done;
        }
        proof {
            law_scan_finds_what_is_there(*shared, self.position());
            assert(staged.take(done as int) =~= staged);
        }
        let got: usize = Self::scan(&mut self.cursor, shared, max - done, out);
        done + got
    }

    /// One attempt of a blocking consumer that hands every value delivered to it to
    /// `out` until the channel is drained and all producers are gone.
    pub fn for_each<B: Backend<T>, S: Sink<T>>(
        &mut self,
        shared: &mut Shared<T, B>,
        backoff: &mut Backoff,
        batch: usize,
        out: &mut S,
    ) -> (step: RecvStep<usize>)
        requires
            old(shared).wf(),
            old(self).wf(),
        ensures
            final(shared).wf(),
            final(self).wf(),
            final(shared).same_but_queues(old(shared)),
            ({
                let max = if batch == 0 {
                    1
                } else {
                    batch as int
                };
                let staged = old(self).staged();
                let flushed = min(staged.len() as int, max);
                let values = taken(*old(shared), old(self).position(), max - flushed).0;
                &&& step is Value <==> staged.len() > 0 || old(shared).any_takeable()
                &&& step is Finished <==> step !is Value && old(shared).live_producers() == 0
                &&& final(self).staged() == staged.skip(flushed)
                &&& step matches RecvStep::Value(n) ==> final(backoff).spins == 0 && if flushed
                    == max {
                    &&& n == max
                    &&& final(out).seen() == old(out).seen() + staged.take(flushed)
                    &&& *final(shared) == *old(shared)
                    &&& final(self).position() == old(self).position()
                    &&& final(self).credits() == old(self).credits()
                    &&& final(self).batch() == old(self).batch()
                } else {
                    &&& n == flushed + values.len()
                    &&& final(out).seen() == old(out).seen() + staged + values
                    &&& scan_effect(
                        *old(shared),
                        *final(shared),
                        *old(self),
                        *final(self),
                        max - flushed,
                    )
                }
                &&& step !is Value ==> final(out).seen() == old(out).seen() && scan_effect(
                    *old(shared),
                    *final(shared),
                    *old(self),
                    *final(self),
                    max,
                )
            }),
            step matches RecvStep::Wait(pause) ==> pause == pause_after(
                counted(old(backoff).spins) as int,
            ) && final(backoff).spins == if pause == Pause::Yield {
                0
            } else {
                counted(old(backoff).spins)
            },
            step is Finished ==> *final(backoff) == *old(backoff),
            forall|p: Producer<T, B>| #[trigger]
                p.attached(*old(shared)) ==> p.attached(*final(shared)),
    {
        let max: usize = if batch < 1 {
            1
        } else {
            batch
        };
        proof {
            law_scan_finds_what_is_there(*old(shared), old(self).position());
            lemma_pick_passes(*old(shared), old(self).position(), 0);
        }
        let first: usize = self.drain(shared, max, out);
        if first > 0 {
            backoff.reset();
            return RecvStep::Value(first);
        }
        let ghost between = *shared;
        proof {
            assert(old(self).staged().skip(0) =~= old(self).staged());
            assert(out.seen() =~= old(out).seen());
            assert(self.staged() =~= Seq::<T>::empty());
        }
        if shared.live_producers == 0 {
            proof {
                lemma_rescan(*old(shared), between, old(self).position(), old(self).credits());
                law_scan_finds_what_is_there(between, self.position());
                lemma_pick_passes(between, self.position(), 0);
            }
            let second: usize = self.drain(shared, max, out);
            proof {
                lemma_same_twice(*old(shared), between, *shared);
                assert forall|p: Producer<T, B>| #[trigger] p.attached(
                    *old(shared),
                ) implies p.attached(*shared) by {
                    assert(p.attached(between));
                }
                assert(out.seen() =~= old(out).seen());
                assert(self.staged() =~= Seq::<T>::empty());
            }
            if second == 0 {
                return RecvStep::Finished;
            }
            return RecvStep::Value(second);
        }
        RecvStep::Wait(backoff.pause_and_restart())
    }

    /// Another consumer of the same channel. The number of live consumers also
    /// dephases it; reused seeds after departures are harmless.
    pub fn duplicate<B: Backend<T>>(&self, shared: &mut Shared<T, B>) -> (peer: Self)
        requires
            self.wf(),
            old(shared).wf(),
            old(shared).live_consumers() < usize::MAX,
        ensures
            peer.wf(),
            peer.staged() == Seq::<T>::empty(),
            peer.batch() == self.batch(),
            peer.position() == old(shared).live_consumers(),
            peer.credits() == scan::QUANTUM - 1,
            final(shared).wf(),
            final(shared).live_consumers() == old(shared).live_consumers() + 1,
            final(shared).live_producers() == old(shared).live_producers(),
            final(shared).same_rings(old(shared)),
    {
        let seed: usize = shared.live_consumers;
        shared.live_consumers = seed + 1;
        proof {
            shared.lemma_same_rings(old(shared));
        }
        Consumer { cursor: Cursor::new(seed), staging: Batch::new(), batch: self.batch }
    }

    /// This consumer leaves. Any values still staged in it are dropped with it.
    pub fn disconnect<B: Backend<T>>(self, shared: &mut Shared<T, B>)
        requires
            old(shared).wf(),
            old(shared).live_consumers() > 0,
        ensures
            final(shared).wf(),
            final(shared).live_consumers() == old(shared).live_consumers() - 1,
            final(shared).live_producers() == old(shared).live_producers(),
            final(shared).same_rings(old(shared)),
    {
        shared.live_consumers = shared.live_consumers - 1;
        proof {
            shared.lemma_same_rings(old(shared));
        }
    }
}

impl<T, B: Backend<T>> Shared<T, B> {
    /// Every ring is as it was, and so is every producer's view of it.
    pub open spec fn same_rings(&self, before: &Self) -> bool {
        &&& self.rings() == before.rings()
        &&& self.queues() == before.queues()
        &&& forall|i: int|
            0 <= i < self.rings() ==> #[trigger] self.link(i) == before.link(i) && self.rx(i)
                == before.rx(i) && self.claimed(i) == before.claimed(i)
        &&& forall|p: Producer<T, B>| #[trigger] p.attached(*before) ==> p.attached(*self)
    }

    proof fn lemma_same_rings(&self, before: &Self)
        requires
            before.wf(),
            self.slots@ == before.slots@,
        ensures
            self.wf(),
            self.same_rings(before),
    {
        assert forall|i: int| 0 <= i < self.rings() implies (#[trigger] self.link(i)).wf()
            && self.rx(i).attached(self.link(i)) by {
            assert(before.link(i).wf());
        }
        assert(self.queues() =~= before.queues());
        assert forall|p: Producer<T, B>| #[trigger] p.attached(*before) implies p.attached(
            *self,
        ) by {
            assert(self.link(p.ring()) == before.link(p.ring()));
        }
    }
}

/// Each value reaches exactly one consumer: what a scan takes was the front of one
/// ring, leaves that ring, and nothing else moves.
pub proof fn law_taken_values_leave_one_ring<T, B: Backend<T>>(
    shared: Shared<T, B>,
    start: int,
    max: int,
    ring: int,
)
    requires
        shared.wf(),
        0 <= start,
        0 < max,
        0 <= ring < shared.rings(),
    ensures
        ({
            let (values, queues) = taken(shared, start, max);
            let k = shared.pick(start, 0);
            let rings = shared.rings() as int;
            &&& queues.len() == rings
            &&& values.len() <= max
            &&& k < rings && ring == attempt(start, k, rings) ==> values + queues[ring]
                == shared.queues()[ring] && values.len() > 0
            &&& !(k < rings && ring == attempt(start, k, rings)) ==> queues[ring]
                == shared.queues()[ring]
            &&& k >= rings ==> values.len() == 0
        }),
{
    let k = shared.pick(start, 0);
    let rings = shared.rings() as int;
    lemma_pick_passes(shared, start, 0);
    if k < rings {
        let chosen = attempt(start, k, rings);
        lemma_next_attempt(start, k, rings);
        assert(shared.link(chosen).wf());
        shared.rx(chosen).ready_bounds(shared.link(chosen));
        let n = min(shared.rx(chosen).ready(shared.link(chosen)), max);
        let q = shared.link(chosen).queue();
        assert(q.take(n) + q.skip(n) =~= q);
    }
}


impl<T, B: Backend<T>> Shared<T, B> {
    /// A channel without rings.
    fn without_rings(live_producers: usize) -> (shared: Self)
        ensures
            shared.wf(),
            shared.rings() == 0,
            shared.live_producers() == live_producers,
            shared.live_consumers() == 1,
    {
        Shared { slots: Vec::new(), live_producers, live_consumers: 1 }
    }

    /// Add one ring and its producer. While `held` is set, consumers skip the ring.
    fn add_ring(&mut self, capacity: usize, held: bool) -> (producer: Producer<T, B>)
        requires
            old(self).wf(),
            B::supports(capacity),
            old(self).live_producers() < usize::MAX,
        ensures
            final(self).wf(),
            final(self).rings() == old(self).rings() + 1,
            final(self).live_producers() == old(self).live_producers() + 1,
            final(self).live_consumers() == old(self).live_consumers(),
            final(self).queues() == old(self).queues().push(Seq::<T>::empty()),
            final(self).link(old(self).rings() as int).accepts(),
            B::sized(capacity, final(self).link(old(self).rings() as int).bound()),
            final(self).known(old(self).rings() as int) == 0,
            !final(self).link(old(self).rings() as int).producer_gone(),
            !final(self).link(old(self).rings() as int).consumer_gone(),
            final(self).claimed(old(self).rings() as int) == held,
            forall|i: int|
                0 <= i < old(self).rings() ==> #[trigger] final(self).link(i) == old(self).link(i)
                    && final(self).rx(i) == old(self).rx(i) && final(self).claimed(i) == old(self).claimed(i),
            producer.ring() == old(self).rings(),
            producer.attached(*final(self)),
            forall|p: Producer<T, B>| #[trigger]
                p.attached(*old(self)) ==> p.attached(*final(self)),
    {
        let ghost before = *self;
        let (link, tx, rx) = B::channel(capacity);
        let ring: usize = self.slots.len();
        self.slots.push(Slot { claimed: held, link, rx });
        self.live_producers = self.live_producers + 1;
        proof {
            assert forall|i: int| 0 <= i < self.rings() implies (#[trigger] self.link(i)).wf()
                && self.rx(i).attached(self.link(i)) by {
                if i < before.rings() {
                    assert(before.link(i).wf());
                }
            }
            assert(self.queues() =~= before.queues().push(Seq::<T>::empty()));
            assert forall|p: Producer<T, B>| #[trigger] p.attached(before) implies p.attached(
                *self,
            ) by {
                assert(self.link(p.ring()) == before.link(p.ring()));
            }
        }
        Producer { ring, tx }
    }
}

/// Declare fixed-membership brokerless MPMC with Ring storage and spin/yield waiting
/// defaults.
pub fn channel<T>() -> (channel: crate::Channel<
    T,
    crate::topology::Mpmc<crate::engine::Claim>,
    crate::backend::Ring,
    crate::execution::Sync,
    crate::wait::SpinYield,
>)
    ensures
        channel.shape == crate::Shape::initial(),
        channel.routing.cursor == 0,
{
    crate::Channel::new().mpmc()
}

} // verus!
