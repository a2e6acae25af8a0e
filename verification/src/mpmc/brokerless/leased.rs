//! Bounded, reusable payload ownership for fixed brokerless MPMC.
//!
//! `capacity` counts **all** payload slots per producer, including filling,
//! queued, consumer-held and returned blocks. `batch` is the maximum values per
//! block; capacity must be a positive multiple of batch.
//!
//! A producer reserves a write lease, initializes values and explicitly commits.
//! A consumer receives a read lease to the same allocation, after the forward
//! ring claim has been released. Releasing it returns the block to its origin.
//! A held lease withholds that block only; it never prevents a peer from taking
//! another ready block.
use super::{min, taken, Backoff, Endpoint, Link, Pause, RecvStep};
use crate::backend::{ring, Backend, Ring, Rx};
use crate::cursor::{
    checked_next_power_of_two, is_rounded_up, largest_power_of_two, lemma_next_power, next_power,
};
use crate::open::{InvalidShape, OpenError};
use crate::pause::{counted, pause_after};
use crate::round_robin::{
    self, attempt, first_hit, law_rotation_visits_every_slot, lemma_next_attempt,
};
use vstd::prelude::*;

verus! {

/// A reusable payload allocation of one producer.
pub struct Block<T> {
    values: Vec<T>,
    origin: usize,
}

/// Blocks queued in all lanes of a row.
pub open spec fn lane_total<T>(lanes: Seq<ring::Inner<Block<T>>>) -> nat
    decreases lanes.len(),
{
    if lanes.len() == 0 {
        0
    } else {
        lane_total(lanes.drop_last()) + lanes.last().queue().len()
    }
}

proof fn lemma_lane_total_update<T>(
    lanes: Seq<ring::Inner<Block<T>>>,
    i: int,
    lane: ring::Inner<Block<T>>,
)
    requires
        0 <= i < lanes.len(),
    ensures
        lane_total(lanes.update(i, lane)) == lane_total(lanes) - lanes[i].queue().len()
            + lane.queue().len(),
        lanes[i].queue().len() <= lane_total(lanes),
    decreases lanes.len(),
{
    let updated = lanes.update(i, lane);
    if i == lanes.len() - 1 {
        assert(updated.drop_last() =~= lanes.drop_last());
    } else {
        lemma_lane_total_update(lanes.drop_last(), i, lane);
        assert(updated.drop_last() =~= lanes.drop_last().update(i, lane));
    }
}

/// What all endpoints share: the forward rings, one per producer, and one return
/// lane from every consumer to every producer.
pub struct Shared<T> {
    forward: super::Shared<Block<T>, Ring>,
    returns: Vec<Vec<ring::Inner<Block<T>>>>,
    /// Blocks of each producer that consumers hold.
    held: Ghost<Seq<nat>>,
    batch: usize,
}

/// Whether every block in `queue` belongs to producer `origin` and fits its allocation.
spec fn all_from<T>(queue: Seq<Block<T>>, origin: int, batch: int) -> bool {
    forall|i: int|
        0 <= i < queue.len() ==> (#[trigger] queue[i]).origin == origin && queue[i].values@.len()
            <= batch
}

impl<T> Shared<T> {
    /// Producers of the channel.
    pub open spec fn producers(&self) -> nat {
        self.forward().rings()
    }

    /// The forward rings.
    pub closed spec fn forward(&self) -> super::Shared<Block<T>, Ring> {
        self.forward
    }

    /// Return lanes of producer `p`, one per consumer.
    pub closed spec fn row(&self, p: int) -> Seq<ring::Inner<Block<T>>> {
        self.returns@[p]@
    }

    /// Values that a block holds at most.
    pub closed spec fn batch(&self) -> nat {
        self.batch as nat
    }

    /// Blocks of producer `p` that consumers hold.
    pub closed spec fn held(&self, p: int) -> nat {
        self.held@[p]
    }

    /// Consumers still there.
    pub open spec fn live_consumers(&self) -> nat {
        self.forward().live_consumers()
    }

    /// Producers still there.
    pub open spec fn live_producers(&self) -> nat {
        self.forward().live_producers()
    }

    /// Blocks of producer `p` that are queued, held by a consumer or on their way back.
    pub open spec fn outstanding(&self, p: int) -> nat {
        self.forward().link(p).queue().len() + self.held(p) + lane_total(self.row(p))
    }

    /// Rings and lanes are consistent, each holds its producer's blocks only, and no
    /// consumer keeps a forward ring from the others.
    pub closed spec fn wf(&self) -> bool {
        &&& self.forward.wf()
        &&& forall|p: int| 0 <= p < self.producers() ==> !(#[trigger] self.forward.claimed(p))
        &&& self.returns@.len() == self.producers()
        &&& self.held@.len() == self.producers()
        &&& forall|p: int|
            0 <= p < self.producers() ==> all_from(
                (#[trigger] self.forward.link(p)).queue(),
                p,
                self.batch as int,
            )
        &&& forall|p: int, c: int|
            0 <= p < self.producers() && 0 <= c < self.row(p).len() ==> (#[trigger] self.row(
                p,
            )[c]).wf() && all_from(self.row(p)[c].queue(), p, self.batch as int)
        &&& forall|p: int, c: int|
            0 <= p < self.producers() && 0 <= c < self.row(p).len() ==> self.outstanding(p)
                <= (#[trigger] self.row(p)[c]).capacity()
    }
}

impl<T> Block<T> {
    /// The values of the block.
    pub closed spec fn values(&self) -> Seq<T> {
        self.values@
    }

    /// The producer whose pool the block belongs to.
    pub closed spec fn origin(&self) -> int {
        self.origin as int
    }
}


/// A single-owner producer with a finite, preallocated payload pool.
pub struct Producer<T> {
    forward: super::Producer<Block<T>, Ring>,
    index: usize,
    returns: Vec<ring::Receiver<Block<T>>>,
    free: Vec<Block<T>>,
    in_flight: usize,
    cursor: usize,
    batch: usize,
    /// Blocks in write leases.
    writing: Ghost<nat>,
}

/// One competing consumer. Each lease owns an entire published block.
pub struct Consumer<T> {
    forward: super::Consumer<Block<T>>,
    index: usize,
    returns: Vec<ring::Sender<Block<T>>>,
}

impl<T> Producer<T> {
    /// Which producer of the channel this is.
    pub closed spec fn index(&self) -> int {
        self.index as int
    }

    /// Blocks that were never used or have come back empty.
    pub closed spec fn free_blocks(&self) -> nat {
        self.free@.len()
    }

    /// Blocks committed and not yet reclaimed.
    pub closed spec fn in_flight(&self) -> nat {
        self.in_flight as nat
    }

    /// Blocks in write leases.
    pub closed spec fn writing(&self) -> nat {
        self.writing@
    }

    /// Values that a block holds at most.
    pub closed spec fn block_limit(&self) -> nat {
        self.batch as nat
    }

    /// Where the next look at the return lanes starts.
    pub closed spec fn cursor(&self) -> int {
        self.cursor as int
    }

    /// All blocks of the pool, wherever they are.
    pub open spec fn pool(&self) -> nat {
        self.free_blocks() + self.writing() + self.in_flight()
    }

    /// The producer knows lane `c`, which holds the whole pool.
    spec fn lane_fits(&self, shared: Shared<T>, c: int) -> bool {
        let lane = shared.row(self.index as int)[c];
        &&& self.returns@[c].attached(lane)
        &&& self.pool() <= lane.capacity()
        &&& !lane.consumer_gone()
    }

    /// The producer knows its ring and its lanes, each lane holds the whole pool, and
    /// what is in flight is queued, held by a consumer or on its way back.
    pub closed spec fn attached(&self, shared: Shared<T>) -> bool {
        &&& self.index < shared.producers()
        &&& self.forward.attached(shared.forward)
        &&& self.forward.ring() == self.index
        &&& self.batch == shared.batch
        &&& self.returns@.len() == shared.row(self.index as int).len()
        &&& forall|c: int|
            #![trigger self.returns@[c]]
            #![trigger self.lane_fits(shared, c)]
            0 <= c < self.returns@.len() ==> self.lane_fits(shared, c)
        &&& self.pool() <= shared.forward.link(self.index as int).capacity()
        &&& self.pool() <= usize::MAX
        &&& all_from(self.free@, self.index as int, self.batch as int)
        &&& self.in_flight == shared.outstanding(self.index as int)
    }
}

impl<T> Consumer<T> {
    /// Which consumer of the channel this is.
    pub closed spec fn index(&self) -> int {
        self.index as int
    }

    /// The scan over the forward rings.
    pub closed spec fn forward(&self) -> super::Consumer<Block<T>> {
        self.forward
    }

    /// The consumer knows its lane to every producer and has nothing staged.
    pub closed spec fn attached(&self, shared: Shared<T>) -> bool {
        &&& self.forward.wf()
        &&& self.forward.staged().len() == 0
        &&& self.returns@.len() == shared.producers()
        &&& forall|p: int|
            0 <= p < self.returns@.len() ==> self.index < (#[trigger] shared.row(p)).len()
        &&& forall|p: int|
            0 <= p < self.returns@.len() ==> (#[trigger] self.returns@[p]).attached(
                shared.row(p)[self.index as int],
            )
    }
}

impl<T> Shared<T> {
    /// Every consumer is as attached as it was.
    pub open spec fn keeps_consumers(&self, before: &Self) -> bool {
        forall|c: Consumer<T>| #[trigger] c.attached(*before) ==> c.attached(*self)
    }

    /// Every producer but `index` is as attached as it was.
    pub open spec fn keeps_other_producers(&self, before: &Self, index: int) -> bool {
        forall|p: Producer<T>|
            p.index() != index && #[trigger] p.attached(*before) ==> p.attached(*self)
    }
}

/// The first lane, in the order of a scan from `start` on and not before attempt
/// `from`, on which a block waits; the number of lanes where there is none.
pub open spec fn pick_lane<T>(row: Seq<ring::Inner<Block<T>>>, start: int, from: int) -> int
    decreases row.len() - from,
{
    if from >= row.len() || row[attempt(start, from, row.len() as int)].queue().len() > 0 {
        from
    } else {
        pick_lane(row, start, from + 1)
    }
}

/// One lane may differ; everything else is as it was.
spec fn only_lane<T>(before: Shared<T>, after: Shared<T>, p: int, c: int) -> bool {
    &&& after.batch == before.batch
    &&& after.returns@.len() == before.returns@.len()
    &&& 0 <= p < before.returns@.len()
    &&& 0 <= c < before.row(p).len()
    &&& forall|q: int|
        0 <= q < before.returns@.len() && q != p ==> #[trigger] after.row(q) == before.row(q)
    &&& after.row(p) == before.row(p).update(c, after.row(p)[c])
    &&& after.row(p)[c].capacity() == before.row(p)[c].capacity()
    &&& after.row(p)[c].consumer_gone() == before.row(p)[c].consumer_gone()
}

/// A consumer stays attached where every lane keeps the senders attached to it.
/// What makes a producer attached.
proof fn lemma_attached<T>(x: Producer<T>, shared: Shared<T>)
    requires
        x.index < shared.producers(),
        x.forward.attached(shared.forward),
        x.forward.ring() == x.index,
        x.batch == shared.batch,
        x.returns@.len() == shared.row(x.index as int).len(),
        forall|c: int| 0 <= c < x.returns@.len() ==> #[trigger] x.lane_fits(shared, c),
        x.pool() <= shared.forward.link(x.index as int).capacity(),
        x.pool() <= usize::MAX,
        all_from(x.free@, x.index as int, x.batch as int),
        x.in_flight == shared.outstanding(x.index as int),
    ensures
        x.attached(shared),
{
}

/// A producer whose lanes are as they were stays attached.
proof fn lemma_producer_stays<T>(x: Producer<T>, before: Shared<T>, after: Shared<T>)
    requires
        x.attached(before),
        after.producers() == before.producers(),
        after.batch == before.batch,
        after.row(x.index as int) == before.row(x.index as int),
        x.forward.attached(after.forward),
        after.forward.link(x.index as int).capacity() == before.forward.link(
            x.index as int,
        ).capacity(),
        after.outstanding(x.index as int) == before.outstanding(x.index as int),
    ensures
        x.attached(after),
{
    assert forall|c: int| 0 <= c < x.returns@.len() implies #[trigger] x.lane_fits(after, c) by {
        assert(x.lane_fits(before, c));
    }
    lemma_attached(x, after);
}

#[verifier::spinoff_prover]
proof fn lemma_consumer_stays<T>(x: Consumer<T>, before: Shared<T>, after: Shared<T>)
    requires
        x.attached(before),
        after.producers() == before.producers(),
        forall|q: int|
            0 <= q < before.producers() ==> (#[trigger] after.row(q)).len() == before.row(q).len(),
        forall|q: int, d: int, tx: ring::Sender<Block<T>>|
            0 <= q < before.producers() && 0 <= d < before.row(q).len() && #[trigger] tx.attached(
                before.row(q)[d],
            ) ==> tx.attached(after.row(q)[d]),
    ensures
        x.attached(after),
{
    assert forall|q: int| 0 <= q < x.returns@.len() implies x.index < (#[trigger] after.row(
        q,
    )).len() by {
        assert(before.row(q).len() == after.row(q).len());
    }
    assert forall|q: int| 0 <= q < x.returns@.len() implies (
    #[trigger] x.returns@[q]).attached(after.row(q)[x.index as int]) by {
        assert(before.row(q).len() == after.row(q).len());
        assert(x.returns@[q].attached(before.row(q)[x.index as int]));
    }
}

proof fn lemma_popped<T>(before: Shared<T>, after: Shared<T>, p: int, c: int)
    requires
        before.wf(),
        only_lane(before, after, p, c),
        after.forward == before.forward,
        after.held@ == before.held@,
        after.row(p)[c].wf(),
        before.row(p)[c].queue().len() > 0,
        after.row(p)[c].queue() == before.row(p)[c].queue().skip(1),
        forall|tx: ring::Sender<Block<T>>| #[trigger]
            tx.attached(before.row(p)[c]) ==> tx.attached(after.row(p)[c]),
    ensures
        after.wf(),
        after.outstanding(p) == before.outstanding(p) - 1,
        after.keeps_consumers(&before),
        after.keeps_other_producers(&before, p),
{
    let lane = after.row(p)[c];
    lemma_lane_total_update(before.row(p), c, lane);
    assert forall|q: int, d: int|
        0 <= q < after.producers() && 0 <= d < after.row(q).len() implies (#[trigger] after.row(
        q,
    )[d]).wf() && all_from(after.row(q)[d].queue(), q, after.batch as int) by {
        assert(before.row(q)[d].wf());
        if q == p && d == c {
            assert forall|i: int| 0 <= i < lane.queue().len() implies (
            #[trigger] lane.queue()[i]).origin == q && lane.queue()[i].values@.len()
                <= after.batch by {
                assert(lane.queue()[i] == before.row(p)[c].queue()[i + 1]);
            }
        }
    }
    assert forall|x: Consumer<T>| #[trigger] x.attached(before) implies x.attached(after) by {
        lemma_consumer_stays(x, before, after);
    }
    assert forall|q: int, d: int|
        0 <= q < after.producers() && 0 <= d < after.row(q).len() implies after.outstanding(q)
        <= (#[trigger] after.row(q)[d]).capacity() by {
        assert(before.outstanding(q) <= before.row(q)[d].capacity());
    }
    assert forall|x: Producer<T>|
        x.index() != p && #[trigger] x.attached(before) implies x.attached(after) by {
        assert(after.row(x.index()) == before.row(x.index()));
        lemma_producer_stays(x, before, after);
    }
}

impl<T> Producer<T> {
    /// Take back one block that a consumer has returned.
    #[verifier::spinoff_prover]
    fn returned(&mut self, shared: &mut Shared<T>) -> (block: Option<Block<T>>)
        requires
            old(shared).wf(),
            old(self).attached(*old(shared)),
        ensures
            final(shared).wf(),
            final(self).attached(*final(shared)),
            final(self).index == old(self).index,
            final(self).batch == old(self).batch,
            final(self).free == old(self).free,
            final(self).writing == old(self).writing,
            final(shared).batch == old(shared).batch,
            final(shared).producers() == old(shared).producers(),
            final(shared).forward == old(shared).forward,
            final(shared).held@ == old(shared).held@,
            ({
                let p = old(self).index();
                let row = old(shared).row(p);
                let k = pick_lane(row, old(self).cursor(), 0);
                let lane = attempt(old(self).cursor(), k, row.len() as int);
                &&& block is Some <==> k < row.len()
                &&& final(self).cursor() == cursor_after(
                    old(self).cursor(),
                    k,
                    row.len() as int,
                )
                &&& block is None ==> {
                    &&& final(self).in_flight == old(self).in_flight
                    &&& forall|q: int|
                        0 <= q < old(shared).producers() ==> #[trigger] final(shared).row(q)
                            == old(shared).row(q)
                }
                &&& block matches Some(b) ==> {
                    &&& b == row[lane].queue()[0]
                    &&& b.origin == p
                    &&& b.values@.len() <= final(self).batch
                    &&& final(self).in_flight == old(self).in_flight - 1
                    &&& only_lane(*old(shared), *final(shared), p, lane)
                    &&& final(shared).row(p)[lane].queue() == row[lane].queue().skip(1)
                }
            }),
            final(shared).keeps_consumers(old(shared)),
            final(shared).keeps_other_producers(old(shared), old(self).index()),
    {
        let ghost before = *shared;
        let ghost was = *self;
        let ghost p = self.index as int;
        let ghost start = self.cursor as int;
        let lanes: usize = self.returns.len();
        let mut k: usize = 0;
        while k < lanes
            invariant
                before == *old(shared),
                was == *old(self),
                p == was.index,
                start == was.cursor,
                lanes == before.row(p).len(),
                k <= lanes,
                before.wf(),
                was.attached(before),
                shared.batch == before.batch,
                shared.forward == before.forward,
                shared.held@ == before.held@,
                shared.returns@.len() == before.returns@.len(),
                forall|q: int| 0 <= q < before.producers() ==> #[trigger] shared.row(q) == before.row(q),
                self.forward == was.forward,
                self.index == was.index,
                self.free == was.free,
                self.in_flight == was.in_flight,
                self.batch == was.batch,
                self.writing == was.writing,
                self.returns@.len() == lanes,
                forall|c: int|
                    0 <= c < lanes ==> (#[trigger] self.returns@[c]).attached(before.row(p)[c]),
                pick_lane(before.row(p), start, 0) == pick_lane(before.row(p), start, k as int),
                k == 0 ==> self.cursor == start,
                k > 0 ==> self.cursor == attempt(start, k - 1, lanes as int) + 1,
            decreases lanes - k,
        {
            let index: usize = round_robin::next(&mut self.cursor, lanes);
            proof {
                if k > 0 {
                    lemma_next_attempt(start, k - 1, lanes as int);
                }
                assert(index == attempt(start, k as int, lanes as int));
                assert(shared.row(p) == before.row(p));
                assert(before.row(p)[index as int].wf());
                assert(self.returns@[index as int].attached(before.row(p)[index as int]));
            }
            let ghost rxs = self.returns@;
            let ghost entry = *shared;
            let row = &mut shared.returns[self.index];
            if let Some(block) = self.returns[index].try_pop(&mut row[index]) {
                proof {
                    let lane = shared.row(p)[index as int];
                    assert(shared.row(p) =~= before.row(p).update(index as int, lane));
                    assert(block == before.row(p)[index as int].queue()[0]);
                    assert forall|q: int|
                        0 <= q < before.returns@.len() && q != p implies #[trigger] shared.row(q)
                        == before.row(q) by {
                        assert(entry.row(q) == before.row(q));
                    }
                    lemma_popped(before, *shared, p, index as int);
                    lemma_lane_total_update(before.row(p), index as int, lane);
                }
                self.in_flight = self.in_flight - 1;
                proof {
                    assert forall|c: int|
                        0 <= c < self.returns@.len() implies #[trigger] self.lane_fits(*shared, c) by {
                        assert(was.returns@[c].attached(before.row(p)[c]));
                        if c != index {
                            assert(self.returns@[c] == rxs[c]);
                        }
                    }
                    lemma_attached(*self, *shared);
                }
                return Some(block);
            }
            proof {
                assert(shared.row(p) =~= before.row(p));
                assert forall|q: int| 0 <= q < before.producers() implies #[trigger] shared.row(q)
                    == before.row(q) by {
                    assert(entry.row(q) == before.row(q));
                }
                assert forall|c: int| 0 <= c < lanes implies (
                #[trigger] self.returns@[c]).attached(before.row(p)[c]) by {
                    if c != index {
                        assert(self.returns@[c] == rxs[c]);
                    }
                }
            }
            k = k + 1;
        }
        proof {
            lemma_same_rows(before, *shared);
            assert(shared.row(p) == before.row(p));
            assert forall|c: int|
                0 <= c < self.returns@.len() implies #[trigger] self.lane_fits(*shared, c) by {
                assert(was.returns@[c].attached(before.row(p)[c]));
            }
            assert(self.pool() == was.pool());
            assert(before.outstanding(p) == shared.outstanding(p));
            lemma_attached(*self, *shared);
        }
        None
    }
}

/// Where a look at the lanes that ended at attempt `k` leaves the cursor.
pub open spec fn cursor_after(start: int, k: int, lanes: int) -> int {
    if lanes == 0 {
        start
    } else if k < lanes {
        attempt(start, k, lanes) + 1
    } else {
        attempt(start, lanes - 1, lanes) + 1
    }
}

/// Blocks that wait on each lane of a row.
pub open spec fn loads<T>(row: Seq<ring::Inner<Block<T>>>) -> Seq<nat> {
    Seq::new(row.len(), |c: int| row[c].queue().len())
}

/// The lanes on which a block waits.
pub open spec fn loaded(loads: Seq<nat>) -> spec_fn(int) -> bool {
    |c: int| loads[c] > 0
}

/// Where the cursor stands after `n` blocks were taken back one after the other, each from
/// the first lane that had one, and one more look found none.
pub open spec fn swept(loads: Seq<nat>, cursor: int, n: nat) -> int
    decreases n,
{
    let lanes = loads.len() as int;
    if n == 0 {
        cursor_after(cursor, lanes, lanes)
    } else {
        let k = first_hit(loaded(loads), cursor, 0, lanes);
        let lane = attempt(cursor, k, lanes);
        swept(
            loads.update(lane, (loads[lane] - 1) as nat),
            cursor_after(cursor, k, lanes),
            (n - 1) as nat,
        )
    }
}

proof fn lemma_pick_is_first_load<T>(row: Seq<ring::Inner<Block<T>>>, start: int, from: int)
    requires
        0 <= from <= row.len(),
        0 <= start,
    ensures
        pick_lane(row, start, from) == first_hit(loaded(loads(row)), start, from, row.len() as int),
    decreases row.len() - from,
{
    if from < row.len() {
        lemma_next_attempt(start, from, row.len() as int);
        lemma_pick_is_first_load(row, start, from + 1);
    }
}

proof fn lemma_lane_total_covers<T>(row: Seq<ring::Inner<Block<T>>>)
    requires
        lane_total(row) == 0,
    ensures
        forall|c: int| 0 <= c < row.len() ==> (#[trigger] row[c]).queue() == Seq::<Block<T>>::empty(),
{
    assert forall|c: int| 0 <= c < row.len() implies (#[trigger] row[c]).queue() == Seq::<
        Block<T>,
    >::empty() by {
        lemma_lane_total_update(row, c, row[c]);
        assert(row[c].queue() =~= Seq::<Block<T>>::empty());
    }
}

#[verifier::spinoff_prover]
proof fn lemma_same_rows<T>(before: Shared<T>, after: Shared<T>)
    requires
        before.wf(),
        after.batch == before.batch,
        after.forward == before.forward,
        after.held@ == before.held@,
        after.returns@.len() == before.returns@.len(),
        forall|q: int| 0 <= q < before.producers() ==> #[trigger] after.row(q) == before.row(q),
    ensures
        after.wf(),
        forall|q: int|
            0 <= q < before.producers() ==> after.outstanding(q) == #[trigger] before.outstanding(q),
        after.keeps_consumers(&before),
        forall|x: Producer<T>| #[trigger] x.attached(before) ==> x.attached(after),
{
    assert forall|q: int, d: int|
        0 <= q < after.producers() && 0 <= d < after.row(q).len() implies (#[trigger] after.row(
        q,
    )[d]).wf() && all_from(after.row(q)[d].queue(), q, after.batch as int) by {
        assert(before.row(q)[d].wf());
    }
    assert forall|x: Consumer<T>| #[trigger] x.attached(before) implies x.attached(after) by {
        lemma_consumer_stays(x, before, after);
    }
    assert forall|q: int, d: int|
        0 <= q < after.producers() && 0 <= d < after.row(q).len() implies after.outstanding(q)
        <= (#[trigger] after.row(q)[d]).capacity() by {
        assert(before.outstanding(q) <= before.row(q)[d].capacity());
    }
    assert forall|x: Producer<T>| #[trigger] x.attached(before) implies x.attached(after) by {
        assert(after.row(x.index as int) == before.row(x.index as int));
        lemma_producer_stays(x, before, after);
    }
}


/// An exclusive, unpublished payload block. Commit it, or roll it back.
pub struct WriteLease<T> {
    block: Block<T>,
    batch: usize,
}

impl<T> WriteLease<T> {
    /// Initialized values, which remain private until commit.
    pub closed spec fn values(&self) -> Seq<T> {
        self.block.values@
    }

    /// The producer whose pool the block belongs to.
    pub closed spec fn origin(&self) -> int {
        self.block.origin as int
    }

    /// Maximum values in this block.
    pub closed spec fn limit(&self) -> nat {
        self.batch as nat
    }

    /// The block holds no more than it may.
    pub open spec fn wf(&self) -> bool {
        self.values().len() <= self.limit()
    }

    /// Whether this lease is one of those that `producer` has given out.
    pub open spec fn lent_by(&self, producer: Producer<T>) -> bool {
        &&& self.wf()
        &&& self.origin() == producer.index()
        &&& self.limit() == producer.block_limit()
        &&& producer.writing() > 0
    }

    /// Borrow the initialized values in this lease.
    pub fn as_slice(&self) -> (slice: &[T])
        ensures
            slice@ == self.values(),
    {
        self.block.values.as_slice()
    }

    /// Mutably borrow the initialized values in this lease.
    pub fn as_mut_slice(&mut self) -> (slice: &mut [T])
        ensures
            slice@ == old(self).values(),
            final(self).values() == final(slice)@,
            final(self).origin() == old(self).origin(),
            final(self).limit() == old(self).limit(),
    {
        self.block.values.as_mut_slice()
    }

    /// Return the number of initialized values in this lease.
    pub fn len(&self) -> (n: usize)
        ensures
            n == self.values().len(),
    {
        self.block.values.len()
    }

    /// Return true when the lease contains no initialized values.
    pub fn is_empty(&self) -> (empty: bool)
        ensures
            empty == (self.values().len() == 0),
    {
        self.len() == 0
    }

    /// Maximum values in this block.
    pub fn capacity(&self) -> (n: usize)
        ensures
            n == self.limit(),
    {
        self.batch
    }

    /// Append one value without growing the pool. Returns it unchanged when full.
    pub fn push(&mut self, value: T) -> (result: Result<(), T>)
        requires
            old(self).wf(),
        ensures
            final(self).wf(),
            final(self).origin() == old(self).origin(),
            final(self).limit() == old(self).limit(),
            result is Ok <==> old(self).values().len() < old(self).limit(),
            result is Ok ==> final(self).values() == old(self).values().push(value),
            result matches Err(back) ==> back == value && *final(self) == *old(self),
    {
        if self.len() == self.capacity() {
            return Err(value);
        }
        self.block.values.push(value);
        Ok(())
    }

    /// Copy an entire slice into the payload allocation, or leave it unchanged.
    pub fn extend_from_slice(&mut self, values: &[T]) -> (copied: bool) where T: Copy
        requires
            old(self).wf(),
        ensures
            final(self).wf(),
            final(self).origin() == old(self).origin(),
            final(self).limit() == old(self).limit(),
            copied <==> old(self).values().len() + values@.len() <= old(self).limit(),
            copied ==> final(self).values() == old(self).values() + values@,
            !copied ==> *final(self) == *old(self),
    {
        if values.len() > self.capacity() - self.len() {
            return false;
        }
        let ghost before = self.values();
        let mut i: usize = 0;
        assert(before + values@.take(0) =~= before);
        while i < values.len()
            invariant
                i <= values@.len(),
                before.len() + values@.len() <= self.batch,
                self.batch == old(self).batch,
                self.block.origin == old(self).block.origin,
                self.block.values@ == before + values@.take(i as int),
            decreases values@.len() - i,
        {
            self.block.values.push(values[i]);
            i = i + 1;
            assert(before + values@.take(i as int) =~= (before + values@.take(i - 1)).push(
                values@[i - 1],
            ));
        }
        assert(values@.take(i as int) =~= values@);
        true
    }
}

#[verifier::spinoff_prover]
proof fn lemma_same_producer<T>(a: Producer<T>, b: Producer<T>, shared: Shared<T>)
    requires
        a.attached(shared),
        b.forward == a.forward,
        b.index == a.index,
        b.returns == a.returns,
        b.free@ == a.free@,
        b.in_flight == a.in_flight,
        b.batch == a.batch,
        b.writing == a.writing,
    ensures
        b.attached(shared),
{
    assert(b.pool() == a.pool());
    assert(a.in_flight == shared.outstanding(a.index as int));
    assert(all_from(a.free@, a.index as int, a.batch as int));
    assert forall|c: int|
        0 <= c < b.returns@.len() implies #[trigger] b.lane_fits(shared, c) by {
        assert(a.returns@[c].attached(shared.row(a.index as int)[c]));
    }
    lemma_attached(b, shared);
}

/// What taking a block into a write lease leaves of a producer's counters.
pub open spec fn reserved<T>(was: Producer<T>, is: Producer<T>, from_lane: bool) -> bool {
    &&& is.index() == was.index()
    &&& is.block_limit() == was.block_limit()
    &&& is.writing() == was.writing() + 1
    &&& is.pool() == was.pool()
    &&& if from_lane {
        is.in_flight() == was.in_flight() - 1 && is.free_blocks() == was.free_blocks()
    } else {
        is.in_flight() == was.in_flight() && is.free_blocks() == was.free_blocks() - 1
    }
}

/// What a look at the return lanes leaves: the first block of the lane that it picks is
/// gone, and the cursor is past that lane.
pub open spec fn looked<T>(before: Shared<T>, after: Shared<T>, was: Producer<T>, is: Producer<T>) -> bool {
    let row = before.row(was.index());
    let k = pick_lane(row, was.cursor(), 0);
    let lane = attempt(was.cursor(), k, row.len() as int);
    &&& is.cursor() == cursor_after(was.cursor(), k, row.len() as int)
    &&& after.row(was.index()).len() == row.len()
    &&& forall|c: int|
        0 <= c < row.len() ==> (#[trigger] after.row(was.index())[c]).queue() == if k < row.len()
            && c == lane {
            row[c].queue().skip(1)
        } else {
            row[c].queue()
        }
}

/// All blocks of a row are gone; its lanes are otherwise as they were.
pub open spec fn emptied<T>(
    before: Seq<ring::Inner<Block<T>>>,
    after: Seq<ring::Inner<Block<T>>>,
) -> bool {
    &&& lane_total(after) == 0
    &&& after.len() == before.len()
    &&& forall|c: int|
        0 <= c < after.len() ==> {
            &&& (#[trigger] after[c]).queue() == Seq::<Block<T>>::empty()
            &&& after[c].capacity() == before[c].capacity()
        }
}

/// The forward rings, the other rows and the consumers' blocks are as they were.
pub open spec fn same_but_row<T>(before: Shared<T>, after: Shared<T>, p: int) -> bool {
    &&& after.forward() == before.forward()
    &&& after.batch() == before.batch()
    &&& forall|q: int|
        0 <= q < before.producers() ==> #[trigger] after.held(q) == before.held(q)
    &&& forall|q: int|
        0 <= q < before.producers() && q != p ==> #[trigger] after.row(q) == before.row(q)
}

impl<T> Producer<T> {
    /// No consumers remain. Successful publication is not a delivery acknowledgement.
    pub fn is_disconnected(&self, shared: &Shared<T>) -> (gone: bool)
        ensures
            gone == (shared.live_consumers() == 0),
    {
        shared.forward.live_consumers == 0
    }

    /// Reuse ready storage before expanding into untouched pool capacity.
    #[verifier::spinoff_prover]
    fn next_block(&mut self, shared: &mut Shared<T>) -> (lease: Option<WriteLease<T>>)
        requires
            old(shared).wf(),
            old(self).attached(*old(shared)),
        ensures
            final(shared).wf(),
            final(self).attached(*final(shared)),
            same_but_row(*old(shared), *final(shared), old(self).index()),
            ({
                let row = old(shared).row(old(self).index());
                let k = pick_lane(row, old(self).cursor(), 0);
                &&& lease is None <==> k >= row.len() && old(self).free_blocks() == 0
                &&& lease matches Some(l) ==> {
                    &&& l.values() == Seq::<T>::empty()
                    &&& l.limit() == old(shared).batch()
                    &&& l.lent_by(*final(self))
                    &&& reserved(*old(self), *final(self), k < row.len())
                }
                &&& lease is None ==> final(self).pool() == old(self).pool() && final(self).writing() == old(self).writing() && final(self).index() == old(self).index()
                    && final(self).in_flight() == old(self).in_flight()
                &&& looked(*old(shared), *final(shared), *old(self), *final(self))
            }),
            final(shared).keeps_consumers(old(shared)),
            final(shared).keeps_other_producers(old(shared), old(self).index()),
    {
        let ghost before = *shared;
        let ghost was = *self;
        let returned = self.returned(shared);
        let ghost looked = *self;
        proof {
            assert(shared.row(was.index()).len() == before.row(was.index()).len());
        }
        let mut block = match returned {
            Some(block) => block,
            None => {
                match self.free.pop() {
                    Some(block) => {
                        assert(was.free@[was.free@.len() - 1] == block);
                        block
                    },
                    None => {
                        proof {
                            lemma_same_producer(looked, *self, *shared);
                        }
                        return None;
                    },
                }
            },
        };
        block.values.clear();
        proof {
            assert(block.values@ =~= Seq::<T>::empty());
            let ghost now = self.writing@ + 1;
            self.writing = Ghost(now);
            let p = self.index as int;
            assert(looked.attached(*shared));
            assert(all_from(self.free@, p, self.batch as int)) by {
                assert forall|i: int| 0 <= i < self.free@.len() implies (
                #[trigger] self.free@[i]).origin == p && self.free@[i].values@.len()
                    <= self.batch by {
                    assert(self.free@[i] == was.free@[i]);
                }
            }
            assert forall|c: int|
                0 <= c < self.returns@.len() implies #[trigger] self.lane_fits(*shared, c) by {
                assert(looked.returns@[c].attached(shared.row(p)[c]));
                assert(was.returns@[c].attached(before.row(p)[c]));
                assert(shared.row(p)[c].capacity() == before.row(p)[c].capacity());
            }
            assert(self.pool() == was.pool());
            assert(self.in_flight == shared.outstanding(p));
        }
        Some(WriteLease { block, batch: self.batch })
    }
}


proof fn lemma_pick_lane<T>(row: Seq<ring::Inner<Block<T>>>, start: int, from: int)
    requires
        0 <= from <= row.len(),
        0 <= start,
    ensures
        from <= pick_lane(row, start, from) <= row.len(),
        pick_lane(row, start, from) < row.len() ==> {
            let lane = attempt(start, pick_lane(row, start, from), row.len() as int);
            0 <= lane < row.len() && row[lane].queue().len() > 0
        },
        forall|k: int|
            from <= k < pick_lane(row, start, from) ==> row[#[trigger] attempt(
                start,
                k,
                row.len() as int,
            )].queue().len() == 0,
    decreases row.len() - from,
{
    if from < row.len() {
        lemma_next_attempt(start, from, row.len() as int);
        if row[attempt(start, from, row.len() as int)].queue().len() == 0 {
            lemma_pick_lane(row, start, from + 1);
        }
    }
}

proof fn lemma_lane_total_zero<T>(row: Seq<ring::Inner<Block<T>>>)
    requires
        forall|c: int| 0 <= c < row.len() ==> (#[trigger] row[c]).queue().len() == 0,
    ensures
        lane_total(row) == 0,
    decreases row.len(),
{
    if row.len() > 0 {
        assert forall|c: int| 0 <= c < row.drop_last().len() implies (
        #[trigger] row.drop_last()[c]).queue().len() == 0 by {
            assert(row[c].queue().len() == 0);
        }
        lemma_lane_total_zero(row.drop_last());
    }
}

/// A look at the return lanes finds a block wherever any lane holds one.
pub proof fn law_returned_blocks_are_found<T>(row: Seq<ring::Inner<Block<T>>>, start: int)
    requires
        0 <= start,
    ensures
        pick_lane(row, start, 0) < row.len() <==> lane_total(row) > 0,
{
    let lanes = row.len() as int;
    lemma_pick_lane(row, start, 0);
    if pick_lane(row, start, 0) < lanes {
        let lane = attempt(start, pick_lane(row, start, 0), lanes);
        lemma_lane_total_update(row, lane, row[lane]);
    } else {
        assert forall|c: int| 0 <= c < row.len() implies (#[trigger] row[c]).queue().len() == 0 by {
            law_rotation_visits_every_slot(start, c, lanes);
        }
        lemma_lane_total_zero(row);
    }
}

impl<T> Producer<T> {
    /// Try to reserve one empty block. None means pool exhaustion or disconnection.
    /// A block that came back still holds what its consumer left; those values are
    /// destroyed here.
    #[verifier::spinoff_prover]
    pub fn try_reserve(&mut self, shared: &mut Shared<T>) -> (lease: Option<WriteLease<T>>)
        requires
            old(shared).wf(),
            old(self).attached(*old(shared)),
        ensures
            final(shared).wf(),
            final(self).attached(*final(shared)),
            same_but_row(*old(shared), *final(shared), old(self).index()),
            ({
                let returned = lane_total(old(shared).row(old(self).index()));
                &&& lease is Some <==> old(shared).live_consumers() > 0 && (returned > 0 || old(self).free_blocks() > 0)
                &&& lease matches Some(l) ==> {
                    &&& l.values() == Seq::<T>::empty()
                    &&& l.limit() == old(shared).batch()
                    &&& l.lent_by(*final(self))
                    &&& reserved(*old(self), *final(self), returned > 0)
                }
                &&& lease is None ==> final(self).pool() == old(self).pool() && final(self).writing() == old(self).writing() && final(self).index() == old(self).index()
                    && final(self).in_flight() == old(self).in_flight()
            }),
            if old(shared).live_consumers() > 0 {
                looked(*old(shared), *final(shared), *old(self), *final(self))
            } else {
                *final(shared) == *old(shared) && *final(self) == *old(self)
            },
            final(shared).keeps_consumers(old(shared)),
            final(shared).keeps_other_producers(old(shared), old(self).index()),
    {
        proof {
            law_returned_blocks_are_found(shared.row(self.index()), self.cursor());
        }
        if self.is_disconnected(shared) {
            return None;
        }
        self.next_block(shared)
    }

    /// One attempt of a blocking reservation, which waits for recycling and ends
    /// once consumers are gone.
    #[verifier::spinoff_prover]
    pub fn reserve(&mut self, shared: &mut Shared<T>, backoff: &mut Backoff) -> (step: RecvStep<
        WriteLease<T>,
    >)
        requires
            old(shared).wf(),
            old(self).attached(*old(shared)),
        ensures
            final(shared).wf(),
            final(self).attached(*final(shared)),
            same_but_row(*old(shared), *final(shared), old(self).index()),
            ({
                let returned = lane_total(old(shared).row(old(self).index()));
                &&& step is Finished <==> old(shared).live_consumers() == 0
                &&& step is Value <==> old(shared).live_consumers() > 0 && (returned > 0 || old(self).free_blocks() > 0)
                &&& step matches RecvStep::Value(l) ==> {
                    &&& l.values() == Seq::<T>::empty()
                    &&& l.limit() == old(shared).batch()
                    &&& l.lent_by(*final(self))
                    &&& reserved(*old(self), *final(self), returned > 0)
                }
                &&& step !is Value ==> final(self).pool() == old(self).pool() && final(self).writing() == old(self).writing() && final(self).index() == old(self).index()
                    && final(self).in_flight() == old(self).in_flight()
            }),
            if old(shared).live_consumers() > 0 {
                looked(*old(shared), *final(shared), *old(self), *final(self))
            } else {
                *final(shared) == *old(shared) && *final(self) == *old(self)
            },
            step matches RecvStep::Wait(pause) ==> pause == pause_after(
                counted(old(backoff).spins) as int,
            ) && final(backoff).spins == if pause == Pause::Yield {
                0
            } else {
                counted(old(backoff).spins)
            },
            step !is Wait ==> *final(backoff) == *old(backoff),
            final(shared).keeps_consumers(old(shared)),
            final(shared).keeps_other_producers(old(shared), old(self).index()),
    {
        if self.is_disconnected(shared) {
            return RecvStep::Finished;
        }
        match self.try_reserve(shared) {
            Some(lease) => RecvStep::Value(lease),
            None => RecvStep::Wait(backoff.pause_and_restart()),
        }
    }

    /// Reclaim all currently returned blocks and destroy their remaining values.
    #[verifier::spinoff_prover]
    pub fn reclaim(&mut self, shared: &mut Shared<T>) -> (reclaimed: usize)
        requires
            old(shared).wf(),
            old(self).attached(*old(shared)),
        ensures
            final(shared).wf(),
            final(self).attached(*final(shared)),
            same_but_row(*old(shared), *final(shared), old(self).index()),
            reclaimed == lane_total(old(shared).row(old(self).index())),
            emptied(old(shared).row(old(self).index()), final(shared).row(old(self).index())),
            final(self).cursor() == swept(
                loads(old(shared).row(old(self).index())),
                old(self).cursor(),
                reclaimed as nat,
            ),
            final(self).index() == old(self).index(),
            final(self).writing() == old(self).writing(),
            final(self).in_flight() == old(self).in_flight() - reclaimed,
            final(self).free_blocks() == old(self).free_blocks() + reclaimed,
            final(shared).keeps_consumers(old(shared)),
            final(shared).keeps_other_producers(old(shared), old(self).index()),
    {
        let ghost before = *shared;
        let ghost was = *self;
        let ghost p = self.index as int;
        let mut reclaimed: usize = 0;
        let mut more = true;
        while more
            invariant
                before == *old(shared),
                was == *old(self),
                p == was.index,
                shared.wf(),
                self.attached(*shared),
                self.index == was.index,
                self.writing == was.writing,
                same_but_row(before, *shared, p),
                shared.producers() == before.producers(),
                reclaimed + lane_total(shared.row(p)) == lane_total(before.row(p)),
                reclaimed + self.in_flight == was.in_flight,
                self.free@.len() == was.free@.len() + reclaimed,
                !more ==> lane_total(shared.row(p)) == 0,
                shared.row(p).len() == before.row(p).len(),
                forall|c: int|
                    0 <= c < shared.row(p).len() ==> (#[trigger] shared.row(p)[c]).capacity()
                        == before.row(p)[c].capacity(),
                0 <= self.cursor(),
                ({
                    let end = swept(loads(before.row(p)), was.cursor(), lane_total(before.row(p)));
                    if more {
                        swept(loads(shared.row(p)), self.cursor(), lane_total(shared.row(p))) == end
                    } else {
                        self.cursor() == end
                    }
                }),
                shared.keeps_consumers(&before),
                shared.keeps_other_producers(&before, p),
            decreases lane_total(shared.row(p)) + if more {
                1int
            } else {
                0
            },
        {
            let ghost entry = *shared;
            let ghost mid = *self;
            proof {
                law_returned_blocks_are_found(shared.row(p), self.cursor());
                lemma_pick_lane(shared.row(p), self.cursor(), 0);
                lemma_pick_is_first_load(shared.row(p), self.cursor(), 0);
            }
            match self.returned(shared) {
                Some(block) => {
                    let mut block = block;
                    block.values.clear();
                    proof {
                        let k = pick_lane(entry.row(p), mid.cursor(), 0);
                        let lane = attempt(mid.cursor(), k, entry.row(p).len() as int);
                        lemma_lane_total_update(entry.row(p), lane, shared.row(p)[lane]);
                        let load = loads(entry.row(p))[lane];
                        assert(loads(shared.row(p)) =~= loads(entry.row(p)).update(
                            lane,
                            (load - 1) as nat,
                        ));
                    }
                    let ghost taken_back = *self;
                    self.free.push(block);
                    reclaimed = reclaimed + 1;
                    proof {
                        assert(all_from(self.free@, p, self.batch as int)) by {
                            assert forall|i: int| 0 <= i < self.free@.len() implies (
                            #[trigger] self.free@[i]).origin == p && self.free@[i].values@.len()
                                <= self.batch by {
                                if i < mid.free@.len() {
                                    assert(self.free@[i] == mid.free@[i]);
                                }
                            }
                        }
                        assert forall|c: int|
                            0 <= c < self.returns@.len() implies #[trigger] self.lane_fits(*shared, c) by {
                            assert(taken_back.returns@[c].attached(shared.row(p)[c]));
                            assert(mid.returns@[c].attached(entry.row(p)[c]));
                        }
                    }
                },
                None => {
                    more = false;
                },
            }
            proof {
                assert forall|q: int| 0 <= q < before.producers() implies #[trigger] shared.held(q)
                    == before.held(q) by {
                    assert(entry.held(q) == before.held(q));
                }
                assert forall|q: int|
                    0 <= q < before.producers() && q != p implies #[trigger] shared.row(q)
                    == before.row(q) by {
                    assert(entry.row(q) == before.row(q));
                }
                assert forall|x: Consumer<T>| #[trigger] x.attached(before) implies x.attached(
                    *shared,
                ) by {
                    assert(x.attached(entry));
                }
                assert forall|x: Producer<T>|
                    x.index() != p && #[trigger] x.attached(before) implies x.attached(
                    *shared,
                ) by {
                    assert(x.attached(entry));
                }
            }
        }
        proof {
            lemma_lane_total_covers(shared.row(p));
        }
        reclaimed
    }
}


/// How an attempt to flush went.
#[derive(Clone, Copy, PartialEq, Eq, Structural, Debug)]
pub enum FlushStep {
    /// Every committed block has come back.
    Flushed,
    /// Consumers are gone while blocks remain outstanding.
    Lost,
    /// Blocks are still outstanding: pause and try again.
    Wait(Pause),
}

impl<T> Producer<T> {
    /// One attempt to wait for every committed block to return, then destroy
    /// remaining values. Caller-held read leases can delay this operation.
    #[verifier::spinoff_prover]
    pub fn flush(&mut self, shared: &mut Shared<T>, backoff: &mut Backoff) -> (step: FlushStep)
        requires
            old(shared).wf(),
            old(self).attached(*old(shared)),
        ensures
            final(shared).wf(),
            final(self).attached(*final(shared)),
            same_but_row(*old(shared), *final(shared), old(self).index()),
            ({
                let p = old(self).index();
                let returned = lane_total(old(shared).row(p));
                let left = old(self).in_flight() - returned;
                &&& final(self).in_flight() == left
                &&& final(self).free_blocks() == old(self).free_blocks() + returned
                &&& final(self).writing() == old(self).writing()
                &&& final(self).index() == p
                &&& emptied(old(shared).row(p), final(shared).row(p))
                &&& final(self).cursor() == ({
                    let lanes = old(shared).row(p).len() as int;
                    let once = swept(loads(old(shared).row(p)), old(self).cursor(), returned);
                    if left > 0 && old(shared).live_consumers() == 0 {
                        cursor_after(once, lanes, lanes)
                    } else {
                        once
                    }
                })
                &&& step == (if left == 0 {
                    FlushStep::Flushed
                } else if old(shared).live_consumers() == 0 {
                    FlushStep::Lost
                } else {
                    FlushStep::Wait(pause_after(counted(old(backoff).spins) as int))
                })
            }),
            step matches FlushStep::Wait(pause) ==> final(backoff).spins == if pause
                == Pause::Yield {
                0
            } else {
                counted(old(backoff).spins)
            },
            step !is Wait ==> *final(backoff) == *old(backoff),
            final(shared).keeps_consumers(old(shared)),
            final(shared).keeps_other_producers(old(shared), old(self).index()),
    {
        let ghost before = *shared;
        self.reclaim(shared);
        let ghost between = *shared;
        if self.in_flight == 0 {
            return FlushStep::Flushed;
        }
        if self.is_disconnected(shared) {
            // Observe releases preceding the final consumer's teardown.
            self.reclaim(shared);
            proof {
                let p = old(self).index();
                assert forall|q: int| 0 <= q < before.producers() implies #[trigger] shared.held(q)
                    == before.held(q) by {
                    assert(between.held(q) == before.held(q));
                }
                assert forall|q: int|
                    0 <= q < before.producers() && q != p implies #[trigger] shared.row(q)
                    == before.row(q) by {
                    assert(between.row(q) == before.row(q));
                }
                assert forall|x: Consumer<T>| #[trigger] x.attached(before) implies x.attached(
                    *shared,
                ) by {
                    assert(x.attached(between));
                }
                assert forall|x: Producer<T>|
                    x.index() != p && #[trigger] x.attached(before) implies x.attached(
                    *shared,
                ) by {
                    assert(x.attached(between));
                }
            }
            return if self.in_flight == 0 {
                FlushStep::Flushed
            } else {
                FlushStep::Lost
            };
        }
        FlushStep::Wait(backoff.pause_and_restart())
    }

    /// Put the block of a write lease back on the free list, unpublished.
    #[verifier::spinoff_prover]
    fn keep_block(&mut self, shared: &Shared<T>, block: Block<T>)
        requires
            shared.wf(),
            old(self).attached(*shared),
            old(self).writing() > 0,
            block.origin == old(self).index,
            block.values@.len() <= old(self).batch,
        ensures
            final(self).attached(*shared),
            final(self).index() == old(self).index(),
            final(self).block_limit() == old(self).block_limit(),
            final(self).cursor() == old(self).cursor(),
            final(self).writing() == old(self).writing() - 1,
            final(self).in_flight() == old(self).in_flight(),
            final(self).free_blocks() == old(self).free_blocks() + 1,
    {
        let ghost was = *self;
        self.free.push(block);
        proof {
            let ghost now = (self.writing@ - 1) as nat;
            self.writing = Ghost(now);
            let p = self.index as int;
            assert(all_from(self.free@, p, self.batch as int)) by {
                assert forall|i: int| 0 <= i < self.free@.len() implies (
                #[trigger] self.free@[i]).origin == p && self.free@[i].values@.len()
                    <= self.batch by {
                    if i < was.free@.len() {
                        assert(self.free@[i] == was.free@[i]);
                    }
                }
            }
            assert forall|c: int|
                0 <= c < self.returns@.len() implies #[trigger] self.lane_fits(*shared, c) by {
                assert(was.returns@[c].attached(shared.row(p)[c]));
            }
        }
    }
}

impl<T> WriteLease<T> {
    /// Give the block back unpublished.
    #[verifier::spinoff_prover]
    pub fn rollback(self, producer: &mut Producer<T>, shared: &Shared<T>)
        requires
            shared.wf(),
            old(producer).attached(*shared),
            self.lent_by(*old(producer)),
        ensures
            final(producer).attached(*shared),
            final(producer).index() == old(producer).index(),
            final(producer).block_limit() == old(producer).block_limit(),
            final(producer).cursor() == old(producer).cursor(),
            final(producer).writing() == old(producer).writing() - 1,
            final(producer).in_flight() == old(producer).in_flight(),
            final(producer).free_blocks() == old(producer).free_blocks() + 1,
    {
        producer.keep_block(shared, self.block);
    }

    /// Publish the initialized prefix. Empty commits are successful no-ops.
    /// On failure the returned lease still owns every unpublished value.
    /// Accepted blocks need not have been consumed; flush waits for their return.
    #[verifier::spinoff_prover]
    pub fn commit(self, producer: &mut Producer<T>, shared: &mut Shared<T>) -> (result: Result<
        usize,
        WriteLease<T>,
    >)
        requires
            old(shared).wf(),
            old(producer).attached(*old(shared)),
            self.lent_by(*old(producer)),
        ensures
            final(shared).wf(),
            final(producer).attached(*final(shared)),
            final(producer).index() == old(producer).index(),
            final(producer).pool() == old(producer).pool(),
            final(producer).block_limit() == old(producer).block_limit(),
            final(producer).cursor() == old(producer).cursor(),
            result is Ok <==> self.values().len() == 0 || old(shared).live_consumers() > 0,
            result matches Ok(n) ==> n == self.values().len() && final(producer).writing() == old(producer).writing() - 1 && final(producer).in_flight() == old(producer).in_flight() + if n
                > 0 {
                1int
            } else {
                0
            },
            result matches Err(lease) ==> lease == self && *final(producer) == *old(producer),
            result is Err || self.values().len() == 0 ==> *final(shared) == *old(shared),
            final(shared).forward().same_but_queues(&old(shared).forward()),
            final(shared).forward().same_knowledge(&old(shared).forward()),
            result is Ok && self.values().len() > 0 ==> {
                let p = old(producer).index();
                let queue = old(shared).forward().link(p).queue();
                let block = final(shared).forward().queues()[p].last();
                &&& final(shared).forward().queues() == old(shared).forward().queues().update(
                    p,
                    queue.push(block),
                )
                &&& block.values() == self.values()
                &&& block.origin() == p
                &&& final(shared).batch() == old(shared).batch()
                &&& final(shared).live_consumers() == old(shared).live_consumers()
                &&& final(shared).live_producers() == old(shared).live_producers()
                &&& forall|q: int|
                    0 <= q < old(shared).producers() ==> #[trigger] final(shared).row(q) == old(shared).row(q) && final(shared).held(q) == old(shared).held(q)
            },
            final(shared).keeps_consumers(old(shared)),
            final(shared).keeps_other_producers(old(shared), old(producer).index()),
    {
        let count: usize = self.len();
        if count == 0 {
            producer.keep_block(shared, self.block);
            return Ok(0);
        }
        if producer.is_disconnected(shared) {
            return Err(self);
        }
        let ghost before = *shared;
        let ghost was = *producer;
        let ghost p = producer.index as int;
        let batch: usize = self.batch;
        proof {
            assert(before.forward.link(p).wf());
            assert(before.forward.link(p).queue().len() <= before.outstanding(p));
            assert(before.forward.link(p).accepts());
        }
        match producer.forward.try_send(&mut shared.forward, self.block) {
            Ok(()) => {
                producer.in_flight = producer.in_flight + 1;
                proof {
                    let ghost now = (producer.writing@ - 1) as nat;
                    producer.writing = Ghost(now);
                    let queue = before.forward.link(p).queue();
                    assert(shared.forward.queues()[p] == queue.push(self.block));
                    assert forall|c: int| 0 <= c < before.row(p).len() implies before.outstanding(p)
                        < (#[trigger] before.row(p)[c]).capacity() by {
                        assert(was.returns@[c].attached(before.row(p)[c]));
                    }
                    lemma_committed(before, *shared, p, self.block);
                    assert forall|c: int|
                        0 <= c < producer.returns@.len() implies #[trigger] producer.lane_fits(*shared, c) by {
                        assert(was.returns@[c].attached(before.row(p)[c]));
                    }
                    assert(shared.forward.claimed(p) == before.forward.claimed(p));
                    assert(shared.forward.link(p).bound() == before.forward.link(p).bound());
                    assert(producer.forward.attached(shared.forward));
                    assert(producer.pool() == was.pool());
                    assert(producer.in_flight == shared.outstanding(p));
                    assert(all_from(producer.free@, p, producer.batch as int));
                    assert(producer.attached(*shared));
                }
                Ok(count)
            },
            Err(block) => {
                assert(false);
                Err(WriteLease { block, batch })
            },
        }
    }
}

/// A commit adds one block to one forward ring; every other endpoint stays attached.
proof fn lemma_committed<T>(before: Shared<T>, after: Shared<T>, p: int, block: Block<T>)
    requires
        before.wf(),
        0 <= p < before.producers(),
        after.batch == before.batch,
        after.returns == before.returns,
        after.held@ == before.held@,
        after.forward.wf(),
        after.forward.same_but_queues(&before.forward),
        after.forward.queues() == before.forward.queues().update(
            p,
            before.forward.link(p).queue().push(block),
        ),
        after.forward.keeps_other_producers(&before.forward, p),
        block.origin == p,
        block.values@.len() <= before.batch,
        forall|c: int|
            0 <= c < before.row(p).len() ==> before.outstanding(p) < (#[trigger] before.row(
                p,
            )[c]).capacity(),
    ensures
        after.wf(),
        after.outstanding(p) == before.outstanding(p) + 1,
        after.keeps_consumers(&before),
        after.keeps_other_producers(&before, p),
{
    assert forall|q: int| 0 <= q < after.producers() implies #[trigger] after.forward.link(
        q,
    ).queue() == after.forward.queues()[q] && before.forward.link(q).queue()
        == before.forward.queues()[q] by {
    }
    assert forall|q: int| 0 <= q < after.producers() implies all_from(
        (#[trigger] after.forward.link(q)).queue(),
        q,
        after.batch as int,
    ) by {
        let queue = before.forward.link(q).queue();
        assert(all_from(queue, q, before.batch as int));
        assert(after.forward.link(q).queue() == after.forward.queues()[q]);
        if q == p {
            assert forall|i: int| 0 <= i < queue.push(block).len() implies (
            #[trigger] queue.push(block)[i]).origin == q && queue.push(block)[i].values@.len()
                <= after.batch by {
                if i < queue.len() {
                    assert(queue.push(block)[i] == queue[i]);
                }
            }
        }
    }
    assert forall|q: int, d: int|
        0 <= q < after.producers() && 0 <= d < after.row(q).len() implies (#[trigger] after.row(
        q,
    )[d]).wf() && all_from(after.row(q)[d].queue(), q, after.batch as int) by {
        assert(before.row(q)[d].wf());
    }
    assert forall|q: int, d: int|
        0 <= q < after.producers() && 0 <= d < after.row(q).len() implies after.outstanding(q)
        <= (#[trigger] after.row(q)[d]).capacity() by {
        assert(before.outstanding(q) <= before.row(q)[d].capacity());
        assert(after.forward.link(q).queue() == after.forward.queues()[q]);
    }
    assert(after.forward.link(p).queue() == after.forward.queues()[p]);
    assert forall|x: Consumer<T>| #[trigger] x.attached(before) implies x.attached(after) by {
        lemma_consumer_stays(x, before, after);
    }
    assert forall|x: Producer<T>|
        x.index() != p && #[trigger] x.attached(before) implies x.attached(after) by {
        assert(x.forward.attached(before.forward));
        assert(after.forward.link(x.index()).queue() == after.forward.queues()[x.index()]);
        assert(after.forward.claimed(x.index()) == before.forward.claimed(x.index()));
        lemma_producer_stays(x, before, after);
    }
}


/// A published payload block, to be returned to its producer.
pub struct ReadLease<T> {
    block: Block<T>,
}

impl<T> Shared<T> {
    /// Every producer is as attached as it was.
    pub open spec fn keeps_producers(&self, before: &Self) -> bool {
        forall|p: Producer<T>| #[trigger] p.attached(*before) ==> p.attached(*self)
    }

    /// Every consumer but `index` is as attached as it was.
    pub open spec fn keeps_other_consumers(&self, before: &Self, index: int) -> bool {
        forall|c: Consumer<T>|
            c.index() != index && #[trigger] c.attached(*before) ==> c.attached(*self)
    }
}

/// What receiving a block does: the first block of the ring that the scan picks
/// leaves that ring and is counted as held.
pub open spec fn received<T>(
    before: Shared<T>,
    after: Shared<T>,
    consumer: Consumer<T>,
    lease: ReadLease<T>,
) -> bool {
    let start = consumer.forward().position();
    let (blocks, queues) = taken(before.forward(), start, 1);
    let ring = attempt(
        start,
        before.forward().pick(start, 0),
        before.producers() as int,
    );
    &&& blocks.len() == 1
    &&& lease.values() == blocks[0].values()
    &&& lease.origin() == ring
    &&& after.forward().queues() == queues
    &&& after.held(ring) == before.held(ring) + 1
    &&& forall|q: int|
        0 <= q < before.producers() && q != ring ==> #[trigger] after.held(q) == before.held(q)
    &&& lease.held_in(after)
}

impl<T> ReadLease<T> {
    /// The values of the block.
    pub closed spec fn values(&self) -> Seq<T> {
        self.block.values@
    }

    /// The producer that the block goes back to.
    pub closed spec fn origin(&self) -> int {
        self.block.origin as int
    }

    /// Whether this lease is one of those that `shared` counts as held.
    pub open spec fn held_in(&self, shared: Shared<T>) -> bool {
        &&& 0 <= self.origin() < shared.producers()
        &&& self.values().len() <= shared.batch()
        &&& shared.held(self.origin()) > 0
    }

    /// Borrow the initialized values in this lease.
    pub fn as_slice(&self) -> (slice: &[T])
        ensures
            slice@ == self.values(),
    {
        self.block.values.as_slice()
    }

    /// Mutably borrow the initialized values in this lease.
    pub fn as_mut_slice(&mut self) -> (slice: &mut [T])
        ensures
            slice@ == old(self).values(),
            final(self).values() == final(slice)@,
            final(self).origin() == old(self).origin(),
    {
        self.block.values.as_mut_slice()
    }

    /// Return the number of initialized values in this lease.
    pub fn len(&self) -> (n: usize)
        ensures
            n == self.values().len(),
    {
        self.block.values.len()
    }

    /// Return true when the lease contains no initialized values.
    pub fn is_empty(&self) -> (empty: bool)
        ensures
            empty == (self.values().len() == 0),
    {
        self.len() == 0
    }

    /// Move the values out, in FIFO order.
    pub fn drain(&mut self) -> (values: Vec<T>)
        ensures
            values@ == old(self).values(),
            final(self).values() == Seq::<T>::empty(),
            final(self).origin() == old(self).origin(),
    {
        let mut values: Vec<T> = Vec::new();
        values.append(&mut self.block.values);
        assert(values@ =~= old(self).values());
        values
    }
}

impl<T> Consumer<T> {
    /// True after every producer is gone; ready blocks must still be drained.
    pub fn is_disconnected(&self, shared: &Shared<T>) -> (gone: bool)
        ensures
            gone == (shared.live_producers() == 0),
    {
        self.forward.is_disconnected(&shared.forward)
    }

    /// Try to acquire one published block without waiting.
    #[verifier::spinoff_prover]
    pub fn try_recv(&mut self, shared: &mut Shared<T>) -> (lease: Option<ReadLease<T>>)
        requires
            old(shared).wf(),
            old(self).attached(*old(shared)),
        ensures
            final(shared).wf(),
            final(self).attached(*final(shared)),
            final(self).index() == old(self).index(),
            final(shared).batch() == old(shared).batch(),
            final(shared).live_consumers() == old(shared).live_consumers(),
            final(shared).live_producers() == old(shared).live_producers(),
            forall|q: int|
                0 <= q < old(shared).producers() ==> #[trigger] final(shared).row(q) == old(shared).row(q),
            lease is Some <==> old(shared).forward().any_takeable(),
            lease matches Some(l) ==> received(*old(shared), *final(shared), *old(self), l),
            lease is None ==> {
                &&& final(shared).forward().queues() == old(shared).forward().queues()
                &&& forall|q: int|
                    0 <= q < old(shared).producers() ==> #[trigger] final(shared).held(q) == old(shared).held(q)
            },
            super::scan_effect(
                old(shared).forward(),
                final(shared).forward(),
                old(self).forward(),
                final(self).forward(),
                1,
            ),
            final(shared).producers() == old(shared).producers(),
            final(shared).forward().same_but_queues(&old(shared).forward()),
            final(shared).keeps_producers(old(shared)),
            final(shared).keeps_other_consumers(old(shared), old(self).index()),
    {
        let ghost before = *shared;
        let ghost start = self.forward.position();
        let ghost ring = attempt(
            start,
            before.forward.pick(start, 0),
            before.producers() as int,
        );
        let ghost blocks = taken(before.forward, start, 1).0;
        proof {
            super::law_scan_finds_what_is_there(before.forward, start);
            super::lemma_pick_passes(before.forward, start, 0);
            if before.forward.any_takeable() {
                lemma_next_attempt(
                    start,
                    before.forward.pick(start, 0),
                    before.producers() as int,
                );
                super::law_taken_values_leave_one_ring(before.forward, start, 1, ring);
                assert(before.forward.link(ring).wf());
                before.forward.rx(ring).ready_bounds(before.forward.link(ring));
                assert(min(before.forward.rx(ring).ready(before.forward.link(ring)), 1) == 1);
                assert(blocks.len() == 1);
                assert(blocks[0] == before.forward.queues()[ring][0]);
                assert(all_from(before.forward.link(ring).queue(), ring, before.batch as int));
            }
        }
        let mut out: Vec<Block<T>> = Vec::new();
        let n: usize = self.forward.drain(&mut shared.forward, 1, &mut out);
        proof {
            assert(out@ =~= blocks);
            assert(self.forward.staged().len() == 0);
            assert forall|q: int| 0 <= q < shared.returns@.len() implies #[trigger] shared.row(q)
                == before.row(q) by {
            }
        }
        match out.pop() {
            Some(block) => {
                proof {
                    let ghost now = shared.held@.update(ring, shared.held@[ring] + 1);
                    shared.held = Ghost(now);
                    assert(block == blocks[0]);
                    lemma_taken(before, *shared, ring);
                }
                Some(ReadLease { block })
            },
            None => {
                proof {
                    lemma_untaken(before, *shared);
                }
                None
            },
        }
    }
}

/// Taking one block from a forward ring and counting it as held keeps every endpoint.
proof fn lemma_taken<T>(before: Shared<T>, after: Shared<T>, ring: int)
    requires
        before.wf(),
        0 <= ring < before.producers(),
        after.batch == before.batch,
        after.returns == before.returns,
        after.held@ == before.held@.update(ring, before.held@[ring] + 1),
        after.forward.wf(),
        after.forward.same_but_queues(&before.forward),
        before.forward.link(ring).queue().len() > 0,
        after.forward.queues() == before.forward.queues().update(
            ring,
            before.forward.link(ring).queue().skip(1),
        ),
        forall|p: super::Producer<Block<T>, Ring>| #[trigger]
            p.attached(before.forward) ==> p.attached(after.forward),
    ensures
        after.wf(),
        after.keeps_producers(&before),
        after.keeps_consumers(&before),
{
    assert forall|q: int| 0 <= q < after.producers() implies all_from(
        (#[trigger] after.forward.link(q)).queue(),
        q,
        after.batch as int,
    ) by {
        let queue = before.forward.link(q).queue();
        assert(all_from(queue, q, before.batch as int));
        assert(after.forward.link(q).queue() == after.forward.queues()[q]);
        assert(before.forward.link(q).queue() == before.forward.queues()[q]);
        if q == ring {
            assert forall|i: int| 0 <= i < queue.skip(1).len() implies (
            #[trigger] queue.skip(1)[i]).origin == q && queue.skip(1)[i].values@.len()
                <= after.batch by {
                assert(queue.skip(1)[i] == queue[i + 1]);
            }
        }
    }
    lemma_forward_moved(before, after);
}

proof fn lemma_untaken<T>(before: Shared<T>, after: Shared<T>)
    requires
        before.wf(),
        after.batch == before.batch,
        after.returns == before.returns,
        after.held@ == before.held@,
        after.forward.wf(),
        after.forward.same_but_queues(&before.forward),
        after.forward.queues() == before.forward.queues(),
        forall|p: super::Producer<Block<T>, Ring>| #[trigger]
            p.attached(before.forward) ==> p.attached(after.forward),
    ensures
        after.wf(),
        after.keeps_producers(&before),
        after.keeps_consumers(&before),
{
    assert forall|q: int| 0 <= q < after.producers() implies all_from(
        (#[trigger] after.forward.link(q)).queue(),
        q,
        after.batch as int,
    ) by {
        assert(all_from(before.forward.link(q).queue(), q, before.batch as int));
        assert(after.forward.link(q).queue() == after.forward.queues()[q]);
        assert(before.forward.link(q).queue() == before.forward.queues()[q]);
    }
    lemma_forward_moved(before, after);
}

/// Where each producer has as many blocks outstanding as before, all endpoints stay
/// attached.
proof fn lemma_forward_moved<T>(before: Shared<T>, after: Shared<T>)
    requires
        before.wf(),
        after.batch == before.batch,
        after.returns == before.returns,
        after.held@.len() == before.held@.len(),
        after.forward.wf(),
        after.forward.same_but_queues(&before.forward),
        forall|q: int|
            0 <= q < before.producers() ==> after.forward.queues()[q].len() + #[trigger] after.held(
                q,
            ) == before.forward.queues()[q].len() + before.held(q),
        forall|q: int|
            0 <= q < after.producers() ==> all_from(
                (#[trigger] after.forward.link(q)).queue(),
                q,
                after.batch as int,
            ),
        forall|p: super::Producer<Block<T>, Ring>| #[trigger]
            p.attached(before.forward) ==> p.attached(after.forward),
    ensures
        after.wf(),
        after.keeps_producers(&before),
        after.keeps_consumers(&before),
{
    assert forall|q: int| 0 <= q < after.producers() implies #[trigger] after.outstanding(q)
        == before.outstanding(q) by {
        assert(after.forward.link(q).queue() == after.forward.queues()[q]);
        assert(before.forward.link(q).queue() == before.forward.queues()[q]);
        assert(after.held(q) + after.forward.queues()[q].len() == before.held(q)
            + before.forward.queues()[q].len());
        assert(after.row(q) == before.row(q));
    }
    assert forall|q: int, d: int|
        0 <= q < after.producers() && 0 <= d < after.row(q).len() implies (#[trigger] after.row(
        q,
    )[d]).wf() && all_from(after.row(q)[d].queue(), q, after.batch as int) by {
        assert(before.row(q)[d].wf());
    }
    assert forall|q: int, d: int|
        0 <= q < after.producers() && 0 <= d < after.row(q).len() implies after.outstanding(q)
        <= (#[trigger] after.row(q)[d]).capacity() by {
        assert(before.outstanding(q) <= before.row(q)[d].capacity());
    }
    assert forall|x: Consumer<T>| #[trigger] x.attached(before) implies x.attached(after) by {
        lemma_consumer_stays(x, before, after);
    }
    assert forall|x: Producer<T>| #[trigger] x.attached(before) implies x.attached(after) by {
        assert(x.forward.attached(before.forward));
        assert(after.outstanding(x.index()) == before.outstanding(x.index()));
        assert(after.forward.claimed(x.index()) == before.forward.claimed(x.index()));
        assert(after.row(x.index()) == before.row(x.index()));
        lemma_producer_stays(x, before, after);
    }
}


impl<T> Consumer<T> {
    /// One attempt to wait until a published block is ready; it ends after disconnect.
    #[verifier::spinoff_prover]
    pub fn recv(&mut self, shared: &mut Shared<T>, backoff: &mut Backoff) -> (step: RecvStep<
        ReadLease<T>,
    >)
        requires
            old(shared).wf(),
            old(self).attached(*old(shared)),
        ensures
            final(shared).wf(),
            final(self).attached(*final(shared)),
            final(self).index() == old(self).index(),
            final(shared).batch() == old(shared).batch(),
            final(shared).producers() == old(shared).producers(),
            forall|q: int|
                0 <= q < old(shared).producers() ==> #[trigger] final(shared).row(q) == old(shared).row(q),
            step is Value <==> old(shared).forward().any_takeable(),
            step is Finished <==> step !is Value && old(shared).live_producers() == 0,
            step matches RecvStep::Value(l) ==> received(*old(shared), *final(shared), *old(self), l),
            step !is Value ==> {
                &&& final(shared).forward().queues() == old(shared).forward().queues()
                &&& forall|q: int|
                    0 <= q < old(shared).producers() ==> #[trigger] final(shared).held(q) == old(shared).held(q)
            },
            step matches RecvStep::Wait(pause) ==> pause == pause_after(
                counted(old(backoff).spins) as int,
            ) && final(backoff).spins == if pause == Pause::Yield {
                0
            } else {
                counted(old(backoff).spins)
            },
            step !is Wait ==> *final(backoff) == *old(backoff),
            final(shared).live_consumers() == old(shared).live_consumers(),
            final(shared).live_producers() == old(shared).live_producers(),
            super::scan_effect(
                old(shared).forward(),
                final(shared).forward(),
                old(self).forward(),
                final(self).forward(),
                1,
            ),
            final(shared).forward().same_but_queues(&old(shared).forward()),
            final(shared).keeps_producers(old(shared)),
            final(shared).keeps_other_consumers(old(shared), old(self).index()),
    {
        let ghost before = *shared;
        proof {
            super::law_scan_finds_what_is_there(before.forward, self.forward.position());
            super::lemma_pick_passes(before.forward, self.forward.position(), 0);
        }
        if let Some(lease) = self.try_recv(shared) {
            return RecvStep::Value(lease);
        }
        let ghost between = *shared;
        if self.is_disconnected(shared) {
            proof {
                super::lemma_rescan(
                    before.forward,
                    between.forward,
                    old(self).forward().position(),
                    old(self).forward().credits(),
                );
                super::law_scan_finds_what_is_there(between.forward, self.forward.position());
                super::lemma_pick_passes(between.forward, self.forward.position(), 0);
            }
            if let Some(lease) = self.try_recv(shared) {
                return RecvStep::Value(lease);
            }
            proof {
                super::lemma_same_twice(before.forward, between.forward, shared.forward);
                assert forall|q: int| 0 <= q < before.producers() implies #[trigger] shared.row(q)
                    == before.row(q) by {
                    assert(between.row(q) == before.row(q));
                }
                assert forall|q: int| 0 <= q < before.producers() implies #[trigger] shared.held(q)
                    == before.held(q) by {
                    assert(between.held(q) == before.held(q));
                }
                assert forall|x: Producer<T>| #[trigger] x.attached(before) implies x.attached(
                    *shared,
                ) by {
                    assert(x.attached(between));
                }
                assert forall|x: Consumer<T>|
                    x.index() != old(self).index() && #[trigger] x.attached(
                        before,
                    ) implies x.attached(*shared) by {
                    assert(x.attached(between));
                }
            }
            return RecvStep::Finished;
        }
        RecvStep::Wait(backoff.pause_and_restart())
    }
}

impl<T> ReadLease<T> {
    /// Return the block to its producer. Each return lane holds the producer's whole
    /// pool, so the block always finds room; where the producer has already left, the
    /// block is dropped.
    #[verifier::spinoff_prover]
    pub fn release(self, consumer: &mut Consumer<T>, shared: &mut Shared<T>)
        requires
            old(shared).wf(),
            old(consumer).attached(*old(shared)),
            self.held_in(*old(shared)),
        ensures
            final(shared).wf(),
            final(consumer).attached(*final(shared)),
            final(consumer).index() == old(consumer).index(),
            final(consumer).forward() == old(consumer).forward(),
            final(shared).forward() == old(shared).forward(),
            final(shared).batch() == old(shared).batch(),
            ({
                let p = self.origin();
                let c = old(consumer).index();
                let lane = old(shared).row(p)[c];
                let now = final(shared).row(p)[c];
                &&& final(shared).held(p) == old(shared).held(p) - 1
                &&& final(shared).row(p).len() == old(shared).row(p).len()
                &&& forall|q: int|
                    0 <= q < old(shared).producers() && q != p ==> #[trigger] final(shared).held(q)
                        == old(shared).held(q) && final(shared).row(q) == old(shared).row(q)
                &&& forall|d: int|
                    0 <= d < old(shared).row(p).len() && d != c ==> #[trigger] final(shared).row(
                        p,
                    )[d] == old(shared).row(p)[d]
                &&& now.capacity() == lane.capacity()
                &&& now.consumer_gone() == lane.consumer_gone()
                &&& if lane.consumer_gone() {
                    now.queue() == lane.queue()
                } else {
                    &&& now.queue().len() == lane.queue().len() + 1
                    &&& now.queue().drop_last() == lane.queue()
                    &&& now.queue().last().values() == self.values()
                    &&& now.queue().last().origin() == p
                }
            }),
            final(shared).keeps_producers(old(shared)),
            final(shared).keeps_other_consumers(old(shared), old(consumer).index()),
    {
        let ghost before = *shared;
        let ghost was = *consumer;
        let p: usize = self.block.origin;
        let c: usize = consumer.index;
        proof {
            assert(was.returns@[p as int].attached(before.row(p as int)[c as int]));
            assert(before.row(p as int).len() > c);
            assert(before.row(p as int)[c as int].wf());
            lemma_lane_total_update(
                before.row(p as int),
                c as int,
                before.row(p as int)[c as int],
            );
            assert(before.outstanding(p as int) <= before.row(p as int)[c as int].capacity());
        }
        let ghost block = self.block;
        let row = &mut shared.returns[p];
        if !consumer.returns[p].is_consumer_gone(&row[c]) {
            let sent = consumer.returns[p].try_push(&mut row[c], self.block);
            assert(sent is Ok);
        }
        proof {
            let ghost now = shared.held@.update(p as int, (shared.held@[p as int] - 1) as nat);
            shared.held = Ghost(now);
            let lane = before.row(p as int)[c as int];
            let after = shared.row(p as int)[c as int];
            assert(shared.row(p as int) =~= before.row(p as int).update(c as int, after));
            if !lane.consumer_gone() {
                assert(after.queue().drop_last() =~= lane.queue());
            }
            lemma_released(before, *shared, p as int, c as int, block);
            assert forall|q: int| 0 <= q < consumer.returns@.len() implies (
            #[trigger] consumer.returns@[q]).attached(shared.row(q)[c as int]) by {
                assert(was.returns@[q].attached(before.row(q)[c as int]));
                if q != p {
                    assert(shared.row(q) == before.row(q));
                }
            }
            assert forall|q: int| 0 <= q < consumer.returns@.len() implies c < (
            #[trigger] shared.row(q)).len() by {
                assert(before.row(q).len() > c);
            }
        }
    }
}

proof fn lemma_released<T>(before: Shared<T>, after: Shared<T>, p: int, c: int, block: Block<T>)
    requires
        before.wf(),
        only_lane(before, after, p, c),
        after.forward == before.forward,
        before.held(p) > 0,
        after.held@ == before.held@.update(p, (before.held(p) - 1) as nat),
        block.origin == p,
        block.values@.len() <= before.batch,
        after.row(p)[c].wf(),
        if before.row(p)[c].consumer_gone() {
            after.row(p)[c].queue() == before.row(p)[c].queue()
        } else {
            after.row(p)[c].queue() == before.row(p)[c].queue().push(block)
        },
        forall|rx: ring::Receiver<Block<T>>| #[trigger]
            rx.attached(before.row(p)[c]) ==> rx.attached(after.row(p)[c]),
    ensures
        after.wf(),
        after.keeps_producers(&before),
        after.keeps_other_consumers(&before, c),
{
    let lane = after.row(p)[c];
    lemma_lane_total_update(before.row(p), c, lane);
    assert forall|q: int, d: int|
        0 <= q < after.producers() && 0 <= d < after.row(q).len() implies (#[trigger] after.row(
        q,
    )[d]).wf() && all_from(after.row(q)[d].queue(), q, after.batch as int) by {
        assert(before.row(q)[d].wf());
        if q == p && d == c {
            assert forall|i: int| 0 <= i < lane.queue().len() implies (
            #[trigger] lane.queue()[i]).origin == q && lane.queue()[i].values@.len()
                <= after.batch by {
                if i < before.row(p)[c].queue().len() {
                    assert(lane.queue()[i] == before.row(p)[c].queue()[i]);
                }
            }
        }
    }
    assert forall|q: int, d: int|
        0 <= q < after.producers() && 0 <= d < after.row(q).len() implies after.outstanding(q)
        <= (#[trigger] after.row(q)[d]).capacity() by {
        assert(before.outstanding(q) <= before.row(q)[d].capacity());
    }
    assert forall|x: Producer<T>| #[trigger] x.attached(before) implies x.attached(after) by {
        let row = before.row(x.index());
        if x.index() == p {
            assert(x.returns@[c].attached(row[c]));
            assert forall|d: int|
                0 <= d < x.returns@.len() implies #[trigger] x.lane_fits(after, d) by {
                assert(x.lane_fits(before, d));
            }
            lemma_attached(x, after);
        } else {
            assert(after.row(x.index()) == row);
            lemma_producer_stays(x, before, after);
        }
    }
    assert forall|x: Consumer<T>|
        x.index() != c && #[trigger] x.attached(before) implies x.attached(after) by {
        assert forall|q: int| 0 <= q < x.returns@.len() implies x.index < (#[trigger] after.row(
            q,
        )).len() by {
            assert(before.row(q).len() == after.row(q).len());
        }
        assert forall|q: int| 0 <= q < x.returns@.len() implies (
        #[trigger] x.returns@[q]).attached(after.row(q)[x.index as int]) by {
            assert(before.row(q).len() > x.index);
            assert(x.returns@[q].attached(before.row(q)[x.index as int]));
        }
    }
}


impl<T> Producer<T> {
    /// This producer leaves: what it has committed stays readable, and blocks that
    /// come back from now on are dropped by their consumers.
    #[verifier::spinoff_prover]
    pub fn disconnect(self, shared: &mut Shared<T>)
        requires
            old(shared).wf(),
            self.attached(*old(shared)),
            old(shared).live_producers() > 0,
        ensures
            final(shared).wf(),
            final(shared).producers() == old(shared).producers(),
            final(shared).batch() == old(shared).batch(),
            final(shared).live_producers() == old(shared).live_producers() - 1,
            final(shared).live_consumers() == old(shared).live_consumers(),
            final(shared).forward().queues() == old(shared).forward().queues(),
            final(shared).forward().link(self.index()).producer_gone(),
            final(shared).forward().same_knowledge(&old(shared).forward()),
            forall|q: int|
                0 <= q < old(shared).producers() ==> {
                    &&& #[trigger] final(shared).forward().claimed(q) == old(shared).forward().claimed(q)
                    &&& final(shared).forward().link(q).bound() == old(shared).forward().link(q).bound()
                    &&& q != self.index() ==> final(shared).forward().link(q) == old(shared).forward().link(q)
                },
            final(shared).row(self.index()).len() == old(shared).row(self.index()).len(),
            forall|c: int|
                0 <= c < final(shared).row(self.index()).len() ==> (#[trigger] final(shared).row(
                    self.index(),
                )[c]).consumer_gone() && final(shared).row(self.index())[c].queue() == Seq::<
                    Block<T>,
                >::empty(),
            forall|q: int|
                0 <= q < old(shared).producers() ==> (#[trigger] final(shared).held(q) == old(shared).held(q)),
            forall|q: int|
                0 <= q < old(shared).producers() && q != self.index() ==> #[trigger] final(shared).row(q) == old(shared).row(q),
            final(shared).keeps_consumers(old(shared)),
            final(shared).keeps_other_producers(old(shared), self.index()),
    {
        let ghost before = *shared;
        let ghost was = self;
        let ghost p = self.index as int;
        let index: usize = self.index;
        self.forward.disconnect(&mut shared.forward);
        let ghost left = *shared;
        proof {
            assert(left.forward.rings() == before.producers());
            assert(was.forward.ring() == p);
            assert(other_rings_kept(before.forward, left.forward, p));
        }
        let mut receivers = self.returns;
        while receivers.len() > 0
            invariant
                p == index,
                before.wf(),
                was.attached(before),
                p == was.index,
                was.returns@.len() == before.row(p).len(),
                receivers@.len() <= was.returns@.len(),
                forall|c: int| 0 <= c < receivers@.len() ==> #[trigger] receivers@[c] == was.returns@[c],
                shared.batch == before.batch,
                shared.held@ == before.held@,
                shared.forward == left.forward,
                shared.returns@.len() == before.returns@.len(),
                0 <= p < before.returns@.len(),
                before.returns@.len() == before.producers(),
                forall|q: int|
                    0 <= q < before.returns@.len() && q != p ==> #[trigger] shared.row(q)
                        == before.row(q),
                shared.row(p).len() == before.row(p).len(),
                forall|c: int|
                    0 <= c < receivers@.len() ==> #[trigger] shared.row(p)[c] == before.row(p)[c],
                forall|c: int|
                    receivers@.len() <= c < before.row(p).len() ==> {
                        let lane = #[trigger] shared.row(p)[c];
                        &&& lane.wf()
                        &&& lane.consumer_gone()
                        &&& lane.queue() == Seq::<Block<T>>::empty()
                        &&& lane.capacity() == before.row(p)[c].capacity()
                    },
                forall|c: int, tx: ring::Sender<Block<T>>|
                    0 <= c < before.row(p).len() && #[trigger] tx.attached(before.row(p)[c])
                        ==> tx.attached(shared.row(p)[c]),
            decreases receivers@.len(),
        {
            let ghost entry = *shared;
            let ghost rest = receivers@;
            let rx = receivers.pop().unwrap();
            let c: usize = receivers.len();
            proof {
                assert(rx == rest[c as int]);
                assert(rx == was.returns@[c as int]);
                assert(was.returns@[c as int].attached(before.row(p)[c as int]));
                assert(before.row(p)[c as int].wf());
                assert(entry.row(p)[c as int] == before.row(p)[c as int]);
            }
            let row = &mut shared.returns[index];
            rx.disconnect(&mut row[c]);
            proof {
                assert forall|d: int| 0 <= d < before.row(p).len() && d != c implies (
                #[trigger] shared.row(p)[d]) == entry.row(p)[d] by {
                }
                assert forall|q: int|
                    0 <= q < before.returns@.len() && q != p implies #[trigger] shared.row(q)
                    == before.row(q) by {
                    assert(entry.row(q) == before.row(q));
                }
                assert forall|d: int| 0 <= d < receivers@.len() implies #[trigger] receivers@[d]
                    == was.returns@[d] by {
                    assert(receivers@[d] == rest[d]);
                }
            }
        }
        proof {
            assert(shared.forward == left.forward);
            assert(other_rings_kept(before.forward, shared.forward, p));
            lemma_producer_left(before, *shared, p);
        }
    }
}

/// Every ring but `p` is as it was, and nobody has claimed one or given one up.
spec fn other_rings_kept<T>(
    before: super::Shared<Block<T>, Ring>,
    after: super::Shared<Block<T>, Ring>,
    p: int,
) -> bool {
    forall|q: int|
        0 <= q < before.rings() ==> {
            &&& #[trigger] after.claimed(q) == before.claimed(q)
            &&& q != p ==> after.link(q) == before.link(q)
        }
}

#[verifier::spinoff_prover]
proof fn lemma_producer_left<T>(before: Shared<T>, after: Shared<T>, p: int)
    requires
        before.wf(),
        0 <= p < before.producers(),
        after.batch == before.batch,
        after.held@ == before.held@,
        after.forward.wf(),
        after.forward.rings() == before.forward.rings(),
        after.forward.queues() == before.forward.queues(),
        other_rings_kept(before.forward, after.forward, p),
        after.forward.keeps_other_producers(&before.forward, p),
        after.returns@.len() == before.returns@.len(),
        forall|q: int|
            0 <= q < before.producers() && q != p ==> #[trigger] after.row(q) == before.row(q),
        after.row(p).len() == before.row(p).len(),
        forall|c: int|
            0 <= c < before.row(p).len() ==> {
                let lane = #[trigger] after.row(p)[c];
                &&& lane.wf()
                &&& lane.consumer_gone()
                &&& lane.queue() == Seq::<Block<T>>::empty()
                &&& lane.capacity() == before.row(p)[c].capacity()
            },
        forall|c: int, tx: ring::Sender<Block<T>>|
            0 <= c < before.row(p).len() && #[trigger] tx.attached(before.row(p)[c])
                ==> tx.attached(after.row(p)[c]),
    ensures
        after.wf(),
        after.keeps_consumers(&before),
        after.keeps_other_producers(&before, p),
{
    lemma_lane_total_zero(after.row(p));
    assert forall|q: int| 0 <= q < after.producers() implies all_from(
        (#[trigger] after.forward.link(q)).queue(),
        q,
        after.batch as int,
    ) by {
        assert(all_from(before.forward.link(q).queue(), q, before.batch as int));
        assert(after.forward.link(q).queue() == after.forward.queues()[q]);
        assert(before.forward.link(q).queue() == before.forward.queues()[q]);
    }
    assert forall|q: int, d: int|
        0 <= q < after.producers() && 0 <= d < after.row(q).len() implies (#[trigger] after.row(
        q,
    )[d]).wf() && all_from(after.row(q)[d].queue(), q, after.batch as int) by {
        assert(before.row(q)[d].wf());
    }
    assert forall|q: int, d: int|
        0 <= q < after.producers() && 0 <= d < after.row(q).len() implies after.outstanding(q)
        <= (#[trigger] after.row(q)[d]).capacity() by {
        assert(before.outstanding(q) <= before.row(q)[d].capacity());
        assert(after.forward.link(q).queue() == after.forward.queues()[q]);
        assert(before.forward.link(q).queue() == before.forward.queues()[q]);
    }
    assert forall|x: Consumer<T>| #[trigger] x.attached(before) implies x.attached(after) by {
        lemma_consumer_stays(x, before, after);
    }
    assert forall|x: Producer<T>|
        x.index() != p && #[trigger] x.attached(before) implies x.attached(after) by {
        assert(x.forward.attached(before.forward));
        assert(after.row(x.index()) == before.row(x.index()));
        assert(after.forward.claimed(x.index()) == before.forward.claimed(x.index()));
        lemma_producer_stays(x, before, after);
    }
}


impl<T> Consumer<T> {
    /// This consumer leaves. Blocks that it has returned can still be reclaimed.
    #[verifier::spinoff_prover]
    pub fn disconnect(self, shared: &mut Shared<T>)
        requires
            old(shared).wf(),
            self.attached(*old(shared)),
            old(shared).live_consumers() > 0,
        ensures
            final(shared).wf(),
            final(shared).producers() == old(shared).producers(),
            final(shared).batch() == old(shared).batch(),
            final(shared).live_consumers() == old(shared).live_consumers() - 1,
            final(shared).live_producers() == old(shared).live_producers(),
            final(shared).forward().same_rings(&old(shared).forward()),
            forall|q: int|
                0 <= q < old(shared).producers() ==> {
                    &&& #[trigger] final(shared).held(q) == old(shared).held(q)
                    &&& final(shared).row(q).len() == old(shared).row(q).len()
                    &&& final(shared).row(q)[self.index()].producer_gone()
                },
            forall|q: int, c: int|
                0 <= q < old(shared).producers() && 0 <= c < old(shared).row(q).len() ==> (
                #[trigger] final(shared).row(q)[c]).queue() == old(shared).row(q)[c].queue()
                    && final(shared).row(q)[c].consumer_gone() == old(shared).row(q)[c].consumer_gone(),
            final(shared).keeps_producers(old(shared)),
            final(shared).keeps_other_consumers(old(shared), self.index()),
    {
        let ghost before = *shared;
        let ghost was = self;
        let index: usize = self.index;
        let ghost c = self.index as int;
        self.forward.disconnect(&mut shared.forward);
        let ghost left = *shared;
        let mut senders = self.returns;
        let n: usize = senders.len();
        while senders.len() > 0
            invariant
                c == index,
                before.wf(),
                was.attached(before),
                c == was.index,
                n == was.returns@.len(),
                n == before.producers(),
                senders@.len() <= n,
                shared.batch == before.batch,
                shared.held@ == before.held@,
                shared.forward == left.forward,
                shared.returns@.len() == before.returns@.len(),
                before.returns@.len() == n,
                forall|q: int|
                    0 <= q < senders@.len() ==> #[trigger] shared.row(q) == before.row(q),
                forall|q: int|
                    senders@.len() <= q < n ==> {
                        &&& (#[trigger] shared.row(q)).len() == before.row(q).len()
                        &&& shared.row(q) == before.row(q).update(c, shared.row(q)[c])
                        &&& closed_lane(before.row(q)[c], shared.row(q)[c])
                    },
            decreases senders@.len(),
        {
            let ghost entry = *shared;
            let mut tx = senders.pop().unwrap();
            let q: usize = senders.len();
            proof {
                assert(entry.row(q as int) == before.row(q as int));
                assert(was.returns@[q as int].attached(before.row(q as int)[c]));
                assert(before.row(q as int).len() > c);
                assert(before.row(q as int)[c].wf());
            }
            let row = &mut shared.returns[q];
            tx.close(&mut row[index]);
            proof {
                assert(shared.row(q as int) =~= before.row(q as int).update(
                    c,
                    shared.row(q as int)[c],
                ));
                assert forall|r: int| 0 <= r < n && r != q implies #[trigger] shared.row(r)
                    == entry.row(r) by {
                }
            }
        }
        proof {
            lemma_consumer_left(before, *shared, c);
        }
    }
}

/// A lane whose sender has left: what it holds and how its ends know it is unchanged.
spec fn closed_lane<T>(before: ring::Inner<Block<T>>, after: ring::Inner<Block<T>>) -> bool {
    &&& after.wf()
    &&& after.producer_gone()
    &&& after.queue() == before.queue()
    &&& after.capacity() == before.capacity()
    &&& after.consumer_gone() == before.consumer_gone()
    &&& forall|rx: ring::Receiver<Block<T>>| #[trigger] rx.attached(before) ==> rx.attached(after)
}

proof fn lemma_lane_totals_agree<T>(a: Seq<ring::Inner<Block<T>>>, b: Seq<ring::Inner<Block<T>>>)
    requires
        a.len() == b.len(),
        forall|c: int| 0 <= c < a.len() ==> (#[trigger] a[c]).queue().len() == b[c].queue().len(),
    ensures
        lane_total(a) == lane_total(b),
    decreases a.len(),
{
    if a.len() > 0 {
        assert forall|c: int| 0 <= c < a.drop_last().len() implies (
        #[trigger] a.drop_last()[c]).queue().len() == b.drop_last()[c].queue().len() by {
            assert(a[c].queue().len() == b[c].queue().len());
        }
        lemma_lane_totals_agree(a.drop_last(), b.drop_last());
        assert(a[a.len() - 1].queue().len() == b[b.len() - 1].queue().len());
    }
}

proof fn lemma_consumer_left<T>(before: Shared<T>, after: Shared<T>, c: int)
    requires
        before.wf(),
        after.batch == before.batch,
        after.held@ == before.held@,
        after.forward.wf(),
        after.forward.same_rings(&before.forward),
        after.returns@.len() == before.returns@.len(),
        forall|q: int|
            0 <= q < before.producers() ==> {
                &&& (#[trigger] after.row(q)).len() == before.row(q).len()
                &&& 0 <= c < before.row(q).len()
                &&& after.row(q) == before.row(q).update(c, after.row(q)[c])
                &&& closed_lane(before.row(q)[c], after.row(q)[c])
            },
    ensures
        after.wf(),
        after.keeps_producers(&before),
        after.keeps_other_consumers(&before, c),
{
    assert forall|q: int| 0 <= q < before.producers() implies lane_total(#[trigger] after.row(q))
        == lane_total(before.row(q)) by {
        lemma_lane_totals_agree(after.row(q), before.row(q));
    }
    assert forall|q: int| 0 <= q < after.producers() implies !(#[trigger] after.forward.claimed(
        q,
    )) by {
        assert(after.forward.link(q) == before.forward.link(q));
    }
    assert forall|q: int| 0 <= q < after.producers() implies all_from(
        (#[trigger] after.forward.link(q)).queue(),
        q,
        after.batch as int,
    ) by {
        assert(all_from(before.forward.link(q).queue(), q, before.batch as int));
    }
    assert forall|q: int, d: int|
        0 <= q < after.producers() && 0 <= d < after.row(q).len() implies (#[trigger] after.row(
        q,
    )[d]).wf() && all_from(after.row(q)[d].queue(), q, after.batch as int) by {
        assert(after.row(q).len() == before.row(q).len());
        assert(before.row(q)[d].wf());
    }
    assert forall|q: int, d: int|
        0 <= q < after.producers() && 0 <= d < after.row(q).len() implies after.outstanding(q)
        <= (#[trigger] after.row(q)[d]).capacity() by {
        assert(after.row(q).len() == before.row(q).len());
        assert(before.outstanding(q) <= before.row(q)[d].capacity());
        assert(after.forward.link(q) == before.forward.link(q));
    }
    assert forall|x: Producer<T>| #[trigger] x.attached(before) implies x.attached(after) by {
        let p = x.index();
        assert(x.forward.attached(before.forward));
        assert(after.row(p).len() == before.row(p).len());
        assert(after.forward.link(p) == before.forward.link(p));
        assert forall|d: int|
            0 <= d < x.returns@.len() implies #[trigger] x.lane_fits(after, d) by {
            assert(x.lane_fits(before, d));
        }
        lemma_attached(x, after);
    }
    assert forall|x: Consumer<T>|
        x.index() != c && #[trigger] x.attached(before) implies x.attached(after) by {
        assert forall|q: int| 0 <= q < x.returns@.len() implies x.index < (#[trigger] after.row(
            q,
        )).len() by {
            assert(before.row(q).len() == after.row(q).len());
        }
        assert forall|q: int| 0 <= q < x.returns@.len() implies (
        #[trigger] x.returns@[q]).attached(after.row(q)[x.index as int]) by {
            assert(after.row(q).len() == before.row(q).len());
            assert(before.row(q).len() > x.index);
            assert(x.returns@[q].attached(before.row(q)[x.index as int]));
        }
    }
}


/// Whether an array of `count` values of `size` bytes can be allocated at all.
pub open spec fn fits(size: nat, count: int) -> bool {
    size * count <= isize::MAX
}

/// Whether `count` values of type `X` can be allocated at all.
fn allocation<X>(count: usize) -> (possible: bool)
    ensures
        possible == fits(vstd::layout::size_of::<X>(), count as int),
{
    let size: usize = core::mem::size_of::<X>();
    let most: usize = isize::MAX as usize;
    if size == 0 {
        return true;
    }
    proof {
        let s = size as int;
        let n = count as int;
        let m = most as int;
        vstd::arithmetic::div_mod::lemma_fundamental_div_mod(m, s);
        let q = m / s;
        let r = m % s;
        vstd::arithmetic::div_mod::lemma_mod_bound(m, s);
        assert(n <= q ==> s * n <= m) by (nonlinear_arith)
            requires
                m == s * q + r,
                0 <= r < s,
                0 <= n,
        ;
        assert(n > q ==> s * n > m) by (nonlinear_arith)
            requires
                m == s * q + r,
                0 <= r < s,
                0 <= n,
        ;
    }
    count <= most / size
}

/// Why a leased channel of this shape cannot be opened; `None` where it can.
pub open spec fn refused<T>(producers: usize, consumers: usize, capacity: usize, batch: usize) -> Option<
    InvalidShape,
> {
    let blocks = capacity as int / batch as int;
    let slots = next_power(blocks);
    let descriptors = producers * consumers * slots;
    if producers == 0 || consumers == 0 || batch == 0 || capacity < batch || capacity as int
        % batch as int != 0 {
        Some(InvalidShape::LeasedWorkers)
    } else if blocks > largest_power_of_two() {
        Some(InvalidShape::LeasedDescriptors)
    } else if producers * capacity > usize::MAX {
        Some(InvalidShape::LeasedPayloads)
    } else if descriptors > usize::MAX {
        Some(InvalidShape::LeasedReturns)
    } else if !fits(vstd::layout::size_of::<T>(), batch as int) || !fits(
        vstd::layout::size_of::<T>(),
        producers * capacity,
    ) || !fits(vstd::layout::size_of::<Block<T>>(), descriptors) || !fits(
        vstd::layout::size_of::<Producer<T>>(),
        producers as int,
    ) || !fits(vstd::layout::size_of::<Consumer<T>>(), consumers as int) {
        Some(InvalidShape::LeasedAllocation)
    } else {
        None
    }
}

/// Check a shape and give the number of blocks per producer and of slots per ring.
fn check_shape<T>(producers: usize, consumers: usize, capacity: usize, batch: usize) -> (checked:
    Result<(usize, usize), InvalidShape>)
    ensures
        match refused::<T>(producers, consumers, capacity, batch) {
            Some(reason) => checked == Err::<(usize, usize), InvalidShape>(reason),
            None => {
                &&& checked is Ok
                &&& checked->Ok_0.0 == capacity as int / batch as int
                &&& checked->Ok_0.1 == next_power(capacity as int / batch as int)
                &&& is_rounded_up(checked->Ok_0.0 as int, checked->Ok_0.1 as int)
            },
        },
{
    if producers == 0 || consumers == 0 || batch == 0 || capacity < batch || capacity % batch != 0 {
        return Err(InvalidShape::LeasedWorkers);
    }
    let blocks: usize = capacity / batch;
    let slots: usize = match checked_next_power_of_two(blocks) {
        Some(slots) => slots,
        None => {
            return Err(InvalidShape::LeasedDescriptors);
        },
    };
    proof {
        lemma_next_power(blocks as int, slots as int);
        crate::cursor::lemma_power_of_two_divides(slots);
    }
    let payloads: usize = match producers.checked_mul(capacity) {
        Some(n) => n,
        None => {
            return Err(InvalidShape::LeasedPayloads);
        },
    };
    let pairs: usize = match producers.checked_mul(consumers) {
        Some(n) => n,
        None => {
            proof {
                let pc = producers * consumers;
                assert(pc * slots >= pc) by (nonlinear_arith)
                    requires
                        0 < slots,
                        0 <= pc,
                ;
            }
            return Err(InvalidShape::LeasedReturns);
        },
    };
    let descriptors: usize = match pairs.checked_mul(slots) {
        Some(n) => n,
        None => {
            return Err(InvalidShape::LeasedReturns);
        },
    };
    if !allocation::<T>(batch) || !allocation::<T>(payloads) || !allocation::<Block<T>>(descriptors)
        || !allocation::<Producer<T>>(producers) || !allocation::<Consumer<T>>(consumers) {
        return Err(InvalidShape::LeasedAllocation);
    }
    Ok((blocks, slots))
}


/// A row of return lanes between one producer and every consumer, all new.
spec fn fresh_row<T>(row: Seq<ring::Inner<Block<T>>>, consumers: int, slots: int) -> bool {
    &&& row.len() == consumers
    &&& forall|c: int|
        0 <= c < consumers ==> {
            &&& (#[trigger] row[c]).wf()
            &&& row[c].queue() == Seq::<Block<T>>::empty()
            &&& row[c].capacity() == slots
            &&& !row[c].consumer_gone()
        }
}

/// A channel right after it was opened: every block is free, nothing is queued, and
/// every endpoint knows its rings.
pub open spec fn opened<T>(
    shared: Shared<T>,
    txs: Seq<Producer<T>>,
    rxs: Seq<Consumer<T>>,
    producers: usize,
    consumers: usize,
    capacity: usize,
    batch: usize,
) -> bool {
    &&& shared.wf()
    &&& shared.producers() == producers
    &&& shared.batch() == batch
    &&& shared.live_producers() == producers
    &&& shared.live_consumers() == consumers
    &&& forall|p: int|
        0 <= p < producers ==> (#[trigger] shared.forward().link(p)).queue() == Seq::<
            Block<T>,
        >::empty() && shared.outstanding(p) == 0 && shared.row(p).len() == consumers
            && shared.forward().known(p) == 0 && !shared.forward().claimed(p)
    &&& txs.len() == producers
    &&& forall|p: int|
        0 <= p < producers ==> {
            &&& (#[trigger] txs[p]).attached(shared)
            &&& txs[p].index() == p
            &&& txs[p].free_blocks() == capacity as int / batch as int
            &&& txs[p].in_flight() == 0
            &&& txs[p].writing() == 0
            &&& txs[p].cursor() == 0
        }
    &&& rxs.len() == consumers
    &&& forall|c: int|
        0 <= c < consumers ==> {
            &&& (#[trigger] rxs[c]).attached(shared)
            &&& rxs[c].index() == c
            &&& rxs[c].forward().position() == c
            &&& rxs[c].forward().credits() == super::scan::QUANTUM - 1
            &&& rxs[c].forward().batch() == 1
        }
}

/// The consumers of a channel under construction: one per clone of the first, each
/// with a sender into the lanes made so far.
spec fn wired<T>(rxs: Seq<Consumer<T>>, rows: Seq<Vec<ring::Inner<Block<T>>>>) -> bool {
    forall|c: int|
        0 <= c < rxs.len() ==> {
            &&& (#[trigger] rxs[c]).index == c
            &&& rxs[c].forward.wf()
            &&& rxs[c].forward.staged().len() == 0
            &&& rxs[c].forward.position() == c
            &&& rxs[c].forward.credits() == super::scan::QUANTUM - 1
            &&& rxs[c].forward.batch() == 1
            &&& rxs[c].returns@.len() == rows.len()
            &&& forall|q: int|
                0 <= q < rows.len() ==> (#[trigger] rxs[c].returns@[q]).attached(rows[q]@[c])
        }
}

/// Make the return lanes of one producer, giving every consumer its sender.
fn make_row<T>(rxs: &mut Vec<Consumer<T>>, slots: usize, rows: Ghost<Seq<Vec<ring::Inner<Block<T>>>>>) -> (made: (
    Vec<ring::Inner<Block<T>>>,
    Vec<ring::Receiver<Block<T>>>,
))
    requires
        slots <= largest_power_of_two(),
        crate::cursor::power_of_two(slots as int),
        0 < slots,
        wired(old(rxs)@, rows@),
    ensures
        final(rxs)@.len() == old(rxs)@.len(),
        fresh_row(made.0@, old(rxs)@.len() as int, slots as int),
        made.1@.len() == old(rxs)@.len(),
        forall|c: int|
            0 <= c < made.1@.len() ==> (#[trigger] made.1@[c]).attached(made.0@[c]),
        wired(final(rxs)@, rows@.push(made.0)),
{
    let ghost before = rxs@;
    let mut row: Vec<ring::Inner<Block<T>>> = Vec::new();
    let mut receivers: Vec<ring::Receiver<Block<T>>> = Vec::new();
    while row.len() < rxs.len()
        invariant
            slots <= largest_power_of_two(),
            crate::cursor::power_of_two(slots as int),
            0 < slots,
            wired(before, rows@),
            rxs@.len() == before.len(),
            row@.len() <= rxs@.len(),
            receivers@.len() == row@.len(),
            fresh_row(row@, row@.len() as int, slots as int),
            forall|c: int|
                0 <= c < receivers@.len() ==> (#[trigger] receivers@[c]).attached(row@[c]),
            forall|c: int|
                row@.len() <= c < rxs@.len() ==> #[trigger] rxs@[c] == before[c],
            forall|c: int|
                0 <= c < row@.len() ==> {
                    &&& (#[trigger] rxs@[c]).index == before[c].index
                    &&& rxs@[c].forward == before[c].forward
                    &&& rxs@[c].returns@.len() == before[c].returns@.len() + 1
                    &&& rxs@[c].returns@.last().attached(row@[c])
                    &&& forall|q: int|
                        0 <= q < before[c].returns@.len() ==> #[trigger] rxs@[c].returns@[q]
                            == before[c].returns@[q]
                },
        decreases rxs@.len() - row@.len(),
    {
        let (lane, tx, rx) = ring::ring(slots);
        proof {
            lemma_round_up_power(slots, lane.capacity() as int);
        }
        let c: usize = row.len();
        let ghost entry = rxs@;
        let consumer = &mut rxs[c];
        consumer.returns.push(tx);
        let ghost grown = row@;
        row.push(lane);
        receivers.push(rx);
        proof {
            assert forall|d: int| 0 <= d < row@.len() implies {
                &&& (#[trigger] rxs@[d]).index == before[d].index
                &&& rxs@[d].forward == before[d].forward
                &&& rxs@[d].returns@.len() == before[d].returns@.len() + 1
                &&& rxs@[d].returns@.last().attached(row@[d])
                &&& forall|q: int|
                    0 <= q < before[d].returns@.len() ==> #[trigger] rxs@[d].returns@[q]
                        == before[d].returns@[q]
            } by {
                if d < c {
                    assert(rxs@[d] == entry[d]);
                    assert(row@[d] == grown[d]);
                } else {
                    assert(entry[d] == before[d]);
                }
            }
            assert forall|d: int| 0 <= d < row@.len() implies {
                &&& (#[trigger] row@[d]).wf()
                &&& row@[d].queue() == Seq::<Block<T>>::empty()
                &&& row@[d].capacity() == slots
                &&& !row@[d].consumer_gone()
            } by {
                if d < c {
                    assert(row@[d] == grown[d]);
                }
            }
        }
    }
    proof {
        let all = rows@.push(row);
        assert forall|c: int| 0 <= c < rxs@.len() implies {
            &&& (#[trigger] rxs@[c]).index == c
            &&& rxs@[c].forward.wf()
            &&& rxs@[c].forward.staged().len() == 0
            &&& rxs@[c].forward.position() == c
            &&& rxs@[c].forward.credits() == super::scan::QUANTUM - 1
            &&& rxs@[c].forward.batch() == 1
            &&& rxs@[c].returns@.len() == all.len()
            &&& forall|q: int|
                0 <= q < all.len() ==> (#[trigger] rxs@[c].returns@[q]).attached(all[q]@[c])
        } by {
            assert(before[c].index == c);
            assert forall|q: int| 0 <= q < all.len() implies (
            #[trigger] rxs@[c].returns@[q]).attached(all[q]@[c]) by {
                if q < rows@.len() {
                    assert(rxs@[c].returns@[q] == before[c].returns@[q]);
                }
            }
        }
    }
    (row, receivers)
}

/// A power of two is not rounded.
proof fn lemma_round_up_power(slots: usize, rounded: int)
    requires
        0 < slots,
        crate::cursor::power_of_two(slots as int),
        is_rounded_up(ring::at_least_one(slots), rounded),
    ensures
        rounded == slots,
{
    let e = choose|e: nat| #[trigger] vstd::arithmetic::power2::pow2(e) == slots as int;
    assert(rounded <= vstd::arithmetic::power2::pow2(e));
}


/// A pool of empty blocks.
fn make_pool<T>(origin: usize, blocks: usize, batch: usize) -> (free: Vec<Block<T>>)
    ensures
        free@.len() == blocks,
        all_from(free@, origin as int, batch as int),
{
    let mut free: Vec<Block<T>> = Vec::with_capacity(blocks);
    while free.len() < blocks
        invariant
            free@.len() <= blocks,
            all_from(free@, origin as int, batch as int),
        decreases blocks - free@.len(),
    {
        let ghost before = free@;
        free.push(Block { values: Vec::with_capacity(batch), origin });
        proof {
            assert forall|i: int| 0 <= i < free@.len() implies (#[trigger] free@[i]).origin
                == origin && free@[i].values@.len() <= batch by {
                if i < before.len() {
                    assert(free@[i] == before[i]);
                }
            }
        }
    }
    free
}

/// The consumers of a channel, none with a return lane yet.
fn make_consumers<T>(
    forward: &mut super::Shared<Block<T>, Ring>,
    first: super::Consumer<Block<T>>,
    consumers: usize,
) -> (rxs: Vec<Consumer<T>>)
    requires
        0 < consumers,
        old(forward).wf(),
        old(forward).live_consumers() == 1,
        first.wf(),
        first.staged().len() == 0,
        first.position() == 0,
        first.credits() == super::scan::QUANTUM - 1,
    ensures
        final(forward).wf(),
        final(forward).live_consumers() == consumers,
        final(forward).live_producers() == old(forward).live_producers(),
        final(forward).same_rings(old(forward)),
        rxs@.len() == consumers,
        wired(rxs@, Seq::<Vec<ring::Inner<Block<T>>>>::empty()),
{
    let ghost before = *forward;
    let mut first = first;
    first.set_batch(1);
    let mut rest: Vec<super::Consumer<Block<T>>> = Vec::new();
    while rest.len() + 1 < consumers
        invariant
            rest@.len() + 1 <= consumers,
            first.wf(),
            first.batch() == 1,
            before.wf(),
            forward.wf(),
            forward.live_consumers() == rest@.len() + 1,
            forward.live_producers() == before.live_producers(),
            forward.same_rings(&before),
            forall|i: int|
                0 <= i < rest@.len() ==> (#[trigger] rest@[i]).wf() && rest@[i].staged().len() == 0
                    && rest@[i].position() == i + 1 && rest@[i].credits() == super::scan::QUANTUM - 1
                    && rest@[i].batch() == 1,
        decreases consumers - rest@.len(),
    {
        let ghost entry = *forward;
        let ghost made = rest@;
        let peer = first.duplicate(forward);
        rest.push(peer);
        proof {
            assert forall|i: int| 0 <= i < forward.rings() implies #[trigger] forward.link(i)
                == before.link(i) && forward.rx(i) == before.rx(i) && forward.claimed(i)
                == before.claimed(i) by {
                assert(entry.link(i) == before.link(i));
            }
            assert forall|p: super::Producer<Block<T>, Ring>| #[trigger] p.attached(
                before,
            ) implies p.attached(*forward) by {
                assert(p.attached(entry));
            }
            assert forall|i: int| 0 <= i < rest@.len() implies (#[trigger] rest@[i]).wf()
                && rest@[i].staged().len() == 0 && rest@[i].position() == i + 1
                && rest@[i].credits() == super::scan::QUANTUM - 1 && rest@[i].batch() == 1 by {
                if i < made.len() {
                    assert(rest@[i] == made[i]);
                }
            }
        }
    }
    let mut rxs: Vec<Consumer<T>> = Vec::with_capacity(consumers);
    rxs.push(Consumer { forward: first, index: 0, returns: Vec::new() });
    let ghost all = rest@;
    while rest.len() > 0
        invariant
            all.len() + 1 == consumers,
            rest@.len() + rxs@.len() == consumers,
            rest@ == all.skip(rxs@.len() - 1),
            0 < rxs@.len(),
            wired(rxs@, Seq::<Vec<ring::Inner<Block<T>>>>::empty()),
            forall|i: int|
                0 <= i < all.len() ==> (#[trigger] all[i]).wf() && all[i].staged().len() == 0
                    && all[i].position() == i + 1 && all[i].credits() == super::scan::QUANTUM - 1
                    && all[i].batch() == 1,
        decreases rest@.len(),
    {
        let ghost made = rxs@;
        let next = rest.remove(0);
        proof {
            assert(next == all[made.len() - 1]);
        }
        rxs.push(Consumer { forward: next, index: rxs.len(), returns: Vec::new() });
        proof {
            assert(rest@ =~= all.skip(rxs@.len() - 1));
            assert forall|c: int| 0 <= c < rxs@.len() implies {
                &&& (#[trigger] rxs@[c]).index == c
                &&& rxs@[c].forward.wf()
                &&& rxs@[c].forward.staged().len() == 0
                &&& rxs@[c].forward.position() == c
                &&& rxs@[c].forward.credits() == super::scan::QUANTUM - 1
                &&& rxs@[c].forward.batch() == 1
                &&& rxs@[c].returns@.len() == 0
            } by {
                if c < made.len() {
                    assert(rxs@[c] == made[c]);
                }
            }
        }
    }
    rxs
}

/// Open a channel of `producers` pools, each of `capacity` payload slots in blocks of
/// `batch`, and `consumers` competing consumers.
pub fn open<T>(producers: usize, consumers: usize, capacity: usize, batch: usize) -> (result: Result<
    (Shared<T>, Vec<Producer<T>>, Vec<Consumer<T>>),
    OpenError,
>)
    ensures
        match refused::<T>(producers, consumers, capacity, batch) {
            Some(reason) => result is Err && result->Err_0 == OpenError::Invalid(reason),
            None => result is Ok && opened(
                result->Ok_0.0,
                result->Ok_0.1@,
                result->Ok_0.2@,
                producers,
                consumers,
                capacity,
                batch,
            ),
        },
{
    let (blocks, slots) = match check_shape::<T>(producers, consumers, capacity, batch) {
        Ok(checked) => checked,
        Err(reason) => {
            return Err(OpenError::Invalid(reason));
        },
    };
    proof {
        crate::cursor::lemma_largest();
        crate::cursor::lemma_power_of_two_divides(slots);
    }
    let (mut forward, txs, first) = super::open::<Block<T>, Ring>(producers, slots);
    let ghost opened_forward = forward;
    let mut rxs = make_consumers(&mut forward, first, consumers);
    let mut txs = txs;
    let ghost all = txs@;
    let mut rows: Vec<Vec<ring::Inner<Block<T>>>> = Vec::with_capacity(producers);
    let mut senders: Vec<Producer<T>> = Vec::with_capacity(producers);
    while txs.len() > 0
        invariant
            slots <= largest_power_of_two(),
            crate::cursor::power_of_two(slots as int),
            0 < slots,
            blocks <= slots,
            all.len() == producers,
            forall|p: int|
                0 <= p < producers ==> (#[trigger] all[p]).ring() == p && all[p].attached(forward),
            senders@.len() <= producers,
            rows@.len() == senders@.len(),
            txs@ == all.skip(senders@.len() as int),
            rxs@.len() == consumers,
            wired(rxs@, rows@),
            forall|p: int|
                0 <= p < rows@.len() ==> fresh_row((#[trigger] rows@[p])@, consumers as int, slots as int),
            forall|p: int|
                0 <= p < senders@.len() ==> {
                    let x = #[trigger] senders@[p];
                    &&& x.forward == all[p]
                    &&& x.index == p
                    &&& x.batch == batch
                    &&& x.in_flight == 0
                    &&& x.writing@ == 0
                    &&& x.cursor == 0
                    &&& x.free@.len() == blocks
                    &&& all_from(x.free@, p, batch as int)
                    &&& x.returns@.len() == consumers
                    &&& forall|c: int|
                        0 <= c < consumers ==> (#[trigger] x.returns@[c]).attached(rows@[p]@[c])
                },
        decreases txs@.len(),
    {
        let ghost made = senders@;
        let ghost laid = rows@;
        let forward_tx = txs.remove(0);
        let origin: usize = senders.len();
        proof {
            assert(forward_tx == all[origin as int]);
            assert(txs@ =~= all.skip(origin + 1));
        }
        let (row, receivers) = make_row(&mut rxs, slots, Ghost(rows@));
        rows.push(row);
        let free = make_pool(origin, blocks, batch);
        senders.push(
            Producer {
                forward: forward_tx,
                index: origin,
                returns: receivers,
                free,
                in_flight: 0,
                cursor: 0,
                batch,
                writing: Ghost(0nat),
            },
        );
        proof {
            assert forall|p: int| 0 <= p < rows@.len() implies fresh_row(
                (#[trigger] rows@[p])@,
                consumers as int,
                slots as int,
            ) by {
                if p < laid.len() {
                    assert(rows@[p] == laid[p]);
                }
            }
            assert forall|p: int| 0 <= p < senders@.len() implies {
                let x = #[trigger] senders@[p];
                &&& x.forward == all[p]
                &&& x.index == p
                &&& x.batch == batch
                &&& x.in_flight == 0
                &&& x.writing@ == 0
                &&& x.cursor == 0
                &&& x.free@.len() == blocks
                &&& all_from(x.free@, p, batch as int)
                &&& x.returns@.len() == consumers
                &&& forall|c: int|
                    0 <= c < consumers ==> (#[trigger] x.returns@[c]).attached(rows@[p]@[c])
            } by {
                if p < made.len() {
                    assert(senders@[p] == made[p]);
                    assert(rows@[p] == laid[p]);
                }
            }
        }
    }
    let ghost none = Seq::new(producers as nat, |p: int| 0nat);
    let shared = Shared { forward, returns: rows, held: Ghost(none), batch };
    proof {
        assert forall|p: int| 0 <= p < producers implies (#[trigger] shared.forward.link(
            p,
        )).queue() == Seq::<Block<T>>::empty() && shared.forward.link(p).capacity() == slots by {
            assert(shared.forward.link(p) == opened_forward.link(p));
            assert(opened_forward.link(p).queue() == Seq::<Block<T>>::empty());
            assert(<Ring as Backend<Block<T>>>::sized(slots, opened_forward.link(p).bound()));
            lemma_round_up_power(slots, opened_forward.link(p).capacity() as int);
        }
        assert forall|p: int| 0 <= p < producers implies !(#[trigger] shared.forward.claimed(p)) by {
            assert(shared.forward.link(p) == opened_forward.link(p));
        }
        assert forall|p: int| 0 <= p < producers implies #[trigger] shared.outstanding(p) == 0 by {
            assert(fresh_row(shared.returns@[p]@, consumers as int, slots as int));
            lemma_lane_total_zero(shared.row(p));
            assert(shared.forward.link(p).queue().len() == 0);
        }
        assert forall|p: int, c: int|
            0 <= p < shared.producers() && 0 <= c < shared.row(p).len() implies (
        #[trigger] shared.row(p)[c]).wf() && all_from(
            shared.row(p)[c].queue(),
            p,
            shared.batch as int,
        ) by {
            assert(fresh_row(shared.returns@[p]@, consumers as int, slots as int));
        }
        assert forall|p: int, c: int|
            0 <= p < shared.producers() && 0 <= c < shared.row(p).len() implies shared.outstanding(
            p,
        ) <= (#[trigger] shared.row(p)[c]).capacity() by {
            assert(shared.outstanding(p) == 0);
        }
        assert(shared.wf());
        assert forall|p: int| 0 <= p < producers implies {
            &&& (#[trigger] senders@[p]).attached(shared)
            &&& senders@[p].index() == p
            &&& senders@[p].free_blocks() == capacity as int / batch as int
            &&& senders@[p].in_flight() == 0
            &&& senders@[p].writing() == 0
            &&& senders@[p].cursor() == 0
        } by {
            let x = senders@[p];
            assert(fresh_row(shared.returns@[p]@, consumers as int, slots as int));
            assert(all[p].attached(forward));
            assert(shared.outstanding(p) == 0);
            assert(shared.forward.link(p).queue().len() == 0);
        }
        assert forall|c: int| 0 <= c < consumers implies {
            &&& (#[trigger] rxs@[c]).attached(shared)
            &&& rxs@[c].index() == c
            &&& rxs@[c].forward().position() == c
            &&& rxs@[c].forward().credits() == super::scan::QUANTUM - 1
            &&& rxs@[c].forward().batch() == 1
        } by {
            let x = rxs@[c];
            assert forall|p: int| 0 <= p < x.returns@.len() implies x.index < (
            #[trigger] shared.row(p)).len() by {
                assert(fresh_row(shared.returns@[p]@, consumers as int, slots as int));
            }
            assert forall|p: int| 0 <= p < x.returns@.len() implies (
            #[trigger] x.returns@[p]).attached(shared.row(p)[x.index as int]) by {
            }
        }
        assert forall|p: int| 0 <= p < producers implies (#[trigger] shared.forward().link(
            p,
        )).queue() == Seq::<Block<T>>::empty() && shared.outstanding(p) == 0 && shared.row(p).len()
            == consumers && shared.forward().known(p) == 0 && !shared.forward().claimed(p) by {
            assert(fresh_row(shared.returns@[p]@, consumers as int, slots as int));
            assert(shared.outstanding(p) == 0);
            assert(shared.forward.link(p).queue() == Seq::<Block<T>>::empty());
            assert(shared.forward.link(p) == opened_forward.link(p));
            assert(!shared.forward.claimed(p));
        }
    }
    Ok((shared, senders, rxs))
}

/// Blocks are conserved: those that are free, in write leases and in flight are
/// always the whole pool, and those in flight are queued, held by a consumer or on
/// their way back. So a producer whose blocks are all free has nothing outstanding.
pub proof fn law_blocks_are_conserved<T>(producer: Producer<T>, shared: Shared<T>)
    requires
        shared.wf(),
        producer.attached(shared),
    ensures
        producer.pool() == producer.free_blocks() + producer.writing() + shared.outstanding(
            producer.index(),
        ),
        producer.in_flight() == shared.forward().link(producer.index()).queue().len()
            + shared.held(producer.index()) + lane_total(shared.row(producer.index())),
        producer.free_blocks() == producer.pool() ==> shared.held(producer.index()) == 0
            && lane_total(shared.row(producer.index())) == 0,
{
}

/// A committed block can be received: no consumer keeps a forward ring to itself between
/// two calls, so a ring that holds a block makes the next scan of any consumer find one.
pub proof fn law_committed_blocks_can_be_received<T>(shared: Shared<T>, p: int)
    requires
        shared.wf(),
        0 <= p < shared.producers(),
        shared.forward().link(p).queue().len() > 0,
    ensures
        !shared.forward().claimed(p),
        shared.forward().takeable(p),
        shared.forward().any_takeable(),
{
    assert(shared.forward().takeable(p));
}

/// A received block is the oldest that its producer has committed and nobody has received:
/// it has the values that were committed, it leaves the producer's ring, and no other ring
/// changes.
pub proof fn law_received_blocks_are_the_oldest<T>(
    before: Shared<T>,
    after: Shared<T>,
    consumer: Consumer<T>,
    lease: ReadLease<T>,
)
    requires
        before.wf(),
        consumer.attached(before),
        before.forward().any_takeable(),
        received(before, after, consumer, lease),
    ensures
        ({
            let p = lease.origin();
            let queue = before.forward().link(p).queue();
            &&& 0 <= p < before.producers()
            &&& queue.len() > 0
            &&& lease.values() == queue[0].values()
            &&& after.forward().queues() == before.forward().queues().update(p, queue.skip(1))
        }),
{
    let forward = before.forward;
    let start = consumer.forward.position();
    let rings = before.producers() as int;
    super::law_scan_finds_what_is_there(forward, start);
    super::lemma_pick_passes(forward, start, 0);
    let ring = attempt(start, forward.pick(start, 0), rings);
    lemma_next_attempt(start, forward.pick(start, 0), rings);
    assert(forward.link(ring).wf());
    forward.rx(ring).ready_bounds(forward.link(ring));
}

/// A producer of a channel has a forward ring and return lanes of its own, which hold its
/// whole pool.
pub proof fn law_producers_lie_in_their_channel<T>(producer: Producer<T>, shared: Shared<T>)
    requires
        shared.wf(),
        producer.attached(shared),
    ensures
        shared.producers() == shared.forward().rings(),
        shared.forward().wf(),
        0 <= producer.index() < shared.producers(),
        producer.block_limit() == shared.batch(),
        producer.pool() <= shared.forward().link(producer.index()).capacity(),
        forall|c: int|
            0 <= c < shared.row(producer.index()).len() ==> {
                let lane = #[trigger] shared.row(producer.index())[c];
                lane.wf() && producer.pool() <= lane.capacity() && !lane.consumer_gone()
            },
{
    assert forall|c: int| 0 <= c < shared.row(producer.index()).len() implies {
        let lane = #[trigger] shared.row(producer.index())[c];
        lane.wf() && producer.pool() <= lane.capacity() && !lane.consumer_gone()
    } by {
        assert(producer.returns@[c].attached(shared.row(producer.index as int)[c]));
    }
}

/// A consumer of a channel has a return lane of its own to every producer.
pub proof fn law_consumers_lie_in_their_channel<T>(consumer: Consumer<T>, shared: Shared<T>)
    requires
        shared.wf(),
        consumer.attached(shared),
    ensures
        shared.producers() == shared.forward().rings(),
        shared.forward().wf(),
        consumer.forward().wf(),
        consumer.forward().staged() == Seq::<Block<T>>::empty(),
        forall|p: int|
            0 <= p < shared.producers() ==> 0 <= consumer.index() < (#[trigger] shared.row(p)).len(),
{
    assert(consumer.forward().staged() =~= Seq::<Block<T>>::empty());
}

/// A new pool is whole: the blocks of every producer hold exactly the capacity between them, all of
/// them are free, and nothing is queued, held or on its way back.
pub proof fn law_new_pools_are_whole<T>(
    shared: Shared<T>,
    txs: Seq<Producer<T>>,
    rxs: Seq<Consumer<T>>,
    producers: usize,
    consumers: usize,
    capacity: usize,
    batch: usize,
    p: int,
)
    requires
        refused::<T>(producers, consumers, capacity, batch) is None,
        opened(shared, txs, rxs, producers, consumers, capacity, batch),
        0 <= p < producers,
    ensures
        txs.len() == producers,
        rxs.len() == consumers,
        txs[p].index() == p,
        txs[p].free_blocks() * batch == capacity,
        txs[p].pool() == txs[p].free_blocks(),
        shared.live_producers() == producers,
        shared.live_consumers() == consumers,
        shared.forward().link(p).queue().len() == 0,
        shared.held(p) == 0,
        shared.row(p).len() == consumers,
        lane_total(shared.row(p)) == 0,
{
    assert(txs[p].attached(shared));
    assert(shared.forward().link(p).queue() == Seq::<Block<T>>::empty());
    assert(shared.outstanding(p) == 0);
    vstd::arithmetic::div_mod::lemma_fundamental_div_mod(capacity as int, batch as int);
    assert(txs[p].free_blocks() * batch == capacity) by (nonlinear_arith)
        requires
            txs[p].free_blocks() == capacity as int / batch as int,
            capacity as int == batch as int * (capacity as int / batch as int),
    ;
}

/// A reservation takes one block out of what is free or has come back, and none is lost: the pool
/// stays as large as it was.
pub proof fn law_reservations_keep_the_pool<T>(was: Producer<T>, now: Producer<T>, from_lane: bool)
    requires
        reserved(was, now, from_lane),
    ensures
        now.pool() == was.pool(),
        now.writing() == was.writing() + 1,
        now.index() == was.index(),
        now.free_blocks() + now.in_flight() + 1 == was.free_blocks() + was.in_flight(),
        from_lane ==> now.free_blocks() == was.free_blocks(),
        !from_lane ==> now.in_flight() == was.in_flight(),
{
}

/// The blocks on their way back are those in the lanes: there are none exactly where every lane is
/// empty, and one block more or less in a lane is one more or less in all.
pub proof fn law_returned_blocks_are_counted<T>(
    row: Seq<ring::Inner<Block<T>>>,
    c: int,
    lane: ring::Inner<Block<T>>,
)
    requires
        0 <= c < row.len(),
    ensures
        lane_total(row) == 0 <==> forall|d: int|
            0 <= d < row.len() ==> (#[trigger] row[d]).queue().len() == 0,
        lane_total(row.update(c, lane)) - lane_total(row) == lane.queue().len()
            - row[c].queue().len(),
{
    lemma_lane_total_update(row, c, lane);
    if forall|d: int| 0 <= d < row.len() ==> (#[trigger] row[d]).queue().len() == 0 {
        lemma_lane_total_zero(row);
    } else {
        let d = choose|d: int| 0 <= d < row.len() && (#[trigger] row[d]).queue().len() > 0;
        lemma_lane_total_update(row, d, row[d]);
    }
}

/// A look at the return lanes takes the oldest block of one lane that has any, the first from the
/// cursor on, changes no other lane, and starts with the lane after it next time.
pub proof fn law_looks_take_the_oldest_returned_block<T>(
    before: Shared<T>,
    after: Shared<T>,
    was: Producer<T>,
    now: Producer<T>,
)
    requires
        looked(before, after, was, now),
        0 <= was.cursor(),
        before.row(was.index()).len() > 0,
        after.row(was.index()).len() == before.row(was.index()).len(),
    ensures
        ({
            let row = before.row(was.index());
            let left = after.row(was.index());
            let lanes = row.len() as int;
            let waiting = exists|c: int| 0 <= c < lanes && (#[trigger] row[c]).queue().len() > 0;
            &&& waiting ==> exists|c: int|
                {
                    &&& 0 <= c < lanes
                    &&& (#[trigger] row[c]).queue().len() > 0
                    &&& left[c].queue() == row[c].queue().skip(1)
                    &&& now.cursor() % lanes == (c + 1) % lanes
                    &&& forall|d: int|
                        0 <= d < lanes && d != c ==> (#[trigger] left[d]).queue() == row[d].queue()
                }
            &&& !waiting ==> now.cursor() % lanes == was.cursor() % lanes && forall|d: int|
                0 <= d < lanes ==> (#[trigger] left[d]).queue() == row[d].queue()
            &&& row[was.cursor() % lanes].queue().len() > 0 ==> left[was.cursor() % lanes].queue()
                == row[was.cursor() % lanes].queue().skip(1)
        }),
{
    let row = before.row(was.index());
    let left = after.row(was.index());
    let lanes = row.len() as int;
    let start = was.cursor();
    let k = pick_lane(row, start, 0);
    lemma_pick_lane(row, start, 0);
    lemma_next_attempt(start, 0, lanes);
    if k < lanes {
        let c = attempt(start, k, lanes);
        lemma_next_attempt(start, k, lanes);
        assert(row[c].queue().len() > 0);
        assert(left[c].queue() == row[c].queue().skip(1));
    } else {
        assert forall|c: int| 0 <= c < lanes implies (#[trigger] row[c]).queue().len() == 0 by {
            law_rotation_visits_every_slot(start, c, lanes);
            let j = choose|j: int| 0 <= j < lanes && #[trigger] attempt(start, j, lanes) == c;
            assert(row[attempt(start, j, lanes)].queue().len() == 0);
        }
        lemma_whole_rotation(start, lanes);
    }
    assert(attempt(start, 0, lanes) == start % lanes);
}

/// A rotation that has seen every lane stands where it started.
proof fn lemma_whole_rotation(start: int, lanes: int)
    requires
        0 <= start,
        0 < lanes,
    ensures
        cursor_after(start, lanes, lanes) % lanes == start % lanes,
{
    lemma_next_attempt(start, lanes - 1, lanes);
    vstd::arithmetic::div_mod::lemma_mod_add_multiples_vanish(start, lanes);
}

/// Reclaiming leaves nothing behind: all lanes are empty and as large as they were.
pub proof fn law_reclaiming_leaves_nothing_behind<T>(
    before: Seq<ring::Inner<Block<T>>>,
    after: Seq<ring::Inner<Block<T>>>,
    c: int,
)
    requires
        emptied(before, after),
        0 <= c < before.len(),
    ensures
        after.len() == before.len(),
        after[c].queue().len() == 0,
        after[c].capacity() == before[c].capacity(),
{
}

/// Reclaiming takes the lanes in turn: where nothing has come back the next look starts where this
/// one did, and otherwise the lane at hand gives one block, if it has one, and its neighbour is
/// next.
pub proof fn law_reclaiming_takes_turns(loads: Seq<nat>, cursor: int, n: nat)
    requires
        0 <= cursor,
        0 < loads.len(),
    ensures
        ({
            let lanes = loads.len() as int;
            let lane = cursor % lanes;
            &&& swept(loads, cursor, 0) % lanes == lane
            &&& loads[lane] > 0 ==> swept(loads, cursor, n + 1) == swept(
                loads.update(lane, (loads[lane] - 1) as nat),
                lane + 1,
                n,
            )
        }),
{
    let lanes = loads.len() as int;
    lemma_whole_rotation(cursor, lanes);
    lemma_next_attempt(cursor, 0, lanes);
    crate::round_robin::lemma_first_hit(loaded(loads), cursor, 0, lanes);
    assert(attempt(cursor, 0, lanes) == cursor % lanes);
    if loads[cursor % lanes] > 0 {
        assert(loaded(loads)(attempt(cursor, 0, lanes)));
    }
}

/// A shape is refused for its workers exactly where there is no producer, no consumer or no
/// batch, or where the capacity is not a positive number of whole batches. How many consumers
/// or blocks there are does not matter.
pub proof fn law_workers_are_refused_only_where_there_are_none<T>(
    producers: usize,
    consumers: usize,
    capacity: usize,
    batch: usize,
)
    ensures
        refused::<T>(producers, consumers, capacity, batch) == Some(InvalidShape::LeasedWorkers)
            <==> !(producers > 0 && consumers > 0 && batch > 0 && exists|blocks: int|
            blocks > 0 && #[trigger] blocks_of(blocks, batch as int) == capacity),
{
    if batch > 0 {
        let b = batch as int;
        let c = capacity as int;
        vstd::arithmetic::div_mod::lemma_fundamental_div_mod(c, b);
        assert forall|blocks: int| blocks > 0 && #[trigger] blocks_of(blocks, b) == c implies c % b
            == 0 && c >= b by {
            vstd::arithmetic::div_mod::lemma_mod_multiples_basic(blocks, b);
            assert(blocks * b >= b) by (nonlinear_arith)
                requires
                    blocks > 0,
                    b > 0,
            ;
        }
        if c >= b && c % b == 0 {
            let blocks = c / b;
            assert(blocks > 0) by (nonlinear_arith)
                requires
                    b * blocks == c,
                    c >= b,
                    b > 0,
            ;
            assert(blocks * b == b * blocks) by (nonlinear_arith);
            assert(blocks_of(blocks, b) == c);
        }
    }
}

/// The values that so many blocks hold.
pub open spec fn blocks_of(blocks: int, batch: int) -> int {
    blocks * batch
}

/// Every shape opens that has a producer, a consumer and a positive number of whole blocks, as
/// long as the products that size its allocations stay in range: the values of all pools, and
/// the slots of all return lanes, each lane having a power of two that holds a whole pool.
pub proof fn law_shapes_in_range_open<T>(
    producers: usize,
    consumers: usize,
    blocks: usize,
    batch: usize,
    slots: int,
)
    requires
        0 < producers,
        0 < consumers,
        0 < blocks,
        0 < batch,
        blocks * batch <= usize::MAX,
        is_rounded_up(blocks as int, slots),
        producers * (blocks * batch) <= usize::MAX,
        producers * consumers * slots <= usize::MAX,
        vstd::layout::size_of::<T>() * (producers * (blocks * batch)) <= isize::MAX,
        vstd::layout::size_of::<Block<T>>() * (producers * consumers * slots) <= isize::MAX,
        vstd::layout::size_of::<Producer<T>>() * producers <= isize::MAX,
        vstd::layout::size_of::<Consumer<T>>() * consumers <= isize::MAX,
    ensures
        refused::<T>(producers, consumers, (blocks * batch) as usize, batch) is None,
{
    let capacity = (blocks * batch) as usize;
    vstd::arithmetic::div_mod::lemma_mod_multiples_basic(blocks as int, batch as int);
    vstd::arithmetic::div_mod::lemma_div_by_multiple(blocks as int, batch as int);
    assert(blocks * batch >= batch) by (nonlinear_arith)
        requires
            0 < blocks,
    ;
    lemma_next_power(blocks as int, slots);
    let size = vstd::layout::size_of::<T>() as int;
    assert(producers * (blocks * batch) >= batch) by (nonlinear_arith)
        requires
            0 < producers,
            0 < blocks,
            0 < batch,
    ;
    assert(size * batch <= size * (producers * (blocks * batch))) by (nonlinear_arith)
        requires
            producers * (blocks * batch) >= batch,
            0 <= size,
    ;
    assert(producers * consumers * slots >= slots) by (nonlinear_arith)
        requires
            0 < producers,
            0 < consumers,
            0 <= slots,
    ;
    crate::cursor::lemma_largest();
    if blocks > largest_power_of_two() {
        let rounded = slots as usize;
        assert(crate::cursor::power_of_two(rounded as int));
        assert(false);
    }
}

/// A shape that opens still opens with fewer producers or fewer consumers, as long as there is
/// one of each.
pub proof fn law_fewer_workers_open_too<T>(
    producers: usize,
    consumers: usize,
    fewer_producers: usize,
    fewer_consumers: usize,
    capacity: usize,
    batch: usize,
)
    requires
        refused::<T>(producers, consumers, capacity, batch) is None,
        0 < fewer_producers <= producers,
        0 < fewer_consumers <= consumers,
    ensures
        refused::<T>(fewer_producers, fewer_consumers, capacity, batch) is None,
{
    let blocks = capacity as int / batch as int;
    let slots = next_power(blocks);
    assert(blocks >= 1) by (nonlinear_arith)
        requires
            blocks == capacity as int / batch as int,
            capacity >= batch,
            batch > 0,
    ;
    lemma_rounding_exists(blocks);
    let p = producers as int;
    let c = consumers as int;
    let q = fewer_producers as int;
    let d = fewer_consumers as int;
    let size = vstd::layout::size_of::<T>() as int;
    let block = vstd::layout::size_of::<Block<T>>() as int;
    let tx = vstd::layout::size_of::<Producer<T>>() as int;
    let rx = vstd::layout::size_of::<Consumer<T>>() as int;
    assert(q * capacity <= p * capacity) by (nonlinear_arith)
        requires
            q <= p,
    ;
    assert(q * d * slots <= p * c * slots) by (nonlinear_arith)
        requires
            0 < q <= p,
            0 < d <= c,
            0 <= slots,
    ;
    assert(size * (q * capacity) <= size * (p * capacity)) by (nonlinear_arith)
        requires
            0 <= size,
            q * capacity <= p * capacity,
    ;
    assert(block * (q * d * slots) <= block * (p * c * slots)) by (nonlinear_arith)
        requires
            0 <= block,
            q * d * slots <= p * c * slots,
    ;
    assert(tx * q <= tx * p) by (nonlinear_arith)
        requires
            0 <= tx,
            q <= p,
    ;
    assert(rx * d <= rx * c) by (nonlinear_arith)
        requires
            0 <= rx,
            d <= c,
    ;
}

/// Every number up to the largest power of two can be rounded up.
proof fn lemma_rounding_exists(n: int)
    requires
        0 < n <= largest_power_of_two(),
    ensures
        is_rounded_up(n, next_power(n)),
        next_power(n) >= n,
{
    crate::cursor::lemma_rounds_up(n);
    let rounded = choose|rounded: int| is_rounded_up(n, rounded);
    lemma_next_power(n, rounded);
}

/// A shape that is refused for its size is too large: whatever the reason, one of the products
/// that size its allocations is out of range.
pub proof fn law_sizes_are_refused_only_where_they_overflow<T>(
    producers: usize,
    consumers: usize,
    capacity: usize,
    batch: usize,
    slots: int,
)
    requires
        batch > 0,
        is_rounded_up(capacity as int / batch as int, slots),
        refused::<T>(producers, consumers, capacity, batch) is Some,
        refused::<T>(producers, consumers, capacity, batch) != Some(InvalidShape::LeasedWorkers),
    ensures
        match refused::<T>(producers, consumers, capacity, batch) {
            Some(InvalidShape::LeasedDescriptors) => slots > usize::MAX,
            Some(InvalidShape::LeasedPayloads) => producers * capacity > usize::MAX,
            Some(InvalidShape::LeasedReturns) => producers * consumers * slots > usize::MAX,
            Some(InvalidShape::LeasedAllocation) => {
                ||| vstd::layout::size_of::<T>() * batch > isize::MAX
                ||| vstd::layout::size_of::<T>() * (producers * capacity) > isize::MAX
                ||| vstd::layout::size_of::<Block<T>>() * (producers * consumers * slots)
                    > isize::MAX
                ||| vstd::layout::size_of::<Producer<T>>() * producers > isize::MAX
                ||| vstd::layout::size_of::<Consumer<T>>() * consumers > isize::MAX
            },
            _ => false,
        },
{
    lemma_next_power(capacity as int / batch as int, slots);
    crate::cursor::lemma_largest();
    if capacity as int / batch as int > largest_power_of_two() && slots <= usize::MAX {
        assert(crate::cursor::power_of_two((slots as usize) as int));
    }
}

/// Declare a fixed brokerless channel of reusable, leased payload blocks.
pub fn channel<T>() -> (channel: crate::Channel<
    T,
    crate::topology::Mpmc<crate::engine::Claim>,
    crate::backend::Ring,
    crate::execution::Sync,
    crate::wait::SpinYield,
    crate::routing::RoundRobin,
    crate::transport::Local,
    crate::codec::Leased,
>)
    ensures
        channel.shape == crate::Shape::initial(),
        channel.routing.cursor == 0,
{
    super::channel().leased()
}

} // verus!
