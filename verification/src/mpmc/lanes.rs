//! Fixed brokerless MPMC arranged as a producer-by-consumer lane grid.
//!
//! Every lane has one permanent writer and one reader. Consumers therefore drain
//! without a claim; producers route work across their own consumer lanes. The lanes
//! of a consumer that leaves are adopted by the next peer that runs dry, so nothing
//! that was sent is lost while a consumer remains.
use crate::backend::{min, Backend, Batch, Endpoint, Link, Rx, Sink, Tx};
use crate::mpmc::brokerless::{BatchStep, RecvStep, SendStep};
use crate::pause::{counted, pause_after, Backoff, Pause};
use crate::round_robin::{
    self, attempt, first_hit, law_rotation_finds_a_hit, lemma_first_hit, lemma_next_attempt,
    lemma_rested_twice, rested,
};
use vstd::prelude::*;

verus! {

/// The raw lock inside `parking_lot::Mutex`; nothing is claimed of it.
#[verifier::external_type_specification]
#[verifier::external_body]
pub struct ExRawMutex(parking_lot::RawMutex);

/// `lock_api::Mutex`, the type behind `parking_lot::Mutex`; what it guards is named by
/// [`guarded`].
#[verifier::external_type_specification]
#[verifier::external_body]
#[verifier::reject_recursive_types(R)]
#[verifier::reject_recursive_types(T)]
pub struct ExMutex<R, T: ?Sized>(parking_lot::lock_api::Mutex<R, T>);

/// The list that a lock guards.
pub uninterp spec fn guarded(lock: parking_lot::Mutex<Vec<usize>>) -> Seq<usize>;

/// `parking_lot::Mutex::new`: the lock guards the list it is given.
#[verifier::external_body]
fn guard(lanes: Vec<usize>) -> (lock: parking_lot::Mutex<Vec<usize>>)
    ensures
        guarded(lock) == lanes@,
{
    parking_lot::Mutex::new(lanes)
}

/// `parking_lot::Mutex::lock`: under the lock, the guarded list is taken out and
/// `lanes` is left in its place. The lock is free again on return.
#[verifier::external_body]
fn exchange(lock: &mut parking_lot::Mutex<Vec<usize>>, lanes: Vec<usize>) -> (previous: Vec<usize>)
    ensures
        previous@ == guarded(*old(lock)),
        guarded(*final(lock)) == lanes@,
{
    core::mem::replace(&mut *lock.lock(), lanes)
}

/// One lane: its storage and the receiver, which goes with whoever owns the lane.
pub struct Lane<T, B: Backend<T>> {
    link: B::Link,
    rx: B::Rx,
}

/// What all endpoints of the grid share.
pub struct Shared<T, B: Backend<T>> {
    lanes: Vec<Lane<T, B>>,
    live_producers: usize,
    live_consumers: usize,
    abandoned: parking_lot::Mutex<Vec<usize>>,
}

impl<T, B: Backend<T>> Shared<T, B> {
    /// Lanes of the grid.
    pub closed spec fn count(&self) -> nat {
        self.lanes@.len()
    }

    /// The storage of lane `i`.
    pub closed spec fn link(&self, i: int) -> B::Link {
        self.lanes@[i].link
    }

    /// The receiver of lane `i`.
    pub closed spec fn rx(&self, i: int) -> B::Rx {
        self.lanes@[i].rx
    }

    /// Producers still there.
    pub closed spec fn live_producers(&self) -> nat {
        self.live_producers as nat
    }

    /// Consumers still there.
    pub closed spec fn live_consumers(&self) -> nat {
        self.live_consumers as nat
    }

    /// Lanes whose consumer has left and that nobody has adopted yet.
    pub closed spec fn abandoned(&self) -> Seq<usize> {
        guarded(self.abandoned)
    }

    /// The values waiting in each lane.
    pub open spec fn queues(&self) -> Seq<Seq<T>> {
        Seq::new(self.count(), |i: int| self.link(i).queue())
    }

    /// What the receiver of each lane remembers of it.
    pub open spec fn knowledge(&self) -> Seq<int> {
        Seq::new(self.count(), |i: int| self.rx(i).known(self.link(i)))
    }

    /// Every lane is consistent, its receiver knows it, and abandoned lanes exist.
    pub open spec fn wf(&self) -> bool {
        &&& forall|i: int|
            0 <= i < self.count() ==> (#[trigger] self.link(i)).wf() && self.rx(i).attached(
                self.link(i),
            )
        &&& in_range(self.abandoned(), self.count())
    }

    /// Nothing but the values in the lanes may have changed.
    pub open spec fn same_but_queues(&self, before: &Self) -> bool {
        &&& self.count() == before.count()
        &&& self.live_producers() == before.live_producers()
        &&& self.live_consumers() == before.live_consumers()
        &&& forall|i: int|
            0 <= i < self.count() ==> {
                &&& (#[trigger] self.link(i)).bound() == before.link(i).bound()
                &&& self.link(i).producer_gone() == before.link(i).producer_gone()
                &&& self.link(i).consumer_gone() == before.link(i).consumer_gone()
            }
    }

    /// Every producer is as attached as it was.
    pub open spec fn keeps_producers(&self, before: &Self) -> bool {
        forall|p: Producer<T, B>| #[trigger]
            p.attached(*before) ==> p.attached(*self) && p.beliefs(*self) == p.beliefs(*before)
    }

    /// Every producer with other lanes is as attached as it was.
    pub open spec fn keeps_other_producers(&self, before: &Self, mover: Producer<T, B>) -> bool {
        forall|p: Producer<T, B>|
            p.apart(mover) && #[trigger] p.attached(*before) ==> p.attached(*self) && p.beliefs(
                *self,
            ) == p.beliefs(*before)
    }
}

/// Whether all lanes of a list exist.
pub open spec fn in_range(lanes: Seq<usize>, count: nat) -> bool {
    forall|i: int| 0 <= i < lanes.len() ==> #[trigger] lanes[i] < count
}

/// One producer with one private sending lane per consumer.
pub struct Producer<T, B: Backend<T>> {
    /// The first of this producer's lanes; the others follow it.
    base: usize,
    txs: Vec<B::Tx>,
    cursor: usize,
}

/// One consumer with one private receiving lane per producer.
pub struct Consumer<T> {
    lanes: Vec<usize>,
    cursor: usize,
    staging: Batch<T>,
    batch: usize,
}

impl<T, B: Backend<T>> Producer<T, B> {
    /// The first of this producer's lanes.
    pub closed spec fn base(&self) -> int {
        self.base as int
    }

    /// How many lanes this producer has.
    pub closed spec fn fan(&self) -> nat {
        self.txs@.len()
    }

    /// Where the next send starts.
    pub closed spec fn cursor(&self) -> int {
        self.cursor as int
    }

    /// The sender into this producer's `k`-th lane.
    pub closed spec fn tx(&self, k: int) -> B::Tx {
        self.txs@[k]
    }

    /// This producer's lanes exist, and its senders know them.
    pub open spec fn attached(&self, shared: Shared<T, B>) -> bool {
        &&& self.base() + self.fan() <= shared.count()
        &&& forall|k: int|
            0 <= k < self.fan() ==> (#[trigger] self.tx(k)).attached(shared.link(self.base() + k))
    }

    /// How full this producer believes each of its lanes to be.
    pub open spec fn beliefs(&self, shared: Shared<T, B>) -> Seq<int> {
        Seq::new(self.fan(), |k: int| self.tx(k).known(shared.link(self.base() + k)))
    }

    /// What it believes once it has pushed `n` values into its `k`-th lane.
    pub open spec fn believes(&self, shared: Shared<T, B>, k: int, n: int) -> Seq<int> {
        self.beliefs(shared).update(
            k,
            B::Tx::known_after(self.beliefs(shared)[k], shared.link(self.base() + k), n),
        )
    }

    /// Two producers have no lane in common.
    pub open spec fn apart(&self, other: Producer<T, B>) -> bool {
        self.base() + self.fan() <= other.base() || other.base() + other.fan() <= self.base()
    }

    /// Which of this producer's lanes take a value.
    pub open spec fn takes(&self, shared: Shared<T, B>) -> spec_fn(int) -> bool {
        |k: int| shared.link(self.base() + k).accepts()
    }

    /// Some lane of this producer takes a value.
    pub open spec fn any_takes(&self, shared: Shared<T, B>) -> bool {
        exists|k: int| 0 <= k < self.fan() && #[trigger] self.takes(shared)(k)
    }

    /// The first of this producer's lanes, in the order of a send, that takes a value.
    pub open spec fn route(&self, shared: Shared<T, B>) -> int {
        first_hit(self.takes(shared), self.cursor(), 0, self.fan() as int)
    }
}

/// One lane changed as a push changes it; what else holds of the grid is unchanged.
proof fn lemma_pushed<T, B: Backend<T>>(
    before: Shared<T, B>,
    after: Shared<T, B>,
    was: Producer<T, B>,
    is: Producer<T, B>,
    k: int,
)
    requires
        before.wf(),
        was.attached(before),
        0 <= k < was.fan(),
        is.base == was.base,
        is.txs@ == was.txs@.update(k, is.txs@[k]),
        after.lanes@ == before.lanes@.update(was.base + k, after.lanes@[was.base + k]),
        after.live_producers == before.live_producers,
        after.live_consumers == before.live_consumers,
        after.abandoned == before.abandoned,
        after.rx(was.base + k) == before.rx(was.base + k),
        after.link(was.base + k).wf(),
        after.link(was.base + k).bound() == before.link(was.base + k).bound(),
        after.link(was.base + k).producer_gone() == before.link(was.base + k).producer_gone(),
        after.link(was.base + k).consumer_gone() == before.link(was.base + k).consumer_gone(),
        after.rx(was.base + k).attached(after.link(was.base + k)),
        is.tx(k).attached(after.link(was.base + k)),
        after.rx(was.base + k).known(after.link(was.base + k)) == before.rx(was.base + k).known(
            before.link(was.base + k),
        ),
    ensures
        after.wf(),
        after.knowledge() == before.knowledge(),
        is.beliefs(after) == was.beliefs(before).update(
            k,
            is.tx(k).known(after.link(was.base + k)),
        ),
        is.attached(after),
        after.same_but_queues(&before),
        after.keeps_other_producers(&before, was),
        after.queues() == before.queues().update(was.base + k, after.link(was.base + k).queue()),
{
    let id = was.base + k;
    assert forall|i: int| 0 <= i < after.count() implies (#[trigger] after.link(i)).wf() && after.rx(
        i,
    ).attached(after.link(i)) by {
        assert(before.link(i).wf());
    }
    assert forall|j: int| 0 <= j < is.fan() implies (#[trigger] is.tx(j)).attached(
        after.link(is.base() + j),
    ) by {
        if j != k {
            assert(was.tx(j).attached(before.link(was.base() + j)));
        }
    }
    assert(is.beliefs(after) =~= was.beliefs(before).update(k, is.tx(k).known(after.link(id))));
    assert forall|p: Producer<T, B>|
        p.apart(was) && #[trigger] p.attached(before) implies p.attached(after) && p.beliefs(after)
        == p.beliefs(before) by {
        assert forall|j: int| 0 <= j < p.fan() implies (#[trigger] p.tx(j)).attached(
            after.link(p.base() + j),
        ) by {
            assert(p.tx(j).attached(before.link(p.base() + j)));
        }
        assert(p.beliefs(after) =~= p.beliefs(before));
    }
    assert(after.queues() =~= before.queues().update(id, after.link(id).queue()));
    assert(after.knowledge() =~= before.knowledge());
}

impl<T, B: Backend<T>> Producer<T, B> {
    /// Attempt one send without waiting, returning the value when every lane is full.
    pub fn try_send(&mut self, shared: &mut Shared<T, B>, value: T) -> (result: Result<(), T>)
        requires
            old(shared).wf(),
            old(self).attached(*old(shared)),
        ensures
            final(shared).wf(),
            final(self).attached(*final(shared)),
            final(self).base() == old(self).base(),
            final(self).fan() == old(self).fan(),
            final(shared).same_but_queues(old(shared)),
            final(shared).abandoned() == old(shared).abandoned(),
            final(shared).knowledge() == old(shared).knowledge(),
            result is Ok <==> old(self).any_takes(*old(shared)),
            result is Ok ==> {
                let lane = attempt(
                    old(self).cursor(),
                    old(self).route(*old(shared)),
                    old(self).fan() as int,
                );
                let id = old(self).base() + lane;
                &&& final(shared).queues() == old(shared).queues().update(
                    id,
                    old(shared).link(id).queue().push(value),
                )
                &&& final(self).beliefs(*final(shared)) == old(self).believes(*old(shared), lane, 1)
            },
            result matches Err(back) ==> back == value && final(shared).queues() == old(shared).queues() && final(self).beliefs(*final(shared)) == old(self).beliefs(*old(shared)),
            final(self).cursor() == rested(
                old(self).cursor(),
                old(self).route(*old(shared)),
                old(self).fan() as int,
            ),
            final(shared).keeps_other_producers(old(shared), *old(self)),
    {
        let ghost before = *shared;
        let ghost was = *self;
        let ghost start = self.cursor as int;
        let fan: usize = self.txs.len();
        let mut held = value;
        let mut k: usize = 0;
        proof {
            law_rotation_finds_a_hit(was.takes(before), start, fan as int);
            lemma_first_hit(was.takes(before), start, 0, fan as int);
            assert forall|j: int| 0 <= j < fan implies (#[trigger] self.txs@[j]).attached(
                before.link(was.base + j),
            ) && self.txs@[j].known(before.link(was.base + j)) == was.txs@[j].known(
                before.link(was.base + j),
            ) by {
                assert(was.tx(j).attached(before.link(was.base() + j)));
            }
        }
        let total: usize = shared.lanes.len();
        while k < fan
            invariant
                total == before.count(),
                before == *old(shared),
                was == *old(self),
                start == was.cursor,
                before.wf(),
                was.attached(before),
                fan == was.txs@.len(),
                fan == self.txs@.len(),
                k <= fan,
                held == value,
                self.base == was.base,
                shared.live_producers == before.live_producers,
                shared.live_consumers == before.live_consumers,
                shared.abandoned == before.abandoned,
                shared.lanes@ == before.lanes@,
                forall|j: int|
                    0 <= j < fan ==> (#[trigger] self.txs@[j]).attached(before.link(was.base + j))
                        && self.txs@[j].known(before.link(was.base + j)) == was.txs@[j].known(
                        before.link(was.base + j),
                    ),
                was.route(before) == first_hit(was.takes(before), start, k as int, fan as int),
                k == 0 ==> self.cursor == start,
                k > 0 ==> self.cursor == attempt(start, k - 1, fan as int) + 1,
                was.route(before) < fan <==> was.any_takes(before),
            decreases fan - k,
        {
            let lane: usize = round_robin::next(&mut self.cursor, fan);
            let ghost entry = *self;
            proof {
                if k > 0 {
                    lemma_next_attempt(start, k - 1, fan as int);
                }
                assert(lane == attempt(start, k as int, fan as int));
                assert(was.tx(lane as int).attached(before.link(was.base() + lane)));
                assert(before.link(was.base + lane).wf());
                assert(was.takes(before)(lane as int) == before.link(was.base + lane).accepts());
            }
            let id: usize = self.base + lane;
            let record = &mut shared.lanes[id];
            match self.txs[lane].try_push(&mut record.link, held) {
                Ok(()) => {
                    proof {
                        assert(shared.lanes@ =~= before.lanes@.update(
                            id as int,
                            shared.lanes@[id as int],
                        ));
                        assert(self.txs@ =~= entry.txs@.update(
                            lane as int,
                            self.txs@[lane as int],
                        ));
                        assert(entry.attached(before)) by {
                            assert forall|j: int| 0 <= j < entry.fan() implies (
                            #[trigger] entry.tx(j)).attached(before.link(entry.base() + j)) by {
                                assert(entry.txs@[j].attached(before.link(was.base + j)));
                            }
                        }
                        assert(was.route(before) == k);
                        lemma_pushed(before, *shared, entry, *self, lane as int);
                        assert(entry.beliefs(before) =~= was.beliefs(before)) by {
                            assert forall|j: int| 0 <= j < fan implies entry.beliefs(before)[j]
                                == was.beliefs(before)[j] by {
                                assert(entry.txs@[j].known(before.link(was.base + j))
                                    == was.txs@[j].known(before.link(was.base + j)));
                            }
                        }
                        assert forall|p: Producer<T, B>|
                            p.apart(was) && #[trigger] p.attached(before) implies p.attached(
                            *shared,
                        ) && p.beliefs(*shared) == p.beliefs(before) by {
                            assert(p.apart(entry));
                        }
                    }
                    return Ok(());
                },
                Err(back) => {
                    held = back;
                },
            }
            proof {
                assert(shared.lanes@ =~= before.lanes@);
                assert forall|j: int| 0 <= j < fan implies (#[trigger] self.txs@[j]).attached(
                    before.link(was.base + j),
                ) && self.txs@[j].known(before.link(was.base + j)) == was.txs@[j].known(
                    before.link(was.base + j),
                ) by {
                    assert(entry.txs@[j].known(before.link(was.base + j)) == was.txs@[j].known(
                        before.link(was.base + j),
                    ));
                    if j != lane {
                        assert(self.txs@[j] == entry.txs@[j]);
                    }
                }
            }
            k = k + 1;
        }
        proof {
            lemma_same_lanes(before, *shared, *self);
            lemma_first_hit(was.takes(before), start, fan as int, fan as int);
            assert(self.beliefs(*shared) =~= was.beliefs(before)) by {
                assert forall|j: int| 0 <= j < fan implies self.beliefs(*shared)[j] == was.beliefs(
                    before,
                )[j] by {
                    assert(self.txs@[j].known(before.link(was.base + j)) == was.txs@[j].known(
                        before.link(was.base + j),
                    ));
                }
            }
        }
        Err(held)
    }
}

proof fn lemma_same_lanes<T, B: Backend<T>>(
    before: Shared<T, B>,
    after: Shared<T, B>,
    producer: Producer<T, B>,
)
    requires
        before.wf(),
        after.lanes@ == before.lanes@,
        after.live_producers == before.live_producers,
        after.live_consumers == before.live_consumers,
        after.abandoned == before.abandoned,
        producer.base + producer.txs@.len() <= before.count(),
        forall|j: int|
            0 <= j < producer.txs@.len() ==> (#[trigger] producer.txs@[j]).attached(
                before.link(producer.base + j),
            ),
    ensures
        after.wf(),
        producer.attached(after),
        after.same_but_queues(&before),
        after.queues() == before.queues(),
        after.knowledge() == before.knowledge(),
        after.keeps_producers(&before),
{
    assert forall|i: int| 0 <= i < after.count() implies (#[trigger] after.link(i)).wf() && after.rx(
        i,
    ).attached(after.link(i)) by {
        assert(before.link(i).wf());
    }
    assert forall|j: int| 0 <= j < producer.fan() implies (#[trigger] producer.tx(j)).attached(
        after.link(producer.base() + j),
    ) by {
        assert(producer.txs@[j].attached(before.link(producer.base + j)));
    }
    assert(after.queues() =~= before.queues());
    assert(after.knowledge() =~= before.knowledge());
    assert forall|p: Producer<T, B>| #[trigger] p.attached(before) implies p.attached(after)
        && p.beliefs(after) == p.beliefs(before) by {
        assert forall|j: int| 0 <= j < p.fan() implies (#[trigger] p.tx(j)).attached(
            after.link(p.base() + j),
        ) && p.tx(j).known(after.link(p.base() + j)) == p.tx(j).known(before.link(p.base() + j)) by {
            assert(p.tx(j).attached(before.link(p.base() + j)));
        }
        assert(p.beliefs(after) =~= p.beliefs(before));
    }
}


/// A run of values put into one lane.
pub ghost struct Run<T> {
    /// The lane.
    pub lane: int,
    /// The values, in order.
    pub values: Seq<T>,
}

/// The values of all runs, in order.
pub open spec fn all_values<T>(runs: Seq<Run<T>>) -> Seq<T>
    decreases runs.len(),
{
    if runs.len() == 0 {
        Seq::empty()
    } else {
        all_values(runs.drop_last()) + runs.last().values
    }
}

/// The queues after the runs have been put into their lanes.
pub open spec fn delivered<T>(queues: Seq<Seq<T>>, runs: Seq<Run<T>>) -> Seq<Seq<T>>
    decreases runs.len(),
{
    if runs.len() == 0 {
        queues
    } else {
        let run = runs.last();
        let before = delivered(queues, runs.drop_last());
        before.update(run.lane, before[run.lane] + run.values)
    }
}

/// Whether every run goes to one of the lanes from `base` to `end` and is not empty.
pub open spec fn runs_within<T>(runs: Seq<Run<T>>, base: int, end: int) -> bool {
    forall|i: int|
        0 <= i < runs.len() ==> base <= (#[trigger] runs[i]).lane < end && runs[i].values.len() > 0
}

/// What one productive round of a batch does: the first lane, from the cursor on, that takes
/// a value gets as many of `values` as its sender is granted, and the cursor moves past
/// that lane.
pub open spec fn run_pushed<T, B: Backend<T>>(
    was: Producer<T, B>,
    is: Producer<T, B>,
    before: Shared<T, B>,
    after: Shared<T, B>,
    values: Seq<T>,
    run: Run<T>,
) -> bool {
    let fan = was.fan() as int;
    let k = was.route(before);
    let lane = attempt(was.cursor(), k, fan);
    let id = was.base() + lane;
    &&& k < fan
    &&& run.lane == id
    &&& run.values == values.take(was.tx(lane).grant(before.link(id), values.len() as int))
    &&& run.values.len() > 0
    &&& is.base() == was.base()
    &&& is.fan() == was.fan()
    &&& is.cursor() == rested(was.cursor(), k, fan)
    &&& after.queues() == before.queues().update(id, before.link(id).queue() + run.values)
    &&& is.beliefs(after) == was.believes(before, lane, run.values.len() as int)
}

/// Whether the runs are the productive rounds of a batch of `values`, one after the other,
/// and lead from `was` and `before` to `is` and `after`.
pub open spec fn batched<T, B: Backend<T>>(
    runs: Seq<Run<T>>,
    was: Producer<T, B>,
    before: Shared<T, B>,
    values: Seq<T>,
    is: Producer<T, B>,
    after: Shared<T, B>,
) -> bool
    decreases runs.len(),
{
    if runs.len() == 0 {
        is == was && after == before
    } else {
        let earlier = runs.drop_last();
        exists|mid: Producer<T, B>, between: Shared<T, B>|
            batched(earlier, was, before, values, mid, between) && #[trigger] run_pushed(
                mid,
                is,
                between,
                after,
                values.skip(all_values(earlier).len() as int),
                runs.last(),
            )
    }
}

/// Whether a batch came to its end with `source` left over: after the runs, nothing is left,
/// or a whole rotation has found no lane that takes a value.
pub open spec fn batch_ended<T, B: Backend<T>>(
    mid: Producer<T, B>,
    between: Shared<T, B>,
    is: Producer<T, B>,
    after: Shared<T, B>,
    left: Seq<T>,
) -> bool {
    if left.len() == 0 {
        is == mid && after == between
    } else {
        let fan = mid.fan() as int;
        &&& mid.route(between) == fan
        &&& is.cursor() == rested(mid.cursor(), fan, fan)
        &&& after.queues() == between.queues()
        &&& is.beliefs(after) == mid.beliefs(between)
    }
}

impl<T, B: Backend<T>> Producer<T, B> {
    /// One attempt of a blocking send, which waits until a lane accepts the value.
    ///
    /// The value is dropped if every consumer has disconnected.
    pub fn send(&mut self, shared: &mut Shared<T, B>, backoff: &mut Backoff, value: T) -> (step:
        SendStep<T>)
        requires
            old(shared).wf(),
            old(self).attached(*old(shared)),
        ensures
            final(shared).wf(),
            final(self).attached(*final(shared)),
            final(self).base() == old(self).base(),
            final(self).fan() == old(self).fan(),
            final(shared).same_but_queues(old(shared)),
            final(shared).abandoned() == old(shared).abandoned(),
            final(shared).knowledge() == old(shared).knowledge(),
            step is Sent <==> old(self).any_takes(*old(shared)),
            step is Discarded <==> step !is Sent && old(shared).live_consumers() == 0,
            step is Sent ==> {
                let lane = attempt(
                    old(self).cursor(),
                    old(self).route(*old(shared)),
                    old(self).fan() as int,
                );
                let id = old(self).base() + lane;
                &&& final(shared).queues() == old(shared).queues().update(
                    id,
                    old(shared).link(id).queue().push(value),
                )
                &&& final(self).beliefs(*final(shared)) == old(self).believes(*old(shared), lane, 1)
            },
            step !is Sent ==> final(shared).queues() == old(shared).queues() && final(self).beliefs(*final(shared)) == old(self).beliefs(*old(shared)),
            final(self).cursor() == rested(
                old(self).cursor(),
                old(self).route(*old(shared)),
                old(self).fan() as int,
            ),
            step matches SendStep::Wait(back, pause) ==> back == value && pause == pause_after(
                counted(old(backoff).spins) as int,
            ) && final(backoff).spins == if pause == Pause::Yield {
                0
            } else {
                counted(old(backoff).spins)
            },
            step !is Wait ==> *final(backoff) == *old(backoff),
            final(shared).keeps_other_producers(old(shared), *old(self)),
    {
        match self.try_send(shared, value) {
            Ok(()) => SendStep::Sent,
            Err(back) => {
                if shared.live_consumers == 0 {
                    return SendStep::Discarded;
                }
                SendStep::Wait(back, backoff.pause_and_restart())
            },
        }
    }

    /// One rotation over the lanes that stops at the first lane which takes anything.
    fn push_round(&mut self, shared: &mut Shared<T, B>, source: &mut Batch<T>) -> (run: Ghost<Run<T>>)
        requires
            old(shared).wf(),
            old(self).attached(*old(shared)),
            old(source)@.len() > 0,
        ensures
            final(shared).wf(),
            final(self).attached(*final(shared)),
            final(self).base == old(self).base,
            final(self).txs@.len() == old(self).txs@.len(),
            final(shared).same_but_queues(old(shared)),
            final(shared).abandoned() == old(shared).abandoned(),
            final(shared).knowledge() == old(shared).knowledge(),
            final(shared).keeps_other_producers(old(shared), *old(self)),
            final(source)@ == old(source)@.skip(run@.values.len() as int),
            run@.values == old(source)@.take(run@.values.len() as int),
            run@.values.len() <= old(source)@.len(),
            run@.values.len() > 0 ==> {
                &&& old(self).base() <= run@.lane < old(self).base() + old(self).fan()
                &&& final(shared).queues() == old(shared).queues().update(
                    run@.lane,
                    old(shared).queues()[run@.lane] + run@.values,
                )
            },
            run@.values.len() > 0 ==> run_pushed(
                *old(self),
                *final(self),
                *old(shared),
                *final(shared),
                old(source)@,
                run@,
            ),
            run@.values.len() == 0 ==> {
                &&& final(shared).queues() == old(shared).queues()
                &&& final(self).beliefs(*final(shared)) == old(self).beliefs(*old(shared))
                &&& !final(self).any_takes(*final(shared))
                &&& old(self).route(*old(shared)) == old(self).fan()
                &&& final(self).cursor() == rested(
                    old(self).cursor(),
                    old(self).fan() as int,
                    old(self).fan() as int,
                )
            },
    {
        let ghost before = *shared;
        let ghost was = *self;
        let ghost start = self.cursor as int;
        let ghost values = source@;
        let fan: usize = self.txs.len();
        let have: usize = source.len();
        let mut k: usize = 0;
        proof {
            lemma_first_hit(was.takes(before), start, 0, fan as int);
            if fan > 0 {
                round_robin::law_rotation_visits_every_slot(start, 0, fan as int);
            }
            assert forall|j: int| 0 <= j < fan implies (#[trigger] self.txs@[j]).attached(
                before.link(was.base + j),
            ) && self.txs@[j].known(before.link(was.base + j)) == was.txs@[j].known(
                before.link(was.base + j),
            ) by {
                assert(was.tx(j).attached(before.link(was.base() + j)));
            }
        }
        let total: usize = shared.lanes.len();
        while k < fan
            invariant
                total == before.count(),
                before == *old(shared),
                was == *old(self),
                values == old(source)@,
                values.len() == have,
                0 < have,
                source@ == values,
                start == was.cursor,
                before.wf(),
                was.attached(before),
                fan == was.txs@.len(),
                fan == self.txs@.len(),
                k <= fan,
                self.base == was.base,
                shared.live_producers == before.live_producers,
                shared.live_consumers == before.live_consumers,
                shared.abandoned == before.abandoned,
                shared.lanes@ == before.lanes@,
                forall|j: int|
                    0 <= j < fan ==> (#[trigger] self.txs@[j]).attached(before.link(was.base + j))
                        && self.txs@[j].known(before.link(was.base + j)) == was.txs@[j].known(
                        before.link(was.base + j),
                    ),
                forall|j: int|
                    0 <= j < k ==> !before.link(
                        was.base + #[trigger] attempt(start, j, fan as int),
                    ).accepts(),
                was.route(before) == first_hit(was.takes(before), start, k as int, fan as int),
                forall|j: int|
                    k <= j < fan ==> self.txs@[#[trigger] attempt(start, j, fan as int)]
                        == was.txs@[attempt(start, j, fan as int)],
                forall|i: int, j: int|
                    0 <= i < j < fan ==> #[trigger] attempt(start, i, fan as int)
                        != #[trigger] attempt(start, j, fan as int),
                k == 0 ==> self.cursor == start,
                k > 0 ==> self.cursor == attempt(start, k - 1, fan as int) + 1,
            decreases fan - k,
        {
            let lane: usize = round_robin::next(&mut self.cursor, fan);
            let ghost entry = *self;
            let id: usize = self.base + lane;
            proof {
                if k > 0 {
                    lemma_next_attempt(start, k - 1, fan as int);
                }
                assert(lane == attempt(start, k as int, fan as int));
                assert(entry.txs@[lane as int].attached(before.link(was.base + lane)));
                assert(before.link(id as int).wf());
                entry.txs@[lane as int].grant_bounds(before.link(id as int), have as int);
                assert(min(have as int, usize::MAX as int) == have);
                assert(was.takes(before)(lane as int) == before.link(was.base + lane).accepts());
                assert(entry.txs@[attempt(start, k as int, fan as int)] == was.txs@[lane as int]);
            }
            let record = &mut shared.lanes[id];
            let n: usize = self.txs[lane].push_from(&mut record.link, usize::MAX, source);
            if source.len() != have {
                let ghost run = Run { lane: id as int, values: values.take(n as int) };
                proof {
                    assert(shared.lanes@ =~= before.lanes@.update(
                        id as int,
                        shared.lanes@[id as int],
                    ));
                    assert(self.txs@ =~= entry.txs@.update(lane as int, self.txs@[lane as int]));
                    assert(entry.attached(before)) by {
                        assert forall|j: int| 0 <= j < entry.fan() implies (
                        #[trigger] entry.tx(j)).attached(before.link(entry.base() + j)) by {
                            assert(entry.txs@[j].attached(before.link(was.base + j)));
                        }
                    }
                    lemma_pushed(before, *shared, entry, *self, lane as int);
                    assert(entry.beliefs(before) =~= was.beliefs(before)) by {
                        assert forall|j: int| 0 <= j < fan implies entry.beliefs(before)[j]
                            == was.beliefs(before)[j] by {
                            assert(entry.txs@[j].known(before.link(was.base + j))
                                == was.txs@[j].known(before.link(was.base + j)));
                        }
                    }
                    assert forall|p: Producer<T, B>|
                        p.apart(was) && #[trigger] p.attached(before) implies p.attached(
                        *shared,
                    ) && p.beliefs(*shared) == p.beliefs(before) by {
                        assert(p.apart(entry));
                    }
                    assert(before.queues()[id as int] == before.link(id as int).queue());
                    assert(was.route(before) == k);
                    assert(run_pushed(was, *self, before, *shared, values, run));
                }
                return Ghost(run);
            }
            proof {
                assert(n == 0);
                assert(source@ =~= values);
                assert(shared.lanes@ =~= before.lanes@);
                assert forall|j: int| k + 1 <= j < fan implies self.txs@[#[trigger] attempt(
                    start,
                    j,
                    fan as int,
                )] == was.txs@[attempt(start, j, fan as int)] by {
                    assert(attempt(start, k as int, fan as int) != attempt(start, j, fan as int));
                    assert(entry.txs@[attempt(start, j, fan as int)] == was.txs@[attempt(
                        start,
                        j,
                        fan as int,
                    )]);
                    lemma_next_attempt(start, j, fan as int);
                }
                assert forall|j: int| 0 <= j < fan implies (#[trigger] self.txs@[j]).attached(
                    before.link(was.base + j),
                ) && self.txs@[j].known(before.link(was.base + j)) == was.txs@[j].known(
                    before.link(was.base + j),
                ) by {
                    assert(entry.txs@[j].known(before.link(was.base + j)) == was.txs@[j].known(
                        before.link(was.base + j),
                    ));
                    if j != lane {
                        assert(self.txs@[j] == entry.txs@[j]);
                    }
                }
            }
            k = k + 1;
        }
        let ghost nothing = Run { lane: 0, values: Seq::<T>::empty() };
        proof {
            lemma_same_lanes(before, *shared, *self);
            assert(self.beliefs(*shared) =~= was.beliefs(before)) by {
                assert forall|j: int| 0 <= j < fan implies self.beliefs(*shared)[j] == was.beliefs(
                    before,
                )[j] by {
                    assert(self.txs@[j].known(before.link(was.base + j)) == was.txs@[j].known(
                        before.link(was.base + j),
                    ));
                }
            }
            assert(values.skip(0) =~= values);
            assert(values.take(0) =~= Seq::<T>::empty());
            if self.any_takes(*shared) {
                let j = choose|j: int| 0 <= j < self.fan() && #[trigger] self.takes(*shared)(j);
                round_robin::law_rotation_visits_every_slot(start, j, fan as int);
                let a = choose|a: int| 0 <= a < fan && #[trigger] attempt(start, a, fan as int) == j;
                assert(!before.link(was.base + attempt(start, a, fan as int)).accepts());
            }
        }
        Ghost(nothing)
    }

    /// One attempt to publish an owned batch, retaining an unsent suffix if all
    /// consumers disconnect.
    ///
    /// A productive lane receives as much of the remaining prefix as it can accept;
    /// routing then advances. Accepted values are not delivery acknowledgements.
    pub fn send_batch(
        &mut self,
        shared: &mut Shared<T, B>,
        backoff: &mut Backoff,
        source: &mut Batch<T>,
    ) -> (step: BatchStep)
        requires
            old(shared).wf(),
            old(self).attached(*old(shared)),
        ensures
            final(shared).wf(),
            final(self).attached(*final(shared)),
            final(self).base() == old(self).base(),
            final(self).fan() == old(self).fan(),
            final(shared).same_but_queues(old(shared)),
            final(shared).abandoned() == old(shared).abandoned(),
            final(shared).knowledge() == old(shared).knowledge(),
            ({
                let sent = old(source)@.len() - final(source)@.len();
                let spins = if sent > 0 {
                    0
                } else {
                    old(backoff).spins
                };
                let pause = pause_after(counted(spins) as int);
                &&& 0 <= sent
                &&& final(source)@ == old(source)@.skip(sent)
                &&& exists|runs: Seq<Run<T>>, mid: Producer<T, B>, between: Shared<T, B>|
                    {
                        &&& #[trigger] batched(
                            runs,
                            *old(self),
                            *old(shared),
                            old(source)@,
                            mid,
                            between,
                        )
                        &&& batch_ended(mid, between, *final(self), *final(shared), final(source)@)
                        &&& all_values(runs) == old(source)@.take(sent)
                        &&& final(shared).queues() == delivered(old(shared).queues(), runs)
                        &&& runs_within(
                            runs,
                            old(self).base(),
                            old(self).base() + old(self).fan(),
                        )
                    }
                &&& final(source)@.len() > 0 ==> !final(self).any_takes(*final(shared))
                &&& step == (if final(source)@.len() == 0 {
                    BatchStep::Sent
                } else if old(shared).live_consumers() == 0 {
                    BatchStep::Disconnected
                } else {
                    BatchStep::Wait(pause)
                })
                &&& final(backoff).spins == if step is Wait {
                    if pause == Pause::Yield {
                        0
                    } else {
                        counted(spins)
                    }
                } else {
                    spins
                }
            }),
            final(shared).keeps_other_producers(old(shared), *old(self)),
    {
        let ghost before = *shared;
        let ghost was = *self;
        let ghost values = source@;
        let ghost mut runs: Seq<Run<T>> = Seq::empty();
        let ghost mut sent: int = 0;
        proof {
            assert(values.skip(0) =~= values);
            assert(values.take(0) =~= Seq::<T>::empty());
        }
        while !source.is_empty()
            invariant
                before == *old(shared),
                was == *old(self),
                values == old(source)@,
                before.wf(),
                shared.wf(),
                self.attached(*shared),
                was.attached(before),
                self.base == was.base,
                self.txs@.len() == was.txs@.len(),
                shared.same_but_queues(&before),
                shared.abandoned() == before.abandoned(),
                shared.knowledge() == before.knowledge(),
                shared.keeps_other_producers(&before, was),
                0 <= sent <= values.len(),
                source@ == values.skip(sent),
                all_values(runs) == values.take(sent),
                shared.queues() == delivered(before.queues(), runs),
                runs_within(runs, was.base(), was.base() + was.fan()),
                batched(runs, was, before, values, *self, *shared),
                backoff.spins == if sent > 0 {
                    0
                } else {
                    old(backoff).spins
                },
            decreases source@.len(),
        {
            let ghost entry = *shared;
            let ghost mid = *self;
            let have: usize = source.len();
            let run = self.push_round(shared, source);
            proof {
                assert forall|p: Producer<T, B>|
                    p.apart(was) && #[trigger] p.attached(before) implies p.attached(*shared)
                    && p.beliefs(*shared) == p.beliefs(before) by {
                    assert(p.attached(entry));
                    assert(p.apart(mid));
                }
                assert forall|i: int| 0 <= i < shared.count() implies {
                    &&& (#[trigger] shared.link(i)).bound() == before.link(i).bound()
                    &&& shared.link(i).producer_gone() == before.link(i).producer_gone()
                    &&& shared.link(i).consumer_gone() == before.link(i).consumer_gone()
                } by {
                    assert(entry.link(i).bound() == before.link(i).bound());
                }
            }
            if source.len() != have {
                backoff.reset();
                proof {
                    let n = run@.values.len() as int;
                    let longer = runs.push(run@);
                    assert(longer.drop_last() =~= runs);
                    assert(values.take(sent) + values.skip(sent).take(n) =~= values.take(sent + n));
                    assert(values.skip(sent).skip(n) =~= values.skip(sent + n));
                    assert(runs_within(longer, was.base(), was.base() + was.fan())) by {
                        assert forall|i: int| 0 <= i < longer.len() implies was.base() <= (
                        #[trigger] longer[i]).lane < was.base() + was.fan()
                            && longer[i].values.len() > 0 by {
                            if i < runs.len() {
                                assert(longer[i] == runs[i]);
                            }
                        }
                    }
                    assert(batched(longer.drop_last(), was, before, values, mid, entry));
                    assert(all_values(longer.drop_last()).len() == sent);
                    assert(n > 0);
                    assert(longer.last() == run@);
                    assert(run_pushed(
                        mid,
                        *self,
                        entry,
                        *shared,
                        values.skip(all_values(longer.drop_last()).len() as int),
                        longer.last(),
                    ));
                    assert(batched(longer, was, before, values, *self, *shared));
                    runs = longer;
                    sent = sent + n;
                }
                continue;
            }
            proof {
                assert(source@ =~= values.skip(sent));
                assert(all_values(runs) == old(source)@.take(sent));
                assert(batched(runs, was, before, values, mid, entry));
                assert(batch_ended(mid, entry, *self, *shared, source@));
            }
            if shared.live_consumers == 0 {
                return BatchStep::Disconnected;
            }
            return BatchStep::Wait(backoff.pause_and_restart());
        }
        proof {
            assert(all_values(runs) == old(source)@.take(sent));
            assert(batch_ended(*self, *shared, *self, *shared, source@));
        }
        BatchStep::Sent
    }
}


impl<T> Consumer<T> {
    /// The lanes that this consumer reads.
    pub closed spec fn lanes(&self) -> Seq<usize> {
        self.lanes@
    }

    /// Where the next look at the lanes starts.
    pub closed spec fn cursor(&self) -> int {
        self.cursor as int
    }

    /// Values drained from a lane and not yet returned.
    pub closed spec fn staged(&self) -> Seq<T> {
        self.staging@
    }

    /// Values drained per refill at most.
    pub closed spec fn batch(&self) -> nat {
        self.batch as nat
    }

    /// This consumer's lanes exist.
    pub open spec fn attached(&self, count: nat) -> bool {
        in_range(self.lanes(), count) && self.batch() > 0
    }
}

impl<T, B: Backend<T>> Shared<T, B> {
    /// Which lanes of a list have values.
    pub open spec fn filled(&self, lanes: Seq<usize>) -> spec_fn(int) -> bool {
        |i: int| self.link(lanes[i] as int).queue().len() > 0
    }

    /// Some lane of a list has a value.
    pub open spec fn any_filled(&self, lanes: Seq<usize>) -> bool {
        exists|i: int| 0 <= i < lanes.len() && #[trigger] self.filled(lanes)(i)
    }

    /// What one look over a list of lanes, with room for `max` values, takes: the
    /// values, and the queues it leaves. The first lane that has any gives them.
    pub open spec fn looked(&self, lanes: Seq<usize>, start: int, max: int) -> (Seq<T>, Seq<Seq<T>>) {
        let k = first_hit(self.filled(lanes), start, 0, lanes.len() as int);
        if k >= lanes.len() {
            (Seq::empty(), self.queues())
        } else {
            let id = lanes[attempt(start, k, lanes.len() as int)] as int;
            let n = min(self.rx(id).ready(self.link(id)), max);
            (self.link(id).queue().take(n), self.queues().update(id, self.link(id).queue().skip(n)))
        }
    }

    /// What the receivers remember after such a look.
    pub open spec fn remembered(&self, lanes: Seq<usize>, start: int, max: int) -> Seq<int> {
        let k = first_hit(self.filled(lanes), start, 0, lanes.len() as int);
        if k >= lanes.len() {
            self.knowledge()
        } else {
            let id = lanes[attempt(start, k, lanes.len() as int)] as int;
            let ready = self.rx(id).ready(self.link(id));
            self.knowledge().update(id, B::Rx::kept(ready, min(ready, max)))
        }
    }
}

/// What a consumer that has nothing staged gathers, with room for `max` values: it
/// looks over its own lanes and, where those are empty, adopts every abandoned lane
/// and looks again.
pub ghost struct Gathered<T> {
    /// The values, in order.
    pub values: Seq<T>,
    /// The queues that are left.
    pub queues: Seq<Seq<T>>,
    /// The consumer's lanes from now on.
    pub lanes: Seq<usize>,
    /// The lanes that are still abandoned.
    pub abandoned: Seq<usize>,
    /// Where the next look starts.
    pub cursor: int,
    /// What the receivers of the lanes remember from now on.
    pub knowledge: Seq<int>,
}

/// See [`Gathered`].
pub open spec fn gather<T, B: Backend<T>>(
    shared: Shared<T, B>,
    lanes: Seq<usize>,
    start: int,
    max: int,
) -> Gathered<T> {
    let own = shared.looked(lanes, start, max);
    let n = lanes.len() as int;
    if shared.any_filled(lanes) || shared.abandoned().len() == 0 {
        Gathered {
            values: own.0,
            queues: own.1,
            lanes,
            abandoned: shared.abandoned(),
            cursor: rested(start, first_hit(shared.filled(lanes), start, 0, n), n),
            knowledge: shared.remembered(lanes, start, max),
        }
    } else {
        let all = lanes + shared.abandoned();
        let resumed = rested(start, n, n);
        let adopted = shared.looked(all, resumed, max);
        let k = first_hit(shared.filled(all), resumed, 0, all.len() as int);
        Gathered {
            values: adopted.0,
            queues: adopted.1,
            lanes: all,
            abandoned: Seq::empty(),
            cursor: rested(resumed, k, all.len() as int),
            knowledge: shared.remembered(all, resumed, max),
        }
    }
}

/// Whether a consumer with these lanes can get at any value: in its own lanes or in
/// abandoned ones.
pub open spec fn reachable<T, B: Backend<T>>(shared: Shared<T, B>, lanes: Seq<usize>) -> bool {
    shared.any_filled(lanes) || shared.any_filled(shared.abandoned())
}

impl<T> Consumer<T> {
    /// One look over the lanes: take up to `max` values from the first that has any.
    fn look<B: Backend<T>, S: Sink<T>>(
        lanes: &Vec<usize>,
        cursor: &mut usize,
        shared: &mut Shared<T, B>,
        max: usize,
        out: &mut S,
    ) -> (got: usize)
        requires
            old(shared).wf(),
            in_range(lanes@, old(shared).count()),
            0 < max,
        ensures
            final(shared).wf(),
            final(shared).same_but_queues(old(shared)),
            final(shared).abandoned() == old(shared).abandoned(),
            ({
                let (values, queues) = old(shared).looked(lanes@, *old(cursor) as int, max as int);
                &&& got == values.len()
                &&& final(out).seen() == old(out).seen() + values
                &&& final(shared).queues() == queues
            }),
            final(shared).knowledge() == old(shared).remembered(
                lanes@,
                *old(cursor) as int,
                max as int,
            ),
            got <= max,
            got > 0 <==> old(shared).any_filled(lanes@),
            got == 0 ==> forall|i: int|
                0 <= i < old(shared).count() ==> (#[trigger] final(shared).rx(i)).ready(
                    final(shared).link(i),
                ) == old(shared).rx(i).ready(old(shared).link(i)),
            *final(cursor) == rested(
                *old(cursor) as int,
                first_hit(
                    old(shared).filled(lanes@),
                    *old(cursor) as int,
                    0,
                    lanes@.len() as int,
                ),
                lanes@.len() as int,
            ),
            final(shared).keeps_producers(old(shared)),
    {
        let ghost before = *shared;
        let ghost start = *cursor as int;
        let ghost seen = out.seen();
        let n: usize = lanes.len();
        let ghost hit = before.filled(lanes@);
        let mut k: usize = 0;
        proof {
            law_rotation_finds_a_hit(hit, start, n as int);
            lemma_first_hit(hit, start, 0, n as int);
        }
        while k < n
            invariant
                before == *old(shared),
                start == *old(cursor),
                seen == old(out).seen(),
                hit == before.filled(lanes@),
                n == lanes@.len(),
                k <= n,
                0 < max,
                before.wf(),
                shared.wf(),
                in_range(lanes@, before.count()),
                shared.same_but_queues(&before),
                shared.abandoned() == before.abandoned(),
                shared.queues() == before.queues(),
                shared.knowledge() == before.knowledge(),
                out.seen() == seen,
                shared.keeps_producers(&before),
                first_hit(hit, start, 0, n as int) == first_hit(hit, start, k as int, n as int),
                first_hit(hit, start, 0, n as int) < n <==> before.any_filled(lanes@),
                k == 0 ==> *cursor == start,
                k > 0 ==> *cursor == attempt(start, k - 1, n as int) + 1,
                forall|i: int|
                    0 <= i < before.count() ==> (#[trigger] shared.rx(i)).ready(shared.link(i))
                        == before.rx(i).ready(before.link(i)),
            decreases n - k,
        {
            let at: usize = round_robin::next(cursor, n);
            let ghost entry = *shared;
            let id: usize = lanes[at];
            proof {
                if k > 0 {
                    lemma_next_attempt(start, k - 1, n as int);
                }
                assert(at == attempt(start, k as int, n as int));
                assert(lanes@[at as int] < before.count());
                assert(entry.link(id as int).wf());
                assert(entry.queues()[id as int] == before.queues()[id as int]);
                assert(hit(at as int) == (before.link(id as int).queue().len() > 0));
                entry.rx(id as int).ready_bounds(entry.link(id as int));
                assert(entry.rx(id as int).ready(entry.link(id as int)) == before.rx(
                    id as int,
                ).ready(before.link(id as int)));
            }
            let lane = &mut shared.lanes[id];
            let got: usize = lane.rx.drain_in_place(&mut lane.link, max, out);
            proof {
                lemma_drained(entry, *shared, id as int);
                assert forall|p: Producer<T, B>| #[trigger] p.attached(before) implies p.attached(
                    *shared,
                ) && p.beliefs(*shared) == p.beliefs(before) by {
                    assert(p.attached(entry));
                }
                assert forall|i: int| 0 <= i < shared.count() implies {
                    &&& (#[trigger] shared.link(i)).bound() == before.link(i).bound()
                    &&& shared.link(i).producer_gone() == before.link(i).producer_gone()
                    &&& shared.link(i).consumer_gone() == before.link(i).consumer_gone()
                } by {
                    assert(entry.link(i).bound() == before.link(i).bound());
                }
            }
            if got > 0 {
                proof {
                    assert(shared.queues() =~= before.queues().update(
                        id as int,
                        before.link(id as int).queue().skip(got as int),
                    ));
                    assert(shared.knowledge() =~= before.remembered(lanes@, start, max as int));
                }
                return got;
            }
            proof {
                assert(out.seen() =~= seen);
                assert(entry.link(id as int).queue().skip(0) =~= entry.link(id as int).queue());
                assert(shared.queues() =~= before.queues());
                assert(shared.queues()[id as int] == before.queues()[id as int]);
                assert(shared.link(id as int).wf());
                shared.rx(id as int).ready_bounds(shared.link(id as int));
                assert(shared.knowledge() =~= entry.knowledge());
                assert forall|i: int| 0 <= i < before.count() implies (
                #[trigger] shared.rx(i)).ready(shared.link(i)) == before.rx(i).ready(
                    before.link(i),
                ) by {
                    assert(entry.rx(i).ready(entry.link(i)) == before.rx(i).ready(before.link(i)));
                }
            }
            k = k + 1;
        }
        proof {
            assert(out.seen() =~= seen + Seq::<T>::empty());
        }
        0
    }
}

/// One lane was drained; what else holds of the grid is unchanged.
proof fn lemma_drained<T, B: Backend<T>>(before: Shared<T, B>, after: Shared<T, B>, id: int)
    requires
        before.wf(),
        0 <= id < before.count(),
        after.lanes@ == before.lanes@.update(id, after.lanes@[id]),
        after.live_producers == before.live_producers,
        after.live_consumers == before.live_consumers,
        after.abandoned == before.abandoned,
        after.link(id).wf(),
        after.rx(id).attached(after.link(id)),
        after.link(id).bound() == before.link(id).bound(),
        after.link(id).producer_gone() == before.link(id).producer_gone(),
        after.link(id).consumer_gone() == before.link(id).consumer_gone(),
        forall|tx: B::Tx| #[trigger]
            tx.attached(before.link(id)) ==> tx.attached(after.link(id)) && tx.known(after.link(id))
                == tx.known(before.link(id)),
    ensures
        after.wf(),
        after.same_but_queues(&before),
        after.keeps_producers(&before),
        after.queues() == before.queues().update(id, after.link(id).queue()),
        after.knowledge() == before.knowledge().update(id, after.rx(id).known(after.link(id))),
{
    assert(after.knowledge() =~= before.knowledge().update(id, after.rx(id).known(after.link(id))));
    assert forall|i: int| 0 <= i < after.count() implies (#[trigger] after.link(i)).wf() && after.rx(
        i,
    ).attached(after.link(i)) by {
        assert(before.link(i).wf());
    }
    assert forall|p: Producer<T, B>| #[trigger] p.attached(before) implies p.attached(after)
        && p.beliefs(after) == p.beliefs(before) by {
        assert forall|j: int| 0 <= j < p.fan() implies (#[trigger] p.tx(j)).attached(
            after.link(p.base() + j),
        ) && p.tx(j).known(after.link(p.base() + j)) == p.tx(j).known(before.link(p.base() + j)) by {
            assert(p.tx(j).attached(before.link(p.base() + j)));
        }
        assert(p.beliefs(after) =~= p.beliefs(before));
    }
    assert(after.queues() =~= before.queues().update(id, after.link(id).queue()));
}


/// What a look takes depends on what the lanes hold and show, and on nothing else.
proof fn lemma_same_look<T, B: Backend<T>>(
    a: Shared<T, B>,
    b: Shared<T, B>,
    lanes: Seq<usize>,
    start: int,
    max: int,
)
    requires
        0 <= start,
        a.count() == b.count(),
        a.queues() == b.queues(),
        a.knowledge() == b.knowledge(),
        in_range(lanes, a.count()),
        forall|i: int|
            0 <= i < a.count() ==> (#[trigger] b.rx(i)).ready(b.link(i)) == a.rx(i).ready(
                a.link(i),
            ),
    ensures
        a.looked(lanes, start, max) == b.looked(lanes, start, max),
        a.remembered(lanes, start, max) == b.remembered(lanes, start, max),
        a.any_filled(lanes) == b.any_filled(lanes),
        first_hit(a.filled(lanes), start, 0, lanes.len() as int) == first_hit(
            b.filled(lanes),
            start,
            0,
            lanes.len() as int,
        ),
{
    let n = lanes.len() as int;
    assert forall|i: int| 0 <= i < n implies #[trigger] a.filled(lanes)(i) == b.filled(lanes)(
        i,
    ) by {
        assert(lanes[i] < a.count());
        assert(a.queues()[lanes[i] as int] == b.queues()[lanes[i] as int]);
    }
    round_robin::lemma_same_hits(a.filled(lanes), b.filled(lanes), start, 0, n);
    law_rotation_finds_a_hit(a.filled(lanes), start, n);
    law_rotation_finds_a_hit(b.filled(lanes), start, n);
    lemma_first_hit(a.filled(lanes), start, 0, n);
    let k = first_hit(a.filled(lanes), start, 0, n);
    if k < n {
        let id = lanes[attempt(start, k, n)] as int;
        assert(lanes[attempt(start, k, n)] < a.count());
        assert(a.queues()[id] == b.queues()[id]);
        assert(b.rx(id).ready(b.link(id)) == a.rx(id).ready(a.link(id)));
    }
}

impl<T> Consumer<T> {
    /// Take over every abandoned lane.
    fn adopt_abandoned<B: Backend<T>>(lanes: &mut Vec<usize>, shared: &mut Shared<T, B>) -> (adopted:
        bool)
        requires
            old(shared).wf(),
            in_range(old(lanes)@, old(shared).count()),
        ensures
            final(shared).wf(),
            adopted <==> old(shared).abandoned().len() > 0,
            final(shared).abandoned() == Seq::<usize>::empty(),
            final(lanes)@ == old(lanes)@ + old(shared).abandoned(),
            in_range(final(lanes)@, old(shared).count()),
            final(shared).same_but_queues(old(shared)),
            final(shared).queues() == old(shared).queues(),
            final(shared).knowledge() == old(shared).knowledge(),
            forall|i: int|
                0 <= i < old(shared).count() ==> #[trigger] final(shared).rx(i) == old(shared).rx(i)
                    && final(shared).link(i) == old(shared).link(i),
            final(shared).keeps_producers(old(shared)),
    {
        let ghost before = *shared;
        let ghost own = lanes@;
        let mut found: Vec<usize> = exchange(&mut shared.abandoned, Vec::new());
        proof {
            assert(shared.queues() =~= before.queues());
            assert(shared.knowledge() =~= before.knowledge());
            assert forall|i: int| 0 <= i < shared.count() implies (#[trigger] shared.link(i)).wf()
                && shared.rx(i).attached(shared.link(i)) by {
                assert(before.link(i).wf());
            }
            assert forall|p: Producer<T, B>| #[trigger] p.attached(before) implies p.attached(
                *shared,
            ) && p.beliefs(*shared) == p.beliefs(before) by {
                assert forall|j: int| 0 <= j < p.fan() implies (#[trigger] p.tx(j)).attached(
                    shared.link(p.base() + j),
                ) by {
                    assert(p.tx(j).attached(before.link(p.base() + j)));
                }
                assert(p.beliefs(*shared) =~= p.beliefs(before));
            }
            let all = own + before.abandoned();
            assert forall|i: int| 0 <= i < all.len() implies #[trigger] all[i] < before.count() by {
                if i < own.len() {
                    assert(all[i] == own[i]);
                } else {
                    assert(all[i] == before.abandoned()[i - own.len()]);
                }
            }
        }
        if found.len() == 0 {
            assert(own + before.abandoned() =~= own);
            return false;
        }
        lanes.append(&mut found);
        assert(lanes@ =~= own + before.abandoned());
        true
    }

    /// Look over the own lanes and, where they are empty, over abandoned ones too.
    fn collect<B: Backend<T>, S: Sink<T>>(
        lanes: &mut Vec<usize>,
        cursor: &mut usize,
        shared: &mut Shared<T, B>,
        max: usize,
        out: &mut S,
    ) -> (got: usize)
        requires
            old(shared).wf(),
            in_range(old(lanes)@, old(shared).count()),
            0 < max,
        ensures
            final(shared).wf(),
            in_range(final(lanes)@, final(shared).count()),
            final(shared).same_but_queues(old(shared)),
            ({
                let g = gather(*old(shared), old(lanes)@, *old(cursor) as int, max as int);
                &&& got == g.values.len()
                &&& final(out).seen() == old(out).seen() + g.values
                &&& final(shared).queues() == g.queues
                &&& final(lanes)@ == g.lanes
                &&& final(shared).abandoned() == g.abandoned
                &&& *final(cursor) == g.cursor
                &&& final(shared).knowledge() == g.knowledge
            }),
            got <= max,
            got > 0 <==> reachable(*old(shared), old(lanes)@),
            final(shared).keeps_producers(old(shared)),
    {
        let ghost before = *shared;
        let ghost own = lanes@;
        let ghost start = *cursor as int;
        let ghost seen = out.seen();
        proof {
            law_rotation_finds_a_hit(before.filled(own), start, own.len() as int);
            lemma_first_hit(before.filled(own), start, 0, own.len() as int);
        }
        let got: usize = Self::look(lanes, cursor, shared, max, out);
        if got > 0 {
            return got;
        }
        let ghost dry = *shared;
        let ghost resumed = *cursor as int;
        proof {
            assert(out.seen() =~= seen);
            assert(dry.queues() == before.queues());
            round_robin::lemma_rested_twice(start, own.len() as int);
        }
        if !Self::adopt_abandoned(lanes, shared) {
            proof {
                assert(before.looked(own, start, max as int).0 =~= Seq::<T>::empty());
                assert(!before.any_filled(before.abandoned()));
                lemma_kept_twice(before, dry, *shared);
                assert(lanes@ =~= own);
            }
            return 0;
        }
        let ghost adopted = *shared;
        proof {
            assert forall|i: int| 0 <= i < before.count() implies (#[trigger] adopted.rx(i)).ready(
                adopted.link(i),
            ) == before.rx(i).ready(before.link(i)) by {
                assert(adopted.rx(i) == dry.rx(i));
                assert(dry.rx(i).ready(dry.link(i)) == before.rx(i).ready(before.link(i)));
            }
            lemma_same_look(before, adopted, lanes@, resumed, max as int);
            lemma_kept_twice(before, dry, adopted);
            lemma_any_filled_split(before, own, before.abandoned());
        }
        let more: usize = Self::look(lanes, cursor, shared, max, out);
        proof {
            lemma_kept_twice(before, adopted, *shared);
        }
        more
    }
}

proof fn lemma_kept_twice<T, B: Backend<T>>(a: Shared<T, B>, b: Shared<T, B>, c: Shared<T, B>)
    requires
        b.same_but_queues(&a),
        c.same_but_queues(&b),
        b.keeps_producers(&a),
        c.keeps_producers(&b),
    ensures
        c.same_but_queues(&a),
        c.keeps_producers(&a),
{
    assert forall|i: int| 0 <= i < c.count() implies {
        &&& (#[trigger] c.link(i)).bound() == a.link(i).bound()
        &&& c.link(i).producer_gone() == a.link(i).producer_gone()
        &&& c.link(i).consumer_gone() == a.link(i).consumer_gone()
    } by {
        assert(b.link(i).bound() == a.link(i).bound());
    }
    assert forall|p: Producer<T, B>| #[trigger] p.attached(a) implies p.attached(c) && p.beliefs(c)
        == p.beliefs(a) by {
        assert(p.attached(b));
    }
}

proof fn lemma_any_filled_split<T, B: Backend<T>>(
    shared: Shared<T, B>,
    own: Seq<usize>,
    other: Seq<usize>,
)
    ensures
        shared.any_filled(own + other) <==> shared.any_filled(own) || shared.any_filled(other),
{
    let all = own + other;
    if shared.any_filled(all) {
        let i = choose|i: int| 0 <= i < all.len() && #[trigger] shared.filled(all)(i);
        if i < own.len() {
            assert(shared.filled(own)(i));
        } else {
            assert(shared.filled(other)(i - own.len()));
        }
    }
    if shared.any_filled(own) {
        let i = choose|i: int| 0 <= i < own.len() && #[trigger] shared.filled(own)(i);
        assert(shared.filled(all)(i));
    }
    if shared.any_filled(other) {
        let i = choose|i: int| 0 <= i < other.len() && #[trigger] shared.filled(other)(i);
        assert(all[i + own.len()] == other[i]);
        assert(shared.filled(all)(i + own.len()));
    }
}


/// What gathering leaves of the shared part and of the consumer.
pub open spec fn gather_effect<T, B: Backend<T>>(
    before: Shared<T, B>,
    after: Shared<T, B>,
    was: Consumer<T>,
    is: Consumer<T>,
    max: int,
) -> bool {
    let g = gather(before, was.lanes(), was.cursor(), max);
    &&& after.queues() == g.queues
    &&& after.abandoned() == g.abandoned
    &&& after.knowledge() == g.knowledge
    &&& is.lanes() == g.lanes
    &&& is.cursor() == g.cursor
    &&& is.batch() == was.batch()
}

/// The consumer is as it was, but for what it has staged.
pub open spec fn same_but_staged<T>(was: Consumer<T>, is: Consumer<T>) -> bool {
    &&& is.lanes() == was.lanes()
    &&& is.cursor() == was.cursor()
    &&& is.batch() == was.batch()
}

impl<T> Consumer<T> {
    /// Set the maximum number of values drained from one producer lane per refill.
    pub fn set_batch(&mut self, batch: usize)
        ensures
            final(self).batch() == if batch == 0 {
                1
            } else {
                batch as nat
            },
            final(self).staged() == old(self).staged(),
            final(self).lanes() == old(self).lanes(),
            final(self).cursor() == old(self).cursor(),
    {
        self.batch = if batch < 1 {
            1
        } else {
            batch
        };
    }

    /// Replace what is staged by what can be gathered.
    fn refill<B: Backend<T>>(&mut self, shared: &mut Shared<T, B>)
        requires
            old(shared).wf(),
            old(self).attached(old(shared).count()),
        ensures
            final(shared).wf(),
            final(self).attached(final(shared).count()),
            final(shared).same_but_queues(old(shared)),
            gather_effect(
                *old(shared),
                *final(shared),
                *old(self),
                *final(self),
                old(self).batch() as int,
            ),
            final(self).staged() == gather(
                *old(shared),
                old(self).lanes(),
                old(self).cursor(),
                old(self).batch() as int,
            ).values,
            final(self).staged().len() > 0 <==> reachable(*old(shared), old(self).lanes()),
            final(shared).keeps_producers(old(shared)),
    {
        self.staging.clear();
        let max: usize = self.batch;
        let ghost g = gather(*shared, self.lanes(), self.cursor(), max as int);
        let got: usize = Self::collect(
            &mut self.lanes,
            &mut self.cursor,
            shared,
            max,
            &mut self.staging,
        );
        assert(Seq::<T>::empty() + g.values =~= g.values);
    }

    /// Attempt to receive one value without waiting.
    pub fn try_recv<B: Backend<T>>(&mut self, shared: &mut Shared<T, B>) -> (value: Option<T>)
        requires
            old(shared).wf(),
            old(self).attached(old(shared).count()),
        ensures
            final(shared).wf(),
            final(self).attached(final(shared).count()),
            final(shared).same_but_queues(old(shared)),
            value is Some <==> old(self).staged().len() > 0 || reachable(
                *old(shared),
                old(self).lanes(),
            ),
            old(self).staged().len() > 0 ==> {
                &&& value == Some(old(self).staged()[0])
                &&& final(self).staged() == old(self).staged().skip(1)
                &&& *final(shared) == *old(shared)
                &&& same_but_staged(*old(self), *final(self))
            },
            old(self).staged().len() == 0 ==> {
                let values = gather(
                    *old(shared),
                    old(self).lanes(),
                    old(self).cursor(),
                    old(self).batch() as int,
                ).values;
                &&& value matches Some(v) ==> v == values[0] && final(self).staged()
                    == values.skip(1)
                &&& value is None ==> final(self).staged() == Seq::<T>::empty()
                &&& gather_effect(
                    *old(shared),
                    *final(shared),
                    *old(self),
                    *final(self),
                    old(self).batch() as int,
                )
            },
            final(shared).keeps_producers(old(shared)),
    {
        if let Some(value) = self.staging.pop_front() {
            return Some(value);
        }
        self.refill(shared);
        let value = self.staging.pop_front();
        assert(value is None ==> self.staging@ =~= Seq::<T>::empty());
        value
    }

    /// Drain one owned batch without retaining a lane between calls.
    pub fn try_recv_batch<B: Backend<T>>(
        &mut self,
        shared: &mut Shared<T, B>,
        out: &mut Batch<T>,
    ) -> (n: usize)
        requires
            old(shared).wf(),
            old(self).attached(old(shared).count()),
        ensures
            final(shared).wf(),
            final(self).attached(final(shared).count()),
            final(shared).same_but_queues(old(shared)),
            n == final(out)@.len(),
            n > 0 <==> old(self).staged().len() > 0 || reachable(
                *old(shared),
                old(self).lanes(),
            ),
            final(self).staged() == Seq::<T>::empty(),
            old(self).staged().len() > 0 ==> {
                &&& final(out)@ == old(self).staged()
                &&& *final(shared) == *old(shared)
                &&& same_but_staged(*old(self), *final(self))
            },
            old(self).staged().len() == 0 ==> {
                &&& final(out)@ == gather(
                    *old(shared),
                    old(self).lanes(),
                    old(self).cursor(),
                    old(self).batch() as int,
                ).values
                &&& gather_effect(
                    *old(shared),
                    *final(shared),
                    *old(self),
                    *final(self),
                    old(self).batch() as int,
                )
            },
            final(shared).keeps_producers(old(shared)),
    {
        out.clear();
        if self.staging.is_empty() {
            assert(self.staging@ =~= Seq::<T>::empty());
            core::mem::swap(&mut self.staging, out);
            self.refill(shared);
        }
        core::mem::swap(&mut self.staging, out);
        out.len()
    }

    /// True once every producer endpoint has left.
    pub fn is_disconnected<B: Backend<T>>(&self, shared: &Shared<T, B>) -> (gone: bool)
        ensures
            gone == (shared.live_producers() == 0),
    {
        shared.live_producers == 0
    }
}

/// Gathering again right after nothing could be reached reaches nothing and changes
/// nothing.
proof fn lemma_still_dry<T, B: Backend<T>>(
    before: Shared<T, B>,
    between: Shared<T, B>,
    was: Consumer<T>,
    is: Consumer<T>,
    max: int,
)
    requires
        before.wf(),
        was.attached(before.count()),
        0 <= was.cursor(),
        gather_effect(before, between, was, is, max),
        between.count() == before.count(),
        between.queues() == before.queues(),
        !reachable(before, was.lanes()),
    ensures
        !reachable(between, is.lanes()),
        between.abandoned() == Seq::<usize>::empty(),
        0 <= is.cursor(),
        gather(between, is.lanes(), is.cursor(), max).lanes == is.lanes(),
        gather(between, is.lanes(), is.cursor(), max).cursor == is.cursor(),
        gather(between, is.lanes(), is.cursor(), max).queues == between.queues(),
        gather(between, is.lanes(), is.cursor(), max).abandoned == between.abandoned(),
        gather(between, is.lanes(), is.cursor(), max).knowledge == between.knowledge(),
{
    let own = was.lanes();
    let all = is.lanes();
    let n = own.len() as int;
    let start = was.cursor();
    assert forall|i: int| 0 <= i < all.len() implies !(#[trigger] between.filled(all)(i)) by {
        let id = all[i] as int;
        if i < own.len() {
            assert(!before.filled(own)(i));
            assert(own[i] < before.count());
        } else {
            assert(all[i] == before.abandoned()[i - own.len()]);
            assert(!before.filled(before.abandoned())(i - own.len()));
            assert(before.abandoned()[i - own.len()] < before.count());
        }
        assert(between.queues()[id] == before.queues()[id]);
    }
    assert(between.abandoned() =~= Seq::<usize>::empty());
    assert(!between.any_filled(between.abandoned()));
    law_rotation_finds_a_hit(before.filled(own), start, n);
    lemma_first_hit(before.filled(own), start, 0, n);
    round_robin::lemma_rested_twice(start, n);
    let m = all.len() as int;
    if before.abandoned().len() > 0 {
        let resumed = rested(start, n, n);
        assert(!before.any_filled(all)) by {
            lemma_any_filled_split(before, own, before.abandoned());
        }
        law_rotation_finds_a_hit(before.filled(all), resumed, m);
        lemma_first_hit(before.filled(all), resumed, 0, m);
        round_robin::lemma_rested_twice(resumed, m);
    }
    law_rotation_finds_a_hit(between.filled(all), is.cursor(), m);
    lemma_first_hit(between.filled(all), is.cursor(), 0, m);
}


impl<T> Consumer<T> {
    /// One attempt to receive, until all producers have disconnected and this
    /// consumer is drained.
    pub fn recv<B: Backend<T>>(&mut self, shared: &mut Shared<T, B>, backoff: &mut Backoff) -> (step:
        RecvStep<T>)
        requires
            old(shared).wf(),
            old(self).attached(old(shared).count()),
        ensures
            final(shared).wf(),
            final(self).attached(final(shared).count()),
            final(shared).same_but_queues(old(shared)),
            step is Value <==> old(self).staged().len() > 0 || reachable(
                *old(shared),
                old(self).lanes(),
            ),
            step is Finished <==> step !is Value && old(shared).live_producers() == 0,
            step matches RecvStep::Value(v) ==> if old(self).staged().len() > 0 {
                &&& v == old(self).staged()[0]
                &&& final(self).staged() == old(self).staged().skip(1)
                &&& *final(shared) == *old(shared)
                &&& same_but_staged(*old(self), *final(self))
            } else {
                let values = gather(
                    *old(shared),
                    old(self).lanes(),
                    old(self).cursor(),
                    old(self).batch() as int,
                ).values;
                &&& v == values[0]
                &&& final(self).staged() == values.skip(1)
            },
            step !is Value ==> final(self).staged() == Seq::<T>::empty() && final(shared).queues()
                == old(shared).queues(),
            old(self).staged().len() == 0 ==> gather_effect(
                *old(shared),
                *final(shared),
                *old(self),
                *final(self),
                old(self).batch() as int,
            ),
            step matches RecvStep::Wait(pause) ==> pause == pause_after(
                counted(old(backoff).spins) as int,
            ) && final(backoff).spins == if pause == Pause::Yield {
                0
            } else {
                counted(old(backoff).spins)
            },
            step !is Wait ==> *final(backoff) == *old(backoff),
            final(shared).keeps_producers(old(shared)),
    {
        let ghost before = *shared;
        let ghost was = *self;
        if let Some(v) = self.try_recv(shared) {
            return RecvStep::Value(v);
        }
        let ghost between = *shared;
        let ghost mid = *self;
        proof {
            lemma_dry_queues(before, was.lanes(), was.cursor(), was.batch() as int);
        }
        if self.is_disconnected(shared) {
            proof {
                lemma_still_dry(before, between, was, mid, was.batch() as int);
            }
            let last = self.try_recv(shared);
            proof {
                lemma_kept_twice(before, between, *shared);
            }
            return match last {
                Some(v) => RecvStep::Value(v),
                None => RecvStep::Finished,
            };
        }
        RecvStep::Wait(backoff.pause_and_restart())
    }

    /// One attempt to receive one owned batch; it ends after final disconnect.
    pub fn recv_batch<B: Backend<T>>(
        &mut self,
        shared: &mut Shared<T, B>,
        backoff: &mut Backoff,
        out: &mut Batch<T>,
    ) -> (step: RecvStep<usize>)
        requires
            old(shared).wf(),
            old(self).attached(old(shared).count()),
        ensures
            final(shared).wf(),
            final(self).attached(final(shared).count()),
            final(shared).same_but_queues(old(shared)),
            final(self).staged() == Seq::<T>::empty(),
            step is Value <==> old(self).staged().len() > 0 || reachable(
                *old(shared),
                old(self).lanes(),
            ),
            step is Finished <==> step !is Value && old(shared).live_producers() == 0,
            step matches RecvStep::Value(n) ==> n == final(out)@.len() && if old(self).staged().len() > 0 {
                &&& final(out)@ == old(self).staged()
                &&& *final(shared) == *old(shared)
                &&& same_but_staged(*old(self), *final(self))
            } else {
                final(out)@ == gather(
                    *old(shared),
                    old(self).lanes(),
                    old(self).cursor(),
                    old(self).batch() as int,
                ).values
            },
            step !is Value ==> final(out)@ == Seq::<T>::empty() && final(shared).queues() == old(shared).queues(),
            old(self).staged().len() == 0 ==> gather_effect(
                *old(shared),
                *final(shared),
                *old(self),
                *final(self),
                old(self).batch() as int,
            ),
            step matches RecvStep::Wait(pause) ==> pause == pause_after(
                counted(old(backoff).spins) as int,
            ) && final(backoff).spins == if pause == Pause::Yield {
                0
            } else {
                counted(old(backoff).spins)
            },
            step !is Wait ==> *final(backoff) == *old(backoff),
            final(shared).keeps_producers(old(shared)),
    {
        let ghost before = *shared;
        let ghost was = *self;
        let received: usize = self.try_recv_batch(shared, out);
        if received != 0 {
            return RecvStep::Value(received);
        }
        let ghost between = *shared;
        let ghost mid = *self;
        proof {
            lemma_dry_queues(before, was.lanes(), was.cursor(), was.batch() as int);
            assert(out@ =~= Seq::<T>::empty());
        }
        if self.is_disconnected(shared) {
            proof {
                lemma_still_dry(before, between, was, mid, was.batch() as int);
            }
            let last: usize = self.try_recv_batch(shared, out);
            proof {
                lemma_kept_twice(before, between, *shared);
                assert(out@ =~= Seq::<T>::empty());
            }
            return if last != 0 {
                RecvStep::Value(last)
            } else {
                RecvStep::Finished
            };
        }
        RecvStep::Wait(backoff.pause_and_restart())
    }

    /// Drain up to `max` values straight to `out`, returning the number processed:
    /// first what is staged, then what can be gathered.
    pub fn drain<B: Backend<T>, S: Sink<T>>(
        &mut self,
        shared: &mut Shared<T, B>,
        max: usize,
        out: &mut S,
    ) -> (done: usize)
        requires
            old(shared).wf(),
            old(self).attached(old(shared).count()),
        ensures
            final(shared).wf(),
            final(self).attached(final(shared).count()),
            final(shared).same_but_queues(old(shared)),
            ({
                let staged = old(self).staged();
                let flushed = min(staged.len() as int, max as int);
                let g = gather(
                    *old(shared),
                    old(self).lanes(),
                    old(self).cursor(),
                    max - flushed,
                );
                &&& final(self).staged() == staged.skip(flushed)
                &&& if flushed == max {
                    &&& done == max
                    &&& final(out).seen() == old(out).seen() + staged.take(flushed)
                    &&& *final(shared) == *old(shared)
                    &&& same_but_staged(*old(self), *final(self))
                } else {
                    &&& done == flushed + g.values.len()
                    &&& g.values.len() > 0 <==> reachable(*old(shared), old(self).lanes())
                    &&& final(out).seen() == old(out).seen() + staged + g.values
                    &&& gather_effect(
                        *old(shared),
                        *final(shared),
                        *old(self),
                        *final(self),
                        max - flushed,
                    )
                }
            }),
            final(shared).keeps_producers(old(shared)),
    {
        let ghost staged = self.staging@;
        let ghost seen = out.seen();
        let mut done: usize = 0;
        proof {
            assert(staged.skip(0) =~= staged);
            assert(seen + staged.take(0) =~= seen);
        }
        while done < max && !self.staging.is_empty()
            invariant
                done <= max,
                done <= staged.len(),
                self.staging@ == staged.skip(done as int),
                out.seen() == seen + staged.take(done as int),
                same_but_staged(*old(self), *self),
            decreases max - done,
        {
            let value = self.staging.pop_front().unwrap();
            let ghost held = value;
            out.accept(value);
            done = done + 1;
            proof {
                assert(self.staging@ =~= staged.skip(done as int));
                assert(staged.take(done as int) =~= staged.take(done - 1).push(held));
                assert(seen + staged.take(done as int) =~= (seen + staged.take(done - 1)).push(
                    held,
                ));
            }
        }
        if done >= max {
            return done;
        }
        assert(staged.take(done as int) =~= staged);
        let got: usize = Self::collect(
            &mut self.lanes,
            &mut self.cursor,
            shared,
            max - done,
            out,
        );
        done + got
    }

    /// One attempt to process values until every producer disconnects and all lanes
    /// drain.
    pub fn for_each<B: Backend<T>, S: Sink<T>>(
        &mut self,
        shared: &mut Shared<T, B>,
        backoff: &mut Backoff,
        batch: usize,
        out: &mut S,
    ) -> (step: RecvStep<usize>)
        requires
            old(shared).wf(),
            old(self).attached(old(shared).count()),
        ensures
            final(shared).wf(),
            final(self).attached(final(shared).count()),
            final(shared).same_but_queues(old(shared)),
            ({
                let max = if batch == 0 {
                    1
                } else {
                    batch as int
                };
                let staged = old(self).staged();
                let flushed = min(staged.len() as int, max);
                let g = gather(
                    *old(shared),
                    old(self).lanes(),
                    old(self).cursor(),
                    max - flushed,
                );
                &&& step is Value <==> staged.len() > 0 || reachable(
                    *old(shared),
                    old(self).lanes(),
                )
                &&& step is Finished <==> step !is Value && old(shared).live_producers() == 0
                &&& final(self).staged() == staged.skip(flushed)
                &&& step matches RecvStep::Value(n) ==> final(backoff).spins == 0 && if flushed
                    == max {
                    &&& n == max
                    &&& final(out).seen() == old(out).seen() + staged.take(flushed)
                    &&& *final(shared) == *old(shared)
                    &&& same_but_staged(*old(self), *final(self))
                } else {
                    &&& n == flushed + g.values.len()
                    &&& final(out).seen() == old(out).seen() + staged + g.values
                    &&& gather_effect(
                        *old(shared),
                        *final(shared),
                        *old(self),
                        *final(self),
                        max - flushed,
                    )
                }
                &&& step !is Value ==> final(out).seen() == old(out).seen() && final(shared).queues() == old(shared).queues() && gather_effect(
                    *old(shared),
                    *final(shared),
                    *old(self),
                    *final(self),
                    max,
                )
            }),
            step matches RecvStep::Wait(pause) ==> pause == pause_after(
                counted(old(backoff).spins) as int,
            ) && final(backoff).spins == if pause == Pause::Yield {
                0
            } else {
                counted(old(backoff).spins)
            },
            step is Finished ==> *final(backoff) == *old(backoff),
            final(shared).keeps_producers(old(shared)),
    {
        let ghost before = *shared;
        let ghost was = *self;
        let max: usize = if batch < 1 {
            1
        } else {
            batch
        };
        let first: usize = self.drain(shared, max, out);
        if first != 0 {
            backoff.reset();
            return RecvStep::Value(first);
        }
        let ghost between = *shared;
        let ghost mid = *self;
        proof {
            assert(was.staged().len() == 0);
            assert(was.staged().skip(0) =~= was.staged());
            assert(out.seen() =~= old(out).seen());
            lemma_dry_queues(before, was.lanes(), was.cursor(), max as int);
        }
        if self.is_disconnected(shared) {
            proof {
                lemma_still_dry(before, between, was, mid, max as int);
            }
            let second: usize = self.drain(shared, max, out);
            proof {
                lemma_kept_twice(before, between, *shared);
                assert(out.seen() =~= old(out).seen());
                assert(self.staged() =~= was.staged());
            }
            if second == 0 {
                return RecvStep::Finished;
            }
        }
        RecvStep::Wait(backoff.pause_and_restart())
    }

    /// This consumer leaves: its lanes are abandoned, to be adopted by a peer. Values
    /// still staged in it are dropped with it.
    pub fn disconnect<B: Backend<T>>(self, shared: &mut Shared<T, B>)
        requires
            old(shared).wf(),
            self.attached(old(shared).count()),
            old(shared).live_consumers() > 0,
        ensures
            final(shared).wf(),
            final(shared).count() == old(shared).count(),
            final(shared).abandoned() == old(shared).abandoned() + self.lanes(),
            final(shared).live_consumers() == old(shared).live_consumers() - 1,
            final(shared).live_producers() == old(shared).live_producers(),
            final(shared).queues() == old(shared).queues(),
            forall|i: int|
                0 <= i < old(shared).count() ==> #[trigger] final(shared).link(i) == old(shared).link(i)
                    && final(shared).rx(i) == old(shared).rx(i),
            final(shared).knowledge() == old(shared).knowledge(),
            final(shared).keeps_producers(old(shared)),
    {
        let ghost before = *shared;
        let mut lanes = self.lanes;
        let ghost own = lanes@;
        let mut list: Vec<usize> = exchange(&mut shared.abandoned, Vec::new());
        list.append(&mut lanes);
        let ghost all = list@;
        let empty: Vec<usize> = exchange(&mut shared.abandoned, list);
        shared.live_consumers = shared.live_consumers - 1;
        proof {
            assert(all =~= before.abandoned() + own);
            assert(shared.queues() =~= before.queues());
            assert(shared.knowledge() =~= before.knowledge());
            assert forall|i: int| 0 <= i < shared.count() implies (#[trigger] shared.link(i)).wf()
                && shared.rx(i).attached(shared.link(i)) by {
                assert(before.link(i).wf());
            }
            assert forall|i: int| 0 <= i < all.len() implies #[trigger] all[i] < before.count() by {
                if i < before.abandoned().len() {
                    assert(all[i] == before.abandoned()[i]);
                } else {
                    assert(all[i] == own[i - before.abandoned().len()]);
                }
            }
            assert forall|p: Producer<T, B>| #[trigger] p.attached(before) implies p.attached(
                *shared,
            ) && p.beliefs(*shared) == p.beliefs(before) by {
                assert forall|j: int| 0 <= j < p.fan() implies (#[trigger] p.tx(j)).attached(
                    shared.link(p.base() + j),
                ) by {
                    assert(p.tx(j).attached(before.link(p.base() + j)));
                }
                assert(p.beliefs(*shared) =~= p.beliefs(before));
            }
        }
    }
}

/// Where nothing is reachable, gathering changes no queue.
proof fn lemma_dry_queues<T, B: Backend<T>>(
    shared: Shared<T, B>,
    lanes: Seq<usize>,
    start: int,
    max: int,
)
    requires
        0 <= start,
        !reachable(shared, lanes),
    ensures
        gather(shared, lanes, start, max).queues == shared.queues(),
        gather(shared, lanes, start, max).values == Seq::<T>::empty(),
{
    let n = lanes.len() as int;
    law_rotation_finds_a_hit(shared.filled(lanes), start, n);
    lemma_first_hit(shared.filled(lanes), start, 0, n);
    let all = lanes + shared.abandoned();
    lemma_any_filled_split(shared, lanes, shared.abandoned());
    round_robin::lemma_rested_twice(start, n);
    law_rotation_finds_a_hit(shared.filled(all), rested(start, n, n), all.len() as int);
    lemma_first_hit(shared.filled(all), rested(start, n, n), 0, all.len() as int);
}


/// The lane between producer `p` and consumer `c` of a grid with `consumers` columns.
pub open spec fn lane_of(p: int, c: int, consumers: int) -> int {
    p * consumers + c
}

/// A grid right after it was opened.
pub open spec fn opened<T, B: Backend<T>>(
    shared: Shared<T, B>,
    txs: Seq<Producer<T, B>>,
    rxs: Seq<Consumer<T>>,
    producers: int,
    consumers: int,
    lane_capacity: usize,
) -> bool {
    &&& shared.wf()
    &&& shared.count() == producers * consumers
    &&& shared.live_producers() == producers
    &&& shared.live_consumers() == consumers
    &&& shared.abandoned() == Seq::<usize>::empty()
    &&& forall|i: int|
        0 <= i < shared.count() ==> {
            &&& (#[trigger] shared.link(i)).queue() == Seq::<T>::empty()
            &&& shared.link(i).accepts()
            &&& B::sized(lane_capacity, shared.link(i).bound())
            &&& shared.knowledge()[i] == 0
            &&& !shared.link(i).producer_gone()
            &&& !shared.link(i).consumer_gone()
        }
    &&& txs.len() == producers
    &&& forall|p: int|
        0 <= p < producers ==> {
            &&& (#[trigger] txs[p]).attached(shared)
            &&& txs[p].base() == lane_of(p, 0, consumers)
            &&& txs[p].fan() == consumers
            &&& txs[p].cursor() == p % consumers
            &&& txs[p].beliefs(shared) == Seq::new(consumers as nat, |k: int| 0int)
        }
    &&& rxs.len() == consumers
    &&& forall|c: int|
        0 <= c < consumers ==> {
            &&& (#[trigger] rxs[c]).attached(shared.count())
            &&& rxs[c].staged() == Seq::<T>::empty()
            &&& rxs[c].batch() == 64
            &&& rxs[c].cursor() == c % producers
            &&& rxs[c].lanes().len() == producers
            &&& forall|p: int|
                0 <= p < producers ==> #[trigger] rxs[c].lanes()[p] == lane_of(p, c, consumers)
        }
}

/// The lanes of one consumer: one column of the grid.
fn column(producers: usize, consumers: usize, c: usize) -> (lanes: Vec<usize>)
    requires
        c < consumers,
        producers * consumers <= usize::MAX,
    ensures
        lanes@.len() == producers,
        forall|p: int| 0 <= p < producers ==> #[trigger] lanes@[p] == lane_of(p, c as int, consumers as int),
        in_range(lanes@, (producers * consumers) as nat),
{
    let mut lanes: Vec<usize> = Vec::with_capacity(producers);
    while lanes.len() < producers
        invariant
            c < consumers,
            producers * consumers <= usize::MAX,
            lanes@.len() <= producers,
            forall|p: int|
                0 <= p < lanes@.len() ==> #[trigger] lanes@[p] == lane_of(
                    p,
                    c as int,
                    consumers as int,
                ),
            in_range(lanes@, (producers * consumers) as nat),
        decreases producers - lanes@.len(),
    {
        let p: usize = lanes.len();
        let ghost before = lanes@;
        assert(p * consumers + c < producers * consumers && p * consumers <= usize::MAX) by (nonlinear_arith)
            requires
                p < producers,
                c < consumers,
                producers * consumers <= usize::MAX,
        ;
        lanes.push(p * consumers + c);
        proof {
            assert forall|q: int| 0 <= q < lanes@.len() implies #[trigger] lanes@[q] == lane_of(
                q,
                c as int,
                consumers as int,
            ) by {
                if q < before.len() {
                    assert(lanes@[q] == before[q]);
                }
            }
            assert forall|q: int| 0 <= q < lanes@.len() implies #[trigger] lanes@[q] < (producers
                * consumers) as nat by {
                if q < before.len() {
                    assert(lanes@[q] == before[q]);
                }
            }
        }
    }
    lanes
}

/// Open a grid of `producers` by `consumers` lanes of `lane_capacity` each.
pub fn open<T, B: Backend<T>>(producers: usize, consumers: usize, lane_capacity: usize) -> (parts: (
    Shared<T, B>,
    Vec<Producer<T, B>>,
    Vec<Consumer<T>>,
))
    requires
        B::supports(lane_capacity),
        0 < producers,
        0 < consumers,
        producers * consumers <= usize::MAX,
    ensures
        opened(
            parts.0,
            parts.1@,
            parts.2@,
            producers as int,
            consumers as int,
            lane_capacity,
        ),
{
    let mut lanes: Vec<Lane<T, B>> = Vec::new();
    let mut txs: Vec<Producer<T, B>> = Vec::with_capacity(producers);
    while txs.len() < producers
        invariant
            B::supports(lane_capacity),
            0 < consumers,
            producers * consumers <= usize::MAX,
            txs@.len() <= producers,
            lanes@.len() == txs@.len() * consumers,
            forall|i: int|
                0 <= i < lanes@.len() ==> {
                    &&& (#[trigger] lanes@[i]).link.wf()
                    &&& lanes@[i].rx.attached(lanes@[i].link)
                    &&& lanes@[i].link.queue() == Seq::<T>::empty()
                    &&& lanes@[i].link.accepts()
                    &&& B::sized(lane_capacity, lanes@[i].link.bound())
                    &&& lanes@[i].rx.known(lanes@[i].link) == 0
                    &&& !lanes@[i].link.producer_gone()
                    &&& !lanes@[i].link.consumer_gone()
                },
            forall|p: int|
                0 <= p < txs@.len() ==> {
                    &&& (#[trigger] txs@[p]).base == lane_of(p, 0, consumers as int)
                    &&& txs@[p].txs@.len() == consumers
                    &&& txs@[p].cursor == p % (consumers as int)
                    &&& txs@[p].base + consumers <= lanes@.len()
                },
            forall|p: int, k: int|
                0 <= p < txs@.len() && 0 <= k < consumers ==> (#[trigger] txs@[p].txs@[k]).attached(
                    lanes@[txs@[p].base + k].link,
                ) && txs@[p].txs@[k].known(lanes@[txs@[p].base + k].link) == 0,
        decreases producers - txs@.len(),
    {
        let p: usize = txs.len();
        let base: usize = lanes.len();
        let ghost laid = lanes@;
        let ghost made = txs@;
        let mut senders: Vec<B::Tx> = Vec::with_capacity(consumers);
        assert((p + 1) * consumers == p * consumers + consumers) by (nonlinear_arith);
        while senders.len() < consumers
            invariant
                B::supports(lane_capacity),
                senders@.len() <= consumers,
                lanes@.len() == base + senders@.len(),
                base == laid.len(),
                forall|i: int| 0 <= i < base ==> #[trigger] lanes@[i] == laid[i],
                forall|i: int|
                    0 <= i < lanes@.len() ==> {
                        &&& (#[trigger] lanes@[i]).link.wf()
                        &&& lanes@[i].rx.attached(lanes@[i].link)
                        &&& lanes@[i].link.queue() == Seq::<T>::empty()
                        &&& lanes@[i].link.accepts()
                        &&& B::sized(lane_capacity, lanes@[i].link.bound())
                        &&& lanes@[i].rx.known(lanes@[i].link) == 0
                        &&& !lanes@[i].link.producer_gone()
                        &&& !lanes@[i].link.consumer_gone()
                    },
                forall|k: int|
                    0 <= k < senders@.len() ==> (#[trigger] senders@[k]).attached(
                        lanes@[base + k].link,
                    ) && senders@[k].known(lanes@[base + k].link) == 0,
            decreases consumers - senders@.len(),
        {
            let ghost some = lanes@;
            let (link, tx, rx) = B::channel(lane_capacity);
            lanes.push(Lane { link, rx });
            senders.push(tx);
            proof {
                assert forall|i: int| 0 <= i < base implies #[trigger] lanes@[i] == laid[i] by {
                    assert(lanes@[i] == some[i]);
                }
            }
        }
        txs.push(Producer { base, txs: senders, cursor: p % consumers });
        proof {
            assert(lanes@.len() == (p + 1) * consumers);
            assert forall|q: int| 0 <= q < txs@.len() implies {
                &&& (#[trigger] txs@[q]).base == lane_of(q, 0, consumers as int)
                &&& txs@[q].txs@.len() == consumers
                &&& txs@[q].cursor == q % (consumers as int)
                &&& txs@[q].base + consumers <= lanes@.len()
            } by {
                if q < made.len() {
                    assert(txs@[q] == made[q]);
                }
            }
            assert forall|q: int, k: int|
                0 <= q < txs@.len() && 0 <= k < consumers implies (
            #[trigger] txs@[q].txs@[k]).attached(lanes@[txs@[q].base + k].link) && txs@[q].txs@[k].known(
                lanes@[txs@[q].base + k].link,
            ) == 0 by {
                if q < made.len() {
                    assert(txs@[q] == made[q]);
                    assert(made[q].base + consumers <= laid.len());
                    assert(made[q].txs@[k].attached(laid[made[q].base + k].link));
                    assert(lanes@[made[q].base + k] == laid[made[q].base + k]);
                }
            }
        }
    }
    let mut rxs: Vec<Consumer<T>> = Vec::with_capacity(consumers);
    while rxs.len() < consumers
        invariant
            0 < producers,
            producers * consumers <= usize::MAX,
            rxs@.len() <= consumers,
            forall|c: int|
                0 <= c < rxs@.len() ==> {
                    &&& (#[trigger] rxs@[c]).attached((producers * consumers) as nat)
                    &&& rxs@[c].staged() == Seq::<T>::empty()
                    &&& rxs@[c].batch() == 64
                    &&& rxs@[c].cursor() == c % (producers as int)
                    &&& rxs@[c].lanes().len() == producers
                    &&& forall|p: int|
                        0 <= p < producers ==> #[trigger] rxs@[c].lanes()[p] == lane_of(
                            p,
                            c,
                            consumers as int,
                        )
                },
        decreases consumers - rxs@.len(),
    {
        let ghost made = rxs@;
        let c: usize = rxs.len();
        let own = column(producers, consumers, c);
        rxs.push(Consumer { lanes: own, cursor: c % producers, staging: Batch::new(), batch: 64 });
        proof {
            assert forall|d: int| 0 <= d < rxs@.len() implies {
                &&& (#[trigger] rxs@[d]).attached((producers * consumers) as nat)
                &&& rxs@[d].staged() == Seq::<T>::empty()
                &&& rxs@[d].batch() == 64
                &&& rxs@[d].cursor() == d % (producers as int)
                &&& rxs@[d].lanes().len() == producers
                &&& forall|p: int|
                    0 <= p < producers ==> #[trigger] rxs@[d].lanes()[p] == lane_of(
                        p,
                        d,
                        consumers as int,
                    )
            } by {
                if d < made.len() {
                    assert(rxs@[d] == made[d]);
                }
            }
        }
    }
    let none: Vec<usize> = Vec::new();
    let shared = Shared {
        lanes,
        live_producers: producers,
        live_consumers: consumers,
        abandoned: guard(none),
    };
    proof {
        assert forall|i: int| 0 <= i < shared.count() implies (#[trigger] shared.link(i)).wf()
            && shared.rx(i).attached(shared.link(i)) by {
            assert(shared.lanes@[i].link.wf());
        }
        assert forall|p: int| 0 <= p < producers implies {
            &&& (#[trigger] txs@[p]).attached(shared)
            &&& txs@[p].base() == lane_of(p, 0, consumers as int)
            &&& txs@[p].fan() == consumers
            &&& txs@[p].cursor() == p % (consumers as int)
            &&& txs@[p].beliefs(shared) == Seq::new(consumers as nat, |k: int| 0int)
        } by {
            let x = txs@[p];
            assert forall|k: int| 0 <= k < x.fan() implies (#[trigger] x.tx(k)).attached(
                shared.link(x.base() + k),
            ) && x.tx(k).known(shared.link(x.base() + k)) == 0 by {
                assert(x.txs@[k].attached(shared.lanes@[x.base + k].link));
            }
            assert(x.beliefs(shared) =~= Seq::new(consumers as nat, |k: int| 0int));
        }
    }
    (shared, txs, rxs)
}

impl<T, B: Backend<T>> Producer<T, B> {
    /// This producer leaves; what it has sent stays in its lanes.
    pub fn disconnect(self, shared: &mut Shared<T, B>)
        requires
            old(shared).wf(),
            self.attached(*old(shared)),
            old(shared).live_producers() > 0,
        ensures
            final(shared).wf(),
            final(shared).count() == old(shared).count(),
            final(shared).abandoned() == old(shared).abandoned(),
            final(shared).queues() == old(shared).queues(),
            final(shared).knowledge() == old(shared).knowledge(),
            final(shared).live_producers() == old(shared).live_producers() - 1,
            final(shared).live_consumers() == old(shared).live_consumers(),
            forall|k: int|
                0 <= k < self.fan() ==> final(shared).link(
                    #[trigger] (self.base() + k),
                ).producer_gone(),
            forall|i: int|
                0 <= i < old(shared).count() ==> {
                    &&& (#[trigger] final(shared).link(i)).bound() == old(shared).link(i).bound()
                    &&& final(shared).link(i).accepts() == old(shared).link(i).accepts()
                    &&& final(shared).link(i).consumer_gone() == old(shared).link(i).consumer_gone()
                },
            forall|i: int|
                0 <= i < old(shared).count() && !(self.base() <= i < self.base() + self.fan())
                    ==> #[trigger] final(shared).link(i) == old(shared).link(i),
            final(shared).keeps_other_producers(old(shared), self),
    {
        let ghost before = *shared;
        let ghost was = self;
        let base: usize = self.base;
        let fan: usize = self.txs.len();
        let mut senders = self.txs;
        let total: usize = shared.lanes.len();
        while senders.len() > 0
            invariant
                before.wf(),
                was.attached(before),
                base == was.base,
                fan == was.txs@.len(),
                total == before.count(),
                senders@.len() <= fan,
                shared.lanes@.len() == before.lanes@.len(),
                shared.live_producers == before.live_producers,
                shared.live_consumers == before.live_consumers,
                shared.abandoned == before.abandoned,
                forall|i: int|
                    0 <= i < before.count() && !(base + senders@.len() <= i < base + fan)
                        ==> #[trigger] shared.lanes@[i] == before.lanes@[i],
                forall|i: int|
                    base + senders@.len() <= i < base + fan ==> {
                        &&& (#[trigger] shared.lanes@[i]).link.wf()
                        &&& shared.lanes@[i].rx == before.lanes@[i].rx
                        &&& shared.lanes@[i].rx.attached(shared.lanes@[i].link)
                        &&& shared.lanes@[i].link.queue() == before.lanes@[i].link.queue()
                        &&& shared.lanes@[i].link.producer_gone()
                        &&& shared.lanes@[i].link.bound() == before.lanes@[i].link.bound()
                        &&& shared.lanes@[i].link.accepts() == before.lanes@[i].link.accepts()
                        &&& shared.lanes@[i].link.consumer_gone()
                            == before.lanes@[i].link.consumer_gone()
                        &&& shared.lanes@[i].rx.known(shared.lanes@[i].link)
                            == before.lanes@[i].rx.known(before.lanes@[i].link)
                    },
            decreases senders@.len(),
        {
            let mut tx = senders.pop().unwrap();
            let id: usize = base + senders.len();
            let ghost entry = *shared;
            proof {
                assert(entry.lanes@[id as int] == before.lanes@[id as int]);
                assert(before.link(id as int).wf());
            }
            let lane = &mut shared.lanes[id];
            tx.close(&mut lane.link);
            proof {
                assert forall|i: int| 0 <= i < before.count() && i != id implies (
                #[trigger] shared.lanes@[i]) == entry.lanes@[i] by {
                }
            }
        }
        shared.live_producers = shared.live_producers - 1;
        proof {
            assert forall|i: int| 0 <= i < shared.count() implies (#[trigger] shared.link(i)).wf()
                && shared.rx(i).attached(shared.link(i)) && shared.link(i).queue() == before.link(
                i,
            ).queue() && shared.link(i).bound() == before.link(i).bound() && shared.link(i).accepts()
                == before.link(i).accepts() && shared.link(i).consumer_gone() == before.link(
                i,
            ).consumer_gone() && shared.rx(i).known(shared.link(i)) == before.rx(i).known(
                before.link(i),
            ) by {
                assert(before.link(i).wf());
                if base <= i < base + fan {
                    assert(shared.lanes@[i].link.wf());
                } else {
                    assert(shared.lanes@[i] == before.lanes@[i]);
                }
            }
            assert(shared.queues() =~= before.queues());
            assert(shared.knowledge() =~= before.knowledge());
            assert forall|k: int| 0 <= k < was.fan() implies shared.link(
                #[trigger] (was.base() + k),
            ).producer_gone() by {
                assert(shared.lanes@[was.base + k].link.wf());
            }
            assert forall|p: Producer<T, B>|
                p.apart(was) && #[trigger] p.attached(before) implies p.attached(*shared)
                && p.beliefs(*shared) == p.beliefs(before) by {
                assert forall|j: int| 0 <= j < p.fan() implies (#[trigger] p.tx(j)).attached(
                    shared.link(p.base() + j),
                ) && p.tx(j).known(shared.link(p.base() + j)) == p.tx(j).known(
                    before.link(p.base() + j),
                ) by {
                    assert(p.tx(j).attached(before.link(p.base() + j)));
                    assert(shared.lanes@[p.base() + j] == before.lanes@[p.base() + j]);
                }
                assert(p.beliefs(*shared) =~= p.beliefs(before));
            }
        }
    }
}

/// The values were the front of lane `id`, and nothing else left any lane.
pub open spec fn left_lane<T>(
    values: Seq<T>,
    before: Seq<Seq<T>>,
    after: Seq<Seq<T>>,
    id: int,
) -> bool {
    &&& after.len() == before.len()
    &&& forall|i: int| 0 <= i < before.len() && i != id ==> #[trigger] after[i] == before[i]
    &&& values.len() > 0 ==> 0 <= id < before.len() && values + after[id] == before[id]
}

/// Values in abandoned lanes are not lost: whoever remains reaches them, and what
/// one consumer gathers is the front of one lane and leaves every other lane alone.
pub proof fn law_gathered_values_leave_one_lane<T, B: Backend<T>>(
    shared: Shared<T, B>,
    lanes: Seq<usize>,
    start: int,
    max: int,
)
    requires
        shared.wf(),
        in_range(lanes, shared.count()),
        0 <= start,
        0 < max,
    ensures
        ({
            let g = gather(shared, lanes, start, max);
            &&& g.values.len() > 0 <==> reachable(shared, lanes)
            &&& exists|id: int| #[trigger] left_lane(g.values, shared.queues(), g.queues, id)
            &&& forall|i: int|
                0 <= i < shared.abandoned().len() && shared.queues()[#[trigger] shared.abandoned()[i] as int].len()
                    > 0 ==> reachable(shared, lanes)
        }),
{
    let n = lanes.len() as int;
    let all = lanes + shared.abandoned();
    let g = gather(shared, lanes, start, max);
    lemma_look_takes_one(shared, lanes, start, max);
    round_robin::lemma_rested_twice(start, n);
    assert(in_range(all, shared.count())) by {
        assert forall|i: int| 0 <= i < all.len() implies #[trigger] all[i] < shared.count() by {
            if i < lanes.len() {
                assert(all[i] == lanes[i]);
            } else {
                assert(all[i] == shared.abandoned()[i - lanes.len()]);
            }
        }
    }
    lemma_look_takes_one(shared, all, rested(start, n, n), max);
    lemma_any_filled_split(shared, lanes, shared.abandoned());
    assert forall|i: int|
        0 <= i < shared.abandoned().len() && shared.queues()[#[trigger] shared.abandoned()[i] as int].len()
            > 0 implies reachable(shared, lanes) by {
        assert(shared.abandoned()[i] < shared.count());
        assert(shared.filled(shared.abandoned())(i));
    }
    if shared.abandoned().len() == 0 {
        assert(!shared.any_filled(shared.abandoned()));
    }
    let own = shared.looked(lanes, start, max);
    let adopted = shared.looked(all, rested(start, n, n), max);
    if shared.any_filled(lanes) || shared.abandoned().len() == 0 {
        let id = choose|id: int| #[trigger] left_lane(own.0, shared.queues(), own.1, id);
        assert(left_lane(g.values, shared.queues(), g.queues, id));
    } else {
        let id = choose|id: int| #[trigger] left_lane(adopted.0, shared.queues(), adopted.1, id);
        assert(left_lane(g.values, shared.queues(), g.queues, id));
    }
}

proof fn lemma_look_takes_one<T, B: Backend<T>>(
    shared: Shared<T, B>,
    lanes: Seq<usize>,
    start: int,
    max: int,
)
    requires
        shared.wf(),
        in_range(lanes, shared.count()),
        0 <= start,
        0 < max,
    ensures
        ({
            let (values, queues) = shared.looked(lanes, start, max);
            &&& values.len() > 0 <==> shared.any_filled(lanes)
            &&& exists|id: int| #[trigger] left_lane(values, shared.queues(), queues, id)
        }),
{
    let n = lanes.len() as int;
    let (values, queues) = shared.looked(lanes, start, max);
    law_rotation_finds_a_hit(shared.filled(lanes), start, n);
    lemma_first_hit(shared.filled(lanes), start, 0, n);
    let k = first_hit(shared.filled(lanes), start, 0, n);
    if k < n {
        let at = attempt(start, k, n);
        assert(lanes[at] < shared.count());
        let id = lanes[at] as int;
        assert(shared.filled(lanes)(at));
        assert(shared.link(id).wf());
        shared.rx(id).ready_bounds(shared.link(id));
        let q = shared.link(id).queue();
        let m = min(shared.rx(id).ready(shared.link(id)), max);
        assert(q.take(m) + q.skip(m) =~= q);
        assert(left_lane(values, shared.queues(), queues, id));
    } else {
        assert(left_lane(values, shared.queues(), queues, -1));
    }
}

/// Declare fixed-membership lane-grid MPMC with Ring storage and spin/yield waiting.
pub fn channel<T>() -> (channel: crate::Channel<
    T,
    crate::topology::Mpmc<crate::engine::Lanes>,
    crate::backend::Ring,
    crate::execution::Sync,
    crate::wait::SpinYield,
>)
    ensures
        channel.shape == crate::Shape::initial(),
        channel.routing.cursor == 0,
{
    crate::Channel::new().mpmc().engine::<crate::engine::Lanes>()
}


/// A send is held up only where all lanes of the producer are full: it finds a lane wherever one
/// of them has space, and the lane that it takes does.
pub proof fn law_sends_wait_only_for_full_lanes<T, B: Backend<T>>(
    producer: Producer<T, B>,
    shared: Shared<T, B>,
)
    requires
        producer.attached(shared),
        0 <= producer.cursor(),
    ensures
        producer.any_takes(shared) <==> exists|k: int|
            {
                let link = shared.link(#[trigger] lane_of_sender(producer.base(), k));
                0 <= k < producer.fan() && match link.bound() {
                    Some(n) => link.queue().len() < n,
                    None => !link.consumer_gone(),
                }
            },
        producer.any_takes(shared) ==> {
            let k = attempt(producer.cursor(), producer.route(shared), producer.fan() as int);
            let link = shared.link(producer.base() + k);
            &&& 0 <= k < producer.fan()
            &&& link.bound() matches Some(n) ==> link.queue().len() < n
        },
{
    let fan = producer.fan() as int;
    law_rotation_finds_a_hit(producer.takes(shared), producer.cursor(), fan);
    lemma_first_hit(producer.takes(shared), producer.cursor(), 0, fan);
    assert forall|k: int| #[trigger]
        producer.takes(shared)(k) == {
            let link = shared.link(lane_of_sender(producer.base(), k));
            match link.bound() {
                Some(n) => link.queue().len() < n,
                None => !link.consumer_gone(),
            }
        } by {
        shared.link(producer.base() + k).accepts_while_it_can();
    }
    if producer.any_takes(shared) {
        let k = choose|k: int| 0 <= k < fan && #[trigger] producer.takes(shared)(k);
        assert(lane_of_sender(producer.base(), k) == producer.base() + k);
        let at = attempt(producer.cursor(), producer.route(shared), fan);
        assert(producer.takes(shared)(at));
    } else {
        assert forall|k: int| 0 <= k < fan implies {
            let link = shared.link(#[trigger] lane_of_sender(producer.base(), k));
            !match link.bound() {
                Some(n) => link.queue().len() < n,
                None => !link.consumer_gone(),
            }
        } by {
            assert(!producer.takes(shared)(k));
        }
    }
}

/// The `k`-th lane of a producer whose first lane is `base`.
pub open spec fn lane_of_sender(base: int, k: int) -> int {
    base + k
}

/// Sends take turns: a value goes to the lane at the cursor wherever that lane has space, and the
/// next send starts with the lane after it.
pub proof fn law_sends_take_turns<T, B: Backend<T>>(producer: Producer<T, B>, shared: Shared<T, B>)
    requires
        producer.attached(shared),
        0 <= producer.cursor(),
        0 < producer.fan(),
        ({
            let link = shared.link(producer.base() + producer.cursor() % producer.fan() as int);
            match link.bound() {
                Some(n) => link.queue().len() < n,
                None => !link.consumer_gone(),
            }
        }),
    ensures
        ({
            let fan = producer.fan() as int;
            let k = producer.route(shared);
            &&& attempt(producer.cursor(), k, fan) == producer.cursor() % fan
            &&& rested(producer.cursor(), k, fan) % fan == (producer.cursor() + 1) % fan
        }),
{
    let fan = producer.fan() as int;
    let at = attempt(producer.cursor(), 0, fan);
    shared.link(producer.base() + at).accepts_while_it_can();
    assert(producer.takes(shared)(at));
    assert(producer.route(shared) == 0);
    lemma_next_attempt(producer.cursor(), 0, fan);
}

/// A batch loses nothing and keeps its order: what its runs put into the lanes are the values of
/// the batch from the first on, each lane gets its part behind what it held, and the other lanes
/// stay as they are.
pub proof fn law_batches_arrive_in_order<T>(queues: Seq<Seq<T>>, runs: Seq<Run<T>>, lane: int)
    requires
        0 <= lane < queues.len(),
        forall|i: int| 0 <= i < runs.len() ==> 0 <= (#[trigger] runs[i]).lane < queues.len(),
    ensures
        delivered(queues, runs).len() == queues.len(),
        delivered(queues, runs)[lane] == queues[lane] + all_values(
            runs.filter(|run: Run<T>| run.lane == lane),
        ),
    decreases runs.len(),
{
    let mine = |run: Run<T>| run.lane == lane;
    reveal(Seq::filter);
    if runs.len() > 0 {
        let earlier = runs.drop_last();
        let last = runs.last();
        assert forall|i: int| 0 <= i < earlier.len() implies 0 <= (
        #[trigger] earlier[i]).lane < queues.len() by {
            assert(runs[i].lane == earlier[i].lane);
        }
        law_batches_arrive_in_order(queues, earlier, lane);
        assert(runs[runs.len() - 1].lane == last.lane);
        let before = delivered(queues, earlier);
        if last.lane == lane {
            let kept = earlier.filter(mine);
            assert(runs.filter(mine) == kept.push(last));
            assert(kept.push(last).drop_last() =~= kept);
            assert(queues[lane] + all_values(kept) + last.values =~= queues[lane] + (all_values(
                kept,
            ) + last.values));
        } else {
            assert(runs.filter(mine) == earlier.filter(mine));
        }
    } else {
        assert(runs.filter(mine) =~= runs);
        assert(queues[lane] + Seq::<T>::empty() =~= queues[lane]);
    }
}

/// A batch stops only where nothing is left of it or where every lane of its producer is full.
pub proof fn law_batches_stop_only_at_full_lanes<T, B: Backend<T>>(
    mid: Producer<T, B>,
    between: Shared<T, B>,
    now: Producer<T, B>,
    after: Shared<T, B>,
    left: Seq<T>,
    k: int,
)
    requires
        mid.attached(between),
        0 <= mid.cursor(),
        batch_ended(mid, between, now, after, left),
        left.len() > 0,
        0 <= k < mid.fan(),
    ensures
        ({
            let link = between.link(mid.base() + k);
            match link.bound() {
                Some(n) => link.queue().len() >= n,
                None => link.consumer_gone(),
            }
        }),
        after.queues() == between.queues(),
{
    let fan = mid.fan() as int;
    law_rotation_finds_a_hit(mid.takes(between), mid.cursor(), fan);
    assert(!mid.takes(between)(k));
    between.link(mid.base() + k).accepts_while_it_can();
}

/// A consumer finds every value that it can get at: it comes back with something exactly where a
/// value waits in one of its own lanes or in one that its consumer has left, never with more
/// than it has room for, and with all that waits in that lane as far as the lane's receiver
/// knows and there is room. It leaves its own lanes for others only where they are all empty.
pub proof fn law_consumers_find_what_waits<T, B: Backend<T>>(
    shared: Shared<T, B>,
    lanes: Seq<usize>,
    start: int,
    max: int,
)
    requires
        shared.wf(),
        in_range(lanes, shared.count()),
        0 <= start,
        0 < max,
    ensures
        ({
            let g = gather(shared, lanes, start, max);
            let own = exists|i: int|
                0 <= i < lanes.len() && shared.link(#[trigger] lanes[i] as int).queue().len() > 0;
            let left = exists|i: int|
                0 <= i < shared.abandoned().len() && shared.link(
                    #[trigger] shared.abandoned()[i] as int,
                ).queue().len() > 0;
            &&& g.values.len() > 0 <==> own || left
            &&& g.values.len() <= max
            &&& g.lanes + g.abandoned == lanes + shared.abandoned()
            &&& own ==> g.lanes == lanes && g.abandoned == shared.abandoned()
            &&& !own ==> g.abandoned.len() == 0
        }),
{
    law_gathered_values_leave_one_lane(shared, lanes, start, max);
    let n = lanes.len() as int;
    let g = gather(shared, lanes, start, max);
    let all = lanes + shared.abandoned();
    lemma_filled_somewhere(shared, lanes);
    lemma_filled_somewhere(shared, shared.abandoned());
    round_robin::lemma_rested_twice(start, n);
    assert(in_range(all, shared.count())) by {
        assert forall|i: int| 0 <= i < all.len() implies #[trigger] all[i] < shared.count() by {
            if i < lanes.len() {
                assert(all[i] == lanes[i]);
            } else {
                assert(all[i] == shared.abandoned()[i - lanes.len()]);
            }
        }
    }
    lemma_looks_fit(shared, lanes, start, max);
    lemma_looks_fit(shared, all, rested(start, n, n), max);
    assert(g.lanes + g.abandoned =~= lanes + shared.abandoned());
}

proof fn lemma_filled_somewhere<T, B: Backend<T>>(shared: Shared<T, B>, lanes: Seq<usize>)
    ensures
        shared.any_filled(lanes) <==> exists|i: int|
            0 <= i < lanes.len() && shared.link(#[trigger] lanes[i] as int).queue().len() > 0,
{
    if shared.any_filled(lanes) {
        let i = choose|i: int| 0 <= i < lanes.len() && #[trigger] shared.filled(lanes)(i);
        assert(shared.link(lanes[i] as int).queue().len() > 0);
    }
    assert forall|i: int|
        0 <= i < lanes.len() && shared.link(#[trigger] lanes[i] as int).queue().len()
            > 0 implies shared.any_filled(lanes) by {
        assert(shared.filled(lanes)(i));
    }
}

proof fn lemma_looks_fit<T, B: Backend<T>>(
    shared: Shared<T, B>,
    lanes: Seq<usize>,
    start: int,
    max: int,
)
    requires
        shared.wf(),
        in_range(lanes, shared.count()),
        0 <= start,
        0 < max,
    ensures
        shared.looked(lanes, start, max).0.len() <= max,
{
    let n = lanes.len() as int;
    lemma_first_hit(shared.filled(lanes), start, 0, n);
    let k = first_hit(shared.filled(lanes), start, 0, n);
    if k < n {
        let id = lanes[attempt(start, k, n)] as int;
        assert(shared.link(id).wf());
        shared.rx(id).ready_bounds(shared.link(id));
    }
}

/// A look at the lanes starts where the consumer stands: where a value waits in that lane, the
/// values are the front of it, all that its receiver finds as far as there is room.
pub proof fn law_consumers_look_where_they_stand<T, B: Backend<T>>(
    shared: Shared<T, B>,
    lanes: Seq<usize>,
    start: int,
    max: int,
)
    requires
        shared.wf(),
        in_range(lanes, shared.count()),
        0 <= start,
        0 < max,
        0 < lanes.len(),
        shared.link(lanes[start % lanes.len() as int] as int).queue().len() > 0,
    ensures
        ({
            let id = lanes[start % lanes.len() as int] as int;
            let queue = shared.link(id).queue();
            let found = if shared.knowledge()[id] > 0 {
                shared.knowledge()[id]
            } else {
                queue.len() as int
            };
            let g = gather(shared, lanes, start, max);
            &&& g.values.len() == found || g.values.len() == max
            &&& 0 < g.values.len() <= max
            &&& g.values + g.queues[id] == queue
            &&& g.cursor % lanes.len() as int == (start + 1) % lanes.len() as int
        }),
{
    let n = lanes.len() as int;
    let at = attempt(start, 0, n);
    lemma_next_attempt(start, 0, n);
    let id = lanes[at] as int;
    assert(lanes[at] < shared.count());
    assert(shared.filled(lanes)(at));
    assert(shared.any_filled(lanes));
    assert(first_hit(shared.filled(lanes), start, 0, n) == 0);
    assert(shared.link(id).wf());
    shared.rx(id).ready_bounds(shared.link(id));
    let q = shared.link(id).queue();
    let m = min(shared.rx(id).ready(shared.link(id)), max);
    assert(q.take(m) + q.skip(m) =~= q);
}


/// Every producer has a lane of its own to every consumer: the lanes of a new grid are as many as
/// there are pairs, no two pairs share one, and all of them are empty and open.
pub proof fn law_every_pair_has_a_lane<T, B: Backend<T>>(
    shared: Shared<T, B>,
    txs: Seq<Producer<T, B>>,
    rxs: Seq<Consumer<T>>,
    capacity: usize,
)
    requires
        txs.len() > 0,
        rxs.len() > 0,
        opened(shared, txs, rxs, txs.len() as int, rxs.len() as int, capacity),
    ensures
        shared.count() == txs.len() * rxs.len(),
        shared.live_producers() == txs.len(),
        shared.live_consumers() == rxs.len(),
        forall|p: int, c: int|
            0 <= p < txs.len() && 0 <= c < rxs.len() ==> #[trigger] rxs[c].lanes()[p]
                == txs[p].base() + c && c < txs[p].fan(),
        forall|p: int, c: int, q: int, d: int|
            0 <= p < txs.len() && 0 <= c < rxs.len() && 0 <= q < txs.len() && 0 <= d < rxs.len()
                && #[trigger] rxs[c].lanes()[p] == #[trigger] rxs[d].lanes()[q] ==> p == q && c
                == d,
        forall|p: int, c: int|
            0 <= p < txs.len() && 0 <= c < rxs.len() ==> {
                let link = shared.link(#[trigger] rxs[c].lanes()[p] as int);
                link.queue().len() == 0 && link.accepts() && !link.producer_gone()
                    && !link.consumer_gone()
            },
{
    let n = txs.len() as int;
    let m = rxs.len() as int;
    assert forall|p: int, c: int| 0 <= p < n && 0 <= c < m implies #[trigger] rxs[c].lanes()[p]
        == txs[p].base() + c && c < txs[p].fan() by {
        assert(txs[p].attached(shared));
        assert(rxs[c].attached(shared.count()));
    }
    assert forall|p: int, c: int, q: int, d: int|
        0 <= p < n && 0 <= c < m && 0 <= q < n && 0 <= d < m && #[trigger] rxs[c].lanes()[p]
            == #[trigger] rxs[d].lanes()[q] implies p == q && c == d by {
        assert(rxs[c].attached(shared.count()) && rxs[d].attached(shared.count()));
        assert(p == q) by (nonlinear_arith)
            requires
                p * m + c == q * m + d,
                0 <= c < m,
                0 <= d < m,
        ;
    }
    assert forall|p: int, c: int| 0 <= p < n && 0 <= c < m implies {
        let link = shared.link(#[trigger] rxs[c].lanes()[p] as int);
        link.queue().len() == 0 && link.accepts() && !link.producer_gone() && !link.consumer_gone()
    } by {
        assert(rxs[c].attached(shared.count()));
        let id = rxs[c].lanes()[p] as int;
        assert(id < shared.count());
        assert(shared.link(id).queue() == Seq::<T>::empty());
    }
}

/// Sending and receiving leave alone what they are not about: who is there, how large the lanes
/// are and which of their ends have been left.
pub proof fn law_transfers_leave_the_grid_alone<T, B: Backend<T>>(
    before: Shared<T, B>,
    after: Shared<T, B>,
    i: int,
)
    requires
        after.same_but_queues(&before),
        0 <= i < before.count(),
    ensures
        after.count() == before.count(),
        after.live_producers() == before.live_producers(),
        after.live_consumers() == before.live_consumers(),
        after.link(i).bound() == before.link(i).bound(),
        after.link(i).producer_gone() == before.link(i).producer_gone(),
        after.link(i).consumer_gone() == before.link(i).consumer_gone(),
{
    assert(after.link(i).bound() == before.link(i).bound());
}

/// What a consumer gathers leaves its lane: after it, that lane holds what was behind the values,
/// every other lane what it held, and the consumer has the lanes that it looked at.
pub proof fn law_gathering_takes_effect<T, B: Backend<T>>(
    before: Shared<T, B>,
    after: Shared<T, B>,
    was: Consumer<T>,
    now: Consumer<T>,
    max: int,
)
    requires
        before.wf(),
        in_range(was.lanes(), before.count()),
        0 <= was.cursor(),
        0 < max,
        gather_effect(before, after, was, now, max),
    ensures
        ({
            let values = gather(before, was.lanes(), was.cursor(), max).values;
            &&& now.batch() == was.batch()
            &&& exists|id: int| #[trigger]
                left_lane(values, before.queues(), after.queues(), id)
            &&& now.lanes() + after.abandoned() == was.lanes() + before.abandoned()
        }),
{
    law_gathered_values_leave_one_lane(before, was.lanes(), was.cursor(), max);
    law_consumers_find_what_waits(before, was.lanes(), was.cursor(), max);
}


/// A run fills its lane: it is the first values of the batch, as many as there are or as the lane
/// has room for by what its sender knows, in a lane that has room, and they go behind what the
/// lane held.
pub proof fn law_runs_fill_their_lane<T, B: Backend<T>>(
    was: Producer<T, B>,
    now: Producer<T, B>,
    before: Shared<T, B>,
    after: Shared<T, B>,
    values: Seq<T>,
    run: Run<T>,
)
    requires
        before.wf(),
        was.attached(before),
        0 <= was.base(),
        0 <= was.cursor(),
        values.len() > 0,
        run_pushed(was, now, before, after, values, run),
    ensures
        was.base() <= run.lane < was.base() + was.fan(),
        0 < run.values.len() <= values.len(),
        run.values == values.take(run.values.len() as int),
        after.queues()[run.lane] == before.link(run.lane).queue() + run.values,
        forall|i: int|
            0 <= i < before.count() && i != run.lane ==> #[trigger] after.queues()[i]
                == before.link(i).queue(),
        run.values.len() < values.len() ==> {
            let link = before.link(run.lane);
            let belief = was.beliefs(before)[run.lane - was.base()];
            link.bound() matches Some(n) && run.values.len() == n - (if belief >= n {
                link.queue().len() as int
            } else {
                belief
            })
        },
{
    let fan = was.fan() as int;
    let k = was.route(before);
    lemma_first_hit(was.takes(before), was.cursor(), 0, fan);
    let lane = attempt(was.cursor(), k, fan);
    let id = was.base() + lane;
    assert(was.tx(lane).attached(before.link(was.base() + lane)));
    assert(before.link(id).wf());
    was.tx(lane).grant_bounds(before.link(id), values.len() as int);
    assert(was.beliefs(before)[lane] == was.tx(lane).known(before.link(id)));
}

} // verus!
