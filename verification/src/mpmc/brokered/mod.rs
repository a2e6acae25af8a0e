//! Brokered competing-consumer / pub-sub MPMC.
//!
//! A dedicated router ("broker") sits between producers and consumers. Each
//! producer owns a ring into the broker; each consumer owns a ring out of every
//! broker. The broker drains the producer rings and *places* each value onto
//! consumer rings according to a policy. The policy is the reason to choose
//! `brokered` over `brokerless`.
//!
//! Round-robin and `Route` deliver each value to exactly one consumer; only `PubSub`
//! can deliver a value to several. [`Targets::all`] is broadcast, [`Targets::none`]
//! drops the value.
//!
//! A broker works in single steps ([`Broker::step`]): it takes one value or places one
//! value, and says when it has to wait, so that its owner decides how to wait.
use crate::backend::{Backend, Endpoint, Link, Rx, Tx};
use crate::bits::{self, bit_set, lemma_empty_mask, split_lowest};
use crate::mpmc::brokerless::{RecvStep, SendStep};
use crate::pause::{counted, pause_after, Backoff, Pause};
use crate::round_robin::{
    self, attempt, first_hit, law_rotation_finds_a_hit, lemma_first_hit, lemma_next_attempt, rested,
};
use crate::routing::{PubSub, RoundRobin, Route, Router, Subscriber};
use vstd::prelude::*;

pub mod laws;
mod targets;
pub use targets::{listed, Targets};

verus! {

/// One ring between a producer and a broker, or between a broker and a consumer.
pub struct Hop<T, B: Backend<T>> {
    link: B::Link,
    rx: B::Rx,
    /// Values that the reader has taken in its current batch. Their slots are free for the
    /// writer once the batch is over.
    unreleased: usize,
}

/// What all endpoints of the channel share.
pub struct Shared<T, B: Backend<T>> {
    /// One ring per producer.
    inputs: Vec<Hop<T, B>>,
    /// One ring per broker and consumer.
    outputs: Vec<Hop<T, B>>,
    /// Producers still there; a broker stops once this is zero and every
    /// producer ring of it is drained.
    live_producers: usize,
}

impl<T, B: Backend<T>> Hop<T, B> {
    /// The ring is consistent, and its receiver knows it.
    pub closed spec fn wf(&self) -> bool {
        self.link.wf() && self.rx.attached(self.link)
    }

    /// The storage of the ring.
    pub closed spec fn link(&self) -> B::Link {
        self.link
    }

    /// Values that are taken, and whose slots are not free yet.
    pub closed spec fn unreleased(&self) -> nat {
        self.unreleased as nat
    }

    /// Values that the reader remembers of its last look at the ring.
    pub closed spec fn known(&self) -> int {
        self.rx.known(self.link)
    }

    /// Values that the reader finds: those that it remembers, or all where it remembers none.
    pub open spec fn found(&self) -> int {
        if self.known() > 0 {
            self.known()
        } else {
            self.link().queue().len() as int
        }
    }

    /// How many values a batch that starts now, with room for `max`, takes at most.
    pub closed spec fn quota(&self, max: int) -> int {
        self.rx.quota(self.link, max)
    }

    /// Whether the ring has a free slot for another value.
    pub open spec fn takes(&self) -> bool {
        &&& self.link().accepts()
        &&& self.link().bound() matches Some(n) ==> self.link().queue().len() + self.unreleased()
            < n
    }
}

impl<T, B: Backend<T>> Shared<T, B> {
    /// The rings from the producers.
    pub closed spec fn inputs(&self) -> Seq<Hop<T, B>> {
        self.inputs@
    }

    /// The rings to the consumers.
    pub closed spec fn outputs(&self) -> Seq<Hop<T, B>> {
        self.outputs@
    }

    /// Producers still there.
    pub closed spec fn live_producers(&self) -> nat {
        self.live_producers as nat
    }

    /// Every ring is consistent.
    pub open spec fn wf(&self) -> bool {
        &&& forall|i: int| 0 <= i < self.inputs().len() ==> (#[trigger] self.inputs()[i]).wf()
        &&& forall|i: int| 0 <= i < self.outputs().len() ==> (#[trigger] self.outputs()[i]).wf()
    }
}

/// A batch takes what the reader finds, as far as there is room for it, and never more than
/// there is room for. So it takes something wherever a ring holds something.
pub proof fn law_batches_take_what_is_there<T, B: Backend<T>>(hop: Hop<T, B>, max: int)
    requires
        hop.wf(),
        0 <= max,
    ensures
        0 <= hop.known() <= hop.link().queue().len(),
        0 <= crate::backend::min(hop.found(), max) <= hop.quota(max) <= max,
        max > 0 && hop.link().queue().len() > 0 ==> hop.quota(max) > 0,
{
    hop.rx.ready_bounds(hop.link);
    hop.rx.quota_bounds(hop.link, max);
}

/// A broker's senders, one per consumer.
pub struct Senders<T, B: Backend<T>> {
    /// The ring to the first consumer; the others follow it.
    base: usize,
    txs: Vec<B::Tx>,
}

impl<T, B: Backend<T>> Senders<T, B> {
    /// The ring to the first consumer.
    pub closed spec fn base(&self) -> int {
        self.base as int
    }

    /// Number of consumers.
    pub closed spec fn fan(&self) -> nat {
        self.txs@.len()
    }

    /// The sender to consumer `k`.
    pub closed spec fn tx(&self, k: int) -> B::Tx {
        self.txs@[k]
    }

    /// The rings exist, and the senders know them.
    pub open spec fn attached(&self, shared: Shared<T, B>) -> bool {
        &&& self.fan() > 0
        &&& self.base() + self.fan() <= shared.outputs().len()
        &&& forall|k: int|
            0 <= k < self.fan() ==> (#[trigger] self.tx(k)).attached(
                shared.outputs()[self.base() + k].link(),
            )
    }

    /// The ring to consumer `k`.
    pub open spec fn link(&self, shared: Shared<T, B>, k: int) -> B::Link {
        shared.outputs()[self.base() + k].link()
    }
}

/// Only ring `k` of the senders may have changed, and of it only what it holds.
pub open spec fn only_output<T, B: Backend<T>>(
    before: Shared<T, B>,
    after: Shared<T, B>,
    id: int,
) -> bool {
    &&& after.inputs() == before.inputs()
    &&& after.live_producers() == before.live_producers()
    &&& after.outputs().len() == before.outputs().len()
    &&& forall|i: int|
        0 <= i < before.outputs().len() && i != id ==> #[trigger] after.outputs()[i]
            == before.outputs()[i]
    &&& after.outputs()[id].link().bound() == before.outputs()[id].link().bound()
    &&& after.outputs()[id].link().producer_gone() == before.outputs()[id].link().producer_gone()
    &&& after.outputs()[id].link().consumer_gone() == before.outputs()[id].link().consumer_gone()
}

/// How an attempt to place a value went.
pub enum Placement<T> {
    /// The value is in the consumer's ring.
    Placed,
    /// The consumer is gone, and the value was dropped.
    Dropped,
    /// The consumer's ring is full.
    Full(T),
}

/// What an attempt to place `item` on ring `k` does.
pub open spec fn forwarded<T, B: Backend<T>>(
    senders: Senders<T, B>,
    before: Shared<T, B>,
    after: Shared<T, B>,
    k: int,
    item: T,
    placement: Placement<T>,
) -> bool {
    let link = senders.link(before, k);
    if link.consumer_gone() {
        placement is Dropped && after.outputs() == before.outputs()
    } else if link.accepts() {
        placement is Placed && senders.link(after, k).queue() == link.queue().push(item)
    } else {
        placement == Placement::Full(item) && after.outputs() == before.outputs()
    }
}

impl<T, B: Backend<T>> Senders<T, B> {
    /// Try to deliver one value to a single consumer, dropping the value if that
    /// consumer is gone.
    pub fn forward_to(&mut self, shared: &mut Shared<T, B>, k: usize, item: T) -> (placement: Placement<
        T,
    >)
        requires
            old(shared).wf(),
            old(self).attached(*old(shared)),
            k < old(self).fan(),
        ensures
            final(shared).wf(),
            final(self).attached(*final(shared)),
            final(self).base() == old(self).base(),
            final(self).fan() == old(self).fan(),
            only_output(*old(shared), *final(shared), old(self).base() + k),
            forwarded(*old(self), *old(shared), *final(shared), k as int, item, placement),
    {
        let ghost before = *shared;
        let ghost was = *self;
        let total: usize = shared.outputs.len();
        let id: usize = self.base + k;
        proof {
            assert(was.tx(k as int).attached(before.outputs()[was.base() + k].link()));
            assert(before.outputs()[id as int].wf());
        }
        if self.txs[k].is_consumer_gone(&shared.outputs[id].link) {
            return Placement::Dropped;
        }
        let hop = &mut shared.outputs[id];
        let pushed = self.txs[k].try_push(&mut hop.link, item);
        proof {
            assert(self.txs@ =~= was.txs@.update(k as int, self.txs@[k as int]));
            assert(shared.outputs@ =~= before.outputs@.update(
                id as int,
                shared.outputs@[id as int],
            ));
            assert forall|i: int| 0 <= i < shared.outputs().len() implies (
            #[trigger] shared.outputs()[i]).wf() by {
                assert(before.outputs()[i].wf());
            }
            assert forall|i: int| 0 <= i < shared.inputs().len() implies (
            #[trigger] shared.inputs()[i]).wf() by {
                assert(before.inputs()[i].wf());
            }
            assert forall|j: int| 0 <= j < self.fan() implies (#[trigger] self.tx(j)).attached(
                shared.outputs()[self.base() + j].link(),
            ) by {
                assert(was.tx(j).attached(before.outputs()[was.base() + j].link()));
            }
            if pushed is Err {
                assert(shared.outputs@ =~= before.outputs@);
            }
        }
        match pushed {
            Ok(()) => Placement::Placed,
            Err(back) => Placement::Full(back),
        }
    }
}


impl<T, B: Backend<T>> Senders<T, B> {
    /// Which consumers are there and take a value.
    pub open spec fn takes(&self, shared: Shared<T, B>) -> spec_fn(int) -> bool {
        |k: int| !self.link(shared, k).consumer_gone() && self.link(shared, k).accepts()
    }

    /// Every consumer is gone.
    pub open spec fn all_gone(&self, shared: Shared<T, B>) -> bool {
        forall|k: int| 0 <= k < self.fan() ==> (#[trigger] self.link(shared, k)).consumer_gone()
    }

    /// The first consumer from `start` on that is there and takes a value.
    pub open spec fn turn(&self, shared: Shared<T, B>, start: int) -> int {
        first_hit(self.takes(shared), start, 0, self.fan() as int)
    }

    /// One rotation from `*cursor` on; skips full consumers and gone ones. Drops
    /// the value only if every consumer is gone.
    pub fn forward_rr(&mut self, shared: &mut Shared<T, B>, cursor: &mut usize, item: T) -> (placement:
        Placement<T>)
        requires
            old(shared).wf(),
            old(self).attached(*old(shared)),
        ensures
            final(shared).wf(),
            final(self).attached(*final(shared)),
            final(self).base() == old(self).base(),
            final(self).fan() == old(self).fan(),
            ({
                let start = *old(cursor) as int;
                let n = old(self).fan() as int;
                let k = old(self).turn(*old(shared), start);
                let taker = attempt(start, k, n);
                &&& *final(cursor) == rested(start, k, n)
                &&& if k < n {
                    &&& placement is Placed
                    &&& 0 <= taker < n
                    &&& only_output(*old(shared), *final(shared), old(self).base() + taker)
                    &&& old(self).link(*final(shared), taker).queue() == old(self).link(
                        *old(shared),
                        taker,
                    ).queue().push(item)
                } else {
                    &&& final(shared).outputs() == old(shared).outputs()
                    &&& final(shared).inputs() == old(shared).inputs()
                    &&& final(shared).live_producers() == old(shared).live_producers()
                    &&& placement == if old(self).all_gone(*old(shared)) {
                        Placement::Dropped
                    } else {
                        Placement::Full(item)
                    }
                }
            }),
    {
        let ghost before = *shared;
        let ghost was = *self;
        let ghost start = *cursor as int;
        let fan: usize = self.txs.len();
        let mut held = item;
        let mut gone: usize = 0;
        let mut k: usize = 0;
        proof {
            law_rotation_finds_a_hit(was.takes(before), start, fan as int);
            lemma_first_hit(was.takes(before), start, 0, fan as int);
        }
        while k < fan
            invariant
                before == *old(shared),
                was == *old(self),
                start == *old(cursor),
                fan == was.fan(),
                fan > 0,
                before.wf(),
                was.attached(before),
                shared.wf(),
                self.attached(*shared),
                self.base() == was.base(),
                self.fan() == was.fan(),
                shared.outputs() == before.outputs(),
                shared.inputs() == before.inputs(),
                shared.live_producers() == before.live_producers(),
                held == item,
                k <= fan,
                gone <= k,
                gone < k ==> exists|j: int|
                    0 <= j < k && !was.link(
                        before,
                        #[trigger] attempt(start, j, fan as int),
                    ).consumer_gone(),
                gone == k ==> forall|j: int|
                    0 <= j < k ==> was.link(
                        before,
                        #[trigger] attempt(start, j, fan as int),
                    ).consumer_gone(),
                was.turn(before, start) == first_hit(
                    was.takes(before),
                    start,
                    k as int,
                    fan as int,
                ),
                k == 0 ==> *cursor == start,
                k > 0 ==> *cursor == attempt(start, k - 1, fan as int) + 1,
            decreases fan - k,
        {
            let c: usize = round_robin::next(cursor, fan);
            proof {
                if k > 0 {
                    lemma_next_attempt(start, k - 1, fan as int);
                }
                lemma_next_attempt(start, k as int, fan as int);
                assert(c == attempt(start, k as int, fan as int));
                assert(was.takes(before)(c as int) == (!was.link(before, c as int).consumer_gone()
                    && was.link(before, c as int).accepts()));
                assert(self.link(*shared, c as int) == was.link(before, c as int));
            }
            if self.is_gone(shared, c) {
                gone = gone + 1;
                assert(was.link(before, attempt(start, k as int, fan as int)).consumer_gone());
            } else {
                assert(!was.link(before, attempt(start, k as int, fan as int)).consumer_gone());
                match self.forward_to(shared, c, held) {
                    Placement::Full(back) => {
                        held = back;
                    },
                    placed => {
                        return placed;
                    },
                }
            }
            k = k + 1;
        }
        proof {
            if was.all_gone(before) {
                if gone < fan {
                    let j = choose|j: int|
                        0 <= j < fan && !was.link(
                            before,
                            #[trigger] attempt(start, j, fan as int),
                        ).consumer_gone();
                    lemma_next_attempt(start, j, fan as int);
                    assert(false);
                }
            } else if gone == fan {
                let c = choose|c: int|
                    0 <= c < was.fan() && !(#[trigger] was.link(before, c)).consumer_gone();
                round_robin::law_rotation_visits_every_slot(start, c, fan as int);
                let j = choose|j: int| 0 <= j < fan && #[trigger] attempt(start, j, fan as int) == c;
                assert(was.link(before, attempt(start, j, fan as int)).consumer_gone());
            }
        }
        if gone == fan {
            return Placement::Dropped;
        }
        Placement::Full(held)
    }

    /// Whether consumer `k` is gone.
    fn is_gone(&self, shared: &Shared<T, B>, k: usize) -> (gone: bool)
        requires
            self.attached(*shared),
            k < self.fan(),
        ensures
            gone == self.link(*shared, k as int).consumer_gone(),
    {
        let total: usize = shared.outputs.len();
        self.txs[k].is_consumer_gone(&shared.outputs[self.base + k].link)
    }
}


/// How one step of a delivery went.
pub enum Advance<P> {
    /// The value has reached every consumer it goes to.
    Done,
    /// One consumer has its value; others wait for theirs.
    More(P),
    /// The next consumer's ring is full.
    Blocked(P),
}

/// A broker's delivery policy.
pub trait Delivery<T, B: Backend<T>>: Sized {
    /// A value on its way.
    type Pending;

    /// Consumers that the policy can tell apart at most; `None` where any number.
    spec fn most_consumers() -> Option<nat>;

    /// The policy knows how many consumers there are.
    spec fn prepared(&self, consumers: nat) -> bool;

    /// The value on its way goes to consumers that exist.
    spec fn fits(pending: Self::Pending, consumers: nat) -> bool;

    /// What binding the policy to so many consumers does.
    spec fn bound_to(was: Self, is: Self, consumers: nat) -> bool;

    /// What starting the delivery of `item` may come to: `None` where it goes nowhere.
    spec fn started(
        was: Self,
        is: Self,
        item: T,
        consumers: nat,
        pending: Option<Self::Pending>,
    ) -> bool;

    /// What one step of a delivery does.
    spec fn advanced(
        was: Self,
        is: Self,
        senders: Senders<T, B>,
        before: Shared<T, B>,
        after: Shared<T, B>,
        pending: Self::Pending,
        outcome: Advance<Self::Pending>,
    ) -> bool;

    /// Consumers that the policy can tell apart at most.
    fn max_consumers() -> (most: Option<usize>)
        ensures
            most matches Some(n) ==> Self::most_consumers() == Some(n as nat),
            most is None ==> Self::most_consumers() is None,
    ;

    /// Bind topology-derived state before any endpoint is published.
    fn prepare(&mut self, consumers: usize)
        ensures
            final(self).prepared(consumers as nat),
            Self::bound_to(*old(self), *final(self), consumers as nat),
    ;

    /// Decide where `item` goes.
    fn start(&mut self, item: T, consumers: usize) -> (pending: Option<Self::Pending>)
        requires
            old(self).prepared(consumers as nat),
            0 < consumers,
        ensures
            final(self).prepared(consumers as nat),
            Self::started(*old(self), *final(self), item, consumers as nat, pending),
            pending matches Some(p) ==> Self::fits(p, consumers as nat),
    ;

    /// Try to place the value on its way on the next ring.
    fn advance(
        &mut self,
        senders: &mut Senders<T, B>,
        shared: &mut Shared<T, B>,
        pending: Self::Pending,
    ) -> (outcome: Advance<Self::Pending>)
        requires
            old(shared).wf(),
            old(senders).attached(*old(shared)),
            old(self).prepared(old(senders).fan()),
            Self::fits(pending, old(senders).fan()),
        ensures
            final(shared).wf(),
            final(senders).attached(*final(shared)),
            final(senders).base() == old(senders).base(),
            final(senders).fan() == old(senders).fan(),
            final(self).prepared(old(senders).fan()),
            outputs_within(*old(shared), *final(shared), old(senders).base(), old(senders).fan()),
            Self::advanced(
                *old(self),
                *final(self),
                *old(senders),
                *old(shared),
                *final(shared),
                pending,
                outcome,
            ),
            outcome matches Advance::More(p) ==> Self::fits(p, old(senders).fan()),
            outcome matches Advance::Blocked(p) ==> Self::fits(p, old(senders).fan()),
    ;
}

/// Only rings from `base` on, `fan` of them, may have changed.
pub open spec fn outputs_within<T, B: Backend<T>>(
    before: Shared<T, B>,
    after: Shared<T, B>,
    base: int,
    fan: nat,
) -> bool {
    &&& after.inputs() == before.inputs()
    &&& after.live_producers() == before.live_producers()
    &&& after.outputs().len() == before.outputs().len()
    &&& forall|i: int|
        0 <= i < before.outputs().len() && !(base <= i < base + fan) ==> #[trigger] after.outputs()[i]
            == before.outputs()[i]
}

impl<T, B: Backend<T>> Delivery<T, B> for RoundRobin {
    type Pending = T;

    open spec fn most_consumers() -> Option<nat> {
        None
    }

    open spec fn prepared(&self, consumers: nat) -> bool {
        true
    }

    open spec fn fits(pending: T, consumers: nat) -> bool {
        true
    }

    open spec fn bound_to(was: Self, is: Self, consumers: nat) -> bool {
        is == was
    }

    open spec fn started(was: Self, is: Self, item: T, consumers: nat, pending: Option<T>) -> bool {
        is == was && pending == Some(item)
    }

    /// The value goes to the first consumer, from the cursor on, that is there and
    /// takes it. It is dropped only if every consumer is gone.
    open spec fn advanced(
        was: Self,
        is: Self,
        senders: Senders<T, B>,
        before: Shared<T, B>,
        after: Shared<T, B>,
        pending: T,
        outcome: Advance<T>,
    ) -> bool {
        let start = was.cursor as int;
        let n = senders.fan() as int;
        let k = senders.turn(before, start);
        let taker = attempt(start, k, n);
        &&& is.cursor == rested(start, k, n)
        &&& if k < n {
            &&& outcome is Done
            &&& only_output(before, after, senders.base() + taker)
            &&& senders.link(after, taker).queue() == senders.link(before, taker).queue().push(
                pending,
            )
        } else {
            &&& after.outputs() == before.outputs()
            &&& outcome == if senders.all_gone(before) {
                Advance::Done
            } else {
                Advance::Blocked(pending)
            }
        }
    }

    fn max_consumers() -> Option<usize> {
        None
    }

    fn prepare(&mut self, consumers: usize) {
    }

    fn start(&mut self, item: T, consumers: usize) -> Option<T> {
        Some(item)
    }

    fn advance(
        &mut self,
        senders: &mut Senders<T, B>,
        shared: &mut Shared<T, B>,
        pending: T,
    ) -> Advance<T> {
        match senders.forward_rr(shared, &mut self.cursor, pending) {
            Placement::Full(back) => Advance::Blocked(back),
            _ => Advance::Done,
        }
    }
}

impl<F> Route<F> {
    /// What a chosen target selects: numbers beyond the consumers wrap around.
    pub fn select(target: usize, consumers: usize) -> (consumer: usize)
        requires
            0 < consumers,
        ensures
            consumer == target % consumers,
            consumer < consumers,
    {
        target % consumers
    }
}

impl<T, B: Backend<T>, F: Router<T>> Delivery<T, B> for Route<F> {
    type Pending = (usize, T);

    open spec fn most_consumers() -> Option<nat> {
        None
    }

    open spec fn prepared(&self, consumers: nat) -> bool {
        true
    }

    open spec fn fits(pending: (usize, T), consumers: nat) -> bool {
        pending.0 < consumers
    }

    open spec fn bound_to(was: Self, is: Self, consumers: nat) -> bool {
        is == was
    }

    /// The router is asked once, and what it says wraps around the consumers.
    open spec fn started(
        was: Self,
        is: Self,
        item: T,
        consumers: nat,
        pending: Option<(usize, T)>,
    ) -> bool {
        pending matches Some(p) && p.1 == item && exists|target: usize|
            #[trigger] F::chooses(was.router, is.router, item, consumers, target) && p.0
                == target as int % consumers as int
    }

    /// The value goes to the chosen consumer, and is dropped if that one is gone.
    open spec fn advanced(
        was: Self,
        is: Self,
        senders: Senders<T, B>,
        before: Shared<T, B>,
        after: Shared<T, B>,
        pending: (usize, T),
        outcome: Advance<(usize, T)>,
    ) -> bool {
        let k = pending.0 as int;
        let link = senders.link(before, k);
        &&& is == was
        &&& only_output(before, after, senders.base() + k)
        &&& if link.consumer_gone() {
            outcome is Done && after.outputs() == before.outputs()
        } else if link.accepts() {
            outcome is Done && senders.link(after, k).queue() == link.queue().push(pending.1)
        } else {
            outcome == Advance::Blocked(pending) && after.outputs() == before.outputs()
        }
    }

    fn max_consumers() -> Option<usize> {
        None
    }

    fn prepare(&mut self, consumers: usize) {
    }

    fn start(&mut self, item: T, consumers: usize) -> Option<(usize, T)> {
        let ghost was = *self;
        let target: usize = self.router.target(&item, consumers);
        assert(F::chooses(was.router, self.router, item, consumers as nat, target));
        Some((Route::<F>::select(target, consumers), item))
    }

    fn advance(
        &mut self,
        senders: &mut Senders<T, B>,
        shared: &mut Shared<T, B>,
        pending: (usize, T),
    ) -> Advance<(usize, T)> {
        let (target, item) = pending;
        match senders.forward_to(shared, target, item) {
            Placement::Full(back) => Advance::Blocked((target, back)),
            _ => Advance::Done,
        }
    }
}


/// A value on its way to several consumers.
pub struct Spread<T> {
    /// The consumers that still wait for it.
    pub mask: u64,
    /// The value, which the last of them gets.
    pub item: T,
    /// The copy made for the first of them, where its ring was full.
    pub copy: Option<T>,
}

impl<F> PubSub<F> {
    /// Whether the policy knows that there are so many consumers.
    pub open spec fn knows(&self, consumers: nat) -> bool {
        forall|j: int|
            #[trigger]
            bit_set(self.consumer_mask, j) <==> 0 <= j < consumers && j < 64
    }

    /// What a chosen set selects: those of its members that exist. The value is
    /// dropped where that is nobody.
    pub fn select<T>(&self, targets: Targets, item: T, consumers: usize) -> (spread: Option<
        Spread<T>,
    >)
        requires
            self.knows(consumers as nat),
        ensures
            selected(targets, item, consumers as nat, spread),
    {
        let mask: u64 = bits::common(targets.bits(), self.consumer_mask);
        proof {
            assert forall|j: int| #[trigger] bit_set(mask, j) <==> targets.has(j) && 0 <= j
                < consumers by {
                assert(bit_set(self.consumer_mask, j) <==> 0 <= j < consumers && j < 64);
            }
            lemma_empty_mask(mask);
        }
        if mask == 0 {
            assert forall|j: int| !(targets.has(j) && 0 <= j < consumers) by {
                assert(!bit_set(mask, j));
            }
            return None;
        }
        proof {
            let w = choose|j: int| #[trigger] bit_set(mask, j);
            assert(targets.has(w) && 0 <= w < consumers);
        }
        Some(Spread { mask, item, copy: None })
    }
}

/// What the delivery of `item` to `targets` starts with.
pub open spec fn selected<T>(
    targets: Targets,
    item: T,
    consumers: nat,
    spread: Option<Spread<T>>,
) -> bool {
    match spread {
        None => forall|j: int| !(#[trigger] targets.has(j) && 0 <= j < consumers),
        Some(s) => {
            &&& s.item == item
            &&& s.copy is None
            &&& s.mask != 0
            &&& forall|j: int|
                #[trigger]
                bit_set(s.mask, j) <==> targets.has(j) && 0 <= j < consumers
        },
    }
}


impl<T: Clone, B: Backend<T>, F: Subscriber<T>> Delivery<T, B> for PubSub<F> {
    type Pending = Spread<T>;

    open spec fn most_consumers() -> Option<nat> {
        Some(64)
    }

    open spec fn prepared(&self, consumers: nat) -> bool {
        self.knows(consumers)
    }

    open spec fn fits(pending: Spread<T>, consumers: nat) -> bool {
        &&& pending.mask != 0
        &&& forall|j: int| #[trigger] bit_set(pending.mask, j) ==> 0 <= j < consumers
    }

    open spec fn bound_to(was: Self, is: Self, consumers: nat) -> bool {
        is.subscribe == was.subscribe && is.knows(consumers)
    }

    /// The subscriber is asked once, and those that it names and that exist are served.
    open spec fn started(
        was: Self,
        is: Self,
        item: T,
        consumers: nat,
        pending: Option<Spread<T>>,
    ) -> bool {
        &&& is.consumer_mask == was.consumer_mask
        &&& exists|targets: Targets|
            #[trigger] F::selects(was.subscribe, is.subscribe, item, consumers, targets)
                && selected(targets, item, consumers, pending)
    }

    /// Consumers get their values in ascending order. The last one gets the value
    /// itself, the others a copy; a consumer that is gone is passed over.
    open spec fn advanced(
        was: Self,
        is: Self,
        senders: Senders<T, B>,
        before: Shared<T, B>,
        after: Shared<T, B>,
        pending: Spread<T>,
        outcome: Advance<Spread<T>>,
    ) -> bool {
        &&& is == was
        &&& exists|k: int|
            {
                &&& #[trigger] is_lowest(pending.mask, k)
                &&& only_output(before, after, senders.base() + k)
                &&& spread_step(senders, before, after, k, pending, outcome)
            }
    }

    fn max_consumers() -> Option<usize> {
        Some(64)
    }

    fn prepare(&mut self, consumers: usize) {
        let all = Targets::all(consumers);
        self.consumer_mask = all.bits();
        assert forall|j: int|
            #[trigger] bit_set(self.consumer_mask, j) <==> 0 <= j < consumers && j < 64 by {
            assert(all.has(j) <==> 0 <= j < consumers && j < 64);
        }
    }

    fn start(&mut self, item: T, consumers: usize) -> Option<Spread<T>> {
        let ghost was = *self;
        let targets = self.subscribe.targets(&item, consumers);
        assert(F::selects(was.subscribe, self.subscribe, item, consumers as nat, targets));
        let spread = self.select(targets, item, consumers);
        assert(selected(targets, item, consumers as nat, spread));
        spread
    }

    fn advance(
        &mut self,
        senders: &mut Senders<T, B>,
        shared: &mut Shared<T, B>,
        pending: Spread<T>,
    ) -> Advance<Spread<T>> {
        let Spread { mask, item, copy } = pending;
        let (index, rest) = split_lowest(mask);
        proof {
            assert(is_lowest(mask, index as int));
            lemma_empty_mask(rest);
        }
        let ghost k = index as int;
        if rest == 0 {
            proof {
                assert forall|j: int| #[trigger] bit_set(mask, j) implies j == k by {
                    assert(!bit_set(rest, j));
                }
                assert(given_to(pending, k, item));
            }
            return match senders.forward_to(shared, index, item) {
                Placement::Full(back) => Advance::Blocked(Spread { mask, item: back, copy }),
                _ => Advance::Done,
            };
        }
        let given = match copy {
            Some(copy) => copy,
            None => item.clone(),
        };
        proof {
            let w = choose|j: int| #[trigger] bit_set(rest, j);
            assert(bit_set(mask, w) && w != k);
            assert forall|j: int| #[trigger] bit_set(rest, j) implies 0 <= j < senders.fan() by {
                assert(bit_set(mask, j));
            }
            assert(given_to(pending, k, given));
        }
        match senders.forward_to(shared, index, given) {
            Placement::Full(back) => Advance::Blocked(Spread { mask, item, copy: Some(back) }),
            _ => Advance::More(Spread { mask: rest, item, copy: None }),
        }
    }
}

/// `k` is the lowest member of a mask.
pub open spec fn is_lowest(mask: u64, k: int) -> bool {
    bit_set(mask, k) && forall|j: int| 0 <= j < k ==> !bit_set(mask, j)
}

/// What consumer `k` gets out of a value on its way: what was already made for it, the
/// value itself where it is the last one, and a copy otherwise.
pub open spec fn given_to<T: Clone>(pending: Spread<T>, k: int, given: T) -> bool {
    if forall|j: int| #[trigger] bit_set(pending.mask, j) ==> j == k {
        given == pending.item
    } else {
        match pending.copy {
            Some(copy) => given == copy,
            None => cloned(pending.item, given),
        }
    }
}

/// What one step of a delivery to several consumers does, consumer `k` being next.
pub open spec fn spread_step<T: Clone, B: Backend<T>>(
    senders: Senders<T, B>,
    before: Shared<T, B>,
    after: Shared<T, B>,
    k: int,
    pending: Spread<T>,
    outcome: Advance<Spread<T>>,
) -> bool {
    let link = senders.link(before, k);
    let last = forall|j: int| #[trigger] bit_set(pending.mask, j) ==> j == k;
    &&& if link.consumer_gone() {
        after.outputs() == before.outputs() && outcome !is Blocked
    } else if link.accepts() {
        &&& outcome !is Blocked
        &&& exists|given: T| #[trigger]
            given_to(pending, k, given) && senders.link(after, k).queue() == link.queue().push(given)
    } else {
        &&& after.outputs() == before.outputs()
        &&& outcome matches Advance::Blocked(p) && {
            &&& p.mask == pending.mask
            &&& p.item == pending.item
            &&& !last ==> (p.copy matches Some(copy) && given_to(pending, k, copy))
        }
    }
    &&& outcome is Done ==> last
    &&& outcome matches Advance::More(p) ==> {
        &&& !last
        &&& p.item == pending.item
        &&& p.copy is None
        &&& forall|j: int|
            #[trigger]
            bit_set(p.mask, j) <==> bit_set(pending.mask, j) && j != k
    }
}


/// A producer half: one ring into the broker. Never contends with other producers.
pub struct Producer<T, B: Backend<T>> {
    input: usize,
    tx: B::Tx,
}

/// A consumer half: one ring out of every broker.
pub struct Consumer {
    outputs: Vec<usize>,
    /// Round-robin scan position across the rings.
    cursor: usize,
}

impl<T, B: Backend<T>> Producer<T, B> {
    /// The ring that this producer fills.
    pub closed spec fn input(&self) -> int {
        self.input as int
    }

    /// The ring exists, and the sender knows it.
    pub closed spec fn attached(&self, shared: Shared<T, B>) -> bool {
        &&& self.input < shared.inputs().len()
        &&& self.tx.attached(shared.inputs()[self.input as int].link())
    }
}

impl<T, B: Backend<T>> Shared<T, B> {
    /// Every producer is as attached as it was.
    pub open spec fn keeps_producers(&self, before: &Self) -> bool {
        forall|p: Producer<T, B>| #[trigger] p.attached(*before) ==> p.attached(*self)
    }

    /// Every producer of another ring is as attached as it was.
    pub open spec fn keeps_other_producers(&self, before: &Self, input: int) -> bool {
        forall|p: Producer<T, B>|
            p.input() != input && #[trigger] p.attached(*before) ==> p.attached(*self)
    }

    /// Every broker's senders are as attached as they were.
    pub open spec fn keeps_senders(&self, before: &Self) -> bool {
        forall|s: Senders<T, B>| #[trigger] s.attached(*before) ==> s.attached(*self)
    }
}

/// Only input ring `id` may have changed, and of it only what it holds.
pub open spec fn only_input<T, B: Backend<T>>(
    before: Shared<T, B>,
    after: Shared<T, B>,
    id: int,
) -> bool {
    &&& after.outputs() == before.outputs()
    &&& after.live_producers() == before.live_producers()
    &&& after.inputs().len() == before.inputs().len()
    &&& forall|i: int|
        0 <= i < before.inputs().len() && i != id ==> #[trigger] after.inputs()[i]
            == before.inputs()[i]
    &&& after.inputs()[id].link().bound() == before.inputs()[id].link().bound()
    &&& after.inputs()[id].link().producer_gone() == before.inputs()[id].link().producer_gone()
    &&& after.inputs()[id].link().consumer_gone() == before.inputs()[id].link().consumer_gone()
}

impl<T, B: Backend<T>> Producer<T, B> {
    /// Non-blocking send. Returns the value back when the broker ring is full or
    /// every broker endpoint for this producer has gone away.
    pub fn try_send(&mut self, shared: &mut Shared<T, B>, v: T) -> (result: Result<(), T>)
        requires
            old(shared).wf(),
            old(self).attached(*old(shared)),
        ensures
            final(shared).wf(),
            final(self).attached(*final(shared)),
            final(self).input() == old(self).input(),
            only_input(*old(shared), *final(shared), old(self).input()),
            ({
                let hop = old(shared).inputs()[old(self).input()];
                let link = hop.link();
                let now = final(shared).inputs()[old(self).input()].link();
                &&& final(shared).inputs()[old(self).input()].unreleased() == hop.unreleased()
                &&& final(shared).inputs()[old(self).input()].known() == hop.known()
                &&& result is Ok <==> hop.takes() && !link.consumer_gone()
                &&& result is Ok ==> now.queue() == link.queue().push(v)
                &&& result matches Err(back) ==> back == v && now == link
            }),
            final(shared).keeps_other_producers(old(shared), old(self).input()),
            final(shared).keeps_senders(old(shared)),
    {
        let ghost before = *shared;
        let ghost id = self.input as int;
        proof {
            assert(before.inputs()[id].wf());
        }
        if self.tx.is_consumer_gone(&shared.inputs[self.input].link) {
            return Err(v);
        }
        if let Some(spare) = self.tx.spare(&shared.inputs[self.input].link) {
            if spare <= shared.inputs[self.input].unreleased {
                return Err(v);
            }
        }
        let hop = &mut shared.inputs[self.input];
        let result = self.tx.try_push(&mut hop.link, v);
        proof {
            lemma_input_moved(before, *shared, id);
        }
        result
    }

    /// One attempt of a blocking send, which waits while this producer's ring is full.
    /// The value is dropped if its broker is gone.
    pub fn send(&mut self, shared: &mut Shared<T, B>, backoff: &mut Backoff, v: T) -> (step:
        SendStep<T>)
        requires
            old(shared).wf(),
            old(self).attached(*old(shared)),
        ensures
            final(shared).wf(),
            final(self).attached(*final(shared)),
            final(self).input() == old(self).input(),
            only_input(*old(shared), *final(shared), old(self).input()),
            ({
                let hop = old(shared).inputs()[old(self).input()];
                let link = hop.link();
                let now = final(shared).inputs()[old(self).input()].link();
                &&& final(shared).inputs()[old(self).input()].unreleased() == hop.unreleased()
                &&& final(shared).inputs()[old(self).input()].known() == hop.known()
                &&& step is Discarded <==> link.consumer_gone()
                &&& step is Sent <==> !link.consumer_gone() && hop.takes()
                &&& step is Sent ==> now.queue() == link.queue().push(v)
                &&& step !is Sent ==> now == link
            }),
            step matches SendStep::Wait(back, pause) ==> back == v && final(backoff).spins
                == counted(old(backoff).spins) && pause == pause_after(final(backoff).spins as int),
            step !is Wait ==> *final(backoff) == *old(backoff),
            final(shared).keeps_other_producers(old(shared), old(self).input()),
            final(shared).keeps_senders(old(shared)),
    {
        if self.tx.is_consumer_gone(&shared.inputs[self.input].link) {
            return SendStep::Discarded;
        }
        match self.try_send(shared, v) {
            Ok(()) => SendStep::Sent,
            Err(back) => SendStep::Wait(back, backoff.pause()),
        }
    }

    /// This producer leaves; what it has sent stays in its ring.
    pub fn disconnect(self, shared: &mut Shared<T, B>)
        requires
            old(shared).wf(),
            self.attached(*old(shared)),
            old(shared).live_producers() > 0,
        ensures
            final(shared).wf(),
            final(shared).live_producers() == old(shared).live_producers() - 1,
            final(shared).outputs() == old(shared).outputs(),
            final(shared).inputs().len() == old(shared).inputs().len(),
            final(shared).inputs()[self.input()].link().producer_gone(),
            final(shared).inputs()[self.input()].link().queue() == old(shared).inputs()[self.input()].link().queue(),
            final(shared).inputs()[self.input()].link().consumer_gone() == old(shared).inputs()[self.input()].link().consumer_gone(),
            final(shared).inputs()[self.input()].link().bound() == old(shared).inputs()[self.input()].link().bound(),
            final(shared).inputs()[self.input()].unreleased() == old(shared).inputs()[self.input()].unreleased(),
            final(shared).inputs()[self.input()].known() == old(shared).inputs()[self.input()].known(),
            forall|i: int|
                0 <= i < old(shared).inputs().len() && i != self.input() ==> #[trigger] final(shared).inputs()[i] == old(shared).inputs()[i],
            final(shared).keeps_other_producers(old(shared), self.input()),
            final(shared).keeps_senders(old(shared)),
    {
        let ghost before = *shared;
        let ghost id = self.input as int;
        proof {
            assert(before.inputs()[id].wf());
        }
        let mut tx = self.tx;
        let hop = &mut shared.inputs[self.input];
        tx.close(&mut hop.link);
        let ghost closed_link = *shared;
        shared.live_producers = shared.live_producers - 1;
        proof {
            lemma_input_moved(before, *shared, id);
        }
    }
}

proof fn lemma_input_moved<T, B: Backend<T>>(before: Shared<T, B>, after: Shared<T, B>, id: int)
    requires
        before.wf(),
        0 <= id < before.inputs().len(),
        after.outputs() == before.outputs(),
        after.inputs() == before.inputs().update(id, after.inputs()[id]),
        after.inputs()[id].wf(),
    ensures
        after.wf(),
        after.keeps_other_producers(&before, id),
        after.keeps_senders(&before),
{
    assert forall|i: int| 0 <= i < after.inputs().len() implies (
    #[trigger] after.inputs()[i]).wf() by {
        assert(before.inputs()[i].wf());
    }
    assert forall|i: int| 0 <= i < after.outputs().len() implies (
    #[trigger] after.outputs()[i]).wf() by {
        assert(before.outputs()[i].wf());
    }
    assert forall|s: Senders<T, B>| #[trigger] s.attached(before) implies s.attached(after) by {
        assert forall|k: int| 0 <= k < s.fan() implies (#[trigger] s.tx(k)).attached(
            after.outputs()[s.base() + k].link(),
        ) by {
            assert(s.tx(k).attached(before.outputs()[s.base() + k].link()));
        }
    }
}

/// A ring that holds what it held, for the same endpoints.
pub open spec fn same_hop<T, B: Backend<T>>(before: Hop<T, B>, after: Hop<T, B>) -> bool {
    &&& after.link().queue() == before.link().queue()
    &&& after.link().accepts() == before.link().accepts()
    &&& after.link().bound() == before.link().bound()
    &&& after.link().producer_gone() == before.link().producer_gone()
    &&& after.link().consumer_gone() == before.link().consumer_gone()
}

/// Every ring holds what it held.
pub open spec fn same_queues<T, B: Backend<T>>(before: Shared<T, B>, after: Shared<T, B>) -> bool {
    &&& after.inputs() == before.inputs()
    &&& after.live_producers() == before.live_producers()
    &&& after.outputs().len() == before.outputs().len()
    &&& forall|i: int|
        0 <= i < before.outputs().len() ==> #[trigger] same_hop(
            before.outputs()[i],
            after.outputs()[i],
        )
}

/// Every ring but output ring `id` holds what it held.
pub open spec fn same_but_output<T, B: Backend<T>>(
    before: Shared<T, B>,
    after: Shared<T, B>,
    id: int,
) -> bool {
    &&& after.inputs() == before.inputs()
    &&& after.live_producers() == before.live_producers()
    &&& after.outputs().len() == before.outputs().len()
    &&& forall|i: int|
        0 <= i < before.outputs().len() && i != id ==> #[trigger] same_hop(
            before.outputs()[i],
            after.outputs()[i],
        )
    &&& after.outputs()[id].link().bound() == before.outputs()[id].link().bound()
    &&& after.outputs()[id].link().producer_gone() == before.outputs()[id].link().producer_gone()
    &&& after.outputs()[id].link().consumer_gone() == before.outputs()[id].link().consumer_gone()
}

proof fn lemma_output_popped<T, B: Backend<T>>(before: Shared<T, B>, after: Shared<T, B>, id: int)
    requires
        before.wf(),
        0 <= id < before.outputs().len(),
        after.inputs() == before.inputs(),
        after.outputs() == before.outputs().update(id, after.outputs()[id]),
        after.outputs()[id].wf(),
        forall|tx: B::Tx| #[trigger]
            tx.attached(before.outputs()[id].link()) ==> tx.attached(after.outputs()[id].link()),
    ensures
        after.wf(),
        after.keeps_producers(&before),
        after.keeps_senders(&before),
{
    assert forall|i: int| 0 <= i < after.outputs().len() implies (
    #[trigger] after.outputs()[i]).wf() by {
        assert(before.outputs()[i].wf());
    }
    assert forall|i: int| 0 <= i < after.inputs().len() implies (
    #[trigger] after.inputs()[i]).wf() by {
        assert(before.inputs()[i].wf());
    }
    assert forall|s: Senders<T, B>| #[trigger] s.attached(before) implies s.attached(after) by {
        assert forall|k: int| 0 <= k < s.fan() implies (#[trigger] s.tx(k)).attached(
            after.outputs()[s.base() + k].link(),
        ) by {
            assert(s.tx(k).attached(before.outputs()[s.base() + k].link()));
        }
    }
}

impl Consumer {
    /// The rings that this consumer reads.
    pub closed spec fn outputs(&self) -> Seq<usize> {
        self.outputs@
    }

    /// Where the next look at the rings starts.
    pub closed spec fn cursor(&self) -> int {
        self.cursor as int
    }

    /// The rings exist.
    pub open spec fn attached<T, B: Backend<T>>(&self, shared: Shared<T, B>) -> bool {
        forall|k: int|
            0 <= k < self.outputs().len() ==> #[trigger] self.outputs()[k] < shared.outputs().len()
    }

    /// Which of this consumer's rings have values.
    pub open spec fn filled<T, B: Backend<T>>(&self, shared: Shared<T, B>) -> spec_fn(int) -> bool {
        |k: int| shared.outputs()[self.outputs()[k] as int].link().queue().len() > 0
    }

    /// Some ring of this consumer has a value.
    pub open spec fn any_filled<T, B: Backend<T>>(&self, shared: Shared<T, B>) -> bool {
        exists|k: int| 0 <= k < self.outputs().len() && #[trigger] self.filled(shared)(k)
    }

    /// Every broker has finished and this consumer's rings are drained.
    pub open spec fn finished<T, B: Backend<T>>(&self, shared: Shared<T, B>) -> bool {
        forall|k: int|
            0 <= k < self.outputs().len() ==> {
                let link = shared.outputs()[#[trigger] self.outputs()[k] as int].link();
                link.producer_gone() && link.queue().len() == 0
            }
    }

    /// Non-blocking receive: round-robins this consumer's per-broker rings.
    pub fn try_recv<T, B: Backend<T>>(&mut self, shared: &mut Shared<T, B>) -> (value: Option<T>)
        requires
            old(shared).wf(),
            old(self).attached(*old(shared)),
        ensures
            final(shared).wf(),
            final(self).attached(*final(shared)),
            final(self).outputs() == old(self).outputs(),
            value is Some <==> old(self).any_filled(*old(shared)),
            ({
                let start = old(self).cursor();
                let n = old(self).outputs().len() as int;
                let k = first_hit(old(self).filled(*old(shared)), start, 0, n);
                let id = old(self).outputs()[attempt(start, k, n)] as int;
                &&& final(self).cursor() == rested(start, k, n)
                &&& value matches Some(v) ==> {
                    let queue = old(shared).outputs()[id].link().queue();
                    &&& k < n
                    &&& v == queue[0]
                    &&& same_but_output(*old(shared), *final(shared), id)
                    &&& final(shared).outputs()[id].link().queue() == queue.skip(1)
                }
                &&& value is None ==> same_queues(*old(shared), *final(shared))
            }),
            final(shared).keeps_producers(old(shared)),
            final(shared).keeps_senders(old(shared)),
    {
        let ghost before = *shared;
        let ghost was = *self;
        let ghost start = self.cursor as int;
        let n: usize = self.outputs.len();
        let ghost hit = was.filled(before);
        proof {
            law_rotation_finds_a_hit(hit, start, n as int);
            lemma_first_hit(hit, start, 0, n as int);
        }
        let mut i: usize = 0;
        while i < n
            invariant
                before == *old(shared),
                was == *old(self),
                hit == was.filled(before),
                start == was.cursor,
                n == was.outputs@.len(),
                self.outputs == was.outputs,
                i <= n,
                before.wf(),
                shared.wf(),
                was.attached(before),
                same_queues(before, *shared),
                shared.keeps_producers(&before),
                shared.keeps_senders(&before),
                first_hit(hit, start, 0, n as int) == first_hit(hit, start, i as int, n as int),
                first_hit(hit, start, 0, n as int) < n <==> was.any_filled(before),
                i == 0 ==> self.cursor == start,
                i > 0 ==> self.cursor == attempt(start, i - 1, n as int) + 1,
            decreases n - i,
        {
            let at: usize = round_robin::next(&mut self.cursor, n);
            let ghost entry = *shared;
            let id: usize = self.outputs[at];
            proof {
                if i > 0 {
                    lemma_next_attempt(start, i - 1, n as int);
                }
                assert(at == attempt(start, i as int, n as int));
                assert(was.outputs()[at as int] < before.outputs().len());
                assert(entry.outputs()[id as int].wf());
                assert(same_hop(before.outputs()[id as int], entry.outputs()[id as int]));
                assert(hit(at as int) == (before.outputs()[id as int].link().queue().len() > 0));
            }
            let hop = &mut shared.outputs[id];
            let popped = hop.rx.try_pop(&mut hop.link);
            proof {
                lemma_output_popped(entry, *shared, id as int);
                assert forall|p: Producer<T, B>| #[trigger] p.attached(before) implies p.attached(
                    *shared,
                ) by {
                    assert(p.attached(entry));
                }
                assert forall|s: Senders<T, B>| #[trigger] s.attached(before) implies s.attached(
                    *shared,
                ) by {
                    assert(s.attached(entry));
                }
                assert forall|j: int|
                    0 <= j < before.outputs().len() && j != id implies #[trigger] same_hop(
                    before.outputs()[j],
                    shared.outputs()[j],
                ) by {
                    assert(same_hop(before.outputs()[j], entry.outputs()[j]));
                }
            }
            if let Some(v) = popped {
                return Some(v);
            }
            i = i + 1;
        }
        None
    }
}


impl Consumer {
    /// True once every broker has finished AND this consumer's rings are
    /// drained — nothing more can ever arrive.
    pub fn is_disconnected<T, B: Backend<T>>(&self, shared: &Shared<T, B>) -> (gone: bool)
        requires
            shared.wf(),
            self.attached(*shared),
        ensures
            gone == self.finished(*shared),
    {
        let mut k: usize = 0;
        while k < self.outputs.len()
            invariant
                k <= self.outputs@.len(),
                shared.wf(),
                self.attached(*shared),
                forall|j: int|
                    0 <= j < k ==> {
                        let link = shared.outputs()[#[trigger] self.outputs()[j] as int].link();
                        link.producer_gone() && link.queue().len() == 0
                    },
            decreases self.outputs@.len() - k,
        {
            let id: usize = self.outputs[k];
            proof {
                assert(self.outputs()[k as int] < shared.outputs().len());
                assert(shared.outputs()[id as int].wf());
            }
            let hop = &shared.outputs[id];
            if !hop.rx.is_finished(&hop.link) {
                return false;
            }
            k = k + 1;
        }
        true
    }

    /// One attempt of a blocking receive. It ends once every broker has finished and
    /// this consumer's rings are drained.
    pub fn recv<T, B: Backend<T>>(&mut self, shared: &mut Shared<T, B>, backoff: &mut Backoff) -> (step:
        RecvStep<T>)
        requires
            old(shared).wf(),
            old(self).attached(*old(shared)),
        ensures
            final(shared).wf(),
            final(self).attached(*final(shared)),
            final(self).outputs() == old(self).outputs(),
            step is Value <==> old(self).any_filled(*old(shared)),
            step is Finished <==> old(self).finished(*old(shared)),
            ({
                let start = old(self).cursor();
                let n = old(self).outputs().len() as int;
                let k = first_hit(old(self).filled(*old(shared)), start, 0, n);
                let id = old(self).outputs()[attempt(start, k, n)] as int;
                &&& final(self).cursor() == rested(start, k, n)
                &&& step matches RecvStep::Value(v) ==> {
                    let queue = old(shared).outputs()[id].link().queue();
                    &&& k < n
                    &&& v == queue[0]
                    &&& same_but_output(*old(shared), *final(shared), id)
                    &&& final(shared).outputs()[id].link().queue() == queue.skip(1)
                }
                &&& step !is Value ==> same_queues(*old(shared), *final(shared))
            }),
            step matches RecvStep::Wait(pause) ==> pause == pause_after(
                counted(old(backoff).spins) as int,
            ) && final(backoff).spins == if pause == Pause::Yield {
                0
            } else {
                counted(old(backoff).spins)
            },
            step !is Wait ==> *final(backoff) == *old(backoff),
            final(shared).keeps_producers(old(shared)),
            final(shared).keeps_senders(old(shared)),
    {
        let ghost before = *shared;
        let ghost was = *self;
        if let Some(v) = self.try_recv(shared) {
            proof {
                let k = choose|k: int| 0 <= k < was.outputs().len() && #[trigger] was.filled(before)(k);
                assert(before.outputs()[was.outputs()[k] as int].link().queue().len() > 0);
            }
            return RecvStep::Value(v);
        }
        proof {
            assert forall|k: int| 0 <= k < was.outputs().len() implies same_hop(
                before.outputs()[#[trigger] was.outputs()[k] as int],
                shared.outputs()[was.outputs()[k] as int],
            ) by {
                assert(was.outputs()[k] < before.outputs().len());
            }
            assert(self.finished(*shared) == was.finished(before));
        }
        if self.is_disconnected(shared) {
            return RecvStep::Finished;
        }
        RecvStep::Wait(backoff.pause_and_restart())
    }
}

/// A ring whose receiver has left: what its storage does not keep is dropped, and the sender
/// can see it.
pub open spec fn left<T, B: Backend<T>>(before: Hop<T, B>, after: Hop<T, B>) -> bool {
    &&& after.link().consumer_gone()
    &&& after.link().queue() == B::Rx::remains(before.link())
    &&& after.link().bound() == before.link().bound()
    &&& after.link().producer_gone() == before.link().producer_gone()
    &&& after.unreleased() == 0
}

impl<T, B: Backend<T>> Hop<T, B> {
    /// The receiver leaves.
    fn leave(&mut self)
        requires
            old(self).wf(),
        ensures
            final(self).wf(),
            left(*old(self), *final(self)),
            forall|tx: B::Tx| #[trigger]
                tx.attached(old(self).link()) ==> tx.attached(final(self).link()),
    {
        self.rx.leave(&mut self.link);
        self.unreleased = 0;
    }
}

impl Consumer {
    /// This consumer leaves. What it has not received is lost, and the brokers can see that
    /// it is gone.
    pub fn disconnect<T, B: Backend<T>>(self, shared: &mut Shared<T, B>)
        requires
            old(shared).wf(),
            self.attached(*old(shared)),
        ensures
            final(shared).wf(),
            final(shared).inputs() == old(shared).inputs(),
            final(shared).live_producers() == old(shared).live_producers(),
            final(shared).outputs().len() == old(shared).outputs().len(),
            forall|k: int|
                0 <= k < self.outputs().len() ==> {
                    let id = #[trigger] self.outputs()[k] as int;
                    left(old(shared).outputs()[id], final(shared).outputs()[id])
                },
            forall|i: int|
                0 <= i < old(shared).outputs().len() && !among(self.outputs(), i)
                    ==> #[trigger] final(shared).outputs()[i] == old(shared).outputs()[i],
            final(shared).keeps_producers(old(shared)),
            final(shared).keeps_senders(old(shared)),
    {
        let ghost before = *shared;
        let n: usize = self.outputs.len();
        let mut k: usize = 0;
        while k < n
            invariant
                before == *old(shared),
                before.wf(),
                shared.wf(),
                n == self.outputs@.len(),
                self.attached(before),
                k <= n,
                shared.inputs() == before.inputs(),
                shared.live_producers() == before.live_producers(),
                shared.outputs().len() == before.outputs().len(),
                forall|j: int|
                    0 <= j < k ==> {
                        let id = #[trigger] self.outputs()[j] as int;
                        left(before.outputs()[id], shared.outputs()[id])
                    },
                forall|i: int|
                    0 <= i < before.outputs().len() ==> (shared.outputs()[i]
                        == before.outputs()[i] || left(
                        before.outputs()[i],
                        #[trigger] shared.outputs()[i],
                    )),
                forall|i: int|
                    0 <= i < before.outputs().len() && !among(self.outputs(), i)
                        ==> #[trigger] shared.outputs()[i] == before.outputs()[i],
                shared.keeps_producers(&before),
                shared.keeps_senders(&before),
            decreases n - k,
        {
            let ghost entry = *shared;
            let id: usize = self.outputs[k];
            proof {
                assert(self.outputs()[k as int] < before.outputs().len());
                assert(among(self.outputs(), id as int));
                assert(entry.outputs()[id as int].wf());
            }
            let hop = &mut shared.outputs[id];
            hop.leave();
            proof {
                lemma_output_popped(entry, *shared, id as int);
                assert forall|p: Producer<T, B>| #[trigger] p.attached(before) implies p.attached(
                    *shared,
                ) by {
                    assert(p.attached(entry));
                }
                assert forall|s: Senders<T, B>| #[trigger] s.attached(before) implies s.attached(
                    *shared,
                ) by {
                    assert(s.attached(entry));
                }
                assert(left(before.outputs()[id as int], shared.outputs()[id as int])) by {
                    assert(left(entry.outputs()[id as int], shared.outputs()[id as int]));
                    if entry.outputs()[id as int] != before.outputs()[id as int] {
                        assert(left(before.outputs()[id as int], entry.outputs()[id as int]));
                        B::Rx::remains_settle(
                            before.outputs()[id as int].link(),
                            entry.outputs()[id as int].link(),
                        );
                    }
                }
                assert forall|j: int| 0 <= j < k + 1 implies {
                    let id = #[trigger] self.outputs()[j] as int;
                    left(before.outputs()[id], shared.outputs()[id])
                } by {
                    let other = self.outputs()[j] as int;
                    if other != id {
                        assert(shared.outputs()[other] == entry.outputs()[other]);
                    }
                }
                assert forall|i: int|
                    0 <= i < before.outputs().len() && !among(
                        self.outputs(),
                        i,
                    ) implies #[trigger] shared.outputs()[i] == before.outputs()[i] by {
                    assert(i != id);
                    assert(shared.outputs()[i] == entry.outputs()[i]);
                }
                assert forall|i: int| 0 <= i < before.outputs().len() implies (
                shared.outputs()[i] == before.outputs()[i] || left(
                    before.outputs()[i],
                    #[trigger] shared.outputs()[i],
                )) by {
                    if i != id {
                        assert(shared.outputs()[i] == entry.outputs()[i]);
                    }
                }
            }
            k = k + 1;
        }
    }
}

/// Whether a list names ring `id`.
pub open spec fn among(list: Seq<usize>, id: int) -> bool {
    exists|k: int| 0 <= k < list.len() && #[trigger] list[k] == id
}

/// What a broker did in one step.
#[derive(Clone, Copy, PartialEq, Eq, Structural, Debug)]
pub enum BrokerStep {
    /// It took a value from a producer or placed one with a consumer.
    Moved,
    /// The next consumer's ring is full: try again.
    Blocked,
    /// It went on to the next ring or the next pass.
    Turned,
    /// A whole pass found nothing: pause before the next one.
    Idle,
    /// All producers are gone and every value has been placed.
    Finished,
}

/// The router. Its owner calls [`Broker::step`] until it says that it has finished.
pub struct Broker<T, B: Backend<T>, P: Delivery<T, B>> {
    /// The rings of this broker's producers.
    inputs: Vec<usize>,
    senders: Senders<T, B>,
    batch: usize,
    policy: P,
    /// A value taken from a producer and not yet placed.
    pending: Option<P::Pending>,
    /// Which ring of the pass is next, how many values it has given, how many its batch
    /// may give, how many any batch may give, whether any ring has given one, and whether
    /// the pass is the last one.
    ring: usize,
    taken: usize,
    quota: Option<usize>,
    per: usize,
    moved: bool,
    last: bool,
}

impl<T, B: Backend<T>, P: Delivery<T, B>> Broker<T, B, P> {
    /// The rings of this broker's producers.
    pub closed spec fn inputs(&self) -> Seq<usize> {
        self.inputs@
    }

    /// The senders to the consumers.
    pub closed spec fn senders(&self) -> Senders<T, B> {
        self.senders
    }

    /// Values moved per ring and pass at most.
    pub closed spec fn batch(&self) -> nat {
        self.batch as nat
    }

    /// The policy.
    pub closed spec fn policy(&self) -> P {
        self.policy
    }

    /// The value on its way.
    pub closed spec fn pending(&self) -> Option<P::Pending> {
        self.pending
    }

    /// Where the pass stands.
    pub closed spec fn pass(&self) -> Pass {
        Pass {
            ring: self.ring as int,
            taken: self.taken as int,
            quota: match self.quota {
                Some(n) => Some(n as int),
                None => None,
            },
            per: self.per as int,
            moved: self.moved,
            last: self.last,
        }
    }

    /// The rings exist, the senders know theirs, and what is on its way fits.
    pub open spec fn attached(&self, shared: Shared<T, B>) -> bool {
        &&& forall|k: int|
            0 <= k < self.inputs().len() ==> #[trigger] self.inputs()[k] < shared.inputs().len()
        &&& self.senders().attached(shared)
        &&& self.policy().prepared(self.senders().fan())
        &&& self.pending() matches Some(p) ==> P::fits(p, self.senders().fan())
        &&& self.batch() > 0
        &&& 0 <= self.pass().ring <= self.inputs().len()
    }
}

/// Where a pass over the producer rings stands.
pub ghost struct Pass {
    /// The next ring.
    pub ring: int,
    /// Values that it has given.
    pub taken: int,
    /// Values that it gives at most, once its batch has started.
    pub quota: Option<int>,
    /// Values that any ring gives at most.
    pub per: int,
    /// Whether any ring has given one.
    pub moved: bool,
    /// Whether this is the last pass, after all producers have left.
    pub last: bool,
}

/// A pass that starts at the first ring.
pub open spec fn fresh_pass(per: int, last: bool) -> Pass {
    Pass { ring: 0, taken: 0, quota: None, per, moved: false, last }
}

/// What a broker's step does where a value is on its way: it tries to place it.
pub open spec fn placing_step<T, B: Backend<T>, P: Delivery<T, B>>(
    was: Broker<T, B, P>,
    is: Broker<T, B, P>,
    before: Shared<T, B>,
    after: Shared<T, B>,
    step: BrokerStep,
) -> bool {
    &&& is.pass() == was.pass()
    &&& exists|outcome: Advance<P::Pending>|
        {
            &&& #[trigger] P::advanced(
                was.policy(),
                is.policy(),
                was.senders(),
                before,
                after,
                was.pending()->0,
                outcome,
            )
            &&& match outcome {
                Advance::Done => is.pending() is None && step == BrokerStep::Moved,
                Advance::More(p) => is.pending() == Some(p) && step == BrokerStep::Moved,
                Advance::Blocked(p) => is.pending() == Some(p) && step == BrokerStep::Blocked,
            }
        }
}

/// What a broker's step does where no value is on its way: it takes the next value of
/// the current ring, goes on where the batch of the ring is over, and after the last ring
/// decides on the next pass. How many values a batch takes is settled when it starts, and
/// their slots are free for the producer when it is over.
pub open spec fn taking_step<T, B: Backend<T>, P: Delivery<T, B>>(
    was: Broker<T, B, P>,
    is: Broker<T, B, P>,
    before: Shared<T, B>,
    after: Shared<T, B>,
    step: BrokerStep,
) -> bool {
    let pass = was.pass();
    let batch = was.batch() as int;
    let id = was.inputs()[pass.ring] as int;
    let queue = before.inputs()[id].link().queue();
    let quota = match pass.quota {
        Some(n) => n,
        None => before.inputs()[id].quota(pass.per),
    };
    let known = match pass.quota {
        Some(n) => before.inputs()[id].known(),
        None => B::Rx::kept(before.inputs()[id].found(), 0),
    };
    let found = if known > 0 {
        known
    } else {
        queue.len() as int
    };
    if pass.ring == was.inputs().len() {
        &&& is.pending() is None
        &&& is.policy() == was.policy()
        &&& after.inputs() == before.inputs()
        &&& if pass.moved {
            is.pass() == fresh_pass(batch, false) && step == BrokerStep::Turned && after.outputs()
                == before.outputs()
        } else if before.live_producers() > 0 {
            is.pass() == fresh_pass(batch, false) && step == BrokerStep::Idle && after.outputs()
                == before.outputs()
        } else if !pass.last {
            is.pass() == fresh_pass(usize::MAX as int, true) && step == BrokerStep::Turned
                && after.outputs() == before.outputs()
        } else {
            &&& step == BrokerStep::Finished
            &&& is.pass() == pass
            &&& forall|k: int|
                0 <= k < was.senders().fan() ==> {
                    let link = #[trigger] was.senders().link(after, k);
                    &&& link.producer_gone()
                    &&& link.queue() == was.senders().link(before, k).queue()
                    &&& link.bound() == was.senders().link(before, k).bound()
                    &&& link.consumer_gone() == was.senders().link(before, k).consumer_gone()
                }
        }
    } else if pass.taken >= quota || queue.len() == 0 {
        &&& step == BrokerStep::Turned
        &&& is.pending() is None
        &&& is.policy() == was.policy()
        &&& is.pass() == (Pass { ring: pass.ring + 1, taken: 0, quota: None, ..pass })
        &&& only_input(before, after, id)
        &&& after.inputs()[id].link().queue() == queue
        &&& after.inputs()[id].unreleased() == 0
        &&& after.inputs()[id].known() == known
    } else {
        &&& step == BrokerStep::Moved
        &&& is.pass() == (Pass {
            taken: pass.taken + 1,
            quota: Some(quota),
            moved: true,
            ..pass
        })
        &&& P::started(was.policy(), is.policy(), queue[0], was.senders().fan(), is.pending())
        &&& only_input(before, after, id)
        &&& after.inputs()[id].link().queue() == queue.skip(1)
        &&& after.inputs()[id].unreleased() == pass.taken + 1
        &&& after.inputs()[id].known() == B::Rx::kept(found, 1)
    }
}

/// What a broker's step does: it places the value on its way, or takes the next one.
pub open spec fn stepped<T, B: Backend<T>, P: Delivery<T, B>>(
    was: Broker<T, B, P>,
    is: Broker<T, B, P>,
    before: Shared<T, B>,
    after: Shared<T, B>,
    step: BrokerStep,
) -> bool {
    &&& is.inputs() == was.inputs()
    &&& is.batch() == was.batch()
    &&& is.senders().base() == was.senders().base()
    &&& is.senders().fan() == was.senders().fan()
    &&& after.live_producers() == before.live_producers()
    &&& after.inputs().len() == before.inputs().len()
    &&& after.outputs().len() == before.outputs().len()
    &&& forall|i: int|
        0 <= i < before.outputs().len() && !(was.senders().base() <= i < was.senders().base()
            + was.senders().fan()) ==> #[trigger] after.outputs()[i] == before.outputs()[i]
    &&& if was.pending() is Some {
        after.inputs() == before.inputs() && placing_step(was, is, before, after, step)
    } else {
        taking_step(was, is, before, after, step)
    }
}

impl<T, B: Backend<T>, P: Delivery<T, B>> Broker<T, B, P> {
    /// Set the max values moved per producer ring per sweep. Default 64.
    pub fn set_batch(&mut self, batch: usize)
        ensures
            final(self).batch() == if batch == 0 {
                1
            } else {
                batch as nat
            },
            final(self).inputs() == old(self).inputs(),
            final(self).senders() == old(self).senders(),
            final(self).policy() == old(self).policy(),
            final(self).pending() == old(self).pending(),
            final(self).pass() == old(self).pass(),
    {
        self.batch = if batch < 1 {
            1
        } else {
            batch
        };
    }

    fn start_pass(&mut self, per: usize, last: bool)
        ensures
            final(self).pass() == fresh_pass(per as int, last),
            final(self).inputs == old(self).inputs,
            final(self).senders == old(self).senders,
            final(self).batch == old(self).batch,
            final(self).policy == old(self).policy,
            final(self).pending == old(self).pending,
    {
        self.ring = 0;
        self.taken = 0;
        self.quota = None;
        self.per = per;
        self.moved = false;
        self.last = last;
    }

    /// Start a batch of the current ring, and say how many values it takes at most.
    fn open_ring(&mut self, shared: &mut Shared<T, B>) -> (n: usize)
        requires
            old(shared).wf(),
            old(self).attached(*old(shared)),
            old(self).pass().ring < old(self).inputs().len(),
        ensures
            final(shared).wf(),
            *final(self) == *old(self),
            ({
                let id = old(self).inputs()[old(self).pass().ring] as int;
                let hop = old(shared).inputs()[id];
                let now = final(shared).inputs()[id];
                &&& n == hop.quota(old(self).pass().per)
                &&& only_input(*old(shared), *final(shared), id)
                &&& now.link() == hop.link()
                &&& now.unreleased() == hop.unreleased()
                &&& now.known() == B::Rx::kept(hop.found(), 0)
            }),
            final(shared).keeps_producers(old(shared)),
            final(shared).keeps_senders(old(shared)),
    {
        let ghost before = *shared;
        let id: usize = self.inputs[self.ring];
        proof {
            assert(self.inputs()[self.ring as int] < before.inputs().len());
            assert(before.inputs()[id as int].wf());
        }
        let hop = &mut shared.inputs[id];
        proof {
            hop.rx.ready_bounds(hop.link);
        }
        let n: usize = hop.rx.open_batch(&hop.link, self.per);
        proof {
            lemma_input_moved(before, *shared, id as int);
            assert forall|p: Producer<T, B>| #[trigger] p.attached(before) implies p.attached(
                *shared,
            ) by {
                if p.input == id {
                    assert(p.tx.attached(before.inputs()[id as int].link()));
                } else {
                    assert(p.input() != id);
                }
            }
        }
        n
    }

    /// Take one value of the current ring, the `count`-th of its batch, or end the batch
    /// where `more` is not set or the ring is empty.
    fn pull(&mut self, shared: &mut Shared<T, B>, more: bool, count: usize) -> (value: Option<T>)
        requires
            old(shared).wf(),
            old(self).attached(*old(shared)),
            old(self).pass().ring < old(self).inputs().len(),
        ensures
            final(shared).wf(),
            *final(self) == *old(self),
            ({
                let id = old(self).inputs()[old(self).pass().ring] as int;
                let hop = old(shared).inputs()[id];
                let queue = hop.link().queue();
                let now = final(shared).inputs()[id];
                &&& only_input(*old(shared), *final(shared), id)
                &&& value is None <==> !more || queue.len() == 0
                &&& value is None ==> now.link().queue() == queue && now.unreleased() == 0
                    && now.known() == hop.known()
                &&& value matches Some(v) ==> v == queue[0] && now.link().queue() == queue.skip(1)
                    && now.unreleased() == count && now.known() == B::Rx::kept(hop.found(), 1)
            }),
            final(shared).keeps_producers(old(shared)),
            final(shared).keeps_senders(old(shared)),
    {
        let ghost before = *shared;
        let id: usize = self.inputs[self.ring];
        proof {
            assert(self.inputs()[self.ring as int] < before.inputs().len());
            assert(before.inputs()[id as int].wf());
        }
        let hop = &mut shared.inputs[id];
        proof {
            hop.rx.ready_bounds(hop.link);
        }
        let value = if more {
            hop.rx.try_pop(&mut hop.link)
        } else {
            None
        };
        proof {
            hop.rx.ready_bounds(hop.link);
        }
        hop.unreleased = if value.is_some() {
            count
        } else {
            0
        };
        proof {
            lemma_input_moved(before, *shared, id as int);
            assert forall|p: Producer<T, B>| #[trigger] p.attached(before) implies p.attached(
                *shared,
            ) by {
                if p.input == id {
                    assert(p.tx.attached(before.inputs()[id as int].link()));
                } else {
                    assert(p.input() != id);
                }
            }
        }
        value
    }

    /// Tell every consumer that this broker has finished.
    fn finish(&mut self, shared: &mut Shared<T, B>)
        requires
            old(shared).wf(),
            old(self).attached(*old(shared)),
        ensures
            final(shared).wf(),
            final(self).attached(*final(shared)),
            final(self).inputs == old(self).inputs,
            final(self).batch == old(self).batch,
            final(self).policy == old(self).policy,
            final(self).pending == old(self).pending,
            final(self).pass() == old(self).pass(),
            final(self).senders().base() == old(self).senders().base(),
            final(self).senders().fan() == old(self).senders().fan(),
            outputs_within(
                *old(shared),
                *final(shared),
                old(self).senders().base(),
                old(self).senders().fan(),
            ),
            forall|k: int|
                0 <= k < old(self).senders().fan() ==> {
                    let link = #[trigger] old(self).senders().link(*final(shared), k);
                    let was = old(self).senders().link(*old(shared), k);
                    &&& link.producer_gone()
                    &&& link.queue() == was.queue()
                    &&& link.bound() == was.bound()
                    &&& link.consumer_gone() == was.consumer_gone()
                },
            final(shared).keeps_producers(old(shared)),
    {
        let ghost before = *shared;
        let ghost was = *self;
        let base: usize = self.senders.base;
        let fan: usize = self.senders.txs.len();
        let total: usize = shared.outputs.len();
        let ghost senders = self.senders;
        let mut k: usize = 0;
        while k < fan
            invariant
                before == *old(shared),
                was == *old(self),
                senders == was.senders,
                before.wf(),
                senders.attached(before),
                base == senders.base,
                fan == senders.txs@.len(),
                total == before.outputs().len(),
                k <= fan,
                self.inputs == was.inputs,
                self.batch == was.batch,
                self.policy == was.policy,
                self.pending == was.pending,
                self.pass() == was.pass(),
                self.senders.base == senders.base,
                self.senders.txs@ == senders.txs@,
                shared.inputs() == before.inputs(),
                shared.live_producers() == before.live_producers(),
                shared.outputs().len() == before.outputs().len(),
                forall|i: int|
                    0 <= i < total && !(base <= i < base + k) ==> #[trigger] shared.outputs()[i]
                        == before.outputs()[i],
                forall|i: int|
                    base <= i < base + k ==> {
                        let hop = #[trigger] shared.outputs()[i];
                        &&& hop.wf()
                        &&& hop.link().producer_gone()
                        &&& hop.link().queue() == before.outputs()[i].link().queue()
                        &&& hop.link().bound() == before.outputs()[i].link().bound()
                        &&& hop.link().consumer_gone() == before.outputs()[i].link().consumer_gone()
                        &&& senders.txs@[i - base].attached(hop.link())
                    },
            decreases fan - k,
        {
            let id: usize = base + k;
            let ghost entry = *shared;
            let ghost tx = self.senders.txs@[k as int];
            proof {
                assert(entry.outputs()[id as int] == before.outputs()[id as int]);
                assert(before.outputs()[id as int].wf());
                assert(senders.tx(k as int).attached(before.outputs()[senders.base() + k].link()));
            }
            let hop = &mut shared.outputs[id];
            self.senders.txs[k].close(&mut hop.link);
            proof {
                assert(self.senders.txs@ =~= senders.txs@);
                assert forall|i: int| 0 <= i < total && i != id implies (
                #[trigger] shared.outputs()[i]) == entry.outputs()[i] by {
                }
            }
            k = k + 1;
        }
        proof {
            assert forall|i: int| 0 <= i < shared.outputs().len() implies (
            #[trigger] shared.outputs()[i]).wf() by {
                assert(before.outputs()[i].wf());
            }
            assert forall|i: int| 0 <= i < shared.inputs().len() implies (
            #[trigger] shared.inputs()[i]).wf() by {
                assert(before.inputs()[i].wf());
            }
            assert forall|j: int| 0 <= j < self.senders().fan() implies (
            #[trigger] self.senders().tx(j)).attached(
                shared.outputs()[self.senders().base() + j].link(),
            ) by {
                assert(senders.txs@[(base + j) - base].attached(
                    shared.outputs()[base + j].link(),
                ));
            }
        }
    }
}


impl<T, B: Backend<T>, P: Delivery<T, B>> Broker<T, B, P> {
    /// One step of the router, which runs until every producer is gone and every
    /// producer ring is drained, and then tells the consumers.
    ///
    /// A pass takes up to a batch from each ring. A pass that moved nothing while
    /// producers remain calls for a pause. Once all producers have left and a pass
    /// moved nothing, one more pass takes whatever there is; the broker has finished
    /// when that pass finds nothing either.
    pub fn step(&mut self, shared: &mut Shared<T, B>) -> (step: BrokerStep)
        requires
            old(shared).wf(),
            old(self).attached(*old(shared)),
        ensures
            final(shared).wf(),
            final(self).attached(*final(shared)),
            final(self).inputs() == old(self).inputs(),
            final(self).batch() == old(self).batch(),
            final(self).senders().base() == old(self).senders().base(),
            final(self).senders().fan() == old(self).senders().fan(),
            final(shared).live_producers() == old(shared).live_producers(),
            final(shared).inputs().len() == old(shared).inputs().len(),
            final(shared).outputs().len() == old(shared).outputs().len(),
            forall|i: int|
                0 <= i < old(shared).outputs().len() && !(old(self).senders().base() <= i < old(self).senders().base() + old(self).senders().fan()) ==> #[trigger] final(shared).outputs()[i] == old(shared).outputs()[i],
            old(self).pending() is Some ==> final(shared).inputs() == old(shared).inputs()
                && placing_step(*old(self), *final(self), *old(shared), *final(shared), step),
            old(self).pending() is None ==> taking_step(
                *old(self),
                *final(self),
                *old(shared),
                *final(shared),
                step,
            ),
            stepped(*old(self), *final(self), *old(shared), *final(shared), step),
            final(shared).keeps_producers(old(shared)),
    {
        let ghost before = *shared;
        let ghost was = *self;
        let pending = self.pending.take();
        if let Some(p) = pending {
            let outcome = self.policy.advance(&mut self.senders, shared, p);
            let ghost result = outcome;
            let step = match outcome {
                Advance::Done => BrokerStep::Moved,
                Advance::More(p) => {
                    self.pending = Some(p);
                    BrokerStep::Moved
                },
                Advance::Blocked(p) => {
                    self.pending = Some(p);
                    BrokerStep::Blocked
                },
            };
            proof {
                assert(P::advanced(
                    was.policy(),
                    self.policy(),
                    was.senders(),
                    before,
                    *shared,
                    was.pending()->0,
                    result,
                ));
                assert forall|x: Producer<T, B>| #[trigger] x.attached(before) implies x.attached(
                    *shared,
                ) by {
                }
                assert(placing_step(was, *self, before, *shared, step));
            }
            return step;
        }
        if self.ring == self.inputs.len() {
            let batch: usize = self.batch;
            if self.moved {
                self.start_pass(batch, false);
                return BrokerStep::Turned;
            }
            if shared.live_producers > 0 {
                self.start_pass(batch, false);
                return BrokerStep::Idle;
            }
            if !self.last {
                self.start_pass(usize::MAX, true);
                return BrokerStep::Turned;
            }
            self.finish(shared);
            return BrokerStep::Finished;
        }
        let quota: usize = match self.quota {
            Some(n) => n,
            None => self.open_ring(shared),
        };
        let ghost opened = *shared;
        proof {
            assert(was.senders().attached(opened));
            assert(self.attached(opened));
        }
        let more: bool = self.taken < quota;
        let count: usize = if more {
            self.taken + 1
        } else {
            0
        };
        match self.pull(shared, more, count) {
            Some(value) => {
                proof {
                    assert(was.senders().attached(*shared));
                }
                self.taken = count;
                self.quota = Some(quota);
                self.moved = true;
                let consumers: usize = self.senders.txs.len();
                self.pending = self.policy.start(value, consumers);
                BrokerStep::Moved
            },
            None => {
                proof {
                    assert(was.senders().attached(*shared));
                }
                self.ring = self.ring + 1;
                self.taken = 0;
                self.quota = None;
                BrokerStep::Turned
            },
        }
    }
}

impl<T, B: Backend<T>, P: Delivery<T, B>> Broker<T, B, P> {
    /// This broker leaves. What it has not placed is dropped, its producers can see that it
    /// is gone, and its consumers can see that nothing more will come.
    pub fn disconnect(self, shared: &mut Shared<T, B>)
        requires
            old(shared).wf(),
            self.attached(*old(shared)),
        ensures
            final(shared).wf(),
            final(shared).live_producers() == old(shared).live_producers(),
            final(shared).inputs().len() == old(shared).inputs().len(),
            forall|k: int|
                0 <= k < self.inputs().len() ==> {
                    let id = #[trigger] self.inputs()[k] as int;
                    left(old(shared).inputs()[id], final(shared).inputs()[id])
                },
            forall|i: int|
                0 <= i < old(shared).inputs().len() && !among(self.inputs(), i)
                    ==> #[trigger] final(shared).inputs()[i] == old(shared).inputs()[i],
            final(shared).outputs().len() == old(shared).outputs().len(),
            forall|k: int|
                0 <= k < self.senders().fan() ==> {
                    let link = #[trigger] self.senders().link(*final(shared), k);
                    let was = self.senders().link(*old(shared), k);
                    &&& link.producer_gone()
                    &&& link.queue() == was.queue()
                    &&& link.bound() == was.bound()
                    &&& link.consumer_gone() == was.consumer_gone()
                },
            forall|i: int|
                0 <= i < old(shared).outputs().len() && !(self.senders().base() <= i
                    < self.senders().base() + self.senders().fan())
                    ==> #[trigger] final(shared).outputs()[i] == old(shared).outputs()[i],
            final(shared).keeps_producers(old(shared)),
    {
        let ghost before = *shared;
        let ghost was = self;
        let mut broker = self;
        broker.finish(shared);
        let ghost told = *shared;
        let n: usize = broker.inputs.len();
        let mut k: usize = 0;
        while k < n
            invariant
                before == *old(shared),
                was == self,
                told.wf(),
                told.keeps_producers(&before),
                told.inputs() == before.inputs(),
                shared.wf(),
                broker.inputs == was.inputs,
                n == broker.inputs@.len(),
                was.attached(before),
                k <= n,
                shared.outputs() == told.outputs(),
                shared.live_producers() == told.live_producers(),
                shared.inputs().len() == told.inputs().len(),
                forall|j: int|
                    0 <= j < k ==> {
                        let id = #[trigger] was.inputs()[j] as int;
                        left(told.inputs()[id], shared.inputs()[id])
                    },
                forall|i: int|
                    0 <= i < told.inputs().len() ==> (shared.inputs()[i] == told.inputs()[i] || left(
                        told.inputs()[i],
                        #[trigger] shared.inputs()[i],
                    )),
                forall|i: int|
                    0 <= i < told.inputs().len() && !among(was.inputs(), i)
                        ==> #[trigger] shared.inputs()[i] == told.inputs()[i],
                shared.keeps_producers(&before),
            decreases n - k,
        {
            let ghost entry = *shared;
            let id: usize = broker.inputs[k];
            proof {
                assert(was.inputs()[k as int] < before.inputs().len());
                assert(among(was.inputs(), id as int));
                assert(entry.inputs()[id as int].wf());
            }
            let hop = &mut shared.inputs[id];
            hop.leave();
            proof {
                lemma_input_moved(entry, *shared, id as int);
                assert forall|p: Producer<T, B>| #[trigger] p.attached(before) implies p.attached(
                    *shared,
                ) by {
                    assert(p.attached(entry));
                    if p.input == id {
                        assert(p.tx.attached(entry.inputs()[id as int].link()));
                    } else {
                        assert(p.input() != id);
                    }
                }
                assert(left(told.inputs()[id as int], shared.inputs()[id as int])) by {
                    assert(left(entry.inputs()[id as int], shared.inputs()[id as int]));
                    if entry.inputs()[id as int] != told.inputs()[id as int] {
                        assert(left(told.inputs()[id as int], entry.inputs()[id as int]));
                        B::Rx::remains_settle(
                            told.inputs()[id as int].link(),
                            entry.inputs()[id as int].link(),
                        );
                    }
                }
                assert forall|j: int| 0 <= j < k + 1 implies {
                    let id = #[trigger] was.inputs()[j] as int;
                    left(told.inputs()[id], shared.inputs()[id])
                } by {
                    let other = was.inputs()[j] as int;
                    if other != id {
                        assert(shared.inputs()[other] == entry.inputs()[other]);
                    }
                }
                assert forall|i: int|
                    0 <= i < told.inputs().len() && !among(
                        was.inputs(),
                        i,
                    ) implies #[trigger] shared.inputs()[i] == told.inputs()[i] by {
                    assert(i != id);
                    assert(shared.inputs()[i] == entry.inputs()[i]);
                }
                assert forall|i: int| 0 <= i < told.inputs().len() implies (
                shared.inputs()[i] == told.inputs()[i] || left(
                    told.inputs()[i],
                    #[trigger] shared.inputs()[i],
                )) by {
                    if i != id {
                        assert(shared.inputs()[i] == entry.inputs()[i]);
                    }
                }
            }
            k = k + 1;
        }
        proof {
            assert forall|k: int| 0 <= k < was.senders().fan() implies {
                let link = #[trigger] was.senders().link(*shared, k);
                let earlier = was.senders().link(before, k);
                &&& link.producer_gone()
                &&& link.queue() == earlier.queue()
                &&& link.bound() == earlier.bound()
                &&& link.consumer_gone() == earlier.consumer_gone()
            } by {
                assert(was.senders().link(told, k) == was.senders().link(*shared, k));
            }
        }
    }
}

/// The ring between broker `b` and consumer `c`.
pub open spec fn output_of(b: int, c: int, consumers: int) -> int {
    b * consumers + c
}

/// A ring that nobody has used yet.
pub open spec fn fresh_hop<T, B: Backend<T>>(hop: Hop<T, B>, capacity: usize) -> bool {
    &&& hop.wf()
    &&& hop.link().queue() == Seq::<T>::empty()
    &&& hop.link().accepts()
    &&& B::sized(capacity, hop.link().bound())
    &&& !hop.link().producer_gone()
    &&& !hop.link().consumer_gone()
    &&& hop.unreleased() == 0
    &&& hop.known() == 0
}

/// A channel right after it was opened: producer `i` feeds broker `i % brokers`, and
/// every broker has a ring of its own to every consumer.
pub open spec fn opened<T, B: Backend<T>, P: Delivery<T, B> + Clone>(
    shared: Shared<T, B>,
    producers: Seq<Producer<T, B>>,
    consumers: Seq<Consumer>,
    brokers: Seq<Broker<T, B, P>>,
    n_producers: int,
    n_consumers: int,
    n_brokers: int,
    capacity: usize,
    policy: P,
) -> bool {
    &&& shared.wf()
    &&& shared.live_producers() == n_producers
    &&& shared.inputs().len() == n_producers
    &&& shared.outputs().len() == n_brokers * n_consumers
    &&& forall|i: int|
        0 <= i < n_producers ==> fresh_hop(#[trigger] shared.inputs()[i], capacity)
    &&& forall|i: int|
        0 <= i < shared.outputs().len() ==> fresh_hop(#[trigger] shared.outputs()[i], capacity)
    &&& producers.len() == n_producers
    &&& forall|i: int|
        0 <= i < n_producers ==> (#[trigger] producers[i]).attached(shared) && producers[i].input()
            == i
    &&& consumers.len() == n_consumers
    &&& forall|c: int|
        0 <= c < n_consumers ==> {
            &&& (#[trigger] consumers[c]).attached(shared)
            &&& consumers[c].cursor() == 0
            &&& consumers[c].outputs().len() == n_brokers
            &&& forall|b: int|
                0 <= b < n_brokers ==> #[trigger] consumers[c].outputs()[b] == output_of(
                    b,
                    c,
                    n_consumers,
                )
        }
    &&& brokers.len() == n_brokers
    &&& forall|b: int|
        0 <= b < n_brokers ==> {
            &&& (#[trigger] brokers[b]).attached(shared)
            &&& brokers[b].batch() == 64
            &&& brokers[b].pending() is None
            &&& brokers[b].pass() == fresh_pass(64, false)
            &&& brokers[b].senders().base() == output_of(b, 0, n_consumers)
            &&& brokers[b].senders().fan() == n_consumers
            &&& split_inputs(brokers[b].inputs(), b, n_brokers, n_producers)
            &&& given_policy::<T, B, P>(policy, brokers[b].policy(), n_consumers as nat)
        }
}

/// Whether `own` is a copy of `policy` that was bound to so many consumers.
pub open spec fn given_policy<T, B: Backend<T>, P: Delivery<T, B> + Clone>(
    policy: P,
    own: P,
    consumers: nat,
) -> bool {
    exists|copy: P| #[trigger] cloned(policy, copy) && P::bound_to(copy, own, consumers)
}

/// The producers of broker `b`: `b`, `b + brokers`, and so on.
pub open spec fn split_inputs(inputs: Seq<usize>, b: int, brokers: int, producers: int) -> bool {
    &&& forall|k: int| 0 <= k < inputs.len() ==> #[trigger] inputs[k] == b + k * brokers
    &&& forall|k: int| 0 <= k < inputs.len() ==> #[trigger] inputs[k] < producers
    &&& producers <= b + inputs.len() * brokers
}

fn inputs_of(b: usize, brokers: usize, producers: usize) -> (inputs: Vec<usize>)
    requires
        b < brokers <= producers,
    ensures
        split_inputs(inputs@, b as int, brokers as int, producers as int),
{
    let mut inputs: Vec<usize> = Vec::new();
    let mut next: usize = b;
    let mut more = true;
    assert(b + 0 * brokers == b);
    while more
        invariant
            0 < brokers,
            more ==> next < producers && next == b + inputs@.len() * brokers,
            !more ==> producers <= b + inputs@.len() * brokers,
            forall|k: int| 0 <= k < inputs@.len() ==> #[trigger] inputs@[k] == b + k * brokers,
            forall|k: int| 0 <= k < inputs@.len() ==> #[trigger] inputs@[k] < producers,
        decreases producers - next + if more {
            1int
        } else {
            0
        },
    {
        let ghost n = inputs@.len() as int;
        inputs.push(next);
        assert((n + 1) * brokers == n * brokers + brokers) by (nonlinear_arith);
        if producers - next > brokers {
            next = next + brokers;
        } else {
            more = false;
        }
    }
    inputs
}

/// A consumer's rings: one from every broker.
fn outputs_of(c: usize, brokers: usize, consumers: usize) -> (outputs: Vec<usize>)
    requires
        c < consumers,
        brokers * consumers <= usize::MAX,
    ensures
        outputs@.len() == brokers,
        forall|b: int|
            0 <= b < brokers ==> #[trigger] outputs@[b] == output_of(b, c as int, consumers as int),
        forall|b: int| 0 <= b < brokers ==> #[trigger] outputs@[b] < brokers * consumers,
{
    let mut outputs: Vec<usize> = Vec::with_capacity(brokers);
    while outputs.len() < brokers
        invariant
            c < consumers,
            brokers * consumers <= usize::MAX,
            outputs@.len() <= brokers,
            forall|b: int|
                0 <= b < outputs@.len() ==> #[trigger] outputs@[b] == output_of(
                    b,
                    c as int,
                    consumers as int,
                ),
            forall|b: int| 0 <= b < outputs@.len() ==> #[trigger] outputs@[b] < brokers * consumers,
        decreases brokers - outputs@.len(),
    {
        let b: usize = outputs.len();
        assert(b * consumers + c < brokers * consumers && b * consumers <= usize::MAX) by (nonlinear_arith)
            requires
                b < brokers,
                c < consumers,
                brokers * consumers <= usize::MAX,
        ;
        outputs.push(b * consumers + c);
    }
    outputs
}

/// Make one ring.
fn make_hop<T, B: Backend<T>>(capacity: usize) -> (made: (Hop<T, B>, B::Tx))
    requires
        B::supports(capacity),
    ensures
        fresh_hop(made.0, capacity),
        made.1.attached(made.0.link()),
{
    let (link, tx, rx) = B::channel(capacity);
    (Hop { link, rx, unreleased: 0 }, tx)
}

/// Open a channel. No more brokers are made than producers: an idle one is pointless.
pub fn open<T, B: Backend<T>, P: Delivery<T, B> + Clone>(
    n_producers: usize,
    n_consumers: usize,
    n_brokers: usize,
    capacity: usize,
    policy: P,
) -> (parts: (Shared<T, B>, Vec<Producer<T, B>>, Vec<Consumer>, Vec<Broker<T, B, P>>))
    requires
        B::supports(capacity),
        1 <= n_producers,
        1 <= n_consumers,
        1 <= n_brokers,
        crate::backend::min(n_brokers as int, n_producers as int) * n_consumers <= usize::MAX,
    ensures
        opened(
            parts.0,
            parts.1@,
            parts.2@,
            parts.3@,
            n_producers as int,
            n_consumers as int,
            crate::backend::min(n_brokers as int, n_producers as int),
            capacity,
            policy,
        ),
{
    let brokers_made: usize = if n_brokers <= n_producers {
        n_brokers
    } else {
        n_producers
    };
    let mut producers: Vec<Producer<T, B>> = Vec::with_capacity(n_producers);
    let mut inputs: Vec<Hop<T, B>> = Vec::with_capacity(n_producers);
    while inputs.len() < n_producers
        invariant
            B::supports(capacity),
            inputs@.len() <= n_producers,
            producers@.len() == inputs@.len(),
            forall|i: int| 0 <= i < inputs@.len() ==> fresh_hop(#[trigger] inputs@[i], capacity),
            forall|i: int|
                0 <= i < producers@.len() ==> (#[trigger] producers@[i]).input == i
                    && producers@[i].tx.attached(inputs@[i].link()),
        decreases n_producers - inputs@.len(),
    {
        let (hop, tx) = make_hop::<T, B>(capacity);
        producers.push(Producer { input: inputs.len(), tx });
        inputs.push(hop);
    }
    let mut outputs: Vec<Hop<T, B>> = Vec::new();
    let mut brokers: Vec<Broker<T, B, P>> = Vec::with_capacity(brokers_made);
    while brokers.len() < brokers_made
        invariant
            B::supports(capacity),
            1 <= brokers_made <= n_producers,
            1 <= n_consumers,
            brokers_made * n_consumers <= usize::MAX,
            brokers@.len() <= brokers_made,
            outputs@.len() == brokers@.len() * n_consumers,
            forall|i: int| 0 <= i < outputs@.len() ==> fresh_hop(#[trigger] outputs@[i], capacity),
            forall|b: int|
                0 <= b < brokers@.len() ==> {
                    let x = #[trigger] brokers@[b];
                    &&& x.batch == 64
                    &&& x.pending is None
                    &&& x.pass() == fresh_pass(64, false)
                    &&& x.policy.prepared(n_consumers as nat)
                    &&& given_policy::<T, B, P>(policy, x.policy, n_consumers as nat)
                    &&& x.senders.base == output_of(b, 0, n_consumers as int)
                    &&& x.senders.txs@.len() == n_consumers
                    &&& x.senders.base + n_consumers <= outputs@.len()
                    &&& split_inputs(x.inputs@, b, brokers_made as int, n_producers as int)
                },
            forall|b: int, c: int|
                0 <= b < brokers@.len() && 0 <= c < n_consumers ==> (
                #[trigger] brokers@[b].senders.txs@[c]).attached(
                    outputs@[brokers@[b].senders.base + c].link(),
                ),
        decreases brokers_made - brokers@.len(),
    {
        let b: usize = brokers.len();
        let base: usize = outputs.len();
        let ghost laid = outputs@;
        let ghost made = brokers@;
        let mut txs: Vec<B::Tx> = Vec::with_capacity(n_consumers);
        assert((b + 1) * n_consumers == b * n_consumers + n_consumers) by (nonlinear_arith);
        while txs.len() < n_consumers
            invariant
                B::supports(capacity),
                txs@.len() <= n_consumers,
                outputs@.len() == base + txs@.len(),
                base == laid.len(),
                forall|i: int| 0 <= i < base ==> #[trigger] outputs@[i] == laid[i],
                forall|i: int|
                    0 <= i < outputs@.len() ==> fresh_hop(#[trigger] outputs@[i], capacity),
                forall|c: int|
                    0 <= c < txs@.len() ==> (#[trigger] txs@[c]).attached(outputs@[base + c].link()),
            decreases n_consumers - txs@.len(),
        {
            let ghost some = outputs@;
            let (hop, tx) = make_hop::<T, B>(capacity);
            outputs.push(hop);
            txs.push(tx);
            proof {
                assert forall|i: int| 0 <= i < base implies #[trigger] outputs@[i] == laid[i] by {
                    assert(outputs@[i] == some[i]);
                }
            }
        }
        let mut own = policy.clone();
        let ghost copy = own;
        own.prepare(n_consumers);
        assert(cloned(policy, copy) && P::bound_to(copy, own, n_consumers as nat));
        let rings = inputs_of(b, brokers_made, n_producers);
        brokers.push(
            Broker {
                inputs: rings,
                senders: Senders { base, txs },
                batch: 64,
                policy: own,
                pending: None,
                ring: 0,
                taken: 0,
                quota: None,
                per: 64,
                moved: false,
                last: false,
            },
        );
        proof {
            assert forall|d: int| 0 <= d < brokers@.len() implies {
                let x = #[trigger] brokers@[d];
                &&& x.batch == 64
                &&& x.pending is None
                &&& x.pass() == fresh_pass(64, false)
                &&& x.policy.prepared(n_consumers as nat)
                &&& given_policy::<T, B, P>(policy, x.policy, n_consumers as nat)
                &&& x.senders.base == output_of(d, 0, n_consumers as int)
                &&& x.senders.txs@.len() == n_consumers
                &&& x.senders.base + n_consumers <= outputs@.len()
                &&& split_inputs(x.inputs@, d, brokers_made as int, n_producers as int)
            } by {
                if d < made.len() {
                    assert(brokers@[d] == made[d]);
                }
            }
            assert forall|d: int, c: int|
                0 <= d < brokers@.len() && 0 <= c < n_consumers implies (
            #[trigger] brokers@[d].senders.txs@[c]).attached(
                outputs@[brokers@[d].senders.base + c].link(),
            ) by {
                if d < made.len() {
                    assert(brokers@[d] == made[d]);
                    assert(made[d].senders.base + n_consumers <= laid.len());
                    assert(made[d].senders.txs@[c].attached(
                        laid[made[d].senders.base + c].link(),
                    ));
                    assert(outputs@[made[d].senders.base + c] == laid[made[d].senders.base + c]);
                }
            }
        }
    }
    let mut consumers: Vec<Consumer> = Vec::with_capacity(n_consumers);
    while consumers.len() < n_consumers
        invariant
            brokers_made * n_consumers <= usize::MAX,
            consumers@.len() <= n_consumers,
            forall|c: int|
                0 <= c < consumers@.len() ==> {
                    &&& (#[trigger] consumers@[c]).cursor == 0
                    &&& consumers@[c].outputs@.len() == brokers_made
                    &&& forall|b: int|
                        0 <= b < brokers_made ==> #[trigger] consumers@[c].outputs@[b] == output_of(
                            b,
                            c,
                            n_consumers as int,
                        )
                    &&& forall|b: int|
                        0 <= b < brokers_made ==> #[trigger] consumers@[c].outputs@[b]
                            < brokers_made * n_consumers
                },
        decreases n_consumers - consumers@.len(),
    {
        let ghost made = consumers@;
        let rings = outputs_of(consumers.len(), brokers_made, n_consumers);
        consumers.push(Consumer { outputs: rings, cursor: 0 });
        proof {
            assert forall|c: int| 0 <= c < made.len() implies #[trigger] consumers@[c] == made[c] by {
            }
        }
    }
    let shared = Shared { inputs, outputs, live_producers: n_producers };
    proof {
        assert forall|i: int| 0 <= i < shared.inputs().len() implies (
        #[trigger] shared.inputs()[i]).wf() by {
            assert(fresh_hop(shared.inputs@[i], capacity));
        }
        assert forall|i: int| 0 <= i < shared.outputs().len() implies (
        #[trigger] shared.outputs()[i]).wf() by {
            assert(fresh_hop(shared.outputs@[i], capacity));
        }
        assert forall|b: int| 0 <= b < brokers_made implies {
            &&& (#[trigger] brokers@[b]).attached(shared)
            &&& brokers@[b].batch() == 64
            &&& brokers@[b].pending() is None
            &&& brokers@[b].pass() == fresh_pass(64, false)
            &&& brokers@[b].senders().base() == output_of(b, 0, n_consumers as int)
            &&& brokers@[b].senders().fan() == n_consumers
            &&& split_inputs(
                brokers@[b].inputs(),
                b,
                brokers_made as int,
                n_producers as int,
            )
            &&& given_policy::<T, B, P>(policy, brokers@[b].policy(), n_consumers as nat)
        } by {
            let x = brokers@[b];
            assert(split_inputs(x.inputs@, b, brokers_made as int, n_producers as int));
            assert forall|c: int| 0 <= c < x.senders().fan() implies (
            #[trigger] x.senders().tx(c)).attached(
                shared.outputs()[x.senders().base() + c].link(),
            ) by {
                assert(x.senders.txs@[c].attached(shared.outputs@[x.senders.base + c].link()));
            }
        }
        assert forall|c: int| 0 <= c < n_consumers implies {
            &&& (#[trigger] consumers@[c]).attached(shared)
            &&& consumers@[c].cursor() == 0
            &&& consumers@[c].outputs().len() == brokers_made
            &&& forall|b: int|
                0 <= b < brokers_made ==> #[trigger] consumers@[c].outputs()[b] == output_of(
                    b,
                    c,
                    n_consumers as int,
                )
        } by {
            let x = consumers@[c];
            assert forall|k: int| 0 <= k < x.outputs().len() implies #[trigger] x.outputs()[k]
                < shared.outputs().len() by {
                assert(x.outputs@[k] < brokers_made * n_consumers);
            }
        }
    }
    (shared, producers, consumers, brokers)
}

/// The members of a mask.
pub open spec fn members(mask: u64) -> Set<int> {
    Set::new(|j: int| bit_set(mask, j))
}

/// A value published to several consumers reaches each of them exactly once, in
/// ascending order: every step that does not block removes the lowest consumer from
/// those that wait, and the delivery is over when that was the last one.
pub proof fn law_published_values_reach_every_target_once<T: Clone, B: Backend<T>>(
    senders: Senders<T, B>,
    before: Shared<T, B>,
    after: Shared<T, B>,
    k: int,
    pending: Spread<T>,
    outcome: Advance<Spread<T>>,
)
    requires
        is_lowest(pending.mask, k),
        spread_step(senders, before, after, k, pending, outcome),
    ensures
        members(pending.mask).contains(k),
        forall|j: int| members(pending.mask).contains(j) ==> k <= j,
        outcome is Done ==> members(pending.mask) == set![k],
        outcome matches Advance::More(rest) ==> members(rest.mask) == members(pending.mask).remove(
            k,
        ) && members(rest.mask) != Set::<int>::empty(),
        outcome matches Advance::Blocked(same) ==> members(same.mask) == members(pending.mask),
{
    if outcome is Done {
        assert(members(pending.mask) =~= set![k]);
    }
    if let Advance::More(rest) = outcome {
        assert(members(rest.mask) =~= members(pending.mask).remove(k));
        let j = choose|j: int| #[trigger] bit_set(pending.mask, j) && j != k;
        assert(bit_set(rest.mask, j));
        assert(members(rest.mask).contains(j));
    }
}

/// The consumers that wait for a published value are those that its subscriber has named and
/// that exist; where there are none, the value is dropped.
pub proof fn law_published_values_wait_for_the_chosen<T>(
    targets: Targets,
    item: T,
    consumers: nat,
    spread: Option<Spread<T>>,
)
    requires
        selected(targets, item, consumers, spread),
    ensures
        ({
            let chosen = Set::new(|j: int| targets.has(j) && 0 <= j < consumers);
            match spread {
                None => chosen == Set::<int>::empty(),
                Some(s) => s.item == item && members(s.mask) == chosen && chosen != Set::<
                    int,
                >::empty(),
            }
        }),
{
    let chosen = Set::new(|j: int| targets.has(j) && 0 <= j < consumers);
    match spread {
        None => {
            assert(chosen =~= Set::<int>::empty());
        },
        Some(s) => {
            assert(members(s.mask) =~= chosen);
            lemma_empty_mask(s.mask);
            let j = choose|j: int| #[trigger] bit_set(s.mask, j);
            assert(chosen.contains(j));
        },
    }
}

/// A whole delivery: while `masks[i]` wait, `served[i]` is served, and then the others wait.
pub open spec fn delivery(masks: Seq<u64>, served: Seq<int>) -> bool {
    &&& masks.len() == served.len()
    &&& masks.len() > 0
    &&& forall|i: int| 0 <= i < masks.len() ==> #[trigger] is_lowest(masks[i], served[i])
    &&& forall|i: int|
        0 <= i < masks.len() - 1 ==> members(#[trigger] masks[i + 1]) == members(masks[i]).remove(
            served[i],
        )
    &&& members(masks.last()) == set![served.last()]
}

/// A whole delivery serves exactly the consumers that waited for the value, each once and in
/// ascending order.
pub proof fn law_deliveries_serve_everyone_once(masks: Seq<u64>, served: Seq<int>)
    requires
        delivery(masks, served),
    ensures
        forall|x: int| #[trigger] members(masks[0]).contains(x) <==> served.contains(x),
        forall|i: int, j: int| 0 <= i < j < served.len() ==> served[i] < served[j],
    decreases masks.len(),
{
    let first = served[0];
    assert(is_lowest(masks[0], served[0]));
    if masks.len() == 1 {
        assert forall|x: int| #[trigger] members(masks[0]).contains(x) <==> served.contains(x) by {
            if x == first {
                assert(served[0] == x);
            }
        }
    } else {
        let rest = masks.skip(1);
        let others = served.skip(1);
        assert forall|i: int| 0 <= i < rest.len() implies #[trigger] is_lowest(
            rest[i],
            others[i],
        ) by {
            assert(is_lowest(masks[i + 1], served[i + 1]));
        }
        assert forall|i: int| 0 <= i < rest.len() - 1 implies members(#[trigger] rest[i + 1])
            == members(rest[i]).remove(others[i]) by {
            assert(rest[i + 1] == masks[(i + 1) + 1]);
        }
        law_deliveries_serve_everyone_once(rest, others);
        assert(rest[0] == masks[0int + 1]);
        assert(members(rest[0]) == members(masks[0]).remove(first));
        assert forall|j: int| 0 < j < served.len() implies first < #[trigger] served[j] by {
            assert(others[j - 1] == served[j]);
            assert(others.contains(served[j]));
            assert(members(rest[0]).contains(served[j]));
            assert(bit_set(masks[0], served[j]));
        }
        assert forall|i: int, j: int| 0 <= i < j < served.len() implies served[i] < served[j] by {
            if i > 0 {
                assert(others[i - 1] == served[i] && others[j - 1] == served[j]);
            }
        }
        assert forall|x: int| #[trigger] members(masks[0]).contains(x) <==> served.contains(x) by {
            if x == first {
                assert(served[0] == x);
            } else {
                assert(members(rest[0]).contains(x) == members(masks[0]).contains(x));
                if others.contains(x) {
                    let k = choose|k: int| 0 <= k < others.len() && others[k] == x;
                    assert(served[k + 1] == x);
                }
                if served.contains(x) {
                    let k = choose|k: int| 0 <= k < served.len() && served[k] == x;
                    assert(others[k - 1] == x);
                }
            }
        }
    }
}

/// Declare brokered MPMC with Ring storage and round-robin routing.
pub fn channel<T>() -> (channel: crate::Channel<
    T,
    crate::topology::MpmcBrokered<crate::broker::Spawned>,
    crate::backend::Ring,
    crate::execution::Sync,
    crate::wait::SpinYield,
>)
    ensures
        channel.shape == crate::Shape::initial(),
        channel.routing.cursor == 0,
{
    crate::Channel::new().mpmc_brokered()
}

} // verus!
