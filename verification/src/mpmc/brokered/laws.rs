//! What brokers do with the values that pass through them, stated over the contents of the
//! rings alone.
use super::{
    forwarded, is_lowest, law_batches_take_what_is_there, left, opened, spread_step, stepped,
    Advance, Broker, BrokerStep, Consumer, Delivery, Hop, Placement, Producer, Senders, Shared,
    Spread, Targets,
};
use crate::backend::{Backend, Link};
use crate::bits::bit_set;
use crate::round_robin::{attempt, law_rotation_finds_a_hit, lemma_first_hit, lemma_next_attempt};
use crate::routing::{PubSub, RoundRobin, Route, Router, Subscriber};
use vstd::multiset::Multiset;
use vstd::prelude::*;

verus! {

/// Nobody but producers fills the rings of a broker, and nobody but the broker empties them:
/// between two of its steps they stay as they are once all producers are gone, and producers
/// that are gone stay gone.
pub open spec fn undisturbed<T, B: Backend<T>>(
    inputs: Seq<usize>,
    before: Shared<T, B>,
    after: Shared<T, B>,
) -> bool {
    &&& after.live_producers() <= before.live_producers()
    &&& before.live_producers() == 0 ==> forall|k: int|
        0 <= k < inputs.len() ==> after.inputs()[#[trigger] inputs[k] as int].link().queue()
            == before.inputs()[inputs[k] as int].link().queue()
}

/// A run of a broker: step `i` takes `brokers[i]` and `befores[i]` to `brokers[i + 1]` and
/// `afters[i]`, and then the other endpoints have their turn.
pub open spec fn is_run<T, B: Backend<T>, P: Delivery<T, B>>(
    brokers: Seq<Broker<T, B, P>>,
    befores: Seq<Shared<T, B>>,
    afters: Seq<Shared<T, B>>,
    steps: Seq<BrokerStep>,
) -> bool {
    &&& brokers.len() == steps.len() + 1
    &&& befores.len() == steps.len()
    &&& afters.len() == steps.len()
    &&& forall|i: int|
        0 <= i < steps.len() ==> {
            &&& (#[trigger] befores[i]).wf()
            &&& brokers[i].attached(befores[i])
            &&& stepped(brokers[i], brokers[i + 1], befores[i], afters[i], steps[i])
        }
    &&& forall|i: int|
        0 <= i < steps.len() - 1 ==> undisturbed(
            brokers[0].inputs(),
            #[trigger] afters[i],
            befores[i + 1],
        )
}

/// Where the last pass stands that a broker makes: no producer is left, and unless it has found
/// something again, the rings that it has passed are empty.
spec fn closing<T, B: Backend<T>, P: Delivery<T, B>>(
    broker: Broker<T, B, P>,
    shared: Shared<T, B>,
) -> bool {
    let pass = broker.pass();
    &&& pass.per > 0
    &&& !pass.moved ==> pass.taken == 0 && pass.quota is None && broker.pending() is None
    &&& pass.last ==> {
        &&& shared.live_producers() == 0
        &&& !pass.moved ==> forall|k: int|
            0 <= k < pass.ring && k < broker.inputs().len() ==> shared.inputs()[
                #[trigger] broker.inputs()[k] as int
            ].link().queue().len() == 0
    }
}

proof fn lemma_step_keeps_closing<T, B: Backend<T>, P: Delivery<T, B>>(
    was: Broker<T, B, P>,
    now: Broker<T, B, P>,
    before: Shared<T, B>,
    after: Shared<T, B>,
    step: BrokerStep,
)
    requires
        before.wf(),
        was.attached(before),
        closing(was, before),
        stepped(was, now, before, after, step),
    ensures
        closing(now, after),
        step is Finished ==> {
            &&& was.pending() is None
            &&& now.pending() is None
            &&& before.live_producers() == 0
            &&& after.inputs() == before.inputs()
            &&& forall|k: int|
                0 <= k < was.inputs().len() ==> before.inputs()[
                    #[trigger] was.inputs()[k] as int
                ].link().queue().len() == 0
        },
{
    let pass = was.pass();
    if was.pending() is None && pass.ring < was.inputs().len() {
        let id = was.inputs()[pass.ring] as int;
        assert(before.inputs()[id].wf());
        law_batches_take_what_is_there(before.inputs()[id], pass.per);
        assert forall|k: int|
            now.pass().last && !now.pass().moved && 0 <= k < now.pass().ring && k
                < now.inputs().len() implies after.inputs()[
            #[trigger] now.inputs()[k] as int
        ].link().queue().len() == 0 by {
            let other = was.inputs()[k] as int;
            if k < pass.ring {
                assert(before.inputs()[other].link().queue().len() == 0);
            }
            if other != id {
                assert(after.inputs()[other] == before.inputs()[other]);
            }
        }
    }
}

/// A broker finishes only when all is delivered: however its run goes and whatever other
/// endpoints do in between, once a step answers that it has finished, no producer is left, no
/// value is on its way, and every ring that the broker empties is empty.
pub proof fn law_brokers_finish_when_all_is_delivered<T, B: Backend<T>, P: Delivery<T, B>>(
    brokers: Seq<Broker<T, B, P>>,
    befores: Seq<Shared<T, B>>,
    afters: Seq<Shared<T, B>>,
    steps: Seq<BrokerStep>,
)
    requires
        is_run(brokers, befores, afters, steps),
        steps.len() > 0,
        brokers[0].pending() is None,
        brokers[0].pass() == super::fresh_pass(brokers[0].batch() as int, false),
        steps.last() is Finished,
    ensures
        afters.last().live_producers() == 0,
        brokers.last().pending() is None,
        forall|k: int|
            0 <= k < brokers[0].inputs().len() ==> afters.last().inputs()[
                #[trigger] brokers[0].inputs()[k] as int
            ].link().queue() == Seq::<T>::empty(),
{
    let n = steps.len() as int;
    lemma_runs_keep_closing(brokers, befores, afters, steps, n - 1);
    lemma_step_keeps_closing(
        brokers[n - 1],
        brokers[n - 1 + 1],
        befores[n - 1],
        afters[n - 1],
        steps[n - 1],
    );
    assert forall|k: int| 0 <= k < brokers[0].inputs().len() implies afters.last().inputs()[
        #[trigger] brokers[0].inputs()[k] as int
    ].link().queue() == Seq::<T>::empty() by {
        let id = brokers[n - 1].inputs()[k] as int;
        assert(befores[n - 1].inputs()[id].link().queue().len() == 0);
        assert(afters.last().inputs()[id].link().queue() =~= Seq::<T>::empty());
    }
}

proof fn lemma_runs_keep_closing<T, B: Backend<T>, P: Delivery<T, B>>(
    brokers: Seq<Broker<T, B, P>>,
    befores: Seq<Shared<T, B>>,
    afters: Seq<Shared<T, B>>,
    steps: Seq<BrokerStep>,
    i: int,
)
    requires
        is_run(brokers, befores, afters, steps),
        brokers[0].pending() is None,
        brokers[0].pass() == super::fresh_pass(brokers[0].batch() as int, false),
        0 <= i < steps.len(),
    ensures
        closing(brokers[i], befores[i]),
        brokers[i].inputs() == brokers[0].inputs(),
    decreases i,
{
    if i == 0 {
        assert(brokers[0].attached(befores[0]));
    } else {
        lemma_runs_keep_closing(brokers, befores, afters, steps, i - 1);
        assert(befores[i - 1].wf());
        assert(stepped(
            brokers[i - 1],
            brokers[i - 1 + 1],
            befores[i - 1],
            afters[i - 1],
            steps[i - 1],
        ));
        lemma_step_keeps_closing(
            brokers[i - 1],
            brokers[i],
            befores[i - 1],
            afters[i - 1],
            steps[i - 1],
        );
        assert(undisturbed(brokers[0].inputs(), afters[i - 1], befores[i - 1 + 1]));
        assert(befores[i].wf());
        let broker = brokers[i];
        assert forall|k: int|
            broker.pass().last && !broker.pass().moved && 0 <= k < broker.pass().ring && k
                < broker.inputs().len() implies befores[i].inputs()[
            #[trigger] broker.inputs()[k] as int
        ].link().queue().len() == 0 by {
            assert(afters[i - 1].inputs()[broker.inputs()[k] as int].link().queue().len() == 0);
            assert(brokers[0].inputs()[k] == broker.inputs()[k]);
        }
    }
}

/// Whether a ring has space for another value; a ring without a bound always has.
pub open spec fn has_space<T, L: Link<T>>(link: L) -> bool {
    link.bound() matches Some(n) ==> link.queue().len() < n
}

/// Placing a value with one consumer loses nothing while that consumer is there: the value is
/// in its ring, behind all others, exactly where the ring had space, and is handed back exactly
/// where it was full. Only a value for a consumer that is gone is dropped.
pub proof fn law_placed_values_are_in_the_ring<T, B: Backend<T>>(
    senders: Senders<T, B>,
    before: Shared<T, B>,
    after: Shared<T, B>,
    k: int,
    item: T,
    placement: Placement<T>,
)
    requires
        forwarded(senders, before, after, k, item, placement),
    ensures
        ({
            let link = senders.link(before, k);
            let queue = senders.link(after, k).queue();
            &&& placement is Dropped <==> link.consumer_gone()
            &&& placement is Placed <==> !link.consumer_gone() && has_space::<T, B::Link>(link)
            &&& placement is Placed ==> queue == link.queue() + seq![item]
            &&& placement !is Placed ==> queue == link.queue()
            &&& placement matches Placement::Full(back) ==> back == item
        }),
{
    let link = senders.link(before, k);
    link.accepts_while_it_can();
    assert(link.queue().push(item) =~= link.queue() + seq![item]);
}

/// A routed value is never lost while its consumer is there: a delivery that is done has added
/// exactly that value to the ring of the consumer that was chosen, and one that is not done
/// keeps the value, because that ring is full. No other ring changes.
pub proof fn law_routed_values_reach_their_consumer<T, B: Backend<T>, F: Router<T>>(
    was: Route<F>,
    now: Route<F>,
    senders: Senders<T, B>,
    before: Shared<T, B>,
    after: Shared<T, B>,
    pending: (usize, T),
    outcome: Advance<(usize, T)>,
)
    requires
        before.wf(),
        senders.attached(before),
        pending.0 < senders.fan(),
        <Route<F> as Delivery<T, B>>::advanced(
            was,
            now,
            senders,
            before,
            after,
            pending,
            outcome,
        ),
        !senders.link(before, pending.0 as int).consumer_gone(),
    ensures
        ({
            let k = pending.0 as int;
            let link = senders.link(before, k);
            let queue = senders.link(after, k).queue();
            &&& outcome is Done <==> has_space::<T, B::Link>(link)
            &&& outcome is Done ==> queue == link.queue() + seq![pending.1]
            &&& outcome !is Done ==> outcome == Advance::Blocked(pending) && queue == link.queue()
            &&& forall|c: int|
                0 <= c < senders.fan() && c != k ==> (#[trigger] senders.link(after, c)).queue()
                    == senders.link(before, c).queue()
        }),
{
    let k = pending.0 as int;
    let link = senders.link(before, k);
    link.accepts_while_it_can();
    assert(link.queue().push(pending.1) =~= link.queue() + seq![pending.1]);
    assert forall|c: int| 0 <= c < senders.fan() && c != k implies (
    #[trigger] senders.link(after, c)).queue() == senders.link(before, c).queue() by {
        assert(after.outputs()[senders.base() + c] == before.outputs()[senders.base() + c]);
    }
}

/// What the router says decides: a value starts on its way to the consumer that the router
/// names, numbers beyond the last consumer counting round, and it is the value itself that does.
pub proof fn law_routers_choose_the_consumer<T, B: Backend<T>, F: Router<T>>(
    was: Route<F>,
    now: Route<F>,
    item: T,
    consumers: nat,
    pending: Option<(usize, T)>,
)
    requires
        0 < consumers,
        <Route<F> as Delivery<T, B>>::started(was, now, item, consumers, pending),
    ensures
        pending matches Some(p) && p.1 == item && p.0 < consumers && exists|target: usize, rounds: int|
            #[trigger] F::chooses(was.router, now.router, item, consumers, target) && target == p.0
                + #[trigger] times(rounds, consumers as int),
{
    let target = choose|target: usize|
        #[trigger] F::chooses(was.router, now.router, item, consumers, target) && (pending->0).0
            == target as int % consumers as int;
    let rounds = target as int / consumers as int;
    vstd::arithmetic::div_mod::lemma_fundamental_div_mod(target as int, consumers as int);
    assert(rounds * consumers == consumers * rounds) by (nonlinear_arith);
    assert(target == (pending->0).0 + times(rounds, consumers as int));
}

/// `rounds` times `n`.
pub open spec fn times(rounds: int, n: int) -> int {
    rounds * n
}

/// Round-robin delivery loses a value only where every consumer is gone. Otherwise a delivery
/// that is done has added exactly that value to the ring of exactly one consumer, which is there
/// and had space, and one that is not done keeps the value, because the ring of every consumer
/// that is there is full.
pub proof fn law_round_robin_reaches_one_consumer<T, B: Backend<T>>(
    was: RoundRobin,
    now: RoundRobin,
    senders: Senders<T, B>,
    before: Shared<T, B>,
    after: Shared<T, B>,
    pending: T,
    outcome: Advance<T>,
)
    requires
        before.wf(),
        senders.attached(before),
        <RoundRobin as Delivery<T, B>>::advanced(
            was,
            now,
            senders,
            before,
            after,
            pending,
            outcome,
        ),
        exists|c: int|
            0 <= c < senders.fan() && !(#[trigger] senders.link(before, c)).consumer_gone(),
    ensures
        outcome is Done <==> exists|c: int|
            0 <= c < senders.fan() && has_space::<T, B::Link>(#[trigger] senders.link(before, c))
                && !senders.link(before, c).consumer_gone(),
        outcome is Done ==> exists|k: int|
            {
                let link = #[trigger] senders.link(before, k);
                &&& 0 <= k < senders.fan()
                &&& !link.consumer_gone()
                &&& senders.link(after, k).queue() == link.queue() + seq![pending]
                &&& forall|c: int|
                    0 <= c < senders.fan() && c != k ==> (#[trigger] senders.link(
                        after,
                        c,
                    )).queue() == senders.link(before, c).queue()
            },
        outcome !is Done ==> outcome == Advance::Blocked(pending) && after.outputs()
            == before.outputs(),
{
    let start = was.cursor as int;
    let n = senders.fan() as int;
    let hit = senders.takes(before);
    law_rotation_finds_a_hit(hit, start, n);
    lemma_first_hit(hit, start, 0, n);
    assert forall|c: int| 0 <= c < n implies (#[trigger] hit(c) <==> !senders.link(
        before,
        c,
    ).consumer_gone() && has_space::<T, B::Link>(senders.link(before, c))) by {
        senders.link(before, c).accepts_while_it_can();
    }
    if senders.turn(before, start) < n {
        let k = attempt(start, senders.turn(before, start), n);
        let link = senders.link(before, k);
        assert(hit(k));
        assert(link.queue().push(pending) =~= link.queue() + seq![pending]);
        assert forall|c: int| 0 <= c < n && c != k implies (#[trigger] senders.link(
            after,
            c,
        )).queue() == senders.link(before, c).queue() by {
            assert(after.outputs()[senders.base() + c] == before.outputs()[senders.base() + c]);
        }
    } else {
        assert forall|c: int| 0 <= c < n implies !(has_space::<T, B::Link>(
            #[trigger] senders.link(before, c),
        ) && !senders.link(before, c).consumer_gone()) by {
            assert(!hit(c));
        }
    }
}

/// Round-robin delivery takes turns: while every consumer is there and has space, the consumer
/// at the cursor gets the value, and the one after it is next.
pub proof fn law_round_robin_takes_turns<T, B: Backend<T>>(
    was: RoundRobin,
    now: RoundRobin,
    senders: Senders<T, B>,
    before: Shared<T, B>,
    after: Shared<T, B>,
    pending: T,
    outcome: Advance<T>,
)
    requires
        before.wf(),
        senders.attached(before),
        <RoundRobin as Delivery<T, B>>::advanced(
            was,
            now,
            senders,
            before,
            after,
            pending,
            outcome,
        ),
        forall|c: int|
            0 <= c < senders.fan() ==> has_space::<T, B::Link>(#[trigger] senders.link(before, c))
                && !senders.link(before, c).consumer_gone(),
    ensures
        ({
            let n = senders.fan() as int;
            let k = was.cursor as int % n;
            &&& outcome is Done
            &&& senders.link(after, k).queue() == senders.link(before, k).queue() + seq![pending]
            &&& now.cursor as int % n == (was.cursor + 1) % n
        }),
{
    let start = was.cursor as int;
    let n = senders.fan() as int;
    let k = attempt(start, 0, n);
    let link = senders.link(before, k);
    lemma_next_attempt(start, 0, n);
    link.accepts_while_it_can();
    assert(has_space::<T, B::Link>(link));
    assert(senders.takes(before)(k));
    assert(senders.turn(before, start) == 0);
    assert(link.queue().push(pending) =~= link.queue() + seq![pending]);
}

/// A published value is never lost to a consumer that it is meant for and that is there: a
/// step that goes on or ends has added the value, or a copy of it, to the ring of the lowest
/// consumer that waited, and a step that does not go on has changed no ring, because that ring
/// is full.
pub proof fn law_published_values_reach_the_next_consumer<T: Clone, B: Backend<T>, F: Subscriber<T>>(
    was: PubSub<F>,
    now: PubSub<F>,
    senders: Senders<T, B>,
    before: Shared<T, B>,
    after: Shared<T, B>,
    pending: Spread<T>,
    outcome: Advance<Spread<T>>,
    k: int,
)
    requires
        before.wf(),
        senders.attached(before),
        <PubSub<F> as Delivery<T, B>>::fits(pending, senders.fan()),
        <PubSub<F> as Delivery<T, B>>::advanced(
            was,
            now,
            senders,
            before,
            after,
            pending,
            outcome,
        ),
        bit_set(pending.mask, k),
        forall|j: int| #[trigger] bit_set(pending.mask, j) ==> k <= j,
        pending.copy matches Some(copy) ==> cloned(pending.item, copy),
    ensures
        ({
            let link = senders.link(before, k);
            let queue = senders.link(after, k).queue();
            let alone = forall|j: int| #[trigger] bit_set(pending.mask, j) ==> j == k;
            &&& outcome is Blocked <==> !link.consumer_gone() && !has_space::<T, B::Link>(link)
            &&& outcome is Done ==> alone
            &&& outcome is More ==> !alone
            &&& outcome !is Blocked && !link.consumer_gone() ==> exists|given: T|
                #![trigger link.queue().push(given)]
                queue == link.queue().push(given) && if alone {
                    given == pending.item
                } else {
                    cloned(pending.item, given)
                }
            &&& outcome is Blocked || link.consumer_gone() ==> queue == link.queue()
            &&& forall|c: int|
                0 <= c < senders.fan() && c != k ==> (#[trigger] senders.link(after, c)).queue()
                    == senders.link(before, c).queue()
            &&& outcome matches Advance::More(rest) ==> rest.item == pending.item && forall|j: int| #[trigger]
                bit_set(rest.mask, j) <==> bit_set(pending.mask, j) && j != k
            &&& outcome matches Advance::Blocked(same) ==> same.item == pending.item && same.mask
                == pending.mask && (!alone ==> (same.copy matches Some(copy) && cloned(pending.item, copy)))
        }),
{
    let low = choose|low: int|
        {
            &&& #[trigger] is_lowest(pending.mask, low)
            &&& super::only_output(before, after, senders.base() + low)
            &&& spread_step(senders, before, after, low, pending, outcome)
        };
    assert(low == k);
    let link = senders.link(before, k);
    link.accepts_while_it_can();
    assert forall|c: int| 0 <= c < senders.fan() && c != k implies (#[trigger] senders.link(
        after,
        c,
    )).queue() == senders.link(before, c).queue() by {
        assert(after.outputs()[senders.base() + c] == before.outputs()[senders.base() + c]);
    }
}

/// A broker takes values one at a time and oldest first: a step either leaves the contents of
/// every input ring as they are, or takes the first value of exactly one ring of its own and
/// hands it to its policy. It takes none while another one is on its way.
pub proof fn law_brokers_take_the_oldest_value<T, B: Backend<T>, P: Delivery<T, B>>(
    was: Broker<T, B, P>,
    now: Broker<T, B, P>,
    before: Shared<T, B>,
    after: Shared<T, B>,
    step: BrokerStep,
)
    requires
        before.wf(),
        was.attached(before),
        stepped(was, now, before, after, step),
    ensures
        ({
            ||| forall|i: int|
                0 <= i < before.inputs().len() ==> (#[trigger] after.inputs()[i]).link().queue()
                    == before.inputs()[i].link().queue()
            ||| was.pending() is None && step is Moved && exists|k: int|
                {
                    let id = #[trigger] was.inputs()[k] as int;
                    let queue = before.inputs()[id].link().queue();
                    &&& 0 <= k < was.inputs().len()
                    &&& queue.len() > 0
                    &&& after.inputs()[id].link().queue() == queue.skip(1)
                    &&& P::started(
                        was.policy(),
                        now.policy(),
                        queue[0],
                        was.senders().fan(),
                        now.pending(),
                    )
                    &&& forall|i: int|
                        0 <= i < before.inputs().len() && i != id ==> (
                        #[trigger] after.inputs()[i]).link().queue()
                            == before.inputs()[i].link().queue()
                    &&& after.outputs() == before.outputs()
                }
        }),
        was.pending() is None ==> forall|i: int|
            0 <= i < before.outputs().len() ==> (#[trigger] after.outputs()[i]).link().queue()
                == before.outputs()[i].link().queue(),
{
    let pass = was.pass();
    let base = was.senders().base();
    let fan = was.senders().fan();
    if was.pending() is None {
        if pass.ring < was.inputs().len() {
            let id = was.inputs()[pass.ring] as int;
            if step is Moved {
                assert(before.inputs()[id].link().queue().len() > 0);
            } else {
                assert forall|i: int| 0 <= i < before.inputs().len() implies (
                #[trigger] after.inputs()[i]).link().queue()
                    == before.inputs()[i].link().queue() by {
                    if i != id {
                        assert(after.inputs()[i] == before.inputs()[i]);
                    }
                }
            }
        }
        assert forall|i: int| 0 <= i < before.outputs().len() implies (
        #[trigger] after.outputs()[i]).link().queue() == before.outputs()[i].link().queue() by {
            if base <= i < base + fan && step is Finished {
                assert(was.senders().link(after, i - base).queue() == was.senders().link(
                    before,
                    i - base,
                ).queue());
            }
        }
    }
}

/// A broker does not pass over values: where it comes to a ring that holds something, its next
/// step takes the first value of it.
pub proof fn law_brokers_pass_over_nothing<T, B: Backend<T>, P: Delivery<T, B>>(
    was: Broker<T, B, P>,
    now: Broker<T, B, P>,
    before: Shared<T, B>,
    after: Shared<T, B>,
    step: BrokerStep,
)
    requires
        before.wf(),
        was.attached(before),
        stepped(was, now, before, after, step),
        was.pending() is None,
        was.pass().ring < was.inputs().len(),
        was.pass().taken == 0,
        was.pass().quota is None,
        was.pass().per > 0,
        before.inputs()[was.inputs()[was.pass().ring] as int].link().queue().len() > 0,
    ensures
        ({
            let id = was.inputs()[was.pass().ring] as int;
            let queue = before.inputs()[id].link().queue();
            &&& step is Moved
            &&& after.inputs()[id].link().queue() == queue.skip(1)
            &&& P::started(
                was.policy(),
                now.policy(),
                queue[0],
                was.senders().fan(),
                now.pending(),
            )
        }),
{
    let id = was.inputs()[was.pass().ring] as int;
    assert(before.inputs()[id].wf());
    law_batches_take_what_is_there(before.inputs()[id], was.pass().per);
}

/// A broker says that it is idle only where a pass has moved nothing and a producer is left, and
/// it then starts over with a whole batch for every ring.
pub proof fn law_brokers_rest_only_between_passes<T, B: Backend<T>, P: Delivery<T, B>>(
    was: Broker<T, B, P>,
    now: Broker<T, B, P>,
    before: Shared<T, B>,
    after: Shared<T, B>,
    step: BrokerStep,
)
    requires
        was.attached(before),
        stepped(was, now, before, after, step),
        step is Idle,
    ensures
        was.pending() is None,
        now.pending() is None,
        before.live_producers() > 0,
        was.pass().ring == was.inputs().len(),
        !was.pass().moved,
        now.pass().ring == 0,
        now.pass().per == was.batch(),
        after.inputs() == before.inputs(),
        after.outputs() == before.outputs(),
{
}

/// All values that wait in a list of rings.
pub open spec fn queued<T, B: Backend<T>>(hops: Seq<Hop<T, B>>) -> Multiset<T>
    decreases hops.len(),
{
    if hops.len() == 0 {
        Multiset::empty()
    } else {
        queued(hops.drop_last()).add(hops.last().link().queue().to_multiset())
    }
}

proof fn lemma_queued_same<T, B: Backend<T>>(a: Seq<Hop<T, B>>, b: Seq<Hop<T, B>>)
    requires
        a.len() == b.len(),
        forall|i: int|
            0 <= i < a.len() ==> (#[trigger] a[i]).link().queue() == b[i].link().queue(),
    ensures
        queued(a) == queued(b),
    decreases a.len(),
{
    if a.len() > 0 {
        let x = a.drop_last();
        let y = b.drop_last();
        assert forall|i: int| 0 <= i < x.len() implies (#[trigger] x[i]).link().queue()
            == y[i].link().queue() by {
            assert(a[i].link().queue() == b[i].link().queue());
        }
        lemma_queued_same(x, y);
        assert(a[a.len() - 1].link().queue() == b[b.len() - 1].link().queue());
    }
}

/// Where one ring changes, the sum changes as that ring does.
proof fn lemma_queued_one<T, B: Backend<T>>(a: Seq<Hop<T, B>>, b: Seq<Hop<T, B>>, id: int)
    requires
        a.len() == b.len(),
        0 <= id < a.len(),
        forall|i: int|
            0 <= i < a.len() && i != id ==> (#[trigger] b[i]).link().queue() == a[i].link().queue(),
    ensures
        queued(b).add(a[id].link().queue().to_multiset()) =~= queued(a).add(
            b[id].link().queue().to_multiset(),
        ),
    decreases a.len(),
{
    let x = a.drop_last();
    let y = b.drop_last();
    if id == a.len() - 1 {
        assert forall|i: int| 0 <= i < x.len() implies (#[trigger] x[i]).link().queue()
            == y[i].link().queue() by {
            assert(b[i].link().queue() == a[i].link().queue());
        }
        lemma_queued_same(x, y);
    } else {
        assert forall|i: int| 0 <= i < x.len() && i != id implies (#[trigger] y[i]).link().queue()
            == x[i].link().queue() by {
            assert(b[i].link().queue() == a[i].link().queue());
        }
        lemma_queued_one(x, y, id);
        assert(b[b.len() - 1].link().queue() == a[a.len() - 1].link().queue());
        let mine = a[id].link().queue().to_multiset();
        let yours = b[id].link().queue().to_multiset();
        assert(x[id] == a[id] && y[id] == b[id]);
        assert forall|v: T| #[trigger] queued(b).add(mine).count(v) == queued(a).add(yours).count(
            v,
        ) by {
            assert(queued(y).add(mine).count(v) == queued(x).add(yours).count(v));
        }
    }
}

proof fn lemma_head_apart<T>(queue: Seq<T>)
    requires
        queue.len() > 0,
    ensures
        queue.skip(1).to_multiset().insert(queue[0]) =~= queue.to_multiset(),
{
    broadcast use vstd::seq_lib::group_to_multiset_ensures;

    assert(queue =~= seq![queue[0]] + queue.skip(1));
    vstd::seq_lib::lemma_multiset_commutative(seq![queue[0]], queue.skip(1));
    assert(seq![queue[0]] =~= Seq::empty().push(queue[0]));
    assert(seq![queue[0]].to_multiset() =~= Multiset::singleton(queue[0]));
}

proof fn lemma_tail_joined<T>(queue: Seq<T>, v: T)
    ensures
        (queue + seq![v]).to_multiset() =~= queue.to_multiset().insert(v),
{
    broadcast use vstd::seq_lib::group_to_multiset_ensures;

    assert(queue + seq![v] =~= queue.push(v));
}

/// The value that is on its way, if there is one.
pub open spec fn underway<T>(pending: Option<T>) -> Multiset<T> {
    match pending {
        Some(v) => Multiset::singleton(v),
        None => Multiset::empty(),
    }
}

/// A round-robin broker neither loses nor invents values: while some consumer is there, the
/// values in its input rings, on their way and in the output rings are the same before and after
/// each of its steps.
pub proof fn law_round_robin_brokers_conserve_values<T, B: Backend<T>>(
    was: Broker<T, B, RoundRobin>,
    now: Broker<T, B, RoundRobin>,
    before: Shared<T, B>,
    after: Shared<T, B>,
    step: BrokerStep,
)
    requires
        before.wf(),
        was.attached(before),
        stepped(was, now, before, after, step),
        exists|c: int|
            0 <= c < was.senders().fan() && !(#[trigger] was.senders().link(
                before,
                c,
            )).consumer_gone(),
    ensures
        queued(after.inputs()).add(underway(now.pending())).add(queued(after.outputs())) == queued(
            before.inputs(),
        ).add(underway(was.pending())).add(queued(before.outputs())),
{
    law_brokers_take_the_oldest_value(was, now, before, after, step);
    let senders = was.senders();
    match was.pending() {
        Some(v) => {
            let outcome = choose|outcome: Advance<T>|
                {
                    &&& #[trigger] <RoundRobin as Delivery<T, B>>::advanced(
                        was.policy(),
                        now.policy(),
                        senders,
                        before,
                        after,
                        v,
                        outcome,
                    )
                    &&& match outcome {
                        Advance::Done => now.pending() is None && step == BrokerStep::Moved,
                        Advance::More(p) => now.pending() == Some(p) && step == BrokerStep::Moved,
                        Advance::Blocked(p) => now.pending() == Some(p) && step
                            == BrokerStep::Blocked,
                    }
                };
            law_round_robin_reaches_one_consumer(
                was.policy(),
                now.policy(),
                senders,
                before,
                after,
                v,
                outcome,
            );
            if outcome is Done {
                let k = choose|k: int|
                    {
                        let link = #[trigger] senders.link(before, k);
                        &&& 0 <= k < senders.fan()
                        &&& !link.consumer_gone()
                        &&& senders.link(after, k).queue() == link.queue() + seq![v]
                        &&& forall|c: int|
                            0 <= c < senders.fan() && c != k ==> (#[trigger] senders.link(
                                after,
                                c,
                            )).queue() == senders.link(before, c).queue()
                    };
                lemma_ring_gained(senders, before, after, k, v);
            }
            assert(queued(after.inputs()).add(underway(now.pending())).add(queued(after.outputs()))
                =~= queued(before.inputs()).add(underway(was.pending())).add(
                queued(before.outputs()),
            ));
        },
        None => {
            lemma_queued_same(after.outputs(), before.outputs());
            if forall|i: int|
                0 <= i < before.inputs().len() ==> (#[trigger] after.inputs()[i]).link().queue()
                    == before.inputs()[i].link().queue() {
                lemma_queued_same(after.inputs(), before.inputs());
                lemma_nothing_taken(was, now, before, after, step);
            } else {
                let k = choose|k: int|
                    {
                        let id = #[trigger] was.inputs()[k] as int;
                        let queue = before.inputs()[id].link().queue();
                        &&& 0 <= k < was.inputs().len()
                        &&& queue.len() > 0
                        &&& after.inputs()[id].link().queue() == queue.skip(1)
                        &&& <RoundRobin as Delivery<T, B>>::started(
                            was.policy(),
                            now.policy(),
                            queue[0],
                            was.senders().fan(),
                            now.pending(),
                        )
                        &&& forall|i: int|
                            0 <= i < before.inputs().len() && i != id ==> (
                            #[trigger] after.inputs()[i]).link().queue()
                                == before.inputs()[i].link().queue()
                        &&& after.outputs() == before.outputs()
                    };
                lemma_ring_lost(before, after, was.inputs()[k] as int);
            }
            assert(queued(after.inputs()).add(underway(now.pending())).add(queued(after.outputs()))
                =~= queued(before.inputs()).add(underway(was.pending())).add(
                queued(before.outputs()),
            ));
        },
    }
}

/// A step that leaves every input ring as it is puts nothing new on its way.
proof fn lemma_nothing_taken<T, B: Backend<T>, P: Delivery<T, B>>(
    was: Broker<T, B, P>,
    now: Broker<T, B, P>,
    before: Shared<T, B>,
    after: Shared<T, B>,
    step: BrokerStep,
)
    requires
        was.attached(before),
        stepped(was, now, before, after, step),
        was.pending() is None,
        forall|i: int|
            0 <= i < before.inputs().len() ==> (#[trigger] after.inputs()[i]).link().queue()
                == before.inputs()[i].link().queue(),
    ensures
        now.pending() is None,
{
    let pass = was.pass();
    if pass.ring < was.inputs().len() && step is Moved {
        let id = was.inputs()[pass.ring] as int;
        let queue = before.inputs()[id].link().queue();
        assert(after.inputs()[id].link().queue() == queue);
        assert(queue.skip(1).len() == queue.len() - 1);
    }
}

proof fn lemma_ring_lost<T, B: Backend<T>>(before: Shared<T, B>, after: Shared<T, B>, id: int)
    requires
        0 <= id < before.inputs().len(),
        after.inputs().len() == before.inputs().len(),
        before.inputs()[id].link().queue().len() > 0,
        after.inputs()[id].link().queue() == before.inputs()[id].link().queue().skip(1),
        forall|i: int|
            0 <= i < before.inputs().len() && i != id ==> (
            #[trigger] after.inputs()[i]).link().queue() == before.inputs()[i].link().queue(),
    ensures
        queued(after.inputs()).insert(before.inputs()[id].link().queue()[0]) == queued(
            before.inputs(),
        ),
{
    let queue = before.inputs()[id].link().queue();
    lemma_queued_one(before.inputs(), after.inputs(), id);
    lemma_head_apart(queue);
    let left = queue.skip(1).to_multiset();
    assert(queued(after.inputs()).add(left.insert(queue[0])) =~= queued(before.inputs()).add(left));
    assert forall|x: T|
        queued(after.inputs()).insert(queue[0]).count(x) == queued(before.inputs()).count(x) by {
        assert(queued(after.inputs()).add(left.insert(queue[0])).count(x) == queued(
            before.inputs(),
        ).add(left).count(x));
    }
    assert(queued(after.inputs()).insert(queue[0]) =~= queued(before.inputs()));
}

proof fn lemma_ring_gained<T, B: Backend<T>>(
    senders: Senders<T, B>,
    before: Shared<T, B>,
    after: Shared<T, B>,
    k: int,
    v: T,
)
    requires
        senders.attached(before),
        0 <= senders.base(),
        0 <= k < senders.fan(),
        after.outputs().len() == before.outputs().len(),
        senders.link(after, k).queue() == senders.link(before, k).queue() + seq![v],
        forall|c: int|
            0 <= c < senders.fan() && c != k ==> (#[trigger] senders.link(after, c)).queue()
                == senders.link(before, c).queue(),
        forall|i: int|
            0 <= i < before.outputs().len() && !(senders.base() <= i < senders.base()
                + senders.fan()) ==> #[trigger] after.outputs()[i] == before.outputs()[i],
    ensures
        queued(after.outputs()) == queued(before.outputs()).insert(v),
{
    let id = senders.base() + k;
    let queue = before.outputs()[id].link().queue();
    assert forall|i: int| 0 <= i < before.outputs().len() && i != id implies (
    #[trigger] after.outputs()[i]).link().queue() == before.outputs()[i].link().queue() by {
        if senders.base() <= i < senders.base() + senders.fan() {
            assert(senders.link(after, i - senders.base()).queue() == senders.link(
                before,
                i - senders.base(),
            ).queue());
        }
    }
    lemma_queued_one(before.outputs(), after.outputs(), id);
    lemma_tail_joined(queue, v);
    let had = queue.to_multiset();
    assert forall|x: T|
        queued(after.outputs()).count(x) == queued(before.outputs()).insert(v).count(x) by {
        assert(queued(after.outputs()).add(had).count(x) == queued(before.outputs()).add(
            had.insert(v),
        ).count(x));
    }
    assert(queued(after.outputs()) =~= queued(before.outputs()).insert(v));
}

/// A routing broker neither loses nor invents values: while the consumer is there that the value
/// on its way is for, the values in its input rings, on their way and in the output rings are
/// the same before and after each of its steps.
pub proof fn law_routing_brokers_conserve_values<T, B: Backend<T>, F: Router<T>>(
    was: Broker<T, B, Route<F>>,
    now: Broker<T, B, Route<F>>,
    before: Shared<T, B>,
    after: Shared<T, B>,
    step: BrokerStep,
)
    requires
        before.wf(),
        was.attached(before),
        stepped(was, now, before, after, step),
        was.pending() matches Some(p) ==> !was.senders().link(before, p.0 as int).consumer_gone(),
    ensures
        queued(after.inputs()).add(routed(now.pending())).add(queued(after.outputs())) == queued(
            before.inputs(),
        ).add(routed(was.pending())).add(queued(before.outputs())),
{
    law_brokers_take_the_oldest_value(was, now, before, after, step);
    let senders = was.senders();
    match was.pending() {
        Some(p) => {
            let outcome = choose|outcome: Advance<(usize, T)>|
                {
                    &&& #[trigger] <Route<F> as Delivery<T, B>>::advanced(
                        was.policy(),
                        now.policy(),
                        senders,
                        before,
                        after,
                        p,
                        outcome,
                    )
                    &&& match outcome {
                        Advance::Done => now.pending() is None && step == BrokerStep::Moved,
                        Advance::More(p) => now.pending() == Some(p) && step == BrokerStep::Moved,
                        Advance::Blocked(p) => now.pending() == Some(p) && step
                            == BrokerStep::Blocked,
                    }
                };
            law_routed_values_reach_their_consumer(
                was.policy(),
                now.policy(),
                senders,
                before,
                after,
                p,
                outcome,
            );
            if outcome is Done {
                lemma_ring_gained(senders, before, after, p.0 as int, p.1);
            } else {
                assert forall|i: int| 0 <= i < before.outputs().len() implies (
                #[trigger] after.outputs()[i]).link().queue()
                    == before.outputs()[i].link().queue() by {
                    let base = senders.base();
                    if base <= i < base + senders.fan() {
                        assert(senders.link(after, i - base).queue() == senders.link(
                            before,
                            i - base,
                        ).queue());
                    }
                }
                lemma_queued_same(after.outputs(), before.outputs());
            }
        },
        None => {
            lemma_queued_same(after.outputs(), before.outputs());
            if forall|i: int|
                0 <= i < before.inputs().len() ==> (#[trigger] after.inputs()[i]).link().queue()
                    == before.inputs()[i].link().queue() {
                lemma_queued_same(after.inputs(), before.inputs());
                lemma_nothing_taken(was, now, before, after, step);
            } else {
                let k = choose|k: int|
                    {
                        let id = #[trigger] was.inputs()[k] as int;
                        let queue = before.inputs()[id].link().queue();
                        &&& 0 <= k < was.inputs().len()
                        &&& queue.len() > 0
                        &&& after.inputs()[id].link().queue() == queue.skip(1)
                        &&& <Route<F> as Delivery<T, B>>::started(
                            was.policy(),
                            now.policy(),
                            queue[0],
                            was.senders().fan(),
                            now.pending(),
                        )
                        &&& forall|i: int|
                            0 <= i < before.inputs().len() && i != id ==> (
                            #[trigger] after.inputs()[i]).link().queue()
                                == before.inputs()[i].link().queue()
                        &&& after.outputs() == before.outputs()
                    };
                lemma_ring_lost(before, after, was.inputs()[k] as int);
            }
        },
    }
    assert(queued(after.inputs()).add(routed(now.pending())).add(queued(after.outputs())) =~= queued(
        before.inputs(),
    ).add(routed(was.pending())).add(queued(before.outputs())));
}

/// The value that is on its way to the consumer of its router, if there is one.
pub open spec fn routed<T>(pending: Option<(usize, T)>) -> Multiset<T> {
    match pending {
        Some(p) => Multiset::singleton(p.1),
        None => Multiset::empty(),
    }
}

/// Whether some broker empties input ring `input`.
pub open spec fn has_broker<T, B: Backend<T>, P: Delivery<T, B>>(
    brokers: Seq<Broker<T, B, P>>,
    input: int,
) -> bool {
    exists|b: int, k: int|
        0 <= b < brokers.len() && 0 <= k < brokers[b].inputs().len()
            && #[trigger] brokers[b].inputs()[k] == input
}

/// Every producer of a channel has exactly one broker, and every broker has a ring to every
/// consumer that no other broker and no other consumer uses.
pub proof fn law_every_producer_has_one_broker<T, B: Backend<T>, P: Delivery<T, B> + Clone>(
    shared: Shared<T, B>,
    producers: Seq<Producer<T, B>>,
    consumers: Seq<Consumer>,
    brokers: Seq<Broker<T, B, P>>,
    capacity: usize,
    policy: P,
)
    requires
        brokers.len() > 0,
        consumers.len() > 0,
        opened(
            shared,
            producers,
            consumers,
            brokers,
            producers.len() as int,
            consumers.len() as int,
            brokers.len() as int,
            capacity,
            policy,
        ),
    ensures
        forall|i: int|
            0 <= i < producers.len() ==> has_broker(brokers, (#[trigger] producers[i]).input()),
        forall|a: int, j: int, b: int, k: int|
            0 <= a < brokers.len() && 0 <= j < brokers[a].inputs().len() && 0 <= b < brokers.len()
                && 0 <= k < brokers[b].inputs().len() && #[trigger] brokers[a].inputs()[j]
                == #[trigger] brokers[b].inputs()[k] ==> a == b && j == k,
        forall|b: int, c: int|
            0 <= b < brokers.len() && 0 <= c < consumers.len() ==> #[trigger] consumers[c].outputs()[b]
                == brokers[b].senders().base() + c && c < brokers[b].senders().fan(),
        forall|a: int, c: int, b: int, d: int|
            0 <= a < brokers.len() && 0 <= c < consumers.len() && 0 <= b < brokers.len() && 0 <= d
                < consumers.len() && #[trigger] consumers[c].outputs()[a]
                == #[trigger] consumers[d].outputs()[b] ==> a == b && c == d,
{
    let n = brokers.len() as int;
    let m = consumers.len() as int;
    assert forall|i: int| 0 <= i < producers.len() implies has_broker(
        brokers,
        (#[trigger] producers[i]).input(),
    ) by {
        let b = i % n;
        let k = i / n;
        vstd::arithmetic::div_mod::lemma_fundamental_div_mod(i, n);
        let len = brokers[b].inputs().len() as int;
        assert(brokers[b].attached(shared));
        assert(0 <= k) by (nonlinear_arith)
            requires
                k == i / n,
                0 <= i,
                0 < n,
        ;
        assert(k < len) by (nonlinear_arith)
            requires
                n * k + b == i,
                i < b + len * n,
                0 < n,
        ;
        assert(k * n == n * k) by (nonlinear_arith);
        assert(brokers[b].inputs()[k] == b + k * n);
        assert(producers[i].input() == i);
    }
    assert forall|a: int, j: int, b: int, k: int|
        0 <= a < n && 0 <= j < brokers[a].inputs().len() && 0 <= b < n && 0 <= k
            < brokers[b].inputs().len() && #[trigger] brokers[a].inputs()[j]
            == #[trigger] brokers[b].inputs()[k] implies a == b && j == k by {
        assert(brokers[a].attached(shared) && brokers[b].attached(shared));
        assert(brokers[a].inputs()[j] == a + j * n);
        assert(brokers[b].inputs()[k] == b + k * n);
        lemma_same_place(a, j, b, k, n);
    }
    assert forall|b: int, c: int| 0 <= b < n && 0 <= c < m implies #[trigger] consumers[c].outputs()[b]
        == brokers[b].senders().base() + c && c < brokers[b].senders().fan() by {
        assert(brokers[b].attached(shared));
        assert(consumers[c].attached(shared));
    }
    assert forall|a: int, c: int, b: int, d: int|
        0 <= a < n && 0 <= c < m && 0 <= b < n && 0 <= d < m && #[trigger] consumers[c].outputs()[a]
            == #[trigger] consumers[d].outputs()[b] implies a == b && c == d by {
        assert(consumers[c].attached(shared) && consumers[d].attached(shared));
        lemma_same_place(c, a, d, b, m);
    }
}

/// A number is written in only one way as a multiple of `n` and a smaller rest.
proof fn lemma_same_place(a: int, j: int, b: int, k: int, n: int)
    requires
        0 <= a < n,
        0 <= b < n,
        a + j * n == b + k * n,
    ensures
        a == b,
        j == k,
{
    assert(j == k) by (nonlinear_arith)
        requires
            0 <= a < n,
            0 <= b < n,
            a + j * n == b + k * n,
    ;
}

/// A producer is held up only by a full ring: its ring takes a value wherever there are fewer
/// values in it, those included whose slots are not free yet, than it has slots.
pub proof fn law_senders_wait_only_for_a_full_ring<T, B: Backend<T>>(hop: Hop<T, B>)
    requires
        !hop.link().consumer_gone(),
    ensures
        hop.takes() <==> (hop.link().bound() matches Some(n) ==> hop.link().queue().len()
            + hop.unreleased() < n),
{
    hop.link().accepts_while_it_can();
}

/// A consumer sees all of its rings: it finds a value wherever any of them holds one, and takes
/// the channel for finished exactly where every broker is gone and all of them are empty. Both
/// never hold at once.
pub proof fn law_consumers_see_every_ring<T, B: Backend<T>>(consumer: Consumer, shared: Shared<T, B>)
    requires
        consumer.attached(shared),
        consumer.outputs().len() > 0,
    ensures
        consumer.any_filled(shared) <==> !(forall|k: int|
            0 <= k < consumer.outputs().len() ==> shared.outputs()[
                #[trigger] consumer.outputs()[k] as int
            ].link().queue() == Seq::<T>::empty()),
        consumer.finished(shared) <==> !consumer.any_filled(shared) && forall|k: int|
            0 <= k < consumer.outputs().len() ==> shared.outputs()[
                #[trigger] consumer.outputs()[k] as int
            ].link().producer_gone(),
{
    if consumer.any_filled(shared) {
        let k = choose|k: int|
            0 <= k < consumer.outputs().len() && #[trigger] consumer.filled(shared)(k);
        assert(shared.outputs()[consumer.outputs()[k] as int].link().queue().len() > 0);
    } else {
        assert forall|k: int| 0 <= k < consumer.outputs().len() implies shared.outputs()[
            #[trigger] consumer.outputs()[k] as int
        ].link().queue() == Seq::<T>::empty() by {
            assert(!consumer.filled(shared)(k));
            assert(shared.outputs()[consumer.outputs()[k] as int].link().queue() =~= Seq::<
                T,
            >::empty());
        }
    }
}


/// A broker takes whole batches: what it found in a ring when it came to it, as far as its batch
/// goes, is taken before it goes on to the next ring, unless the ring runs empty before; and it
/// never takes more than its batch.
pub proof fn law_brokers_take_whole_batches<T, B: Backend<T>, P: Delivery<T, B>>(
    was: Broker<T, B, P>,
    now: Broker<T, B, P>,
    before: Shared<T, B>,
    after: Shared<T, B>,
    step: BrokerStep,
)
    requires
        before.wf(),
        was.attached(before),
        stepped(was, now, before, after, step),
        was.pending() is None,
        was.pass().ring < was.inputs().len(),
        was.pass().per >= 0,
        was.pass().quota is None ==> was.pass().taken == 0,
    ensures
        ({
            let hop = before.inputs()[was.inputs()[was.pass().ring] as int];
            let pass = was.pass();
            &&& step is Moved || step is Turned
            &&& step is Moved ==> {
                &&& now.pass().ring == pass.ring
                &&& now.pass().taken == pass.taken + 1
                &&& now.pass().quota matches Some(most) && pass.taken < most && (
                pass.quota matches Some(old) ==> most == old) && (pass.quota is None ==> most
                    <= pass.per && (hop.found() <= most || pass.per == most))
            }
            &&& step is Turned ==> {
                &&& now.pass().ring == pass.ring + 1
                &&& now.pass().taken == 0
                &&& hop.link().queue().len() == 0 || pass.per == 0 || (pass.quota matches Some(
                    most,
                ) && pass.taken >= most)
            }
        }),
{
    let hop = before.inputs()[was.inputs()[was.pass().ring] as int];
    assert(hop.wf());
    law_batches_take_what_is_there(hop, was.pass().per);
}

/// Every pass starts with the first ring and a whole batch for each of them; only the last one,
/// which a broker makes when a pass has moved nothing and no producer is left, has no limit.
pub proof fn law_passes_start_with_whole_batches<T, B: Backend<T>, P: Delivery<T, B>>(
    was: Broker<T, B, P>,
    now: Broker<T, B, P>,
    before: Shared<T, B>,
    after: Shared<T, B>,
    step: BrokerStep,
)
    requires
        was.attached(before),
        stepped(was, now, before, after, step),
        was.pending() is None,
        was.pass().ring == was.inputs().len(),
        step !is Finished,
    ensures
        now.pass().ring == 0,
        now.pass().taken == 0,
        now.pass().quota is None,
        !now.pass().moved,
        now.pass().last <==> !was.pass().moved && before.live_producers() == 0,
        now.pass().per == (if now.pass().last {
            usize::MAX as int
        } else {
            was.batch() as int
        }),
        after.inputs() == before.inputs(),
        after.outputs() == before.outputs(),
{
}


/// A send touches one ring: no other input ring, no output ring and nobody's membership changes,
/// and of that ring neither its size nor which of its ends have been left.
pub proof fn law_sends_touch_one_ring<T, B: Backend<T>>(
    before: Shared<T, B>,
    after: Shared<T, B>,
    id: int,
    i: int,
)
    requires
        super::only_input(before, after, id),
        0 <= i < before.inputs().len(),
    ensures
        after.outputs() == before.outputs(),
        after.live_producers() == before.live_producers(),
        after.inputs().len() == before.inputs().len(),
        i != id ==> after.inputs()[i] == before.inputs()[i],
        i == id ==> after.inputs()[i].link().bound() == before.inputs()[i].link().bound(),
        i == id ==> after.inputs()[i].link().producer_gone()
            == before.inputs()[i].link().producer_gone(),
        i == id ==> after.inputs()[i].link().consumer_gone()
            == before.inputs()[i].link().consumer_gone(),
{
}

/// A placement touches one ring: no other output ring, no input ring and nobody's membership
/// changes, and of that ring neither its size nor which of its ends have been left.
pub proof fn law_placements_touch_one_ring<T, B: Backend<T>>(
    before: Shared<T, B>,
    after: Shared<T, B>,
    id: int,
    i: int,
)
    requires
        super::only_output(before, after, id),
        0 <= i < before.outputs().len(),
    ensures
        after.inputs() == before.inputs(),
        after.live_producers() == before.live_producers(),
        after.outputs().len() == before.outputs().len(),
        i != id ==> after.outputs()[i] == before.outputs()[i],
        i == id ==> after.outputs()[i].link().bound() == before.outputs()[i].link().bound(),
        i == id ==> after.outputs()[i].link().producer_gone()
            == before.outputs()[i].link().producer_gone(),
        i == id ==> after.outputs()[i].link().consumer_gone()
            == before.outputs()[i].link().consumer_gone(),
{
}

/// A receive takes from one ring: every other ring holds what it held, and no ring loses an end
/// or changes its size.
pub proof fn law_receives_touch_one_ring<T, B: Backend<T>>(
    before: Shared<T, B>,
    after: Shared<T, B>,
    id: int,
    i: int,
)
    requires
        super::same_but_output(before, after, id),
        0 <= i < before.outputs().len(),
    ensures
        after.inputs() == before.inputs(),
        after.live_producers() == before.live_producers(),
        after.outputs().len() == before.outputs().len(),
        i != id ==> after.outputs()[i].link().queue() == before.outputs()[i].link().queue(),
        after.outputs()[i].link().bound() == before.outputs()[i].link().bound(),
        after.outputs()[i].link().producer_gone() == before.outputs()[i].link().producer_gone(),
        after.outputs()[i].link().consumer_gone() == before.outputs()[i].link().consumer_gone(),
{
    if i != id {
        assert(super::same_hop(before.outputs()[i], after.outputs()[i]));
    }
}

/// A receive that finds nothing changes nothing that anybody can see.
pub proof fn law_empty_receives_change_nothing<T, B: Backend<T>>(
    before: Shared<T, B>,
    after: Shared<T, B>,
    i: int,
)
    requires
        super::same_queues(before, after),
        0 <= i < before.outputs().len(),
    ensures
        after.inputs() == before.inputs(),
        after.live_producers() == before.live_producers(),
        after.outputs().len() == before.outputs().len(),
        after.outputs()[i].link().queue() == before.outputs()[i].link().queue(),
        after.outputs()[i].link().bound() == before.outputs()[i].link().bound(),
        after.outputs()[i].link().producer_gone() == before.outputs()[i].link().producer_gone(),
        after.outputs()[i].link().consumer_gone() == before.outputs()[i].link().consumer_gone(),
{
    assert(super::same_hop(before.outputs()[i], after.outputs()[i]));
}

/// A new channel has nothing in it: every ring is empty, open at both ends and of the size that
/// was asked for, every endpoint is there, and every broker stands before its first ring.
pub proof fn law_new_channels_are_empty<T, B: Backend<T>, P: Delivery<T, B> + Clone>(
    shared: Shared<T, B>,
    producers: Seq<Producer<T, B>>,
    consumers: Seq<Consumer>,
    brokers: Seq<Broker<T, B, P>>,
    capacity: usize,
    policy: P,
)
    requires
        opened(
            shared,
            producers,
            consumers,
            brokers,
            producers.len() as int,
            consumers.len() as int,
            brokers.len() as int,
            capacity,
            policy,
        ),
    ensures
        shared.live_producers() == producers.len(),
        forall|i: int|
            0 <= i < shared.inputs().len() ==> {
                let link = (#[trigger] shared.inputs()[i]).link();
                link.queue().len() == 0 && !link.producer_gone() && !link.consumer_gone()
                    && B::sized(capacity, link.bound())
            },
        forall|i: int|
            0 <= i < shared.outputs().len() ==> {
                let link = (#[trigger] shared.outputs()[i]).link();
                link.queue().len() == 0 && !link.producer_gone() && !link.consumer_gone()
                    && B::sized(capacity, link.bound())
            },
        forall|b: int|
            0 <= b < brokers.len() ==> {
                let broker = #[trigger] brokers[b];
                &&& broker.pending() is None
                &&& broker.pass().ring == 0
                &&& broker.pass().per == 64
                &&& !broker.pass().last
                &&& !broker.pass().moved
            },
{
    assert forall|b: int| 0 <= b < brokers.len() implies {
        let broker = #[trigger] brokers[b];
        &&& broker.pending() is None
        &&& broker.pass().ring == 0
        &&& broker.pass().per == 64
        &&& !broker.pass().last
        &&& !broker.pass().moved
    } by {
        assert(brokers[b].attached(shared));
    }
}


/// A broker carries a value on until it is placed: a step with a value on its way takes nothing
/// from any ring, asks the policy for one step of the delivery, and keeps what the policy says is
/// still on its way; only a delivery that is done leaves nothing.
pub proof fn law_brokers_carry_values_on<T, B: Backend<T>, P: Delivery<T, B>>(
    was: Broker<T, B, P>,
    now: Broker<T, B, P>,
    before: Shared<T, B>,
    after: Shared<T, B>,
    step: BrokerStep,
)
    requires
        stepped(was, now, before, after, step),
        was.pending() is Some,
    ensures
        after.inputs() == before.inputs(),
        now.pass() == was.pass(),
        exists|outcome: Advance<P::Pending>|
            {
                &&& #[trigger] P::advanced(
                    was.policy(),
                    now.policy(),
                    was.senders(),
                    before,
                    after,
                    was.pending()->0,
                    outcome,
                )
                &&& now.pending() is None <==> outcome is Done
                &&& outcome matches Advance::More(rest) ==> now.pending() == Some(rest)
                &&& outcome matches Advance::Blocked(same) ==> now.pending() == Some(same)
                &&& step is Blocked <==> outcome is Blocked
                &&& step is Moved <==> outcome !is Blocked
            },
{
    let outcome = choose|outcome: Advance<P::Pending>|
        {
            &&& #[trigger] P::advanced(
                was.policy(),
                now.policy(),
                was.senders(),
                before,
                after,
                was.pending()->0,
                outcome,
            )
            &&& match outcome {
                Advance::Done => now.pending() is None && step == BrokerStep::Moved,
                Advance::More(p) => now.pending() == Some(p) && step == BrokerStep::Moved,
                Advance::Blocked(p) => now.pending() == Some(p) && step == BrokerStep::Blocked,
            }
        };
    assert(P::advanced(
        was.policy(),
        now.policy(),
        was.senders(),
        before,
        after,
        was.pending()->0,
        outcome,
    ));
}

/// How many steps a broker makes at most before it finishes, where no producer and no value is
/// left.
spec fn steps_left<T, B: Backend<T>, P: Delivery<T, B>>(broker: Broker<T, B, P>) -> int {
    let pass = broker.pass();
    let rings = broker.inputs().len() as int;
    rings - pass.ring + 1 + if pass.moved {
        2 * (rings + 1)
    } else if pass.last {
        0
    } else {
        rings + 1
    }
}

/// No producer is left, no value is on its way, and every ring of the broker is empty.
pub open spec fn drained<T, B: Backend<T>, P: Delivery<T, B>>(
    broker: Broker<T, B, P>,
    shared: Shared<T, B>,
) -> bool {
    &&& shared.live_producers() == 0
    &&& broker.pending() is None
    &&& forall|k: int|
        0 <= k < broker.inputs().len() ==> shared.inputs()[
            #[trigger] broker.inputs()[k] as int
        ].link().queue().len() == 0
}

proof fn lemma_step_towards_the_end<T, B: Backend<T>, P: Delivery<T, B>>(
    was: Broker<T, B, P>,
    now: Broker<T, B, P>,
    before: Shared<T, B>,
    after: Shared<T, B>,
    step: BrokerStep,
)
    requires
        was.attached(before),
        drained(was, before),
        stepped(was, now, before, after, step),
        step !is Finished,
    ensures
        drained(now, after),
        0 <= steps_left(now) < steps_left(was),
{
    let pass = was.pass();
    if pass.ring < was.inputs().len() {
        let id = was.inputs()[pass.ring] as int;
        assert(before.inputs()[id].link().queue().len() == 0);
        assert forall|k: int| 0 <= k < now.inputs().len() implies after.inputs()[
            #[trigger] now.inputs()[k] as int
        ].link().queue().len() == 0 by {
            let other = was.inputs()[k] as int;
            assert(before.inputs()[other].link().queue().len() == 0);
            if other != id {
                assert(after.inputs()[other] == before.inputs()[other]);
            }
        }
    } else {
        assert forall|k: int| 0 <= k < now.inputs().len() implies after.inputs()[
            #[trigger] now.inputs()[k] as int
        ].link().queue().len() == 0 by {
            let other = was.inputs()[k] as int;
            assert(before.inputs()[other].link().queue().len() == 0);
        }
    }
}

/// A broker does finish: where no producer and no value is left, it says so after at most three
/// passes over its rings.
pub proof fn law_brokers_finish_in_time<T, B: Backend<T>, P: Delivery<T, B>>(
    brokers: Seq<Broker<T, B, P>>,
    befores: Seq<Shared<T, B>>,
    afters: Seq<Shared<T, B>>,
    steps: Seq<BrokerStep>,
)
    requires
        is_run(brokers, befores, afters, steps),
        steps.len() > 3 * (brokers[0].inputs().len() + 1),
        drained(brokers[0], befores[0]),
    ensures
        exists|i: int| 0 <= i < steps.len() && #[trigger] steps[i] is Finished,
{
    if forall|i: int| 0 <= i < steps.len() ==> !(#[trigger] steps[i] is Finished) {
        assert(befores[0].wf());
        assert(brokers[0].attached(befores[0]));
        lemma_runs_come_closer(brokers, befores, afters, steps, steps.len() as int - 1);
        assert(steps_left(brokers[0]) <= 3 * (brokers[0].inputs().len() + 1));
    }
}

proof fn lemma_runs_come_closer<T, B: Backend<T>, P: Delivery<T, B>>(
    brokers: Seq<Broker<T, B, P>>,
    befores: Seq<Shared<T, B>>,
    afters: Seq<Shared<T, B>>,
    steps: Seq<BrokerStep>,
    i: int,
)
    requires
        is_run(brokers, befores, afters, steps),
        drained(brokers[0], befores[0]),
        forall|j: int| 0 <= j < steps.len() ==> !(#[trigger] steps[j] is Finished),
        0 <= i < steps.len(),
    ensures
        drained(brokers[i], befores[i]),
        brokers[i].inputs() == brokers[0].inputs(),
        0 <= steps_left(brokers[i]) <= steps_left(brokers[0]) - i,
    decreases i,
{
    assert(befores[i].wf());
    assert(brokers[i].attached(befores[i]));
    if i > 0 {
        lemma_runs_come_closer(brokers, befores, afters, steps, i - 1);
        assert(befores[i - 1].wf());
        assert(stepped(
            brokers[i - 1],
            brokers[i - 1 + 1],
            befores[i - 1],
            afters[i - 1],
            steps[i - 1],
        ));
        assert(!(steps[i - 1] is Finished));
        lemma_step_towards_the_end(
            brokers[i - 1],
            brokers[i],
            befores[i - 1],
            afters[i - 1],
            steps[i - 1],
        );
        assert(undisturbed(brokers[0].inputs(), afters[i - 1], befores[i - 1 + 1]));
        let broker = brokers[i];
        assert forall|k: int| 0 <= k < broker.inputs().len() implies befores[i].inputs()[
            #[trigger] broker.inputs()[k] as int
        ].link().queue().len() == 0 by {
            assert(afters[i - 1].inputs()[broker.inputs()[k] as int].link().queue().len() == 0);
            assert(brokers[0].inputs()[k] == broker.inputs()[k]);
        }
    }
}


/// A subscriber is asked once for every value, and everybody whom it names and who exists waits
/// for it; the value goes nowhere exactly where that is nobody.
pub proof fn law_subscribers_choose_the_consumers<T: Clone, B: Backend<T>, F: Subscriber<T>>(
    was: PubSub<F>,
    now: PubSub<F>,
    item: T,
    consumers: nat,
    pending: Option<Spread<T>>,
)
    requires
        <PubSub<F> as Delivery<T, B>>::started(was, now, item, consumers, pending),
    ensures
        exists|targets: Targets|
            {
                &&& #[trigger] F::selects(was.subscribe, now.subscribe, item, consumers, targets)
                &&& pending is None <==> forall|j: int|
                    0 <= j < consumers ==> !#[trigger] targets.has(j)
                &&& pending matches Some(spread) ==> spread.item == item && forall|j: int|
                    #[trigger] bit_set(spread.mask, j) <==> 0 <= j < consumers && targets.has(j)
            },
        now.consumer_mask == was.consumer_mask,
{
    let targets = choose|targets: Targets| #[trigger]
        F::selects(was.subscribe, now.subscribe, item, consumers, targets) && super::selected(
            targets,
            item,
            consumers,
            pending,
        );
    assert(F::selects(was.subscribe, now.subscribe, item, consumers, targets));
    match pending {
        None => {
            assert forall|j: int| 0 <= j < consumers implies !#[trigger] targets.has(j) by {}
        },
        Some(spread) => {
            crate::bits::lemma_empty_mask(spread.mask);
            let w = choose|j: int| #[trigger] bit_set(spread.mask, j);
            assert(targets.has(w) && 0 <= w < consumers);
        },
    }
}

/// In turn, every value is on its way to somebody.
pub proof fn law_round_robin_drops_nothing_at_the_start<T, B: Backend<T>>(
    was: RoundRobin,
    now: RoundRobin,
    item: T,
    consumers: nat,
    pending: Option<T>,
)
    requires
        <RoundRobin as Delivery<T, B>>::started(was, now, item, consumers, pending),
    ensures
        pending == Some(item),
        now == was,
{
}

/// A value is dropped only where everybody is gone for whom it was: nothing waits for a consumer
/// that does not come back, and no ring changes.
pub proof fn law_values_for_nobody_are_dropped<T, B: Backend<T>, F: Router<T>>(
    senders: Senders<T, B>,
    before: Shared<T, B>,
    after: Shared<T, B>,
    turns: (RoundRobin, RoundRobin),
    value: T,
    turned: Advance<T>,
    routes: (Route<F>, Route<F>),
    pending: (usize, T),
    outcome: Advance<(usize, T)>,
)
    requires
        before.wf(),
        senders.attached(before),
        forall|k: int| 0 <= k < senders.fan() ==> (#[trigger] senders.link(before, k)).consumer_gone(),
        pending.0 < senders.fan(),
    ensures
        <RoundRobin as Delivery<T, B>>::advanced(
            turns.0,
            turns.1,
            senders,
            before,
            after,
            value,
            turned,
        ) ==> turned is Done && after.outputs() == before.outputs(),
        <Route<F> as Delivery<T, B>>::advanced(
            routes.0,
            routes.1,
            senders,
            before,
            after,
            pending,
            outcome,
        ) ==> outcome is Done && after.outputs() == before.outputs(),
{
    lemma_first_hit(senders.takes(before), turns.0.cursor as int, 0, senders.fan() as int);
    assert(senders.link(before, pending.0 as int).consumer_gone());
}

/// Leaving is told to the other end and changes nothing else: the ring is as large as it was, and
/// its producer is as it was.
pub proof fn law_leaving_is_told<T, B: Backend<T>>(before: Hop<T, B>, after: Hop<T, B>)
    requires
        left(before, after),
    ensures
        after.link().consumer_gone(),
        after.link().bound() == before.link().bound(),
        after.link().producer_gone() == before.link().producer_gone(),
        after.unreleased() == 0,
{
}

} // verus!
