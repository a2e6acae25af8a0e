//! What consumers take from the rings, stated over their contents alone.
use super::{lemma_pick_passes, scan_effect, scanned, taken, Consumer, Shared};
use crate::backend::{Backend, Link, Rx};
use crate::round_robin::{attempt, law_rotation_visits_every_slot, lemma_next_attempt};
use vstd::prelude::*;

verus! {

/// Whether what a scan has taken, with room for `max` values, was the front of ring `ring`, which
/// nobody held, and all that its receiver found there as far as there was room.
pub open spec fn took_from<T, B: Backend<T>>(
    shared: Shared<T, B>,
    values: Seq<T>,
    queues: Seq<Seq<T>>,
    max: int,
    ring: int,
) -> bool {
    let queue = shared.link(ring).queue();
    let found = if shared.known(ring) > 0 {
        shared.known(ring)
    } else {
        queue.len() as int
    };
    &&& 0 <= ring < shared.rings()
    &&& !shared.claimed(ring)
    &&& 0 < values.len() <= max
    &&& values.len() == found || values.len() == max
    &&& values + queues[ring] == queue
    &&& forall|i: int|
        0 <= i < shared.rings() && i != ring ==> #[trigger] queues[i] == shared.link(i).queue()
}

/// A scan takes something wherever something waits in a ring that nobody holds, and then it
/// takes the front of exactly one such ring. Where nothing waits it takes and changes nothing.
pub proof fn law_scans_take_what_waits<T, B: Backend<T>>(
    shared: Shared<T, B>,
    start: int,
    max: int,
)
    requires
        shared.wf(),
        0 <= start,
        0 < max,
    ensures
        ({
            let (values, queues) = taken(shared, start, max);
            let waiting = exists|i: int|
                0 <= i < shared.rings() && !(#[trigger] shared.claimed(i)) && shared.link(
                    i,
                ).queue().len() > 0;
            &&& queues.len() == shared.rings()
            &&& waiting ==> exists|ring: int| #[trigger]
                took_from(shared, values, queues, max, ring)
            &&& !waiting ==> values.len() == 0 && forall|i: int|
                0 <= i < shared.rings() ==> #[trigger] queues[i] == shared.link(i).queue()
        }),
{
    let (values, queues) = taken(shared, start, max);
    let rings = shared.rings() as int;
    let k = shared.pick(start, 0);
    lemma_pick_passes(shared, start, 0);
    if k < rings {
        let ring = attempt(start, k, rings);
        lemma_next_attempt(start, k, rings);
        assert(shared.takeable(ring));
        assert(shared.link(ring).wf());
        shared.rx(ring).ready_bounds(shared.link(ring));
        let queue = shared.link(ring).queue();
        let n = crate::backend::min(shared.rx(ring).ready(shared.link(ring)), max);
        assert(queue.take(n) + queue.skip(n) =~= queue);
        assert(values + queues[ring] == queue);
        assert(took_from(shared, values, queues, max, ring));
        assert(!shared.claimed(ring));
    } else {
        assert forall|i: int| 0 <= i < rings implies shared.claimed(i) || (
        #[trigger] shared.link(i)).queue().len() == 0 by {
            law_rotation_visits_every_slot(start, i, rings);
            let j = choose|j: int| 0 <= j < rings && #[trigger] attempt(start, j, rings) == i;
            assert(!shared.takeable(attempt(start, j, rings)));
        }
    }
}

/// A scan looks first where the consumer stands: where something waits in that ring and nobody
/// holds it, the values come from there.
pub proof fn law_scans_look_where_they_stand<T, B: Backend<T>>(
    shared: Shared<T, B>,
    start: int,
    max: int,
)
    requires
        shared.wf(),
        0 <= start,
        0 < max,
        0 < shared.rings(),
        !shared.claimed(start % shared.rings() as int),
        shared.link(start % shared.rings() as int).queue().len() > 0,
    ensures
        ({
            let (values, queues) = taken(shared, start, max);
            took_from(shared, values, queues, max, start % shared.rings() as int)
        }),
{
    let rings = shared.rings() as int;
    let ring = attempt(start, 0, rings);
    lemma_next_attempt(start, 0, rings);
    assert(shared.takeable(ring));
    assert(shared.pick(start, 0) == 0);
    assert(shared.link(ring).wf());
    shared.rx(ring).ready_bounds(shared.link(ring));
    let queue = shared.link(ring).queue();
    let n = crate::backend::min(shared.rx(ring).ready(shared.link(ring)), max);
    assert(queue.take(n) + queue.skip(n) =~= queue);
    let (values, queues) = taken(shared, start, max);
    assert(values + queues[ring] == queue);
}

/// Each value goes to one consumer: a receive takes its values off the front of one ring, where
/// no other receive finds them, and leaves every other ring as it is; it takes nothing only
/// where nothing waits in a ring that nobody holds.
pub proof fn law_received_values_leave_their_ring<T, B: Backend<T>>(
    before: Shared<T, B>,
    after: Shared<T, B>,
    was: Consumer<T>,
    now: Consumer<T>,
    max: int,
)
    requires
        before.wf(),
        was.wf(),
        0 < max,
        after.rings() == before.rings(),
        scan_effect(before, after, was, now, max),
    ensures
        ({
            let values = taken(before, was.position(), max).0;
            let waiting = exists|i: int|
                0 <= i < before.rings() && !(#[trigger] before.claimed(i)) && before.link(
                    i,
                ).queue().len() > 0;
            &&& now.batch() == was.batch()
            &&& waiting <==> values.len() > 0
            &&& waiting ==> exists|ring: int|
                #[trigger]
                took_from(before, values, after.queues(), max, ring)
            &&& !waiting ==> forall|i: int|
                0 <= i < before.rings() ==> (#[trigger] after.link(i)).queue() == before.link(
                    i,
                ).queue()
        }),
{
    let (values, queues) = taken(before, was.position(), max);
    law_scans_take_what_waits(before, was.position(), max);
    assert(after.queues() == queues);
    assert forall|i: int| 0 <= i < before.rings() && values.len() == 0 implies (
    #[trigger] after.link(i)).queue() == before.link(i).queue() by {
        assert(after.queues()[i] == after.link(i).queue());
    }
}

/// A consumer stays with a ring that gives it values while it has credit left, and each time
/// spends some; without credit it goes on to the ring after it with new credit. A scan that
/// found nothing leaves it where it was.
pub proof fn law_consumers_move_on_without_credit(start: int, credits: nat, k: int, rings: int)
    requires
        0 <= start,
        0 <= k <= rings,
        0 < rings,
        credits < 16,
    ensures
        ({
            let (position, left) = scanned(start, credits, k, rings);
            let ring = attempt(start, k, rings);
            &&& 0 <= position
            &&& k < rings && credits > 0 ==> position % rings == ring && left == credits - 1
            &&& k < rings && credits == 0 ==> position % rings == (ring + 1) % rings && left == 15
            &&& k == rings ==> position % rings == start % rings && left == credits
        }),
{
    lemma_next_attempt(start, k, rings);
    lemma_next_attempt(start, rings - 1, rings);
    vstd::arithmetic::div_mod::lemma_small_mod(attempt(start, k, rings) as nat, rings as nat);
    assert(attempt(start, rings, rings) == start % rings) by {
        vstd::arithmetic::div_mod::lemma_mod_multiples_vanish(1, start, rings);
    }
}


/// Sending and receiving leave alone what they are not about: who is there, who holds which ring,
/// how large the rings are and which of their ends have been left.
pub proof fn law_transfers_leave_the_membership_alone<T, B: Backend<T>>(
    before: Shared<T, B>,
    after: Shared<T, B>,
    i: int,
)
    requires
        after.same_but_queues(&before),
        0 <= i < before.rings(),
    ensures
        after.rings() == before.rings(),
        after.live_producers() == before.live_producers(),
        after.live_consumers() == before.live_consumers(),
        after.claimed(i) == before.claimed(i),
        after.link(i).bound() == before.link(i).bound(),
        after.link(i).producer_gone() == before.link(i).producer_gone(),
        after.link(i).consumer_gone() == before.link(i).consumer_gone(),
{
    assert(after.claimed(i) == before.claimed(i));
}

/// Coming and going leaves the rings alone: each holds what it held and is held by whom it was.
pub proof fn law_memberships_leave_the_rings_alone<T, B: Backend<T>>(
    before: Shared<T, B>,
    after: Shared<T, B>,
    i: int,
)
    requires
        after.same_rings(&before),
        0 <= i < before.rings(),
    ensures
        after.rings() == before.rings(),
        after.link(i) == before.link(i),
        after.rx(i) == before.rx(i),
        after.claimed(i) == before.claimed(i),
        after.link(i).queue() == before.link(i).queue(),
{
    assert(after.link(i) == before.link(i));
}

} // verus!
