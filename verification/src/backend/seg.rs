//! `Seg` — an **unbounded, segmented** backend (arena-block storage).
//!
//! Values live in fixed-size segments (mini-arenas). The producer fills a
//! segment linearly and links a freshly allocated one when it runs out; the
//! consumer drains a segment linearly and frees it when it moves past. So:
//!
//! * **Unbounded** — `try_push` never reports full (only "consumer gone"), so a
//!   blocking send never waits. The queue grows by one segment allocation per
//!   `capacity` values and shrinks as the consumer retires segments.
//! * **Linear memory** — within a segment, both sides walk forward through
//!   contiguous slots (no masking, no wraparound).
use super::{min, Backend, Batch, Endpoint, Link, Rx, Sink, Tx};
use core::marker::PhantomData;
use vstd::prelude::*;

verus! {

/// One block of slots. The producer fills it front to back; a slot whose value has
/// been moved out is `None`.
pub struct Segment<T> {
    slots: Vec<Option<T>>,
}

impl<T> Segment<T> {
    fn boxed(size: usize) -> (segment: Segment<T>)
        ensures
            segment.slots@ == Seq::<Option<T>>::empty(),
    {
        Segment { slots: Vec::with_capacity(size) }
    }
}

/// The chain of live segments, oldest first, and whether either side has left.
pub struct Shared<T> {
    segments: Vec<Segment<T>>,
    /// Values moved out of the oldest segment.
    consumed: usize,
    size: usize,
    producer_gone: bool,
    consumer_gone: bool,
}

/// The slots of a chain of segments, one after the other.
spec fn chain<T>(segments: Seq<Segment<T>>) -> Seq<Option<T>>
    decreases segments.len(),
{
    if segments.len() == 0 {
        Seq::empty()
    } else {
        chain(segments.drop_last()) + segments.last().slots@
    }
}

proof fn lemma_chain_head<T>(segments: Seq<Segment<T>>)
    requires
        segments.len() > 0,
    ensures
        chain(segments) == segments[0].slots@ + chain(segments.skip(1)),
    decreases segments.len(),
{
    if segments.len() == 1 {
        assert(segments.drop_last() =~= Seq::<Segment<T>>::empty());
        assert(segments.skip(1) =~= Seq::<Segment<T>>::empty());
        assert(chain(segments) =~= segments[0].slots@ + chain(segments.skip(1)));
    } else {
        lemma_chain_head(segments.drop_last());
        assert(segments.drop_last().skip(1) =~= segments.skip(1).drop_last());
        assert(segments.skip(1).last() == segments.last());
        assert(chain(segments) =~= segments[0].slots@ + chain(segments.skip(1)));
    }
}

impl<T> Shared<T> {
    spec fn slots(&self) -> Seq<Option<T>> {
        chain(self.segments@)
    }

    /// Slots per segment.
    pub closed spec fn segment_size(&self) -> nat {
        self.size as nat
    }

    /// Live segments.
    pub closed spec fn live_segments(&self) -> nat {
        self.segments@.len()
    }

    /// Values moved out of the oldest live segment.
    pub closed spec fn retired(&self) -> nat {
        self.consumed as nat
    }
}

impl<T> Link<T> for Shared<T> {
    closed spec fn wf(&self) -> bool {
        &&& 0 < self.size
        &&& self.segments@.len() > 0
        &&& forall|i: int|
            0 <= i < self.segments@.len() - 1 ==> (#[trigger] self.segments@[i]).slots@.len()
                == self.size
        &&& self.segments@.last().slots@.len() <= self.size
        &&& self.segments@.len() > 1 ==> self.segments@.last().slots@.len() > 0
        &&& self.consumed <= self.segments@[0].slots@.len()
        &&& self.consumed <= self.slots().len()
        &&& forall|i: int|
            0 <= i < self.slots().len() ==> (#[trigger] self.slots()[i] is Some <==> i
                >= self.consumed)
    }

    closed spec fn queue(&self) -> Seq<T> {
        Seq::new(
            (self.slots().len() - self.consumed) as nat,
            |i: int| self.slots()[i + self.consumed]->0,
        )
    }

    open spec fn bound(&self) -> Option<nat> {
        None
    }

    open spec fn accepts(&self) -> bool {
        !self.consumer_gone()
    }

    closed spec fn producer_gone(&self) -> bool {
        self.producer_gone
    }

    closed spec fn consumer_gone(&self) -> bool {
        self.consumer_gone
    }

    proof fn accepts_while_it_can(&self) {
    }
}

/// Producing endpoint of a [`Seg`] channel.
pub struct SegTx<T> {
    idx: usize,
    seg_size: usize,
    _values: PhantomData<T>,
}

/// Consuming endpoint of a [`Seg`] channel.
pub struct SegRx<T> {
    idx: usize,
    seg_size: usize,
    _values: PhantomData<T>,
}

impl<T> Endpoint<Shared<T>> for SegTx<T> {
    closed spec fn attached(&self, shared: Shared<T>) -> bool {
        self.seg_size == shared.size && self.idx == shared.segments@.last().slots@.len()
    }

    open spec fn known(&self, shared: Shared<T>) -> int {
        0
    }
}

impl<T> Endpoint<Shared<T>> for SegRx<T> {
    closed spec fn attached(&self, shared: Shared<T>) -> bool {
        self.seg_size == shared.size && self.idx == shared.consumed
    }

    open spec fn known(&self, shared: Shared<T>) -> int {
        0
    }
}

/// The segmented backend selector. `capacity` = slots per segment.
pub struct Seg;

impl<T> Backend<T> for Seg {
    type Link = Shared<T>;

    type Tx = SegTx<T>;

    type Rx = SegRx<T>;

    open spec fn bounded() -> bool {
        false
    }

    open spec fn supports(capacity: usize) -> bool {
        true
    }

    open spec fn sized(capacity: usize, bound: Option<nat>) -> bool {
        bound is None
    }

    /// A segment has as many slots as were asked for, and at least two.
    open spec fn fresh(capacity: usize, shared: Shared<T>, tx: SegTx<T>, rx: SegRx<T>) -> bool {
        &&& shared.segment_size() == if capacity < 2 {
            2
        } else {
            capacity as nat
        }
        &&& shared.live_segments() == 1
        &&& shared.retired() == 0
    }

    fn bounded_capacity() -> bool {
        false
    }

    fn channel(capacity: usize) -> (Shared<T>, SegTx<T>, SegRx<T>) {
        let size: usize = if capacity < 2 {
            2
        } else {
            capacity
        };
        let first = Segment::<T>::boxed(size);
        let mut segments: Vec<Segment<T>> = Vec::new();
        segments.push(first);
        let shared: Shared<T> = Shared {
            segments,
            consumed: 0,
            size,
            producer_gone: false,
            consumer_gone: false,
        };
        proof {
            assert(shared.segments@.drop_last() =~= Seq::<Segment<T>>::empty());
            reveal_with_fuel(chain, 2);
            assert(shared.slots() =~= Seq::<Option<T>>::empty());
            assert(shared.queue() =~= Seq::<T>::empty());
        }
        (
            shared,
            SegTx { idx: 0, seg_size: size, _values: PhantomData },
            SegRx { idx: 0, seg_size: size, _values: PhantomData },
        )
    }
}

proof fn lemma_flags<T>(a: Shared<T>, b: Shared<T>)
    requires
        a.wf(),
        a.segments@ == b.segments@,
        a.consumed == b.consumed,
        a.size == b.size,
    ensures
        b.wf(),
        a.queue() == b.queue(),
{
    assert(a.queue() =~= b.queue());
}

impl<T> Tx<T> for SegTx<T> {
    type Link = Shared<T>;

    type Peer = SegRx<T>;

    open spec fn grant(&self, shared: Shared<T>, want: int) -> int {
        if shared.consumer_gone() {
            0
        } else {
            want
        }
    }

    open spec fn known_after(known: int, shared: Shared<T>, n: int) -> int {
        0
    }

    proof fn grant_bounds(&self, shared: Shared<T>, want: int) {
    }

    fn try_push(&mut self, shared: &mut Shared<T>, v: T) -> (result: Result<(), T>)
        ensures
            forall|rx: SegRx<T>| #[trigger]
                rx.attached(*old(shared)) ==> rx.attached(*final(shared)),
    {
        if shared.consumer_gone {
            return Err(v);
        }
        let ghost before = *shared;
        if self.idx == self.seg_size {
            // Tail segment full: link a fresh one, then move onto it.
            shared.segments.push(Segment::<T>::boxed(self.seg_size));
            self.idx = 0;
            proof {
                assert(shared.segments@.drop_last() =~= before.segments@);
                assert(shared.slots() =~= before.slots());
            }
        }
        let ghost linked = *shared;
        let last: usize = shared.segments.len() - 1;
        let segment = &mut shared.segments[last];
        segment.slots.push(Some(v));
        self.idx = self.idx + 1;
        proof {
            assert(shared.segments@.drop_last() =~= linked.segments@.drop_last());
            assert(shared.slots() =~= linked.slots().push(Some(v)));
            if shared.segments@.len() > 1 {
                assert(shared.segments@[0] == linked.segments@[0]);
            }
            assert forall|i: int| 0 <= i < shared.segments@.len() - 1 implies (
            #[trigger] shared.segments@[i]).slots@.len() == shared.size by {
                assert(shared.segments@[i] == linked.segments@[i]);
                if i < before.segments@.len() - 1 {
                    assert(before.segments@[i].slots@.len() == before.size);
                }
            }
            assert forall|i: int| 0 <= i < shared.slots().len() implies (
            #[trigger] shared.slots()[i] is Some <==> i >= shared.consumed) by {
                if i < before.slots().len() {
                    assert(shared.slots()[i] == before.slots()[i]);
                }
            }
            assert(shared.queue() =~= before.queue().push(v));
        }
        Ok(())
    }

    fn push_from(&mut self, shared: &mut Shared<T>, max: usize, source: &mut Batch<T>) -> usize {
        let ghost before = *shared;
        let ghost values = source@;
        let mut accepted: usize = 0;
        proof {
            assert(before.queue() + values.take(0) =~= before.queue());
            assert(values.skip(0) =~= values);
        }
        while accepted < max
            invariant_except_break
                accepted <= max,
                accepted <= values.len(),
                accepted == 0 ==> *shared == before,
                shared.wf(),
                self.attached(*shared),
                before.consumer_gone() ==> accepted == 0,
                shared.queue() == before.queue() + values.take(accepted as int),
                source@ == values.skip(accepted as int),
                shared.producer_gone() == before.producer_gone(),
                shared.consumer_gone() == before.consumer_gone(),
                forall|rx: SegRx<T>| #[trigger] rx.attached(before) ==> rx.attached(*shared),
            ensures
                accepted == self.grant(before, min(values.len() as int, max as int)),
                accepted <= values.len(),
                accepted == 0 ==> *shared == before,
                shared.wf(),
                self.attached(*shared),
                shared.queue() == before.queue() + values.take(accepted as int),
                source@ == values.skip(accepted as int),
                shared.producer_gone() == before.producer_gone(),
                shared.consumer_gone() == before.consumer_gone(),
                forall|rx: SegRx<T>| #[trigger] rx.attached(before) ==> rx.attached(*shared),
            decreases max - accepted,
        {
            let Some(value) = source.pop_front() else {
                break;
            };
            let ghost held = value;
            if let Err(value) = self.try_push(shared, value) {
                source.restore_front(value);
                assert(source@ =~= values.skip(accepted as int));
                break;
            }
            accepted = accepted + 1;
            proof {
                assert(values.take(accepted - 1).push(held) =~= values.take(accepted as int));
                assert(before.queue() + values.take(accepted as int) =~= (before.queue()
                    + values.take(accepted - 1)).push(held));
                assert(source@ =~= values.skip(accepted as int));
            }
        }
        accepted
    }

    fn spare(&self, shared: &Shared<T>) -> Option<usize> {
        None
    }

    fn is_consumer_gone(&self, shared: &Shared<T>) -> bool {
        shared.consumer_gone
    }

    fn close(&mut self, shared: &mut Shared<T>) {
        let ghost before = *shared;
        shared.producer_gone = true;
        proof {
            lemma_flags(before, *shared);
        }
    }
}


impl<T> Shared<T> {
    /// Move the oldest value of the oldest segment out.
    fn take(&mut self) -> (value: T)
        requires
            old(self).wf(),
            old(self).consumed < old(self).segments@[0].slots@.len(),
        ensures
            final(self).wf(),
            old(self).queue().len() > 0,
            value == old(self).queue()[0],
            final(self).queue() == old(self).queue().skip(1),
            final(self).consumed == old(self).consumed + 1,
            final(self).size == old(self).size,
            final(self).segments@.len() == old(self).segments@.len(),
            final(self).segments@.last().slots@.len() == old(self).segments@.last().slots@.len(),
            final(self).segments@[0].slots@.len() == old(self).segments@[0].slots@.len(),
            final(self).producer_gone == old(self).producer_gone,
            final(self).consumer_gone == old(self).consumer_gone,
    {
        let ghost before = *self;
        let at: usize = self.consumed;
        proof {
            lemma_chain_head(before.segments@);
            assert(before.slots()[at as int] is Some);
        }
        let segment = &mut self.segments[0];
        let value = segment.slots[at].take().unwrap();
        self.consumed = at + 1;
        proof {
            lemma_chain_head(self.segments@);
            assert(self.segments@.skip(1) =~= before.segments@.skip(1));
            assert(self.slots() =~= before.slots().update(at as int, None));
            assert forall|i: int| 0 <= i < self.segments@.len() - 1 implies (
            #[trigger] self.segments@[i]).slots@.len() == self.size by {
                assert(before.segments@[i].slots@.len() == before.size);
            }
            assert(self.queue() =~= before.queue().skip(1));
        }
        value
    }

    /// Where the oldest segment holds nothing unread and no segment follows it, the
    /// queue is empty; otherwise the queue starts where the consumer stands.
    proof fn lemma_queue_start(&self)
        requires
            self.wf(),
        ensures
            self.queue().len() == self.slots().len() - self.consumed,
            self.consumed < self.segments@[0].slots@.len() ==> self.queue().len() > 0,
            self.segments@.len() == 1 ==> self.queue().len() == self.segments@[0].slots@.len()
                - self.consumed,
            self.queue().len() >= self.segments@[0].slots@.len() - self.consumed,
            self.segments@.len() > 1 ==> self.queue().len() > 0 && self.segments@[0].slots@.len()
                == self.size && self.segments@[1].slots@.len() > 0,
    {
        lemma_chain_head(self.segments@);
        if self.segments@.len() == 1 {
            assert(self.segments@.skip(1) =~= Seq::<Segment<T>>::empty());
        } else {
            lemma_chain_head(self.segments@.skip(1));
            assert(self.segments@.skip(1)[0] == self.segments@[1]);
            assert(self.segments@[0].slots@.len() == self.size);
            if self.segments@.len() > 2 {
                assert(self.segments@[1].slots@.len() == self.size);
            }
        }
    }
}

impl<T> SegRx<T> {
    /// Move to the next segment if the current one is fully consumed and a next
    /// exists; retires (frees) the old segment. Returns false if no next yet.
    fn advance(&mut self, shared: &mut Shared<T>) -> (moved: bool)
        requires
            old(shared).wf(),
            old(self).attached(*old(shared)),
            old(self).idx == old(self).seg_size,
        ensures
            final(shared).wf(),
            final(self).attached(*final(shared)),
            moved <==> old(shared).segments@.len() > 1,
            !moved ==> *final(shared) == *old(shared) && *final(self) == *old(self),
            moved ==> final(shared).segments@ == old(shared).segments@.skip(1) && final(self).idx
                == 0,
            final(shared).size == old(shared).size,
            final(shared).queue() == old(shared).queue(),
            final(shared).segments@.last() == old(shared).segments@.last(),
            final(shared).producer_gone == old(shared).producer_gone,
            final(shared).consumer_gone == old(shared).consumer_gone,
    {
        if shared.segments.len() == 1 {
            return false;
        }
        let ghost before = *shared;
        shared.segments.remove(0);
        shared.consumed = 0;
        self.idx = 0;
        proof {
            lemma_chain_head(before.segments@);
            assert(shared.segments@ =~= before.segments@.skip(1));
            assert(before.segments@[0].slots@.len() == before.size);
            assert(shared.slots() =~= before.slots().skip(before.size as int));
            assert forall|i: int| 0 <= i < shared.slots().len() implies (
            #[trigger] shared.slots()[i] is Some <==> i >= shared.consumed) by {
                assert(before.slots()[i + before.size] is Some <==> i + before.size
                    >= before.consumed);
            }
            assert forall|i: int| 0 <= i < shared.segments@.len() - 1 implies (
            #[trigger] shared.segments@[i]).slots@.len() == shared.size by {
                assert(before.segments@[i + 1].slots@.len() == before.size);
            }
            assert(shared.queue() =~= before.queue());
        }
        true
    }
}

impl<T> Rx<T> for SegRx<T> {
    type Link = Shared<T>;

    type Peer = SegTx<T>;

    open spec fn ready(&self, shared: Shared<T>) -> int {
        shared.queue().len() as int
    }

    open spec fn kept(ready: int, n: int) -> int {
        0
    }

    proof fn ready_bounds(&self, shared: Shared<T>) {
    }

    /// A drain looks again until it finds nothing more.
    open spec fn quota(&self, shared: Shared<T>, max: int) -> int {
        max
    }

    proof fn quota_bounds(&self, shared: Shared<T>, max: int) {
    }

    /// Unread values stay until the storage goes.
    open spec fn remains(shared: Shared<T>) -> Seq<T> {
        shared.queue()
    }

    proof fn remains_settle(before: Shared<T>, after: Shared<T>) {
    }

    fn open_batch(&mut self, shared: &Shared<T>, max: usize) -> usize {
        max
    }

    fn try_pop(&mut self, shared: &mut Shared<T>) -> Option<T> {
        proof {
            shared.lemma_queue_start();
        }
        if self.idx == self.seg_size && !self.advance(shared) {
            return None;
        }
        proof {
            shared.lemma_queue_start();
        }
        if self.idx < shared.segments[0].slots.len() {
            let value = shared.take();
            self.idx = self.idx + 1;
            return Some(value);
        }
        None
    }

    fn drain_in_place<S: Sink<T>>(&mut self, shared: &mut Shared<T>, max: usize, out: &mut S) -> usize {
        let ghost first = *shared;
        let ghost seen = out.seen();
        let mut done: usize = 0;
        proof {
            assert(first.queue().skip(0) =~= first.queue());
            assert(seen + first.queue().take(0) =~= seen);
        }
        while done < max
            invariant_except_break
                done <= max,
                done <= first.queue().len(),
                shared.wf(),
                self.attached(*shared),
                shared.queue() == first.queue().skip(done as int),
                out.seen() == seen + first.queue().take(done as int),
                shared.producer_gone == first.producer_gone,
                shared.consumer_gone == first.consumer_gone,
                forall|tx: SegTx<T>| #[trigger] tx.attached(first) ==> tx.attached(*shared),
            ensures
                done == min(first.queue().len() as int, max as int),
                shared.wf(),
                self.attached(*shared),
                shared.queue() == first.queue().skip(done as int),
                out.seen() == seen + first.queue().take(done as int),
                shared.producer_gone == first.producer_gone,
                shared.consumer_gone == first.consumer_gone,
                forall|tx: SegTx<T>| #[trigger] tx.attached(first) ==> tx.attached(*shared),
            decreases max - done,
        {
            proof {
                shared.lemma_queue_start();
            }
            if self.idx == self.seg_size && !self.advance(shared) {
                break;
            }
            proof {
                shared.lemma_queue_start();
            }
            let published: usize = shared.segments[0].slots.len();
            if self.idx >= published {
                break;
            }
            let ready: usize = published - self.idx;
            let n: usize = if ready <= max - done {
                ready
            } else {
                max - done
            };
            let end: usize = done + n;
            let ghost entry = done;
            while done < end
                invariant
                    entry <= done <= end <= max,
                    done <= first.queue().len(),
                    n == end - entry,
                    0 < n,
                    self.idx + (end - done) <= published,
                    published == shared.segments@[0].slots@.len(),
                    shared.wf(),
                    self.attached(*shared),
                    shared.queue() == first.queue().skip(done as int),
                    out.seen() == seen + first.queue().take(done as int),
                    shared.producer_gone == first.producer_gone,
                    shared.consumer_gone == first.consumer_gone,
                    forall|tx: SegTx<T>| #[trigger] tx.attached(first) ==> tx.attached(*shared),
                decreases end - done,
            {
                proof {
                    shared.lemma_queue_start();
                }
                let value = shared.take();
                let ghost held = value;
                self.idx = self.idx + 1;
                done = done + 1;
                out.accept(value);
                proof {
                    assert(first.queue().take(done - 1).push(held) =~= first.queue().take(
                        done as int,
                    ));
                    assert(seen + first.queue().take(done as int) =~= (seen + first.queue().take(
                        done - 1,
                    )).push(held));
                    assert(first.queue().skip(done - 1).skip(1) =~= first.queue().skip(
                        done as int,
                    ));
                }
            }
        }
        done
    }

    fn is_empty(&self, shared: &Shared<T>) -> bool {
        proof {
            shared.lemma_queue_start();
        }
        let published: usize = shared.segments[0].slots.len();
        if self.idx < published {
            return false;
        }
        if self.idx == self.seg_size && shared.segments.len() > 1 {
            return shared.segments[1].slots.len() == 0;
        }
        true
    }

    fn is_finished(&self, shared: &Shared<T>) -> bool {
        shared.producer_gone && self.is_empty(shared)
    }

    fn leave(&mut self, shared: &mut Shared<T>) {
        self.close(shared)
    }

    fn close(&mut self, shared: &mut Shared<T>) {
        let ghost before = *shared;
        shared.consumer_gone = true;
        proof {
            lemma_flags(before, *shared);
        }
    }
}


proof fn lemma_chain_len<T>(segments: Seq<Segment<T>>, size: int)
    requires
        segments.len() > 0,
        forall|i: int| 0 <= i < segments.len() - 1 ==> (#[trigger] segments[i]).slots@.len() == size,
    ensures
        chain(segments).len() == (segments.len() - 1) * size + segments.last().slots@.len(),
    decreases segments.len(),
{
    reveal_with_fuel(chain, 2);
    if segments.len() > 1 {
        let rest = segments.drop_last();
        lemma_chain_len(rest, size);
        assert(rest.last() == segments[segments.len() - 2]);
        assert((rest.len() - 1) * size + size == (segments.len() - 1) * size) by (nonlinear_arith)
            requires
                rest.len() == segments.len() - 1,
        ;
    } else {
        assert(segments.drop_last() =~= Seq::<Segment<T>>::empty());
        assert((segments.len() - 1) * size == 0) by (nonlinear_arith)
            requires
                segments.len() == 1,
        ;
    }
}

/// Memory follows the backlog: the live segments are as many as the unread values
/// and the retired slots of the oldest segment fill, the last one partly.
pub proof fn law_segments_follow_the_backlog<T>(shared: Shared<T>)
    requires
        shared.wf(),
    ensures
        shared.retired() + shared.queue().len() <= shared.live_segments() * shared.segment_size(),
        shared.live_segments() > 1 ==> (shared.live_segments() - 1) * shared.segment_size()
            < shared.retired() + shared.queue().len(),
        shared.retired() <= shared.segment_size(),
        shared.live_segments() >= 1,
{
    lemma_chain_len(shared.segments@, shared.size as int);
    shared.lemma_queue_start();
    let n = shared.segments@.len() as int;
    let size = shared.size as int;
    assert((n - 1) * size + size == n * size) by (nonlinear_arith);
    if n > 1 {
        assert(shared.segments@[0].slots@.len() == shared.size);
    }
}


/// Segmented storage never fills: whatever size was asked for, it has no bound, and it accepts
/// values as long as its consumer is there.
pub proof fn law_segments_never_fill<T>(capacity: usize, bound: Option<nat>, shared: Shared<T>)
    requires
        <Seg as Backend<T>>::sized(capacity, bound),
    ensures
        bound is None,
        <Seg as Backend<T>>::supports(capacity),
        shared.bound() is None,
        shared.accepts() <==> !shared.consumer_gone(),
{
}


/// New segmented storage has one segment, with at least two slots and at least as many as were
/// asked for, and exactly as many where that is enough.
pub proof fn law_segments_have_the_slots_asked_for<T>(
    capacity: usize,
    shared: Shared<T>,
    tx: SegTx<T>,
    rx: SegRx<T>,
)
    requires
        <Seg as Backend<T>>::fresh(capacity, shared, tx, rx),
    ensures
        shared.segment_size() >= 2,
        shared.segment_size() >= capacity,
        capacity >= 2 ==> shared.segment_size() == capacity,
        shared.live_segments() == 1,
        shared.retired() == 0,
{
}

} // verus!
