//! Bounded single-producer single-consumer ring used by the local channel topologies.
//!
//! Monotonically increasing head and tail counters address a power-of-two buffer
//! through `counter & mask`. Each endpoint caches the peer's counter and looks at
//! the shared one only where the cache says "full" or "empty". A cache may lag
//! behind by any number of steps of the other side; no operation depends on it
//! being fresh.
use super::{min, Backend, Batch, Endpoint, Link, Rx, Sink, Tx};
use crate::cursor::{
    advance, checked_next_power_of_two, distance, is_rounded_up, largest_power_of_two,
    lemma_mask_is_slot, lemma_power_of_two_divides, lemma_slot_covered, lemma_slot_of_advance,
    lemma_slots_differ, power_of_two, slot_of,
};
use core::marker::PhantomData;
use vstd::arithmetic::div_mod::lemma_add_mod_noop;
use vstd::prelude::*;

verus! {

/// The storage of one ring: a power-of-two buffer, the two counters, and whether
/// either side has left.
pub struct Inner<T> {
    buf: Vec<Option<T>>,
    mask: usize,
    cap: usize,
    head: usize,  // next slot the consumer will read
    tail: usize,  // next slot the producer will write
    producer_gone: bool,
    consumer_gone: bool,
}

impl<T> Inner<T> {
    /// Number of values that the ring holds at most.
    pub closed spec fn capacity(&self) -> nat {
        self.cap as nat
    }

    /// The counter of values read.
    pub closed spec fn head(&self) -> usize {
        self.head
    }

    /// The counter of values written.
    pub closed spec fn tail(&self) -> usize {
        self.tail
    }

    spec fn used(&self) -> int {
        distance(self.head, self.tail)
    }

    /// The slot of the `k`-th value from the head on.
    spec fn at(&self, k: int) -> Option<T> {
        self.buf@[slot_of(self.head + k, self.cap as int)]
    }
}

impl<T> Link<T> for Inner<T> {
    closed spec fn wf(&self) -> bool {
        &&& power_of_two(self.cap as int)
        &&& self.cap <= largest_power_of_two()
        &&& self.mask == self.cap - 1
        &&& self.buf@.len() == self.cap
        &&& self.used() <= self.cap
        &&& forall|k: int| 0 <= k < self.cap ==> (#[trigger] self.at(k) is Some <==> k < self.used())
    }

    closed spec fn queue(&self) -> Seq<T> {
        Seq::new(self.used() as nat, |k: int| self.at(k)->0)
    }

    open spec fn bound(&self) -> Option<nat> {
        Some(self.capacity())
    }

    open spec fn accepts(&self) -> bool {
        self.queue().len() < self.capacity()
    }

    closed spec fn producer_gone(&self) -> bool {
        self.producer_gone
    }

    closed spec fn consumer_gone(&self) -> bool {
        self.consumer_gone
    }

    proof fn accepts_while_it_can(&self) {
    }
}

proof fn lemma_shift(cursor: usize, n: int, k: int, cap: usize)
    requires
        power_of_two(cap as int),
        0 <= n <= usize::MAX,
    ensures
        slot_of(advance(cursor, n) + k, cap as int) == slot_of(cursor + n + k, cap as int),
{
    lemma_power_of_two_divides(cap);
    lemma_slot_of_advance(cursor, n, cap);
    lemma_add_mod_noop(advance(cursor, n), k, cap as int);
    lemma_add_mod_noop(cursor + n, k, cap as int);
}

impl<T> Inner<T> {
    /// Map any wrapping cursor into storage.
    pub fn slot(&self, cursor: usize) -> (index: usize)
        requires
            self.wf(),
        ensures
            index == slot_of(cursor as int, self.capacity() as int),
            index < self.capacity(),
    {
        proof {
            lemma_mask_is_slot(cursor, self.mask, self.cap);
        }
        cursor & self.mask
    }

    /// Number of slots.
    pub fn slots(&self) -> (n: usize)
        requires
            self.wf(),
        ensures
            n == self.capacity(),
    {
        self.cap
    }

    /// The counters of values read and written.
    pub fn cursors(&self) -> (c: (usize, usize))
        ensures
            c == (self.head(), self.tail()),
    {
        (self.head, self.tail)
    }

    /// A ring holds its values between the counters, and never more than its capacity.
    pub proof fn lemma_counters(&self)
        requires
            self.wf(),
        ensures
            self.queue().len() == distance(self.head(), self.tail()),
            self.queue().len() <= self.capacity(),
            0 < self.capacity() <= largest_power_of_two(),
            power_of_two(self.capacity() as int),
    {
        lemma_power_of_two_divides(self.cap);
    }

    /// Write one value into the slot at the tail and publish it.
    fn put(&mut self, value: T)
        requires
            old(self).wf(),
            old(self).accepts(),
        ensures
            final(self).wf(),
            final(self).queue() == old(self).queue().push(value),
            final(self).capacity() == old(self).capacity(),
            final(self).head == old(self).head,
            final(self).tail == advance(old(self).tail, 1),
            final(self).producer_gone == old(self).producer_gone,
            final(self).consumer_gone == old(self).consumer_gone,
    {
        let ghost before = *self;
        let index: usize = self.slot(self.tail);
        self.buf[index] = Some(value);
        self.tail = self.tail.wrapping_add(1);
        proof {
            let cap = self.cap as int;
            let used = before.used();
            lemma_power_of_two_divides(self.cap);
            assert(advance(before.head, used) == before.tail);
            lemma_slot_of_advance(before.head, used, self.cap);
            assert(index == slot_of(before.head + used, cap));
            assert(self.used() == used + 1);
            assert forall|k: int| 0 <= k < cap implies (#[trigger] self.at(k) is Some <==> k
                < self.used()) by {
                assert(before.at(k) is Some <==> k < used);
                if k < used {
                    lemma_slots_differ(before.head as int, k, used, cap);
                } else if k > used {
                    lemma_slots_differ(before.head as int, used, k, cap);
                }
            }
            assert forall|k: int| 0 <= k < used implies self.at(k) == #[trigger] before.at(k) by {
                lemma_slots_differ(before.head as int, k, used, cap);
            }
            assert(self.queue() =~= before.queue().push(value));
        }
    }

    /// Move the value at the head out and release its slot.
    fn take(&mut self) -> (value: T)
        requires
            old(self).wf(),
            old(self).queue().len() > 0,
        ensures
            final(self).wf(),
            value == old(self).queue()[0],
            final(self).queue() == old(self).queue().skip(1),
            final(self).capacity() == old(self).capacity(),
            final(self).head == advance(old(self).head, 1),
            final(self).tail == old(self).tail,
            final(self).producer_gone == old(self).producer_gone,
            final(self).consumer_gone == old(self).consumer_gone,
    {
        let ghost before = *self;
        let index: usize = self.slot(self.head);
        assert(before.at(0) is Some);
        let value = self.buf[index].take().unwrap();
        self.head = self.head.wrapping_add(1);
        proof {
            let cap = self.cap as int;
            let used = before.used();
            lemma_power_of_two_divides(self.cap);
            assert(self.used() == used - 1);
            assert forall|k: int| 0 <= k < cap implies (#[trigger] self.at(k) is Some <==> k
                < self.used()) && (k < used - 1 ==> self.at(k) == before.at(k + 1)) by {
                lemma_shift(before.head, 1, k, self.cap);
                if k + 1 < cap {
                    assert(before.at(k + 1) is Some <==> k + 1 < used);
                    lemma_slots_differ(before.head as int, 0, k + 1, cap);
                } else {
                    crate::cursor::lemma_slot_repeats(before.head as int, cap);
                }
            }
            assert(self.queue() =~= before.queue().skip(1));
        }
        value
    }
}


/// Storage for at least `capacity` values (at least one), rounded up to a power of
/// two, with both counters at `start`.
pub fn build<T>(capacity: usize, start: usize) -> (inner: Inner<T>)
    requires
        capacity <= largest_power_of_two(),
    ensures
        inner.wf(),
        is_rounded_up(at_least_one(capacity), inner.capacity() as int),
        inner.queue() == Seq::<T>::empty(),
        inner.head() == start,
        inner.tail() == start,
        !inner.producer_gone(),
        !inner.consumer_gone(),
{
    let wanted: usize = if capacity < 1 {
        1
    } else {
        capacity
    };
    let cap: usize = checked_next_power_of_two(wanted).unwrap();
    proof {
        lemma_power_of_two_divides(cap);
        crate::cursor::lemma_largest();
    }
    let mut buf: Vec<Option<T>> = Vec::with_capacity(cap);
    while buf.len() < cap
        invariant
            buf@.len() <= cap,
            forall|i: int| 0 <= i < buf@.len() ==> #[trigger] buf@[i] is None,
        decreases cap - buf@.len(),
    {
        buf.push(None);
    }
    let inner = Inner {
        buf,
        mask: cap - 1,
        cap,
        head: start,
        tail: start,
        producer_gone: false,
        consumer_gone: false,
    };
    assert(inner.queue() =~= Seq::<T>::empty());
    inner
}

/// The capacity that a request for `capacity` slots is rounded up from.
pub open spec fn at_least_one(capacity: usize) -> int {
    if capacity < 1 {
        1
    } else {
        capacity as int
    }
}

/// Create one ring: its storage and the two single-owner halves.
pub fn ring<T>(capacity: usize) -> (parts: (Inner<T>, Sender<T>, Receiver<T>))
    requires
        capacity <= largest_power_of_two(),
    ensures
        parts.0.wf(),
        is_rounded_up(at_least_one(capacity), parts.0.capacity() as int),
        parts.0.queue() == Seq::<T>::empty(),
        parts.0.head() == 0,
        parts.0.tail() == 0,
        !parts.0.producer_gone(),
        !parts.0.consumer_gone(),
        parts.1.attached(parts.0),
        parts.2.attached(parts.0),
        parts.1.believed(parts.0) == 0,
        parts.2.visible(parts.0) == 0,
{
    let inner = build(capacity, 0);
    let (tx, rx) = halves(&inner);
    (inner, tx, rx)
}

/// The two endpoints of a ring that nobody has used yet.
pub fn halves<T>(inner: &Inner<T>) -> (ends: (Sender<T>, Receiver<T>))
    requires
        inner.wf(),
        inner.queue().len() == 0,
    ensures
        ends.0.attached(*inner),
        ends.1.attached(*inner),
        ends.0.believed(*inner) == 0,
        ends.1.visible(*inner) == 0,
{
    (
        Sender { head_cache: inner.head, _values: PhantomData },
        Receiver { tail_cache: inner.tail, _values: PhantomData },
    )
}

/// Single-producer half of a ring.
pub struct Sender<T> {
    head_cache: usize,  // last-seen consumer position (may lag; refreshed on "full")
    _values: PhantomData<T>,
}

/// Single-consumer half of a ring.
pub struct Receiver<T> {
    tail_cache: usize,  // last-seen producer position (may lag; refreshed on "empty")
    _values: PhantomData<T>,
}

impl<T> Endpoint<Inner<T>> for Sender<T> {
    /// The consumer has moved no further than the tail since it was last seen.
    open spec fn attached(&self, inner: Inner<T>) -> bool {
        distance(inner.head(), inner.tail()) <= self.believed(inner) <= inner.capacity()
    }

    open spec fn known(&self, inner: Inner<T>) -> int {
        self.believed(inner)
    }
}

impl<T> Endpoint<Inner<T>> for Receiver<T> {
    /// The producer has not moved back since it was last seen.
    open spec fn attached(&self, inner: Inner<T>) -> bool {
        self.visible(inner) <= distance(inner.head(), inner.tail())
    }

    open spec fn known(&self, inner: Inner<T>) -> int {
        self.visible(inner)
    }
}

impl<T> Sender<T> {
    /// How full the ring is as far as this side knows.
    pub closed spec fn believed(&self, inner: Inner<T>) -> int {
        distance(self.head_cache, inner.tail)
    }

    /// How full the ring is as this side finds it when it wants to push: it looks
    /// at the shared counter only where it believes the ring to be full.
    pub open spec fn found(&self, inner: Inner<T>) -> int {
        if self.believed(inner) >= inner.capacity() {
            inner.queue().len() as int
        } else {
            self.believed(inner)
        }
    }

    /// Non-blocking push. Returns the item back on a full ring.
    pub fn try_push(&mut self, inner: &mut Inner<T>, item: T) -> (result: Result<(), T>)
        requires
            old(inner).wf(),
            old(self).attached(*old(inner)),
        ensures
            final(inner).wf(),
            final(self).attached(*final(inner)),
            result is Ok <==> old(inner).accepts(),
            result is Ok ==> {
                &&& final(inner).queue() == old(inner).queue().push(item)
                &&& final(inner).tail() == advance(old(inner).tail(), 1)
                &&& final(self).believed(*final(inner)) == old(self).found(*old(inner)) + 1
            },
            result matches Err(back) ==> {
                &&& back == item
                &&& *final(inner) == *old(inner)
                &&& final(self).believed(*final(inner)) == old(self).found(*old(inner))
            },
            final(inner).capacity() == old(inner).capacity(),
            final(inner).head() == old(inner).head(),
            final(inner).producer_gone() == old(inner).producer_gone(),
            final(inner).consumer_gone() == old(inner).consumer_gone(),
            forall|rx: Receiver<T>| #[trigger]
                rx.visible(*final(inner)) == rx.visible(*old(inner)),
            forall|rx: Receiver<T>| #[trigger]
                rx.attached(*old(inner)) ==> rx.attached(*final(inner)),
    {
        proof {
            inner.lemma_counters();
        }
        let tail: usize = inner.tail;
        if tail.wrapping_sub(self.head_cache) >= inner.cap {
            // the cache says full: refresh from the shared counter before giving up
            self.head_cache = inner.head;
            if tail.wrapping_sub(self.head_cache) >= inner.cap {
                return Err(item);
            }
        }
        inner.put(item);
        proof {
            inner.lemma_counters();
        }
        Ok(())
    }

    /// Publish a finite owned prefix of `source`.
    pub fn push_from(&mut self, inner: &mut Inner<T>, max: usize, source: &mut Batch<T>) -> (n:
        usize)
        requires
            old(inner).wf(),
            old(self).attached(*old(inner)),
        ensures
            final(inner).wf(),
            final(self).attached(*final(inner)),
            n == old(self).granted(*old(inner), min(old(source)@.len() as int, max as int)),
            n <= old(source)@.len(),
            final(inner).queue() == old(inner).queue() + old(source)@.take(n as int),
            final(inner).tail() == advance(old(inner).tail(), n as int),
            final(source)@ == old(source)@.skip(n as int),
            n == 0 ==> *final(inner) == *old(inner),
            final(inner).capacity() == old(inner).capacity(),
            final(inner).head() == old(inner).head(),
            final(inner).producer_gone() == old(inner).producer_gone(),
            final(inner).consumer_gone() == old(inner).consumer_gone(),
            min(old(source)@.len() as int, max as int) > 0 ==> final(self).believed(*final(inner))
                == old(self).found(*old(inner)) + n,
            min(old(source)@.len() as int, max as int) == 0 ==> *final(self) == *old(self),
            forall|rx: Receiver<T>| #[trigger]
                rx.visible(*final(inner)) == rx.visible(*old(inner)),
            forall|rx: Receiver<T>| #[trigger]
                rx.attached(*old(inner)) ==> rx.attached(*final(inner)),
    {
        proof {
            inner.lemma_counters();
        }
        let limit: usize = if source.len() <= max {
            source.len()
        } else {
            max
        };
        if limit == 0 {
            assert(old(source)@.take(0) =~= Seq::<T>::empty());
            return 0;
        }
        let tail: usize = inner.tail;
        let mut used: usize = tail.wrapping_sub(self.head_cache);
        if used >= inner.cap {
            self.head_cache = inner.head;
            used = tail.wrapping_sub(self.head_cache);
        }
        let room: usize = inner.cap - used;
        let n: usize = if limit <= room {
            limit
        } else {
            room
        };
        let mut moved: usize = 0;
        let ghost first = *inner;
        let ghost values = source@;
        while moved < n
            invariant
                moved <= n <= room,
                moved == 0 ==> *inner == first,
                n <= values.len(),
                used + room == first.cap,
                first.queue().len() <= used,
                first.wf(),
                inner.wf(),
                inner.cap == first.cap,
                inner.head == first.head,
                inner.tail == advance(first.tail, moved as int),
                inner.producer_gone == first.producer_gone,
                inner.consumer_gone == first.consumer_gone,
                inner.queue() == first.queue() + values.take(moved as int),
                source@ == values.skip(moved as int),
            decreases n - moved,
        {
            let value = source.pop_front().unwrap();
            inner.put(value);
            assert(values.take(moved as int).push(value) =~= values.take(moved + 1));
            assert(source@ =~= values.skip(moved + 1));
            moved = moved + 1;
        }
        proof {
            inner.lemma_counters();
        }
        n
    }

    /// How many of `want` values the next bulk push moves.
    pub open spec fn granted(&self, inner: Inner<T>, want: int) -> int {
        min(want, inner.capacity() - self.found(inner))
    }

    /// True once the consuming endpoint has left.
    pub fn is_consumer_gone(&self, inner: &Inner<T>) -> (gone: bool)
        ensures
            gone == inner.consumer_gone(),
    {
        inner.consumer_gone
    }

    /// Publish that the producing endpoint has left.
    pub fn close(&mut self, inner: &mut Inner<T>)
        requires
            old(inner).wf(),
        ensures
            final(inner).wf(),
            final(inner).producer_gone(),
            final(inner).queue() == old(inner).queue(),
            final(inner).capacity() == old(inner).capacity(),
            final(inner).head() == old(inner).head(),
            final(inner).tail() == old(inner).tail(),
            final(inner).consumer_gone() == old(inner).consumer_gone(),
            *final(self) == *old(self),
            forall|rx: Receiver<T>| #[trigger]
                rx.visible(*final(inner)) == rx.visible(*old(inner)),
            forall|rx: Receiver<T>| #[trigger]
                rx.attached(*old(inner)) ==> rx.attached(*final(inner)),
    {
        inner.producer_gone = true;
        proof {
            lemma_same_slots(*old(inner), *inner);
        }
    }
}

/// The flags play no part in what a ring holds.
proof fn lemma_same_slots<T>(a: Inner<T>, b: Inner<T>)
    requires
        a.wf(),
        a.buf@ == b.buf@,
        a.mask == b.mask,
        a.cap == b.cap,
        a.head == b.head,
        a.tail == b.tail,
    ensures
        b.wf(),
        a.queue() == b.queue(),
{
    assert forall|k: int| 0 <= k < b.cap implies (#[trigger] b.at(k) is Some <==> k < b.used()) by {
        assert(a.at(k) is Some <==> k < a.used());
    }
    assert(a.queue() =~= b.queue());
}


impl<T> Receiver<T> {
    /// How many values are ready as far as this side knows.
    pub closed spec fn visible(&self, inner: Inner<T>) -> int {
        distance(inner.head, self.tail_cache)
    }

    /// How many values this side finds when it drains: it looks at the shared
    /// counter only where it knows of none.
    pub open spec fn found(&self, inner: Inner<T>) -> int {
        if self.visible(inner) == 0 {
            inner.queue().len() as int
        } else {
            self.visible(inner)
        }
    }

    /// Non-blocking pop.
    pub fn try_pop(&mut self, inner: &mut Inner<T>) -> (value: Option<T>)
        requires
            old(inner).wf(),
            old(self).attached(*old(inner)),
        ensures
            final(inner).wf(),
            final(self).attached(*final(inner)),
            value is None <==> old(inner).queue().len() == 0,
            value is None ==> *final(inner) == *old(inner),
            value matches Some(v) ==> {
                &&& v == old(inner).queue()[0]
                &&& final(inner).queue() == old(inner).queue().skip(1)
                &&& final(inner).head() == advance(old(inner).head(), 1)
                &&& final(self).visible(*final(inner)) == old(self).found(*old(inner)) - 1
            },
            final(inner).capacity() == old(inner).capacity(),
            final(inner).tail() == old(inner).tail(),
            final(inner).producer_gone() == old(inner).producer_gone(),
            final(inner).consumer_gone() == old(inner).consumer_gone(),
            forall|tx: Sender<T>| #[trigger]
                tx.believed(*final(inner)) == tx.believed(*old(inner)),
            forall|tx: Sender<T>| #[trigger]
                tx.attached(*old(inner)) ==> tx.attached(*final(inner)),
    {
        proof {
            inner.lemma_counters();
        }
        if inner.head == self.tail_cache {
            self.tail_cache = inner.tail;
            if inner.head == self.tail_cache {
                return None;
            }
        }
        let value = inner.take();
        proof {
            inner.lemma_counters();
        }
        Some(value)
    }

    /// How many values are ready, looking at the shared counter only where none is
    /// known of.
    fn look(&mut self, inner: &Inner<T>) -> (available: usize)
        requires
            inner.wf(),
            old(self).attached(*inner),
        ensures
            available == old(self).found(*inner),
            final(self).visible(*inner) == available,
            available <= inner.queue().len(),
    {
        proof {
            inner.lemma_counters();
        }
        let mut available: usize = self.tail_cache.wrapping_sub(inner.head);
        if available == 0 {
            self.tail_cache = inner.tail;
            available = self.tail_cache.wrapping_sub(inner.head);
        }
        available
    }

    /// Append ready owned values with one reservation.
    pub fn drain_into(&mut self, inner: &mut Inner<T>, max: usize, out: &mut Batch<T>) -> (n: usize)
        requires
            old(inner).wf(),
            old(self).attached(*old(inner)),
        ensures
            final(inner).wf(),
            final(self).attached(*final(inner)),
            n == min(old(self).found(*old(inner)), max as int),
            n <= old(inner).queue().len(),
            final(out)@ == old(out)@ + old(inner).queue().take(n as int),
            final(inner).queue() == old(inner).queue().skip(n as int),
            final(inner).head() == advance(old(inner).head(), n as int),
            final(self).visible(*final(inner)) == old(self).found(*old(inner)) - n,
            final(inner).capacity() == old(inner).capacity(),
            final(inner).tail() == old(inner).tail(),
            final(inner).producer_gone() == old(inner).producer_gone(),
            final(inner).consumer_gone() == old(inner).consumer_gone(),
            forall|tx: Sender<T>| #[trigger]
                tx.believed(*final(inner)) == tx.believed(*old(inner)),
            forall|tx: Sender<T>| #[trigger]
                tx.attached(*old(inner)) ==> tx.attached(*final(inner)),
    {
        let available: usize = self.look(inner);
        let n: usize = if available <= max {
            available
        } else {
            max
        };
        out.reserve(n);
        self.drain_in_place(inner, n, out)
    }

    /// Drain up to `max` ready items in place, handing each to `out`, then release
    /// ALL of them to the producer. Returns the number drained.
    pub fn drain_in_place<S: Sink<T>>(&mut self, inner: &mut Inner<T>, max: usize, out: &mut S) -> (n:
        usize)
        requires
            old(inner).wf(),
            old(self).attached(*old(inner)),
        ensures
            final(inner).wf(),
            final(self).attached(*final(inner)),
            n == min(old(self).found(*old(inner)), max as int),
            n <= old(inner).queue().len(),
            final(out).seen() == old(out).seen() + old(inner).queue().take(n as int),
            final(inner).queue() == old(inner).queue().skip(n as int),
            final(inner).head() == advance(old(inner).head(), n as int),
            final(self).visible(*final(inner)) == old(self).found(*old(inner)) - n,
            final(inner).capacity() == old(inner).capacity(),
            final(inner).tail() == old(inner).tail(),
            final(inner).producer_gone() == old(inner).producer_gone(),
            final(inner).consumer_gone() == old(inner).consumer_gone(),
            forall|tx: Sender<T>| #[trigger]
                tx.believed(*final(inner)) == tx.believed(*old(inner)),
            forall|tx: Sender<T>| #[trigger]
                tx.attached(*old(inner)) ==> tx.attached(*final(inner)),
    {
        let available: usize = self.look(inner);
        let n: usize = if available <= max {
            available
        } else {
            max
        };
        let ghost first = *inner;
        let ghost before = out.seen();
        let mut done: usize = 0;
        proof {
            inner.lemma_counters();
            assert(first.queue().skip(0) =~= first.queue());
            assert(before + first.queue().take(0) =~= before);
        }
        while done < n
            invariant
                done <= n <= available <= first.queue().len(),
                first.queue().len() <= first.cap,
                first.wf(),
                inner.wf(),
                inner.cap == first.cap,
                inner.tail == first.tail,
                inner.head == advance(first.head, done as int),
                inner.producer_gone == first.producer_gone,
                inner.consumer_gone == first.consumer_gone,
                inner.queue() == first.queue().skip(done as int),
                out.seen() == before + first.queue().take(done as int),
            decreases n - done,
        {
            let value = inner.take();
            done = done + 1;
            out.accept(value);
            proof {
                assert(first.queue().take(done - 1).push(value) =~= first.queue().take(
                    done as int,
                ));
                assert(before + first.queue().take(done - 1).push(value) =~= (before
                    + first.queue().take(done - 1)).push(value));
                assert(first.queue().skip(done - 1).skip(1) =~= first.queue().skip(done as int));
            }
        }
        proof {
            inner.lemma_counters();
        }
        n
    }

    /// Drain as [`Receiver::drain_in_place`] does and say whether the waiting
    /// producer has to be woken: capacity is published once per batch, and the wake
    /// follows it.
    pub fn drain_in_place_async<S: Sink<T>>(
        &mut self,
        inner: &mut Inner<T>,
        max: usize,
        out: &mut S,
    ) -> (drained: (usize, bool))
        requires
            old(inner).wf(),
            old(self).attached(*old(inner)),
        ensures
            final(inner).wf(),
            final(self).attached(*final(inner)),
            drained.0 == min(old(self).found(*old(inner)), max as int),
            drained.1 <==> drained.0 > 0,
            drained.0 <= old(inner).queue().len(),
            final(out).seen() == old(out).seen() + old(inner).queue().take(drained.0 as int),
            final(inner).queue() == old(inner).queue().skip(drained.0 as int),
            final(inner).head() == advance(old(inner).head(), drained.0 as int),
            final(self).visible(*final(inner)) == if max == 0 {
                old(self).visible(*old(inner))
            } else {
                old(self).found(*old(inner)) - drained.0
            },
            final(inner).capacity() == old(inner).capacity(),
            final(inner).tail() == old(inner).tail(),
            final(inner).producer_gone() == old(inner).producer_gone(),
            final(inner).consumer_gone() == old(inner).consumer_gone(),
            forall|tx: Sender<T>| #[trigger]
                tx.believed(*final(inner)) == tx.believed(*old(inner)),
            forall|tx: Sender<T>| #[trigger]
                tx.attached(*old(inner)) ==> tx.attached(*final(inner)),
    {
        if max == 0 {
            proof {
                inner.lemma_counters();
                assert(inner.queue().skip(0) =~= inner.queue());
                assert(out.seen() + inner.queue().take(0) =~= out.seen());
            }
            return (0, false);
        }
        let n: usize = self.drain_in_place(inner, max, out);
        (n, n > 0)
    }

    /// Nothing ready to pop right now.
    pub fn is_empty(&self, inner: &Inner<T>) -> (empty: bool)
        requires
            inner.wf(),
        ensures
            empty == (inner.queue().len() == 0),
    {
        inner.head == inner.tail
    }

    /// Reset a *finished*, fully-drained ring to pristine state and hand back a
    /// fresh `Sender` over the same buffer, so the allocation can be reused.
    ///
    /// Returns `None` while the producer is still there.
    pub fn recycle(&mut self, inner: &mut Inner<T>) -> (tx: Option<Sender<T>>)
        requires
            old(inner).wf(),
            old(inner).producer_gone() ==> old(inner).queue().len() == 0,
        ensures
            final(inner).wf(),
            tx is Some <==> old(inner).producer_gone(),
            tx is None ==> *final(inner) == *old(inner) && *final(self) == *old(self),
            tx matches Some(fresh) ==> {
                &&& fresh.attached(*final(inner))
                &&& fresh.believed(*final(inner)) == 0
                &&& final(self).attached(*final(inner))
                &&& final(inner).queue() == Seq::<T>::empty()
                &&& final(inner).head() == 0
                &&& final(inner).tail() == 0
                &&& !final(inner).producer_gone()
            },
            final(inner).capacity() == old(inner).capacity(),
            final(inner).consumer_gone() == old(inner).consumer_gone(),
    {
        if !inner.producer_gone {
            return None;
        }
        let ghost before = *inner;
        inner.head = 0;
        inner.tail = 0;
        inner.producer_gone = false;
        self.tail_cache = 0;
        proof {
            before.lemma_counters();
            assert forall|k: int| 0 <= k < inner.cap implies (#[trigger] inner.at(k) is Some <==> k
                < inner.used()) by {
                let slot = slot_of(k, inner.cap as int);
                let j = lemma_slot_covered(before.head as int, slot, inner.cap as int);
                assert(before.at(j) is Some <==> j < before.used());
            }
            assert(inner.queue() =~= Seq::<T>::empty());
        }
        Some(Sender { head_cache: 0, _values: PhantomData })
    }

    /// Producer gone AND nothing left to read: this ring is finished and can
    /// be pruned by the consumer.
    pub fn is_finished(&self, inner: &Inner<T>) -> (finished: bool)
        requires
            inner.wf(),
        ensures
            finished == (inner.producer_gone() && inner.queue().len() == 0),
    {
        inner.producer_gone && self.is_empty(inner)
    }

    /// Publish consumer teardown before the outer channel wakes a producer that
    /// may be waiting for capacity.
    pub fn close(&self, inner: &mut Inner<T>)
        requires
            old(inner).wf(),
        ensures
            final(inner).wf(),
            final(inner).consumer_gone(),
            final(inner).queue() == old(inner).queue(),
            final(inner).capacity() == old(inner).capacity(),
            final(inner).head() == old(inner).head(),
            final(inner).tail() == old(inner).tail(),
            final(inner).producer_gone() == old(inner).producer_gone(),
            self.visible(*final(inner)) == self.visible(*old(inner)),
            forall|tx: Sender<T>| #[trigger]
                tx.believed(*final(inner)) == tx.believed(*old(inner)),
            forall|tx: Sender<T>| #[trigger]
                tx.attached(*old(inner)) ==> tx.attached(*final(inner)),
    {
        inner.consumer_gone = true;
        proof {
            lemma_same_slots(*old(inner), *inner);
        }
    }

    /// Leave: publish consumer teardown and drop every unread value.
    pub fn disconnect(self, inner: &mut Inner<T>)
        requires
            old(inner).wf(),
            self.attached(*old(inner)),
        ensures
            final(inner).wf(),
            final(inner).consumer_gone(),
            final(inner).queue() == Seq::<T>::empty(),
            final(inner).capacity() == old(inner).capacity(),
            final(inner).head() == old(inner).tail(),
            final(inner).tail() == old(inner).tail(),
            final(inner).producer_gone() == old(inner).producer_gone(),
            forall|tx: Sender<T>| #[trigger]
                tx.believed(*final(inner)) == tx.believed(*old(inner)),
            forall|tx: Sender<T>| #[trigger]
                tx.attached(*old(inner)) ==> tx.attached(*final(inner)),
    {
        let mut rx = self;
        let ghost before = *inner;
        rx.close(inner);
        let mut more = true;
        while more
            invariant
                inner.wf(),
                rx.attached(*inner),
                inner.consumer_gone,
                inner.tail == before.tail,
                inner.cap == before.cap,
                inner.producer_gone == before.producer_gone,
                !more ==> inner.queue().len() == 0,
            decreases inner.queue().len() + if more {
                1int
            } else {
                0
            },
        {
            more = rx.try_pop(inner).is_some();
        }
        proof {
            inner.lemma_counters();
            assert(inner.queue() =~= Seq::<T>::empty());
        }
    }
}


/// The default backend: this bounded ring.
pub struct Ring;

impl<T> Backend<T> for Ring {
    type Link = Inner<T>;

    type Tx = Sender<T>;

    type Rx = Receiver<T>;

    open spec fn bounded() -> bool {
        true
    }

    open spec fn supports(capacity: usize) -> bool {
        capacity <= largest_power_of_two()
    }

    open spec fn sized(capacity: usize, bound: Option<nat>) -> bool {
        bound matches Some(n) && is_rounded_up(at_least_one(capacity), n as int)
    }

    /// The cursors start at zero, and both sides know that the ring is empty.
    open spec fn fresh(capacity: usize, inner: Inner<T>, tx: Sender<T>, rx: Receiver<T>) -> bool {
        &&& inner.head() == 0
        &&& inner.tail() == 0
        &&& tx.believed(inner) == 0
        &&& rx.visible(inner) == 0
    }

    fn bounded_capacity() -> bool {
        true
    }

    fn channel(capacity: usize) -> (Inner<T>, Sender<T>, Receiver<T>) {
        let parts: (Inner<T>, Sender<T>, Receiver<T>) = ring(capacity);
        proof {
            parts.0.lemma_counters();
        }
        parts
    }
}

impl<T> Tx<T> for Sender<T> {
    type Link = Inner<T>;

    type Peer = Receiver<T>;

    open spec fn grant(&self, inner: Inner<T>, want: int) -> int {
        self.granted(inner, want)
    }

    open spec fn known_after(known: int, inner: Inner<T>, n: int) -> int {
        if known >= inner.capacity() {
            inner.queue().len() + n
        } else {
            known + n
        }
    }

    proof fn grant_bounds(&self, inner: Inner<T>, want: int) {
        inner.lemma_counters();
    }

    fn try_push(&mut self, inner: &mut Inner<T>, v: T) -> Result<(), T> {
        proof {
            inner.lemma_counters();
        }
        Sender::try_push(self, inner, v)
    }

    fn push_from(&mut self, inner: &mut Inner<T>, max: usize, source: &mut Batch<T>) -> usize {
        proof {
            inner.lemma_counters();
        }
        Sender::push_from(self, inner, max, source)
    }

    fn spare(&self, inner: &Inner<T>) -> Option<usize> {
        proof {
            inner.lemma_counters();
        }
        Some(inner.cap - inner.tail.wrapping_sub(inner.head))
    }

    fn is_consumer_gone(&self, inner: &Inner<T>) -> bool {
        Sender::is_consumer_gone(self, inner)
    }

    fn close(&mut self, inner: &mut Inner<T>) {
        Sender::close(self, inner)
    }
}

impl<T> Rx<T> for Receiver<T> {
    type Link = Inner<T>;

    type Peer = Sender<T>;

    open spec fn ready(&self, inner: Inner<T>) -> int {
        self.found(inner)
    }

    open spec fn kept(ready: int, n: int) -> int {
        ready - n
    }

    proof fn ready_bounds(&self, inner: Inner<T>) {
        inner.lemma_counters();
    }

    /// What is ready is counted once.
    open spec fn quota(&self, inner: Inner<T>, max: int) -> int {
        min(self.found(inner), max)
    }

    proof fn quota_bounds(&self, inner: Inner<T>, max: int) {
        inner.lemma_counters();
    }

    /// Every unread value is dropped at once.
    open spec fn remains(inner: Inner<T>) -> Seq<T> {
        Seq::empty()
    }

    proof fn remains_settle(before: Inner<T>, after: Inner<T>) {
    }

    fn open_batch(&mut self, inner: &Inner<T>, max: usize) -> usize {
        let available: usize = self.look(inner);
        proof {
            inner.lemma_counters();
        }
        if available <= max {
            available
        } else {
            max
        }
    }

    fn try_pop(&mut self, inner: &mut Inner<T>) -> Option<T> {
        Receiver::try_pop(self, inner)
    }

    fn drain_in_place<S: Sink<T>>(&mut self, inner: &mut Inner<T>, max: usize, out: &mut S) -> usize {
        Receiver::drain_in_place(self, inner, max, out)
    }

    fn drain_into(&mut self, inner: &mut Inner<T>, max: usize, out: &mut Batch<T>) -> usize {
        Receiver::drain_into(self, inner, max, out)
    }

    fn is_empty(&self, inner: &Inner<T>) -> bool {
        Receiver::is_empty(self, inner)
    }

    fn is_finished(&self, inner: &Inner<T>) -> bool {
        Receiver::is_finished(self, inner)
    }

    fn leave(&mut self, inner: &mut Inner<T>) {
        let ghost before = *inner;
        Receiver { tail_cache: self.tail_cache, _values: PhantomData }.disconnect(inner);
        self.tail_cache = inner.tail;
        proof {
            inner.lemma_counters();
        }
    }

    fn close(&mut self, inner: &mut Inner<T>) {
        Receiver::close(self, inner)
    }
}


/// Receivers of rings whose producers have just joined, parked until the consumer
/// takes them into service: the last one parked comes out first.
///
/// A ring is named by its index in the table of rings. Its view is the sequence of
/// parked rings in the order in which they were parked.
pub struct InboxStack<T> {
    parked: Vec<usize>,
    _values: PhantomData<T>,
}

/// Whether ring `ring` is among `parked`.
pub open spec fn holds(parked: Seq<usize>, ring: int) -> bool {
    exists|i: int| 0 <= i < parked.len() && #[trigger] parked[i] == ring
}

impl<T> View for InboxStack<T> {
    type V = Seq<usize>;

    closed spec fn view(&self) -> Seq<usize> {
        self.parked@
    }
}

impl<T> InboxStack<T> {
    /// An empty stack.
    pub fn new() -> (stack: Self)
        ensures
            stack@ == Seq::<usize>::empty(),
    {
        InboxStack { parked: Vec::new(), _values: PhantomData }
    }

    /// Producer side: park the receiver of ring `ring`. What it knew of the tail is
    /// discarded; it is reconstructed at the published head, even for a partially
    /// consumed ring.
    pub fn push(&mut self, ring: usize, rx: Receiver<T>)
        ensures
            final(self)@ == old(self)@.push(ring),
    {
        self.parked.push(ring);
    }

    /// Consumer side: detach the whole stack, last parked first.
    pub fn drain_with(&mut self, rings: &Vec<Inner<T>>) -> (received: Vec<(usize, Receiver<T>)>)
        requires
            forall|i: int| 0 <= i < old(self)@.len() ==> #[trigger] old(self)@[i] < rings@.len(),
            forall|r: int| 0 <= r < rings@.len() ==> (#[trigger] rings@[r]).wf(),
        ensures
            final(self)@ == Seq::<usize>::empty(),
            received@.len() == old(self)@.len(),
            forall|i: int|
                0 <= i < received@.len() ==> {
                    let (ring, rx) = #[trigger] received@[i];
                    &&& ring == old(self)@[received@.len() - 1 - i]
                    &&& rx.attached(rings@[ring as int])
                    &&& rx.visible(rings@[ring as int]) == 0
                },
    {
        let mut received: Vec<(usize, Receiver<T>)> = Vec::new();
        let ghost parked = self@;
        while self.parked.len() > 0
            invariant
                self.parked@.len() + received@.len() == parked.len(),
                self.parked@ == parked.take(self.parked@.len() as int),
                forall|i: int| 0 <= i < parked.len() ==> #[trigger] parked[i] < rings@.len(),
                forall|r: int| 0 <= r < rings@.len() ==> (#[trigger] rings@[r]).wf(),
                forall|i: int|
                    0 <= i < received@.len() ==> {
                        let (ring, rx) = #[trigger] received@[i];
                        &&& ring == parked[parked.len() - 1 - i]
                        &&& rx.attached(rings@[ring as int])
                        &&& rx.visible(rings@[ring as int]) == 0
                    },
            decreases self.parked@.len(),
        {
            let ring: usize = self.parked.pop().unwrap();
            assert(ring == parked[parked.len() - 1 - received@.len()]);
            let rx = Receiver::at_head(&rings[ring]);
            received.push((ring, rx));
        }
        received
    }

    /// Reclaim every ring that was parked and never taken: its consumer leaves, and
    /// its unread values are dropped.
    pub fn close(self, rings: &mut Vec<Inner<T>>)
        requires
            forall|i: int| 0 <= i < self@.len() ==> #[trigger] self@[i] < old(rings)@.len(),
            forall|r: int| 0 <= r < old(rings)@.len() ==> (#[trigger] old(rings)@[r]).wf(),
        ensures
            final(rings)@.len() == old(rings)@.len(),
            forall|r: int|
                0 <= r < final(rings)@.len() ==> {
                    let ring = #[trigger] final(rings)@[r];
                    &&& ring.wf()
                    &&& if holds(self@, r) {
                        &&& ring.consumer_gone()
                        &&& ring.queue() == Seq::<T>::empty()
                        &&& ring.capacity() == old(rings)@[r].capacity()
                        &&& ring.tail() == old(rings)@[r].tail()
                        &&& ring.producer_gone() == old(rings)@[r].producer_gone()
                    } else {
                        ring == old(rings)@[r]
                    }
                },
    {
        let ghost before = rings@;
        let mut k: usize = 0;
        while k < self.parked.len()
            invariant
                k <= self.parked@.len(),
                rings@.len() == before.len(),
                forall|i: int| 0 <= i < self@.len() ==> #[trigger] self@[i] < before.len(),
                forall|r: int|
                    0 <= r < rings@.len() ==> {
                        let ring = #[trigger] rings@[r];
                        &&& ring.wf()
                        &&& if holds(self@.take(k as int), r) {
                            &&& ring.consumer_gone()
                            &&& ring.queue() == Seq::<T>::empty()
                            &&& ring.capacity() == before[r].capacity()
                            &&& ring.tail() == before[r].tail()
                            &&& ring.producer_gone() == before[r].producer_gone()
                        } else {
                            ring == before[r]
                        }
                    },
            decreases self.parked@.len() - k,
        {
            let ghost done = self@.take(k as int);
            let ghost entry = rings@;
            let r: usize = self.parked[k];
            assert(r == self@[k as int]);
            let rx = Receiver::at_head(&rings[r]);
            rx.disconnect(&mut rings[r]);
            k = k + 1;
            proof {
                let now = self@.take(k as int);
                assert(now =~= done.push(r));
                assert forall|q: int| 0 <= q < rings@.len() implies {
                    let ring = #[trigger] rings@[q];
                    &&& ring.wf()
                    &&& if holds(now, q) {
                        &&& ring.consumer_gone()
                        &&& ring.queue() == Seq::<T>::empty()
                        &&& ring.capacity() == before[q].capacity()
                        &&& ring.tail() == before[q].tail()
                        &&& ring.producer_gone() == before[q].producer_gone()
                    } else {
                        ring == before[q]
                    }
                } by {
                    assert(entry[q].wf());
                    assert(holds(now, q) <==> holds(done, q) || q == r) by {
                        if holds(done, q) {
                            let w = choose|w: int| 0 <= w < done.len() && done[w] == q;
                            assert(now[w] == q);
                        }
                        if q == r {
                            assert(now[k - 1] == q);
                        }
                        if holds(now, q) {
                            let w = choose|w: int| 0 <= w < now.len() && now[w] == q;
                            assert(w < done.len() ==> done[w] == q);
                        }
                    }
                }
            }
        }
        assert(self@.take(k as int) =~= self@);
    }
}

impl<T> Receiver<T> {
    /// A receiver that knows of no value yet; its first read looks at the tail.
    fn at_head(inner: &Inner<T>) -> (rx: Self)
        requires
            inner.wf(),
        ensures
            rx.attached(*inner),
            rx.visible(*inner) == 0,
    {
        Receiver { tail_cache: inner.head, _values: PhantomData }
    }
}

/// What a bulk drain moves out and what it leaves behind are together, and in
/// order, what the ring held and what was pushed after it: nothing is lost,
/// duplicated or reordered, however far either side's cache lagged.
pub proof fn law_ring_conserves_order<T>(
    before: Inner<T>,
    tx: Sender<T>,
    rx: Receiver<T>,
    source: Seq<T>,
    max: int,
    limit: int,
)
    requires
        before.wf(),
        tx.attached(before),
        rx.attached(before),
        0 <= max,
        0 <= limit,
    ensures
        ({
            let pushed = tx.granted(before, min(source.len() as int, max));
            let held = before.queue() + source.take(pushed);
            let n = min(rx.found(before), limit);
            &&& 0 <= pushed <= source.len()
            &&& 0 <= n <= held.len() <= before.capacity()
            &&& held.take(n) + held.skip(n) + source.skip(pushed) == before.queue() + source
        }),
{
    before.lemma_counters();
    let pushed = tx.granted(before, min(source.len() as int, max));
    let held = before.queue() + source.take(pushed);
    let n = min(rx.found(before), limit);
    assert(held.take(n) + held.skip(n) =~= held);
    assert(held.take(n) + held.skip(n) + source.skip(pushed) =~= before.queue() + source);
}


/// A ring has the slots that were asked for: at least as many, at least one, fewer than twice as
/// many, and exactly as many where that is a power of two. Every capacity is had that rounds up
/// to one.
pub proof fn law_rings_have_the_slots_asked_for<T>(capacity: usize, bound: Option<nat>)
    requires
        <Ring as Backend<T>>::sized(capacity, bound),
    ensures
        bound matches Some(n) && capacity <= n && 1 <= n && (capacity > 0 ==> n < 2 * capacity) && (
        capacity == 0 ==> n == 1) && (power_of_two(capacity as int) ==> n == capacity),
        <Ring as Backend<T>>::supports(capacity) <==> 2 * capacity <= usize::MAX + 1,
{
    crate::cursor::law_rounding_up_never_doubles(at_least_one(capacity), bound->0 as int);
    if power_of_two(capacity as int) {
        let e = choose|e: nat| #[trigger] vstd::arithmetic::power2::pow2(e) == capacity;
        vstd::arithmetic::power2::lemma_pow2_pos(e);
        assert(at_least_one(capacity) == capacity);
    }
    vstd::layout::unsigned_int_max_values();
    assert((usize::MAX + 1) % 2 == 0) by {
        crate::cursor::lemma_largest();
    }
}

} // verus!
