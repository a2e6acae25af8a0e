//! Broadcast: one publisher, every reader sees **every** value.
//!
//! Unlike [`brokerless`](super::brokerless) and [`brokered`](super::brokered),
//! which deliver each value to one consumer, broadcast delivers each value to
//! every subscriber:
//!
//! * **One shared ring**, written by a single publisher.
//! * **Per-reader cursors**: a reader consumes by *cloning* the slot and bumping its
//!   own cursor.
//! * **Gating on the slowest reader**: the publisher can reuse a slot only when
//!   every active reader has passed it, so nothing is ever lost.
//! * **Subscribe at runtime** from either endpoint: a new reader claims a cursor slot
//!   (≤ 64 readers) and hears everything published *after* it joined. A reader that
//!   leaves releases its slot — and its gate.
use crate::backend::ring::at_least_one;
use crate::backend::{min, Batch, Sink};
use crate::bits::{self, bit_set};
use crate::cursor::{
    advance, checked_next_power_of_two, distance, is_rounded_up, largest_power_of_two,
    lemma_mask_is_slot, lemma_power_of_two_divides, lemma_slot_of_advance, lemma_slots_differ,
    power_of_two, slot_of,
};
use crate::mpmc::brokerless::RecvStep;
use crate::pause::{counted, pause_after, Backoff, Pause};
use vstd::prelude::*;

verus! {

/// The ring, the cursors of its readers, and whether the publisher has left.
pub struct Shared<T> {
    buf: Vec<Option<T>>,
    mask: usize,
    cap: usize,
    /// Next sequence to write.
    w: usize,
    /// Bit i set: `cursors[i]` currently gates the publisher.
    /// A suspended reader clears its bit here but keeps its `owned` slot.
    readers: u64,
    /// Bit i set: cursor slot i is reserved by a reader (gating or suspended).
    owned: u64,
    /// Per-reader next-sequence-to-read.
    cursors: Vec<usize>,
    producer_gone: bool,
    /// Everything published so far.
    history: Ghost<Seq<T>>,
}

impl<T> Shared<T> {
    /// Everything published so far, oldest first.
    pub closed spec fn published(&self) -> Seq<T> {
        self.history@
    }

    /// How far the slowest reader may fall behind.
    pub closed spec fn capacity(&self) -> nat {
        self.cap as nat
    }

    /// Cursor slots.
    pub closed spec fn max_readers(&self) -> nat {
        self.cursors@.len()
    }

    /// Whether cursor slot `i` is reserved.
    pub closed spec fn owns(&self, i: int) -> bool {
        bit_set(self.owned, i)
    }

    /// Whether cursor `i` holds the publisher back.
    pub closed spec fn gates(&self, i: int) -> bool {
        bit_set(self.readers, i)
    }

    /// The publisher has left.
    pub closed spec fn publisher_gone(&self) -> bool {
        self.producer_gone
    }

    /// How far cursor `i` is behind.
    pub closed spec fn lag(&self, i: int) -> int {
        distance(self.cursors@[i], self.w)
    }

    /// Some active reader is a whole ring behind: the next value has to wait.
    pub open spec fn full(&self) -> bool {
        exists|i: int| self.gates(i) && #[trigger] self.lag(i) >= self.capacity()
    }

    /// No active reader is more than a ring behind, and the ring still holds all that
    /// an active reader has not seen.
    pub closed spec fn wf(&self) -> bool {
        &&& power_of_two(self.cap as int)
        &&& self.cap <= largest_power_of_two()
        &&& self.mask == self.cap - 1
        &&& self.buf@.len() == self.cap
        &&& 1 <= self.cursors@.len() <= 64
        &&& forall|i: int| #[trigger] bit_set(self.owned, i) ==> i < self.cursors@.len()
        &&& forall|i: int| #[trigger] bit_set(self.readers, i) ==> bit_set(self.owned, i)
        &&& forall|i: int| #[trigger]
            bit_set(self.readers, i) ==> self.lag(i) <= self.cap && self.lag(i)
                <= self.history@.len()
        &&& forall|c: usize|
            1 <= #[trigger] distance(c, self.w) <= min(
                self.cap as int,
                self.history@.len() as int,
            ) ==> self.buf@[slot_of(c as int, self.cap as int)] == Some(
                self.history@[self.history@.len() - distance(c, self.w)],
            )
    }
}

/// Single publishing endpoint.
pub struct Publisher {
    /// Local mirror of the write position.
    w: usize,
    /// Cached slowest-reader position; refreshed only when the ring looks full.
    min_cache: usize,
}

/// A subscribed reader: sees every value published after it joined, in order.
pub struct Reader {
    bit: usize,
    r: usize,
    suspended: bool,
}

impl Publisher {
    /// How far the slowest reader is behind as far as the publisher knows.
    pub closed spec fn believed<T>(&self, shared: Shared<T>) -> int {
        distance(self.min_cache, shared.w)
    }

    /// The publisher knows the write position, and no active reader is further behind
    /// than it believes.
    pub closed spec fn attached<T>(&self, shared: Shared<T>) -> bool {
        &&& self.w == shared.w
        &&& distance(self.min_cache, shared.w) <= shared.cap
        &&& forall|i: int| #[trigger]
            bit_set(shared.readers, i) ==> shared.lag(i) <= distance(self.min_cache, shared.w)
    }
}

impl Reader {
    /// The cursor slot of this reader.
    pub closed spec fn slot(&self) -> int {
        self.bit as int
    }

    /// Whether the reader has stopped listening for now.
    pub closed spec fn is_suspended(&self) -> bool {
        self.suspended
    }

    /// The reader owns its cursor slot, which gates the publisher unless the reader is
    /// suspended.
    pub closed spec fn attached<T>(&self, shared: Shared<T>) -> bool {
        &&& self.bit < shared.cursors@.len()
        &&& bit_set(shared.owned, self.bit as int)
        &&& bit_set(shared.readers, self.bit as int) == !self.suspended
        &&& !self.suspended ==> shared.cursors@[self.bit as int] == self.r
    }

    /// What this reader has not seen yet; nothing while it is suspended.
    pub closed spec fn unread<T>(&self, shared: Shared<T>) -> Seq<T> {
        if self.suspended {
            Seq::empty()
        } else {
            shared.history@.skip(shared.history@.len() - distance(self.r, shared.w))
        }
    }

    /// How far this reader's position is behind the write position, which wraps.
    pub closed spec fn behind<T>(&self, shared: Shared<T>) -> int {
        distance(self.r, shared.w)
    }

    /// Whether this reader stands at the write position.
    pub open spec fn caught_up<T>(&self, shared: Shared<T>) -> bool {
        self.behind(shared) == 0
    }
}

/// A distance after `n` more values, as far as a position can tell.
pub open spec fn fallen_back(behind: int, n: int) -> int {
    (behind + n) % (usize::MAX + 1)
}

impl<T> Shared<T> {
    /// Every reader is as attached as it was, and what it has not seen is the same.
    pub open spec fn keeps_readers(&self, before: &Self) -> bool {
        forall|x: Reader| #[trigger]
            x.attached(*before) ==> x.attached(*self) && x.unread(*self) == x.unread(*before)
                && x.behind(*self) == x.behind(*before)
    }

    /// Every reader but that of slot `slot` is as attached as it was, and what it has
    /// not seen is the same.
    pub open spec fn keeps_other_readers(&self, before: &Self, slot: int) -> bool {
        forall|x: Reader|
            x.slot() != slot && #[trigger] x.attached(*before) ==> x.attached(*self) && x.unread(
                *self,
            ) == x.unread(*before) && x.behind(*self) == x.behind(*before)
    }

    /// Every publisher is as attached as it was.
    pub open spec fn keeps_publisher(&self, before: &Self) -> bool {
        forall|x: Publisher| #[trigger] x.attached(*before) ==> x.attached(*self)
    }

    /// Every active reader has `values` more to see, and nobody else notices.
    pub open spec fn extends_readers(&self, before: &Self, values: Seq<T>) -> bool {
        forall|x: Reader| #[trigger]
            x.attached(*before) ==> x.attached(*self) && x.unread(*self) == (if x.is_suspended() {
                Seq::empty()
            } else {
                x.unread(*before) + values
            }) && x.behind(*self) == fallen_back(x.behind(*before), values.len() as int)
    }
}

/// Open a broadcast ring with one reader and cursor slots for `max_readers`.
pub fn open<T>(capacity: usize, max_readers: usize) -> (parts: (Shared<T>, Publisher, Reader))
    requires
        1 <= max_readers <= 64,
        capacity <= largest_power_of_two(),
    ensures
        ({
            let (shared, publisher, reader) = parts;
            &&& shared.wf()
            &&& is_rounded_up(capacity as int, shared.capacity() as int)
            &&& shared.max_readers() == max_readers
            &&& shared.published() == Seq::<T>::empty()
            &&& !shared.publisher_gone()
            &&& forall|i: int| shared.owns(i) <==> i == 0
            &&& forall|i: int| shared.gates(i) <==> i == 0
            &&& shared.lag(0) == 0
            &&& publisher.attached(shared)
            &&& reader.attached(shared)
            &&& reader.slot() == 0
            &&& !reader.is_suspended()
            &&& reader.unread(shared) == Seq::<T>::empty()
            &&& reader.behind(shared) == 0
        }),
{
    let cap: usize = checked_next_power_of_two(capacity).unwrap();
    proof {
        lemma_power_of_two_divides(cap);
        crate::cursor::lemma_largest();
    }
    let mut buf: Vec<Option<T>> = Vec::with_capacity(cap);
    while buf.len() < cap
        invariant
            buf@.len() <= cap,
        decreases cap - buf@.len(),
    {
        buf.push(None);
    }
    let mut cursors: Vec<usize> = Vec::with_capacity(max_readers);
    while cursors.len() < max_readers
        invariant
            cursors@.len() <= max_readers,
            forall|i: int| 0 <= i < cursors@.len() ==> #[trigger] cursors@[i] == 0,
        decreases max_readers - cursors@.len(),
    {
        cursors.push(0);
    }
    let first: u64 = bits::bit(0);
    let ghost nothing: Seq<T> = Seq::empty();
    let shared = Shared {
        buf,
        mask: cap - 1,
        cap,
        w: 0,
        readers: first,
        owned: first,
        cursors,
        producer_gone: false,
        history: Ghost(nothing),
    };
    let reader = Reader { bit: 0, r: 0, suspended: false };
    assert(reader.unread(shared) =~= Seq::<T>::empty());
    (shared, Publisher { w: 0, min_cache: 0 }, reader)
}

/// Every reader of two states that agree on cursors, gates, position and history.
proof fn lemma_same_readers<T>(before: Shared<T>, after: Shared<T>, slot: int)
    requires
        after.w == before.w,
        after.history@ == before.history@,
        after.cursors@.len() == before.cursors@.len(),
        forall|i: int| i != slot ==> #[trigger] bit_set(after.owned, i) == bit_set(before.owned, i),
        forall|i: int|
            i != slot ==> #[trigger] bit_set(after.readers, i) == bit_set(before.readers, i),
        forall|i: int|
            0 <= i < before.cursors@.len() && i != slot ==> #[trigger] after.cursors@[i]
                == before.cursors@[i],
    ensures
        after.keeps_other_readers(&before, slot),
{
    assert forall|x: Reader|
        x.slot() != slot && #[trigger] x.attached(before) implies x.attached(after) && x.unread(
        after,
    ) == x.unread(before) && x.behind(after) == x.behind(before) by {
        assert(bit_set(after.owned, x.bit as int) == bit_set(before.owned, x.bit as int));
        assert(bit_set(after.readers, x.bit as int) == bit_set(before.readers, x.bit as int));
        assert(after.cursors@[x.bit as int] == before.cursors@[x.bit as int]);
    }
}

impl<T> Shared<T> {
    /// Place cursor `slot` at the write position and let it gate the publisher.
    fn activate_reader(&mut self, slot: usize) -> (now: usize)
        requires
            old(self).wf(),
            slot < old(self).max_readers(),
            old(self).owns(slot as int),
        ensures
            final(self).wf(),
            now == final(self).w,
            final(self).w == old(self).w,
            final(self).cursors@ == old(self).cursors@.update(slot as int, now),
            final(self).published() == old(self).published(),
            final(self).capacity() == old(self).capacity(),
            final(self).max_readers() == old(self).max_readers(),
            final(self).publisher_gone() == old(self).publisher_gone(),
            forall|i: int| final(self).owns(i) == old(self).owns(i),
            forall|i: int| final(self).gates(i) <==> old(self).gates(i) || i == slot,
            final(self).keeps_other_readers(old(self), slot as int),
            final(self).keeps_publisher(old(self)),
    {
        let ghost before = *self;
        let now: usize = self.w;
        self.cursors[slot] = now;
        self.readers = bits::union(self.readers, bits::bit(slot));
        proof {
            assert forall|i: int| #[trigger] bit_set(self.readers, i) implies self.lag(i)
                <= self.cap && self.lag(i) <= self.history@.len() by {
                if i != slot {
                    assert(bit_set(before.readers, i));
                    assert(bit_set(before.owned, i));
                }
            }
            lemma_same_readers(before, *self, slot as int);
            assert forall|x: Publisher| #[trigger] x.attached(before) implies x.attached(*self) by {
                assert forall|i: int| #[trigger] bit_set(self.readers, i) implies self.lag(i)
                    <= distance(x.min_cache, self.w) by {
                    if i != slot {
                        assert(bit_set(before.readers, i));
                        assert(bit_set(before.owned, i));
                    }
                }
            }
        }
        now
    }

    /// The position of the slowest active reader, and the write position where there
    /// is none.
    fn slowest(&self) -> (position: usize)
        requires
            self.wf(),
        ensures
            distance(position, self.w) <= self.cap,
            forall|i: int| #[trigger]
                bit_set(self.readers, i) ==> self.lag(i) <= distance(position, self.w),
            distance(position, self.w) == 0 || exists|i: int| #[trigger]
                bit_set(self.readers, i) && self.lag(i) == distance(position, self.w),
    {
        let mut position: usize = self.w;
        let mut max_lag: usize = 0;
        let mut i: usize = 0;
        while i < self.cursors.len()
            invariant
                self.wf(),
                i <= self.cursors@.len(),
                max_lag == distance(position, self.w),
                max_lag <= self.cap,
                forall|j: int|
                    j < i && #[trigger] bit_set(self.readers, j) ==> self.lag(j) <= max_lag,
                max_lag == 0 || exists|j: int| #[trigger]
                    bit_set(self.readers, j) && self.lag(j) == max_lag,
            decreases self.cursors@.len() - i,
        {
            if bits::has(self.readers, i) {
                let cursor: usize = self.cursors[i];
                let lag: usize = self.w.wrapping_sub(cursor);
                assert(lag == self.lag(i as int));
                if lag > max_lag {
                    max_lag = lag;
                    position = cursor;
                }
            }
            i = i + 1;
        }
        assert forall|j: int| #[trigger] bit_set(self.readers, j) implies self.lag(j)
            <= distance(position, self.w) by {
            assert(bit_set(self.owned, j));
        }
        position
    }

    /// Put a value at the write position and publish it.
    fn put(&mut self, value: T)
        requires
            old(self).wf(),
            !old(self).full(),
        ensures
            final(self).wf(),
            final(self).published() == old(self).published().push(value),
            final(self).w == advance(old(self).w, 1),
            final(self).cap == old(self).cap,
            final(self).readers == old(self).readers,
            final(self).owned == old(self).owned,
            final(self).cursors@ == old(self).cursors@,
            final(self).producer_gone == old(self).producer_gone,
            final(self).extends_readers(old(self), seq![value]),
    {
        let ghost before = *self;
        let position: usize = self.w;
        proof {
            lemma_mask_is_slot(position, self.mask, self.cap);
            lemma_power_of_two_divides(self.cap);
        }
        let index: usize = position & self.mask;
        self.buf[index] = Some(value);
        self.w = position.wrapping_add(1);
        let ghost grown = before.history@.push(value);
        self.history = Ghost(grown);
        proof {
            let cap = self.cap as int;
            assert forall|c: usize|
                1 <= #[trigger] distance(c, self.w) <= min(cap, grown.len() as int) implies self.buf@[slot_of(
                c as int,
                cap,
            )] == Some(grown[grown.len() - distance(c, self.w)]) by {
                let d = distance(c, self.w);
                let e = distance(c, before.w);
                assert(d == e + 1);
                if e > 0 {
                    assert(advance(c, e) == before.w);
                    lemma_slot_of_advance(c, e, self.cap);
                    lemma_slots_differ(c as int, 0, e, cap);
                    assert(before.buf@[slot_of(c as int, cap)] == Some(
                        before.history@[before.history@.len() - e],
                    ));
                } else {
                    assert(c == before.w);
                }
            }
            assert forall|i: int| #[trigger] bit_set(self.readers, i) implies self.lag(i)
                == before.lag(i) + 1 && self.lag(i) <= self.cap && self.lag(i) <= grown.len() by {
                assert(bit_set(before.readers, i));
                assert(before.gates(i));
                assert(before.lag(i) < before.cap);
            }
            assert forall|x: Reader| #[trigger] x.attached(before) implies x.attached(*self)
                && x.unread(*self) == (if x.is_suspended() {
                Seq::empty()
            } else {
                x.unread(before) + seq![value]
            }) && x.behind(*self) == fallen_back(x.behind(before), 1) by {
                lemma_one_further(x.r, before.w, self.w);
                if !x.suspended {
                    assert(bit_set(before.readers, x.bit as int));
                    assert(x.unread(*self) =~= x.unread(before) + seq![value]);
                }
            }
        }
    }
}

/// A position that moves on by one is one further away, wrapping.
proof fn lemma_one_further(from: usize, to: usize, next: usize)
    requires
        next == advance(to, 1),
    ensures
        distance(from, next) == fallen_back(distance(from, to), 1),
{
    let all = usize::MAX as int + 1;
    let d = distance(from, to);
    if d + 1 < all {
        vstd::arithmetic::div_mod::lemma_small_mod((d + 1) as nat, all as nat);
    } else {
        vstd::arithmetic::div_mod::lemma_mod_self_0(all);
    }
}

impl Publisher {
    /// Non-blocking publish. `Err(v)` if the ring is full — i.e. the slowest
    /// reader is `capacity` behind (backpressure, not loss).
    pub fn try_send<T>(&mut self, shared: &mut Shared<T>, v: T) -> (result: Result<(), T>)
        requires
            old(shared).wf(),
            old(self).attached(*old(shared)),
        ensures
            final(shared).wf(),
            final(self).attached(*final(shared)),
            final(shared).same_membership(old(shared)),
            result is Ok <==> !old(shared).full(),
            result is Ok ==> final(shared).published() == old(shared).published().push(v)
                && final(shared).extends_readers(old(shared), seq![v]),
            result matches Err(back) ==> back == v && *final(shared) == *old(shared),
    {
        let ghost before = *shared;
        proof {
            if before.full() {
                let i = choose|i: int| before.gates(i) && #[trigger] before.lag(i) >= before.capacity();
                assert(bit_set(before.readers, i));
            }
        }
        if self.w.wrapping_sub(self.min_cache) >= shared.cap {
            self.min_cache = shared.slowest();
            if self.w.wrapping_sub(self.min_cache) >= shared.cap {
                proof {
                    lemma_power_of_two_divides(shared.cap);
                    let i = choose|i: int| #[trigger]
                        bit_set(shared.readers, i) && shared.lag(i) == distance(
                            self.min_cache,
                            shared.w,
                        );
                    assert(before.gates(i) && before.lag(i) >= before.capacity());
                }
                return Err(v);
            }
        }
        proof {
            assert forall|i: int| before.gates(i) implies #[trigger] before.lag(i)
                < before.capacity() by {
                assert(bit_set(before.readers, i));
            }
        }
        shared.put(v);
        self.w = self.w.wrapping_add(1);
        proof {
            assert forall|i: int| #[trigger] bit_set(shared.readers, i) implies shared.lag(i)
                <= distance(self.min_cache, shared.w) by {
                assert(bit_set(before.readers, i));
                assert(before.lag(i) < before.cap);
            }
        }
        Ok(())
    }
}

impl<T> Shared<T> {
    /// The same readers with the same gates, and the same limits.
    pub open spec fn same_membership(&self, before: &Self) -> bool {
        &&& self.capacity() == before.capacity()
        &&& self.max_readers() == before.max_readers()
        &&& self.publisher_gone() == before.publisher_gone()
        &&& forall|i: int| #[trigger] self.owns(i) == before.owns(i)
        &&& forall|i: int| #[trigger] self.gates(i) == before.gates(i)
    }
}


/// How an attempt to publish went.
pub enum PublishStep<T> {
    /// The value is published.
    Sent,
    /// The slowest reader holds the ring: pause and try again with the value.
    Wait(T, Pause),
}

/// How an attempt to publish a batch went.
#[derive(Clone, Copy, PartialEq, Eq, Structural, Debug)]
pub enum PublishBatchStep {
    /// Every value is published.
    Sent,
    /// The slowest reader holds the ring: pause and try again.
    Wait(Pause),
}

/// A new reader of `shared`: it owns the lowest free cursor slot and hears everything
/// published from now on.
pub open spec fn subscribed<T>(before: Shared<T>, after: Shared<T>, reader: Reader) -> bool {
    &&& !before.owns(reader.slot())
    &&& 0 <= reader.slot() < before.max_readers()
    &&& forall|i: int| 0 <= i < reader.slot() ==> before.owns(i)
    &&& reader.attached(after)
    &&& !reader.is_suspended()
    &&& reader.unread(after) == Seq::<T>::empty()
    &&& reader.behind(after) == 0
    &&& forall|i: int| #[trigger] after.owns(i) <==> before.owns(i) || i == reader.slot()
    &&& forall|i: int| #[trigger] after.gates(i) <==> before.gates(i) || i == reader.slot()
    &&& after.published() == before.published()
    &&& after.capacity() == before.capacity()
    &&& after.max_readers() == before.max_readers()
    &&& after.publisher_gone() == before.publisher_gone()
}

/// Claim a free cursor slot and activate it. Shared by both subscribe paths.
fn subscribe<T>(shared: &mut Shared<T>) -> (reader: Option<Reader>)
    requires
        old(shared).wf(),
    ensures
        final(shared).wf(),
        reader is None <==> forall|i: int|
            0 <= i < old(shared).max_readers() ==> #[trigger] old(shared).owns(i),
        reader is None ==> *final(shared) == *old(shared),
        reader matches Some(x) ==> subscribed(*old(shared), *final(shared), x),
        final(shared).keeps_readers(old(shared)),
        final(shared).keeps_publisher(old(shared)),
{
    let ghost before = *shared;
    let n: usize = shared.cursors.len();
    let mut free: usize = 0;
    while free < n && bits::has(shared.owned, free)
        invariant
            n == shared.cursors@.len(),
            free <= n,
            forall|i: int| 0 <= i < free ==> #[trigger] bit_set(shared.owned, i),
        decreases n - free,
    {
        free = free + 1;
    }
    if free == n {
        assert forall|i: int| 0 <= i < before.max_readers() implies #[trigger] before.owns(i) by {
            assert(bit_set(before.owned, i));
        }
        return None;
    }
    assert(!before.owns(free as int));
    assert(!bit_set(before.readers, free as int));
    shared.owned = bits::union(shared.owned, bits::bit(free));
    let ghost reserved = *shared;
    proof {
        assert(reserved.wf()) by {
            assert forall|i: int| #[trigger] bit_set(reserved.readers, i) implies reserved.lag(i)
                <= reserved.cap && reserved.lag(i) <= reserved.history@.len() by {
                assert(before.lag(i) <= before.cap);
            }
        }
        lemma_same_readers(before, reserved, free as int);
        assert forall|x: Publisher| #[trigger] x.attached(before) implies x.attached(reserved) by {
            assert forall|i: int| #[trigger] bit_set(reserved.readers, i) implies reserved.lag(i)
                <= distance(x.min_cache, reserved.w) by {
                assert(bit_set(before.readers, i));
            }
        }
    }
    let now: usize = shared.activate_reader(free);
    let reader = Reader { bit: free, r: now, suspended: false };
    proof {
        assert(bit_set(shared.owned, free as int)) by {
            assert(shared.owns(free as int) == reserved.owns(free as int));
        }
        assert(bit_set(shared.readers, free as int)) by {
            assert(shared.gates(free as int));
        }
        assert(reader.unread(*shared) =~= Seq::<T>::empty());
        assert forall|i: int| 0 <= i < reader.slot() implies before.owns(i) by {
            assert(bit_set(before.owned, i));
        }
        assert forall|i: int| #[trigger] shared.owns(i) <==> before.owns(i) || i == free by {
            assert(shared.owns(i) == reserved.owns(i));
            assert(bit_set(reserved.owned, i) <==> bit_set(before.owned, i) || i == free);
        }
        assert forall|x: Reader| #[trigger] x.attached(before) implies x.attached(*shared)
            && x.unread(*shared) == x.unread(before) && x.behind(*shared) == x.behind(before) by {
            assert(x.slot() != free);
            assert(x.attached(reserved));
        }
        assert forall|x: Publisher| #[trigger] x.attached(before) implies x.attached(*shared) by {
            assert(x.attached(reserved));
        }
    }
    Some(reader)
}

impl Publisher {
    /// Subscribe a new reader; it sees everything published after this call.
    /// `None` if all cursor slots are taken.
    pub fn subscribe<T>(&self, shared: &mut Shared<T>) -> (reader: Option<Reader>)
        requires
            old(shared).wf(),
            self.attached(*old(shared)),
        ensures
            final(shared).wf(),
            self.attached(*final(shared)),
            reader is None <==> forall|i: int|
                0 <= i < old(shared).max_readers() ==> #[trigger] old(shared).owns(i),
            reader is None ==> *final(shared) == *old(shared),
            reader matches Some(x) ==> subscribed(*old(shared), *final(shared), x),
            final(shared).keeps_readers(old(shared)),
    {
        subscribe(shared)
    }

    /// One attempt of a blocking publish, which waits while the slowest reader gates
    /// the ring. A reader that leaves releases its gate; with zero readers it never
    /// waits.
    pub fn send<T>(&mut self, shared: &mut Shared<T>, backoff: &mut Backoff, v: T) -> (step:
        PublishStep<T>)
        requires
            old(shared).wf(),
            old(self).attached(*old(shared)),
        ensures
            final(shared).wf(),
            final(self).attached(*final(shared)),
            final(shared).same_membership(old(shared)),
            step is Sent <==> !old(shared).full(),
            step is Sent ==> final(shared).published() == old(shared).published().push(v)
                && final(shared).extends_readers(old(shared), seq![v]) && *final(backoff) == *old(backoff),
            step matches PublishStep::Wait(back, pause) ==> back == v && *final(shared) == *old(shared) && final(backoff).spins == counted(old(backoff).spins) && pause == pause_after(
                final(backoff).spins as int,
            ),
    {
        match self.try_send(shared, v) {
            Ok(()) => PublishStep::Sent,
            Err(back) => PublishStep::Wait(back, backoff.pause()),
        }
    }

    /// One attempt to publish a batch: writes values as long as no reader holds the
    /// ring, then says how to go on. Every value starts a fresh wait.
    pub fn send_batch<T>(
        &mut self,
        shared: &mut Shared<T>,
        backoff: &mut Backoff,
        values: &mut Batch<T>,
    ) -> (step: PublishBatchStep)
        requires
            old(shared).wf(),
            old(self).attached(*old(shared)),
        ensures
            final(shared).wf(),
            final(self).attached(*final(shared)),
            final(shared).same_membership(old(shared)),
            ({
                let sent = old(values)@.len() - final(values)@.len();
                let spins = if sent > 0 {
                    0
                } else {
                    old(backoff).spins
                };
                &&& 0 <= sent
                &&& final(values)@ == old(values)@.skip(sent)
                &&& final(shared).published() == old(shared).published() + old(values)@.take(sent)
                &&& final(shared).extends_readers(old(shared), old(values)@.take(sent))
                &&& final(values)@.len() > 0 ==> final(shared).full()
                &&& step == (if final(values)@.len() == 0 {
                    PublishBatchStep::Sent
                } else {
                    PublishBatchStep::Wait(pause_after(counted(spins) as int))
                })
                &&& final(backoff).spins == if step is Wait {
                    counted(spins)
                } else {
                    spins
                }
            }),
    {
        let ghost before = *shared;
        let ghost all = values@;
        let ghost mut sent: int = 0;
        proof {
            assert(all.skip(0) =~= all);
            assert(all.take(0) =~= Seq::<T>::empty());
            assert(before.published() + all.take(0) =~= before.published());
            assert forall|x: Reader| #[trigger] x.attached(before) implies x.unread(before) == (
            if x.is_suspended() {
                Seq::empty()
            } else {
                x.unread(before) + all.take(0)
            }) && x.behind(before) == fallen_back(x.behind(before), 0) by {
                vstd::arithmetic::div_mod::lemma_small_mod(
                    x.behind(before) as nat,
                    (usize::MAX + 1) as nat,
                );
                assert(x.unread(before) + all.take(0) =~= x.unread(before));
            }
        }
        while !values.is_empty()
            invariant
                before == *old(shared),
                all == old(values)@,
                shared.wf(),
                self.attached(*shared),
                shared.same_membership(&before),
                0 <= sent <= all.len(),
                values@ == all.skip(sent),
                shared.published() == before.published() + all.take(sent),
                shared.extends_readers(&before, all.take(sent)),
                backoff.spins == if sent > 0 {
                    0
                } else {
                    old(backoff).spins
                },
                sent == 0 ==> values.vacated() == old(values).vacated(),
            decreases values@.len(),
        {
            let ghost entry = *shared;
            let value = values.pop_front().unwrap();
            let ghost held = value;
            match self.try_send(shared, value) {
                Ok(()) => {
                    backoff.reset();
                    proof {
                        assert(all.take(sent).push(held) =~= all.take(sent + 1));
                        assert(all.take(sent) + seq![held] =~= all.take(sent + 1));
                        assert((before.published() + all.take(sent)).push(held)
                            =~= before.published() + all.take(sent + 1));
                        assert(values@ =~= all.skip(sent + 1));
                        assert forall|x: Reader| #[trigger] x.attached(before) implies x.attached(
                            *shared,
                        ) && x.unread(*shared) == (if x.is_suspended() {
                            Seq::empty()
                        } else {
                            x.unread(before) + all.take(sent + 1)
                        }) && x.behind(*shared) == fallen_back(x.behind(before), sent + 1) by {
                            assert(x.attached(entry));
                            assert(all.take(sent).len() == sent);
                            vstd::arithmetic::div_mod::lemma_add_mod_noop(
                                x.behind(before) + sent,
                                1,
                                usize::MAX + 1,
                            );
                            vstd::arithmetic::div_mod::lemma_small_mod(
                                1,
                                (usize::MAX + 1) as nat,
                            );
                            assert(x.unread(before) + all.take(sent) + seq![held] =~= x.unread(
                                before,
                            ) + all.take(sent + 1));
                        }
                        assert forall|i: int| #[trigger] shared.owns(i) == before.owns(i) by {
                            assert(entry.owns(i) == before.owns(i));
                        }
                        assert forall|i: int| #[trigger] shared.gates(i) == before.gates(i) by {
                            assert(entry.gates(i) == before.gates(i));
                        }
                        sent = sent + 1;
                    }
                },
                Err(back) => {
                    values.restore_front(back);
                    proof {
                        assert(values@ =~= all.skip(sent));
                    }
                    return PublishBatchStep::Wait(backoff.pause());
                },
            }
        }
        PublishBatchStep::Sent
    }

    /// The publisher leaves; readers can still read what they have not seen.
    pub fn close<T>(self, shared: &mut Shared<T>)
        requires
            old(shared).wf(),
        ensures
            final(shared).wf(),
            final(shared).publisher_gone(),
            final(shared).published() == old(shared).published(),
            final(shared).capacity() == old(shared).capacity(),
            final(shared).max_readers() == old(shared).max_readers(),
            forall|i: int| #[trigger] final(shared).owns(i) == old(shared).owns(i),
            forall|i: int| #[trigger] final(shared).gates(i) == old(shared).gates(i),
            final(shared).keeps_readers(old(shared)),
    {
        shared.producer_gone = true;
        proof {
            let before = *old(shared);
            assert forall|i: int| #[trigger] bit_set(shared.readers, i) implies shared.lag(i)
                <= shared.cap && shared.lag(i) <= shared.history@.len() by {
                assert(before.lag(i) <= before.cap);
            }
            lemma_same_readers(before, *shared, -1);
        }
    }
}


/// Whether `copies` are copies of `values`, one for one.
pub open spec fn copies_of<T: Clone>(copies: Seq<T>, values: Seq<T>) -> bool {
    copies.len() == values.len() && forall|i: int|
        0 <= i < copies.len() ==> cloned(values[i], #[trigger] copies[i])
}

/// Moving one cursor forward, by no more than it is behind, keeps the ring consistent.
proof fn lemma_cursor_moved<T>(before: Shared<T>, after: Shared<T>, slot: int)
    requires
        before.wf(),
        after.buf@ == before.buf@,
        after.mask == before.mask,
        after.cap == before.cap,
        after.w == before.w,
        after.readers == before.readers,
        after.owned == before.owned,
        after.history@ == before.history@,
        0 <= slot < before.cursors@.len(),
        after.cursors@ == before.cursors@.update(slot, after.cursors@[slot]),
        after.lag(slot) <= before.lag(slot),
    ensures
        after.wf(),
        after.keeps_other_readers(&before, slot),
        after.keeps_publisher(&before),
{
    assert forall|i: int| #[trigger] bit_set(after.readers, i) implies after.lag(i) <= after.cap
        && after.lag(i) <= after.history@.len() by {
        assert(before.lag(i) <= before.cap && before.lag(i) <= before.history@.len());
        assert(bit_set(before.owned, i));
    }
    lemma_same_readers(before, after, slot);
    assert forall|x: Publisher| #[trigger] x.attached(before) implies x.attached(after) by {
        assert forall|i: int| #[trigger] bit_set(after.readers, i) implies after.lag(i) <= distance(
            x.min_cache,
            after.w,
        ) by {
            assert(bit_set(before.readers, i));
            assert(bit_set(before.owned, i));
        }
    }
}

impl Reader {
    /// Subscribe another reader (readers can mint readers). It sees everything
    /// published after this call.
    pub fn subscribe<T>(&self, shared: &mut Shared<T>) -> (reader: Option<Reader>)
        requires
            old(shared).wf(),
            self.attached(*old(shared)),
        ensures
            final(shared).wf(),
            self.attached(*final(shared)),
            reader is None <==> forall|i: int|
                0 <= i < old(shared).max_readers() ==> #[trigger] old(shared).owns(i),
            reader is None ==> *final(shared) == *old(shared),
            reader matches Some(x) ==> subscribed(*old(shared), *final(shared), x),
            final(shared).keeps_readers(old(shared)),
            final(shared).keeps_publisher(old(shared)),
    {
        subscribe(shared)
    }

    /// Non-blocking receive: clone the next value this reader hasn't seen.
    /// A suspended reader receives nothing until it resumes.
    pub fn try_recv<T: Clone>(&mut self, shared: &mut Shared<T>) -> (value: Option<T>)
        requires
            old(shared).wf(),
            old(self).attached(*old(shared)),
        ensures
            final(shared).wf(),
            final(self).attached(*final(shared)),
            final(self).slot() == old(self).slot(),
            final(self).is_suspended() == old(self).is_suspended(),
            final(shared).same_membership(old(shared)),
            final(shared).published() == old(shared).published(),
            value is Some <==> old(self).unread(*old(shared)).len() > 0,
            value is None ==> *final(shared) == *old(shared) && *final(self) == *old(self),
            value matches Some(v) ==> cloned(old(self).unread(*old(shared))[0], v) && final(self).unread(*final(shared)) == old(self).unread(*old(shared)).skip(1)
                && final(self).behind(*final(shared)) == old(self).behind(*old(shared)) - 1,
            final(shared).keeps_other_readers(old(shared), old(self).slot()),
            final(shared).keeps_publisher(old(shared)),
    {
        if self.suspended {
            return None;
        }
        let ghost before = *shared;
        let ghost was = *self;
        proof {
            assert(bit_set(before.readers, was.bit as int));
            assert(before.lag(was.bit as int) == distance(was.r, before.w));
        }
        let w: usize = shared.w;
        if self.r == w {
            return None;
        }
        if w.wrapping_sub(self.r) > shared.cap {
            // An active reader is never lapped.
            assert(false);
            return None;
        }
        let value = self.copy_next(shared);
        self.r = self.r.wrapping_add(1);
        shared.cursors[self.bit] = self.r;
        proof {
            lemma_cursor_moved(before, *shared, was.bit as int);
            assert(self.unread(*shared) =~= was.unread(before).skip(1));
        }
        Some(value)
    }

    /// A copy of the next value.
    fn copy_next<T: Clone>(&self, shared: &Shared<T>) -> (value: T)
        requires
            shared.wf(),
            1 <= distance(self.r, shared.w) <= min(
                shared.cap as int,
                shared.history@.len() as int,
            ),
        ensures
            cloned(shared.history@[shared.history@.len() - distance(self.r, shared.w)], value),
    {
        proof {
            lemma_mask_is_slot(self.r, shared.mask, shared.cap);
        }
        let index: usize = self.r & shared.mask;
        match &shared.buf[index] {
            Some(value) => value.clone(),
            None => {
                assert(false);
                vstd::pervasive::unreached()
            },
        }
    }

    /// Batched receive: hand up to `max` ready values to `out`, bumping this
    /// reader's cursor ONCE at the end. Returns the number delivered. Non-blocking.
    pub fn drain<T: Clone, S: Sink<T>>(&mut self, shared: &mut Shared<T>, max: usize, out: &mut S) -> (n:
        usize)
        requires
            old(shared).wf(),
            old(self).attached(*old(shared)),
        ensures
            final(shared).wf(),
            final(self).attached(*final(shared)),
            final(self).slot() == old(self).slot(),
            final(self).is_suspended() == old(self).is_suspended(),
            final(shared).same_membership(old(shared)),
            final(shared).published() == old(shared).published(),
            n == min(old(self).unread(*old(shared)).len() as int, max as int),
            n <= old(self).unread(*old(shared)).len(),
            exists|copies: Seq<T>|
                final(out).seen() == old(out).seen() + copies && #[trigger] copies_of(
                    copies,
                    old(self).unread(*old(shared)).take(n as int),
                ),
            final(self).unread(*final(shared)) == old(self).unread(*old(shared)).skip(n as int),
            final(self).behind(*final(shared)) == old(self).behind(*old(shared)) - n,
            n == 0 ==> *final(self) == *old(self),
            old(self).unread(*old(shared)).len() == 0 ==> *final(shared) == *old(shared),
            final(shared).keeps_other_readers(old(shared), old(self).slot()),
            final(shared).keeps_publisher(old(shared)),
    {
        let ghost before = *shared;
        let ghost was = *self;
        let ghost unread = was.unread(before);
        let ghost seen = out.seen();
        let ghost mut copies: Seq<T> = Seq::empty();
        proof {
            lemma_same_readers(before, before, -1);
            assert(unread.skip(0) =~= unread);
            assert(copies_of(copies, unread.take(0)));
            assert(seen + copies =~= seen);
        }
        if self.suspended {
            return 0;
        }
        proof {
            assert(bit_set(before.readers, was.bit as int));
            assert(before.lag(was.bit as int) == distance(was.r, before.w));
        }
        let w: usize = shared.w;
        if self.r == w {
            return 0;
        }
        let ready: usize = w.wrapping_sub(self.r);
        if ready > shared.cap {
            // An active reader is never lapped.
            assert(false);
            return 0;
        }
        let n: usize = if ready <= max {
            ready
        } else {
            max
        };
        let mut done: usize = 0;
        while done < n
            invariant
                before == *old(shared),
                was == *old(self),
                *shared == before,
                before.wf(),
                unread == was.unread(before),
                !was.suspended,
                self.bit == was.bit,
                self.suspended == was.suspended,
                done <= n <= ready,
                ready == distance(was.r, before.w),
                ready <= before.cap,
                ready <= before.history@.len(),
                unread.len() == ready,
                self.r == advance(was.r, done as int),
                out.seen() == seen + copies,
                copies_of(copies, unread.take(done as int)),
            decreases n - done,
        {
            proof {
                assert(distance(self.r, before.w) == ready - done);
            }
            let value = self.copy_next(shared);
            let ghost held = value;
            // Advance before handing the value over.
            self.r = self.r.wrapping_add(1);
            out.accept(value);
            done = done + 1;
            proof {
                let longer = copies.push(held);
                assert(unread.take(done as int) =~= unread.take(done - 1).push(unread[done - 1]));
                assert(unread[done - 1] == before.history@[before.history@.len() - (ready - (done
                    - 1))]);
                assert forall|i: int| 0 <= i < longer.len() implies cloned(
                    unread.take(done as int)[i],
                    #[trigger] longer[i],
                ) by {
                    if i < copies.len() {
                        assert(longer[i] == copies[i]);
                        assert(unread.take(done as int)[i] == unread.take(done - 1)[i]);
                    }
                }
                assert(seen + longer =~= (seen + copies).push(held));
                copies = longer;
            }
        }
        shared.cursors[self.bit] = self.r;
        proof {
            lemma_cursor_moved(before, *shared, was.bit as int);
            assert(self.unread(*shared) =~= unread.skip(n as int));
            assert(copies_of(copies, unread.take(n as int)));
        }
        n
    }

    /// True once no further values can ever arrive (publisher gone, all seen).
    pub fn is_disconnected<T>(&self, shared: &Shared<T>) -> (gone: bool)
        ensures
            gone == (shared.publisher_gone() && self.caught_up(*shared)),
    {
        shared.producer_gone && self.r == shared.w
    }

    /// One attempt of a blocking receive. It ends once the publisher is gone and this
    /// reader has seen everything it published; a suspended reader hears nothing.
    pub fn recv<T: Clone>(&mut self, shared: &mut Shared<T>, backoff: &mut Backoff) -> (step:
        RecvStep<T>)
        requires
            old(shared).wf(),
            old(self).attached(*old(shared)),
        ensures
            final(shared).wf(),
            final(self).attached(*final(shared)),
            final(self).slot() == old(self).slot(),
            final(self).is_suspended() == old(self).is_suspended(),
            final(shared).same_membership(old(shared)),
            final(shared).published() == old(shared).published(),
            step is Value <==> old(self).unread(*old(shared)).len() > 0,
            step is Finished <==> step !is Value && (old(self).is_suspended() || old(shared).publisher_gone()),
            step matches RecvStep::Value(v) ==> cloned(old(self).unread(*old(shared))[0], v)
                && final(self).unread(*final(shared)) == old(self).unread(*old(shared)).skip(1)
                && final(self).behind(*final(shared)) == old(self).behind(*old(shared)) - 1,
            step !is Value ==> *final(shared) == *old(shared) && *final(self) == *old(self),
            step matches RecvStep::Wait(pause) ==> pause == pause_after(
                counted(old(backoff).spins) as int,
            ) && final(backoff).spins == if pause == Pause::Yield {
                0
            } else {
                counted(old(backoff).spins)
            },
            step !is Wait ==> *final(backoff) == *old(backoff),
            final(shared).keeps_other_readers(old(shared), old(self).slot()),
            final(shared).keeps_publisher(old(shared)),
    {
        if let Some(v) = self.try_recv(shared) {
            return RecvStep::Value(v);
        }
        if self.suspended {
            return RecvStep::Finished;
        }
        proof {
            assert(bit_set(shared.readers, self.bit as int));
            assert(shared.lag(self.bit as int) == distance(self.r, shared.w));
        }
        if self.is_disconnected(shared) {
            return RecvStep::Finished;
        }
        RecvStep::Wait(backoff.pause_and_restart())
    }

    /// One attempt of a blocking batched consumer: hand every value to `out` until the
    /// publisher is gone and everything is seen.
    pub fn for_each<T: Clone, S: Sink<T>>(
        &mut self,
        shared: &mut Shared<T>,
        backoff: &mut Backoff,
        batch: usize,
        out: &mut S,
    ) -> (step: RecvStep<usize>)
        requires
            old(shared).wf(),
            old(self).attached(*old(shared)),
        ensures
            final(shared).wf(),
            final(self).attached(*final(shared)),
            final(self).slot() == old(self).slot(),
            final(self).is_suspended() == old(self).is_suspended(),
            final(shared).same_membership(old(shared)),
            final(shared).published() == old(shared).published(),
            ({
                let unread = old(self).unread(*old(shared));
                let n = min(unread.len() as int, at_least_one(batch));
                &&& step is Value <==> unread.len() > 0
                &&& step is Finished <==> step !is Value && old(shared).publisher_gone() && old(self).caught_up(*old(shared))
                &&& step matches RecvStep::Value(got) ==> got == n && final(backoff).spins == 0
                &&& exists|copies: Seq<T>|
                    final(out).seen() == old(out).seen() + copies && #[trigger] copies_of(
                        copies,
                        unread.take(n),
                    )
                &&& final(self).unread(*final(shared)) == unread.skip(n)
                &&& final(self).behind(*final(shared)) == old(self).behind(*old(shared)) - n
            }),
            step !is Value ==> *final(shared) == *old(shared) && *final(self) == *old(self),
            step matches RecvStep::Wait(pause) ==> pause == pause_after(
                counted(old(backoff).spins) as int,
            ) && final(backoff).spins == if pause == Pause::Yield {
                0
            } else {
                counted(old(backoff).spins)
            },
            step is Finished ==> *final(backoff) == *old(backoff),
            final(shared).keeps_other_readers(old(shared), old(self).slot()),
            final(shared).keeps_publisher(old(shared)),
    {
        let max: usize = if batch < 1 {
            1
        } else {
            batch
        };
        let got: usize = self.drain(shared, max, out);
        proof {
            let unread = old(self).unread(*old(shared));
            let n = min(unread.len() as int, at_least_one(batch));
            let copies = choose|copies: Seq<T>|
                out.seen() == old(out).seen() + copies && #[trigger] copies_of(
                    copies,
                    unread.take(got as int),
                );
            assert(got as int == n);
            assert(copies_of(copies, unread.take(n)));
        }
        if got > 0 {
            backoff.reset();
            return RecvStep::Value(got);
        }
        if self.is_disconnected(shared) {
            return RecvStep::Finished;
        }
        RecvStep::Wait(backoff.pause_and_restart())
    }

    /// Stop gating the publisher while keeping this reader's slot. Everything published
    /// while suspended is missed.
    pub fn suspend<T>(&mut self, shared: &mut Shared<T>)
        requires
            old(shared).wf(),
            old(self).attached(*old(shared)),
        ensures
            final(shared).wf(),
            final(self).attached(*final(shared)),
            final(self).is_suspended(),
            final(self).slot() == old(self).slot(),
            final(self).unread(*final(shared)) == Seq::<T>::empty(),
            final(self).behind(*final(shared)) == old(self).behind(*old(shared)),
            final(shared).published() == old(shared).published(),
            final(shared).capacity() == old(shared).capacity(),
            final(shared).max_readers() == old(shared).max_readers(),
            final(shared).publisher_gone() == old(shared).publisher_gone(),
            forall|i: int| #[trigger] final(shared).owns(i) == old(shared).owns(i),
            forall|i: int| #[trigger]
                final(shared).gates(i) <==> old(shared).gates(i) && i != old(self).slot(),
            final(shared).keeps_other_readers(old(shared), old(self).slot()),
            final(shared).keeps_publisher(old(shared)),
    {
        if !self.suspended {
            let ghost before = *shared;
            shared.readers = bits::without(shared.readers, bits::bit(self.bit));
            self.suspended = true;
            proof {
                lemma_gate_released(before, *shared, self.bit as int);
            }
        } else {
            proof {
                lemma_same_readers(*old(shared), *shared, -1);
            }
        }
    }

    /// Rejoin the stream after `suspend`; reading continues from the first value
    /// published after this call.
    pub fn resume<T>(&mut self, shared: &mut Shared<T>)
        requires
            old(shared).wf(),
            old(self).attached(*old(shared)),
        ensures
            final(shared).wf(),
            final(self).attached(*final(shared)),
            !final(self).is_suspended(),
            final(self).slot() == old(self).slot(),
            old(self).is_suspended() ==> final(self).unread(*final(shared)) == Seq::<T>::empty()
                && final(self).behind(*final(shared)) == 0,
            !old(self).is_suspended() ==> *final(shared) == *old(shared) && *final(self) == *old(self),
            final(shared).published() == old(shared).published(),
            final(shared).capacity() == old(shared).capacity(),
            final(shared).max_readers() == old(shared).max_readers(),
            final(shared).publisher_gone() == old(shared).publisher_gone(),
            forall|i: int| #[trigger] final(shared).owns(i) == old(shared).owns(i),
            forall|i: int| #[trigger]
                final(shared).gates(i) <==> old(shared).gates(i) || i == old(self).slot(),
            final(shared).keeps_other_readers(old(shared), old(self).slot()),
            final(shared).keeps_publisher(old(shared)),
    {
        if self.suspended {
            self.r = shared.activate_reader(self.bit);
            self.suspended = false;
            proof {
                assert(shared.owns(self.bit as int) == old(shared).owns(self.bit as int));
                assert(shared.gates(self.bit as int));
                assert(self.unread(*shared) =~= Seq::<T>::empty());
            }
        } else {
            proof {
                lemma_same_readers(*old(shared), *shared, -1);
            }
        }
    }

    /// This reader leaves: it releases its gate first, then its slot.
    pub fn disconnect<T>(self, shared: &mut Shared<T>)
        requires
            old(shared).wf(),
            self.attached(*old(shared)),
        ensures
            final(shared).wf(),
            final(shared).published() == old(shared).published(),
            final(shared).capacity() == old(shared).capacity(),
            final(shared).max_readers() == old(shared).max_readers(),
            final(shared).publisher_gone() == old(shared).publisher_gone(),
            forall|i: int| #[trigger]
                final(shared).owns(i) <==> old(shared).owns(i) && i != self.slot(),
            forall|i: int| #[trigger]
                final(shared).gates(i) <==> old(shared).gates(i) && i != self.slot(),
            final(shared).keeps_other_readers(old(shared), self.slot()),
            final(shared).keeps_publisher(old(shared)),
    {
        let ghost before = *shared;
        let slot: u64 = bits::bit(self.bit);
        shared.readers = bits::without(shared.readers, slot);
        shared.owned = bits::without(shared.owned, slot);
        proof {
            lemma_gate_released(before, *shared, self.bit as int);
        }
    }
}

/// Releasing a gate, and perhaps its slot, keeps the ring and everybody else.
proof fn lemma_gate_released<T>(before: Shared<T>, after: Shared<T>, slot: int)
    requires
        before.wf(),
        after.buf@ == before.buf@,
        after.mask == before.mask,
        after.cap == before.cap,
        after.w == before.w,
        after.history@ == before.history@,
        after.cursors@ == before.cursors@,
        forall|i: int| #[trigger] bit_set(after.owned, i) ==> bit_set(before.owned, i),
        forall|i: int| i != slot ==> #[trigger] bit_set(after.owned, i) == bit_set(before.owned, i),
        forall|i: int| #[trigger]
            bit_set(after.readers, i) <==> bit_set(before.readers, i) && i != slot,
    ensures
        after.wf(),
        after.keeps_other_readers(&before, slot),
        after.keeps_publisher(&before),
{
    assert forall|i: int| #[trigger] bit_set(after.readers, i) implies after.lag(i) <= after.cap
        && after.lag(i) <= after.history@.len() by {
        assert(bit_set(before.readers, i));
        assert(before.lag(i) <= before.cap);
    }
    assert forall|i: int| #[trigger] bit_set(after.readers, i) implies bit_set(after.owned, i) by {
        assert(bit_set(before.readers, i));
        assert(bit_set(before.owned, i));
        assert(bit_set(after.owned, i) == bit_set(before.owned, i));
    }
    lemma_same_readers(before, after, slot);
    assert forall|x: Publisher| #[trigger] x.attached(before) implies x.attached(after) by {
        assert forall|i: int| #[trigger] bit_set(after.readers, i) implies after.lag(i) <= distance(
            x.min_cache,
            after.w,
        ) by {
            assert(bit_set(before.readers, i));
        }
    }
}


/// An active reader misses nothing: what it has not seen is exactly the latest part of
/// what was published, never more than the ring holds, and while it is a whole ring
/// the publisher waits.
pub proof fn law_active_readers_miss_nothing<T>(shared: Shared<T>, reader: Reader)
    requires
        shared.wf(),
        reader.attached(shared),
        !reader.is_suspended(),
    ensures
        reader.unread(shared).len() <= shared.capacity(),
        reader.unread(shared).len() <= shared.published().len(),
        reader.unread(shared) == shared.published().skip(
            shared.published().len() - reader.unread(shared).len(),
        ),
        reader.unread(shared).len() == shared.capacity() ==> shared.full(),
        shared.gates(reader.slot()),
{
    assert(bit_set(shared.readers, reader.bit as int));
    assert(shared.lag(reader.bit as int) == distance(reader.r, shared.w));
    assert(shared.gates(reader.bit as int));
}

/// With no active reader the publisher never waits.
pub proof fn law_publisher_is_free_without_readers<T>(shared: Shared<T>)
    requires
        shared.wf(),
        forall|i: int| !(#[trigger] shared.gates(i)),
    ensures
        !shared.full(),
{
}

/// How far the cursor of an active reader is behind is what the reader has not seen yet, and
/// it stands at the write position exactly when it has seen everything.
pub proof fn law_lag_is_what_is_unread<T>(shared: Shared<T>, reader: Reader)
    requires
        shared.wf(),
        reader.attached(shared),
        !reader.is_suspended(),
    ensures
        shared.gates(reader.slot()),
        shared.lag(reader.slot()) == reader.unread(shared).len(),
        reader.behind(shared) == reader.unread(shared).len(),
        reader.caught_up(shared) <==> reader.unread(shared).len() == 0,
{
    assert(bit_set(shared.readers, reader.slot()));
}

/// The publisher is held up only by a reader that is a whole ring behind: where `readers` are
/// all that are active, a value has to wait exactly if one of them has as many values unread as
/// the ring has slots. While each of them has fewer, the next value is accepted.
pub proof fn law_publisher_waits_only_for_a_whole_ring<T>(shared: Shared<T>, readers: Seq<Reader>)
    requires
        shared.wf(),
        forall|k: int|
            0 <= k < readers.len() ==> (#[trigger] readers[k]).attached(shared)
                && !readers[k].is_suspended(),
        forall|i: int| #[trigger]
            shared.gates(i) ==> exists|k: int| 0 <= k < readers.len() && (#[trigger] readers[k]).slot() == i,
    ensures
        (forall|k: int|
            0 <= k < readers.len() ==> (#[trigger] readers[k]).unread(shared).len()
                < shared.capacity()) <==> !shared.full(),
        shared.full() ==> exists|k: int|
            0 <= k < readers.len() && (#[trigger] readers[k]).unread(shared).len()
                == shared.capacity(),
{
    if shared.full() {
        let i = choose|i: int| shared.gates(i) && #[trigger] shared.lag(i) >= shared.capacity();
        let k = choose|k: int| 0 <= k < readers.len() && (#[trigger] readers[k]).slot() == i;
        law_lag_is_what_is_unread(shared, readers[k]);
        law_active_readers_miss_nothing(shared, readers[k]);
        assert(readers[k].unread(shared).len() == shared.capacity());
    } else {
        assert forall|k: int| 0 <= k < readers.len() implies (#[trigger] readers[k]).unread(
            shared,
        ).len() < shared.capacity() by {
            law_lag_is_what_is_unread(shared, readers[k]);
            law_active_readers_miss_nothing(shared, readers[k]);
        }
    }
}

/// Every active reader sees every value: publishing adds the values, in order, to what each of
/// them has not seen, and to nobody else's. A suspended reader sees none of them.
pub proof fn law_published_values_reach_every_active_reader<T>(
    before: Shared<T>,
    after: Shared<T>,
    values: Seq<T>,
    reader: Reader,
)
    requires
        before.wf(),
        after.wf(),
        reader.attached(before),
        after.extends_readers(&before, values),
    ensures
        reader.attached(after),
        reader.is_suspended() ==> reader.unread(after).len() == 0,
        !reader.is_suspended() ==> {
            &&& reader.unread(after).len() == reader.unread(before).len() + values.len()
            &&& forall|i: int|
                0 <= i < reader.unread(before).len() ==> #[trigger] reader.unread(after)[i]
                    == reader.unread(before)[i]
            &&& forall|i: int|
                0 <= i < values.len() ==> #[trigger] values[i] == reader.unread(after)[
                    reader.unread(before).len() + i
                ]
            &&& reader.unread(after).len() <= after.capacity()
        },
{
    if !reader.is_suspended() {
        law_active_readers_miss_nothing(after, reader);
        assert(reader.unread(after) == reader.unread(before) + values);
    }
}

/// A new reader starts with the next value: it takes a slot that nobody had, the lowest one, it
/// has nothing to see yet, and what is published from then on is all that it has to see.
pub proof fn law_new_readers_start_with_the_next_value<T>(
    before: Shared<T>,
    joined: Shared<T>,
    after: Shared<T>,
    reader: Reader,
    values: Seq<T>,
)
    requires
        joined.wf(),
        after.wf(),
        subscribed(before, joined, reader),
        after.extends_readers(&joined, values),
    ensures
        !before.owns(reader.slot()),
        joined.owns(reader.slot()),
        forall|i: int| 0 <= i < reader.slot() ==> #[trigger] before.owns(i),
        0 <= reader.slot() < before.max_readers(),
        forall|i: int| #[trigger] before.owns(i) ==> joined.owns(i),
        !reader.is_suspended(),
        reader.unread(joined).len() == 0,
        reader.unread(after) == values,
        joined.published() == before.published(),
{
    assert(joined.owns(reader.slot()));
    assert(reader.unread(after) =~= values);
}

/// What a reader is handed are copies of the values that were published, one for one and in
/// order.
pub proof fn law_readers_get_copies_in_order<T: Clone>(copies: Seq<T>, values: Seq<T>)
    requires
        copies_of(copies, values),
    ensures
        copies.len() == values.len(),
        forall|i: int| 0 <= i < values.len() ==> cloned(values[i], #[trigger] copies[i]),
{
}

/// Declare broadcast with spin/yield waiting defaults.
pub fn channel<T>() -> (channel: crate::Channel<
    T,
    crate::topology::Broadcast,
    crate::backend::Ring,
    crate::execution::Sync,
    crate::wait::SpinYield,
>)
    ensures
        channel.shape == crate::Shape::initial(),
        channel.routing.cursor == 0,
{
    crate::Channel::new().broadcast()
}


/// What one reader does is nothing to the others: each of them is attached as it was and has the
/// same values to see.
pub proof fn law_readers_do_not_disturb_each_other<T>(
    before: Shared<T>,
    after: Shared<T>,
    slot: int,
    other: Reader,
)
    requires
        after.keeps_other_readers(&before, slot),
        other.slot() != slot,
        other.attached(before),
    ensures
        other.attached(after),
        other.unread(after) == other.unread(before),
        other.behind(after) == other.behind(before),
{
}

/// Publishing and reading leave the membership alone: the ring is as large as it was, and the same
/// slots are owned and hold the publisher back.
pub proof fn law_values_leave_the_membership_alone<T>(before: Shared<T>, after: Shared<T>, i: int)
    requires
        after.same_membership(&before),
    ensures
        after.capacity() == before.capacity(),
        after.max_readers() == before.max_readers(),
        after.publisher_gone() == before.publisher_gone(),
        after.owns(i) == before.owns(i),
        after.gates(i) == before.gates(i),
{
}

/// What keeps the readers keeps what they have to see.
pub proof fn law_kept_readers_miss_nothing<T>(before: Shared<T>, after: Shared<T>, reader: Reader)
    requires
        after.keeps_readers(&before),
        reader.attached(before),
    ensures
        reader.attached(after),
        reader.unread(after) == reader.unread(before),
        reader.caught_up(after) == reader.caught_up(before),
{
}

/// A position falls back by one for every value, and only a whole round of the counter hides it.
pub proof fn law_positions_fall_back_with_every_value(behind: int, n: int)
    requires
        0 <= behind,
        0 <= n,
        behind + n <= usize::MAX,
    ensures
        fallen_back(behind, n) == behind + n,
{
    vstd::arithmetic::div_mod::lemma_small_mod((behind + n) as nat, (usize::MAX + 1) as nat);
}

} // verus!
