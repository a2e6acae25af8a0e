//! Local storage backends used by channel topologies that support substitution.
//!
//! [`Ring`] is the bounded single-producer single-consumer primitive used by the
//! local kernels. [`Seg`] is unbounded segmented storage. Each transport has three
//! parts: the storage that both sides share (its *link*), the producing endpoint
//! and the consuming endpoint. The endpoints hold what one side alone knows, such
//! as the last position it saw of the other side; every operation takes the link.
//!
//! Shared memory is intentionally absent from this namespace. It changes address
//! space, mapping ownership, liveness, and representation.
use vstd::prelude::*;

mod batch;
pub use batch::Batch;
pub mod ring;
pub mod seg;

pub use ring::Ring;
pub use seg::Seg;

verus! {

/// Where drained values go, one at a time and in order.
pub trait Sink<T> {
    /// Every value accepted so far, oldest first, after what was there before.
    spec fn seen(&self) -> Seq<T>;

    /// Take ownership of the next value.
    fn accept(&mut self, value: T)
        ensures
            final(self).seen() == old(self).seen().push(value),
    ;
}

impl<T> Sink<T> for Batch<T> {
    open spec fn seen(&self) -> Seq<T> {
        self@
    }

    fn accept(&mut self, value: T) {
        self.push_back(value)
    }
}

impl<T> Sink<T> for Vec<T> {
    open spec fn seen(&self) -> Seq<T> {
        self@
    }

    fn accept(&mut self, value: T) {
        self.push(value)
    }
}

/// The storage that the two endpoints of a transport share.
pub trait Link<T>: Sized {
    /// The representation is consistent.
    spec fn wf(&self) -> bool;

    /// The values sent and not yet received, oldest first.
    spec fn queue(&self) -> Seq<T>;

    /// How many values the link holds at most; `None` where it holds any number.
    spec fn bound(&self) -> Option<nat>;

    /// Whether the next push is accepted.
    spec fn accepts(&self) -> bool;

    /// The producing endpoint has left.
    spec fn producer_gone(&self) -> bool;

    /// The consuming endpoint has left.
    spec fn consumer_gone(&self) -> bool;

    /// A bounded link accepts values while there is room, any other while its consumer is
    /// there.
    proof fn accepts_while_it_can(&self)
        ensures
            self.accepts() == match self.bound() {
                Some(n) => self.queue().len() < n,
                None => !self.consumer_gone(),
            },
    ;
}

/// One side of a transport over links of type `L`.
pub trait Endpoint<L> {
    /// What this side knows of the link still holds of it.
    spec fn attached(&self, link: L) -> bool;

    /// What this side remembers of the link: the values that a consumer knows to be there,
    /// or how full a producer believes it to be. Zero where it remembers nothing.
    spec fn known(&self, link: L) -> int;
}

/// A single-producer / single-consumer transport factory. `capacity` is the
/// bound for bounded backends, or a chunk-size hint for unbounded ones.
pub trait Backend<T> {
    /// The storage shared by the endpoints.
    type Link: Link<T>;

    /// The producing endpoint (exactly one per channel).
    type Tx: Tx<T, Link = Self::Link, Peer = Self::Rx>;

    /// The consuming endpoint (exactly one per channel).
    type Rx: Rx<T, Link = Self::Link, Peer = Self::Tx>;

    /// Whether `capacity` bounds resident values instead of sizing allocation chunks.
    spec fn bounded() -> bool;

    /// The capacities that a transport can be made with.
    spec fn supports(capacity: usize) -> bool;

    /// What a transport made with this capacity may hold at most.
    spec fn sized(capacity: usize, bound: Option<nat>) -> bool;

    /// What else holds of a transport right after it was made with this capacity.
    spec fn fresh(capacity: usize, link: Self::Link, tx: Self::Tx, rx: Self::Rx) -> bool;

    /// Whether `capacity` bounds resident values instead of sizing allocation chunks.
    /// Automatic capacity selection is applied only to bounded backends.
    fn bounded_capacity() -> (bounded: bool)
        ensures
            bounded == Self::bounded(),
    ;

    /// Create one transport.
    fn channel(capacity: usize) -> (parts: (Self::Link, Self::Tx, Self::Rx))
        requires
            Self::supports(capacity),
        ensures
            parts.0.wf(),
            Self::sized(capacity, parts.0.bound()),
            parts.0.queue() == Seq::<T>::empty(),
            parts.0.accepts(),
            !parts.0.producer_gone(),
            !parts.0.consumer_gone(),
            parts.1.attached(parts.0),
            parts.2.attached(parts.0),
            parts.1.known(parts.0) == 0,
            parts.2.known(parts.0) == 0,
            Self::fresh(capacity, parts.0, parts.1, parts.2),
    ;
}

/// Producing endpoint of a transport.
pub trait Tx<T>: Endpoint<<Self as Tx<T>>::Link> + Sized {
    /// The storage shared with the consuming endpoint.
    type Link: Link<T>;

    /// The consuming endpoint.
    type Peer: Endpoint<Self::Link>;

    /// How many of `want` values the next bulk push moves. It counts the room this
    /// side knows of and looks at the link again only where it knows of none.
    spec fn grant(&self, link: Self::Link, want: int) -> int;

    /// How full a side that believes `known` believes the link to be once it has looked, as
    /// far as it has to, and pushed `n` values.
    spec fn known_after(known: int, link: Self::Link, n: int) -> int;

    /// A grant is what was asked for, as far as there is room: all the room that this side knows
    /// of, or all there is where it knows of none. It is nothing only where nothing was asked for
    /// or the link accepts nothing.
    proof fn grant_bounds(&self, link: Self::Link, want: int)
        requires
            link.wf(),
            self.attached(link),
            0 <= want,
        ensures
            0 <= self.grant(link, want) <= want,
            want > 0 ==> (self.grant(link, want) > 0 <==> link.accepts()),
            self.grant(link, want) == match link.bound() {
                Some(n) => min(
                    want,
                    n - (if self.known(link) >= n {
                        link.queue().len() as int
                    } else {
                        self.known(link)
                    }),
                ),
                None => if link.consumer_gone() {
                    0
                } else {
                    want
                },
            },
    ;

    /// Non-blocking push. `Err(v)` returns the value when it cannot be accepted
    /// (bounded backend full, or the consumer endpoint is gone).
    fn try_push(&mut self, link: &mut Self::Link, v: T) -> (result: Result<(), T>)
        requires
            old(link).wf(),
            old(self).attached(*old(link)),
        ensures
            final(link).wf(),
            final(self).attached(*final(link)),
            final(self).known(*final(link)) == if result is Ok {
                Self::known_after(old(self).known(*old(link)), *old(link), 1)
            } else {
                old(self).known(*old(link))
            },
            result is Ok <==> old(link).accepts(),
            result is Ok ==> final(link).queue() == old(link).queue().push(v),
            result matches Err(back) ==> back == v && *final(link) == *old(link),
            final(link).bound() == old(link).bound(),
            final(link).producer_gone() == old(link).producer_gone(),
            final(link).consumer_gone() == old(link).consumer_gone(),
            forall|rx: Self::Peer| #[trigger]
                rx.attached(*old(link)) ==> rx.attached(*final(link)) && rx.known(*final(link))
                    == rx.known(*old(link)),
    ;

    /// Move up to `max` already-owned values from the front of `source`.
    /// Returns the accepted count. Unaccepted values stay in FIFO order.
    /// Accepted values are not delivery acknowledgements.
    fn push_from(&mut self, link: &mut Self::Link, max: usize, source: &mut Batch<T>) -> (accepted:
        usize)
        requires
            old(link).wf(),
            old(self).attached(*old(link)),
        ensures
            final(link).wf(),
            final(self).attached(*final(link)),
            accepted == old(self).grant(*old(link), min(old(source)@.len() as int, max as int)),
            accepted <= old(source)@.len(),
            final(link).queue() == old(link).queue() + old(source)@.take(accepted as int),
            final(source)@ == old(source)@.skip(accepted as int),
            accepted == 0 ==> *final(link) == *old(link),
            final(self).known(*final(link)) == if accepted > 0 {
                Self::known_after(old(self).known(*old(link)), *old(link), accepted as int)
            } else {
                old(self).known(*old(link))
            },
            final(link).bound() == old(link).bound(),
            final(link).producer_gone() == old(link).producer_gone(),
            final(link).consumer_gone() == old(link).consumer_gone(),
            forall|rx: Self::Peer| #[trigger]
                rx.attached(*old(link)) ==> rx.attached(*final(link)) && rx.known(*final(link))
                    == rx.known(*old(link)),
    ;

    /// How many more values a bounded link has slots for; `None` where it holds any number.
    fn spare(&self, link: &Self::Link) -> (spare: Option<usize>)
        requires
            link.wf(),
        ensures
            spare is None <==> link.bound() is None,
            spare matches Some(n) ==> link.bound() == Some(n as nat + link.queue().len()),
    ;

    /// True once the consuming endpoint has left.
    fn is_consumer_gone(&self, link: &Self::Link) -> (gone: bool)
        ensures
            gone == link.consumer_gone(),
    ;

    /// Publish that the producing endpoint has left.
    fn close(&mut self, link: &mut Self::Link)
        requires
            old(link).wf(),
        ensures
            final(link).wf(),
            final(link).producer_gone(),
            final(link).queue() == old(link).queue(),
            final(link).bound() == old(link).bound(),
            final(link).accepts() == old(link).accepts(),
            final(link).consumer_gone() == old(link).consumer_gone(),
            *final(self) == *old(self),
            old(self).attached(*old(link)) ==> final(self).attached(*final(link)),
            final(self).known(*final(link)) == old(self).known(*old(link)),
            forall|rx: Self::Peer| #[trigger]
                rx.attached(*old(link)) ==> rx.attached(*final(link)) && rx.known(*final(link))
                    == rx.known(*old(link)),
    ;
}

/// Consuming endpoint of a transport.
pub trait Rx<T>: Endpoint<<Self as Rx<T>>::Link> + Sized {
    /// The storage shared with the producing endpoint.
    type Link: Link<T>;

    /// The producing endpoint.
    type Peer: Endpoint<Self::Link>;

    /// How many values the next bulk drain can see. It counts the values this side
    /// knows of and looks at the link again only where it knows of none.
    spec fn ready(&self, link: Self::Link) -> int;

    /// How many values this side remembers once it has found `ready` of them and taken `n`.
    spec fn kept(ready: int, n: int) -> int;

    /// A drain sees no more than the queue and sees nothing only where it is empty: what
    /// this side remembers, or all there is where it remembers nothing.
    proof fn ready_bounds(&self, link: Self::Link)
        requires
            link.wf(),
            self.attached(link),
        ensures
            0 <= self.ready(link) <= link.queue().len(),
            self.ready(link) > 0 <==> link.queue().len() > 0,
            self.ready(link) == if self.known(link) > 0 {
                self.known(link)
            } else {
                link.queue().len() as int
            },
            0 <= self.known(link) <= link.queue().len(),
    ;

    /// How many values a drain that starts now, with room for `max`, takes at most, even if
    /// more are sent while it goes on.
    spec fn quota(&self, link: Self::Link, max: int) -> int;

    /// A drain takes no more than it has room for, and it has room for what is ready.
    proof fn quota_bounds(&self, link: Self::Link, max: int)
        requires
            link.wf(),
            self.attached(link),
            0 <= max,
        ensures
            min(self.ready(link), max) <= self.quota(link, max) <= max,
            max > 0 && link.queue().len() > 0 ==> self.quota(link, max) > 0,
    ;

    /// What stays in the link when this side leaves.
    spec fn remains(link: Self::Link) -> Seq<T>;

    /// Leaving again takes nothing more away.
    proof fn remains_settle(before: Self::Link, after: Self::Link)
        requires
            after.queue() == Self::remains(before),
        ensures
            Self::remains(after) == Self::remains(before),
    ;

    /// Start a drain whose values are handled one by one, and say how many it takes at most.
    fn open_batch(&mut self, link: &Self::Link, max: usize) -> (n: usize)
        requires
            link.wf(),
            old(self).attached(*link),
        ensures
            final(self).attached(*link),
            final(self).known(*link) == Self::kept(old(self).ready(*link), 0),
            n == old(self).quota(*link, max as int),
            n <= max,
    ;

    /// Non-blocking pop.
    fn try_pop(&mut self, link: &mut Self::Link) -> (value: Option<T>)
        requires
            old(link).wf(),
            old(self).attached(*old(link)),
        ensures
            final(link).wf(),
            final(self).attached(*final(link)),
            final(self).known(*final(link)) == Self::kept(
                old(self).ready(*old(link)),
                if value is Some {
                    1
                } else {
                    0
                },
            ),
            value is None <==> old(link).queue().len() == 0,
            value is None ==> final(link).queue() == old(link).queue() && final(link).accepts()
                == old(link).accepts(),
            value matches Some(v) ==> v == old(link).queue()[0] && final(link).queue() == old(link).queue().skip(1),
            final(link).bound() == old(link).bound(),
            final(link).producer_gone() == old(link).producer_gone(),
            final(link).consumer_gone() == old(link).consumer_gone(),
            forall|tx: Self::Peer| #[trigger]
                tx.attached(*old(link)) ==> tx.attached(*final(link)) && tx.known(*final(link))
                    == tx.known(*old(link)),
    ;

    /// Drain up to `max` ready values into `out`, oldest first; returns the count.
    fn drain_in_place<S: Sink<T>>(&mut self, link: &mut Self::Link, max: usize, out: &mut S) -> (n:
        usize)
        requires
            old(link).wf(),
            old(self).attached(*old(link)),
        ensures
            final(link).wf(),
            final(self).attached(*final(link)),
            n == min(old(self).ready(*old(link)), max as int),
            final(self).known(*final(link)) == Self::kept(old(self).ready(*old(link)), n as int),
            n <= old(link).queue().len(),
            final(out).seen() == old(out).seen() + old(link).queue().take(n as int),
            final(link).queue() == old(link).queue().skip(n as int),
            final(link).bound() == old(link).bound(),
            final(link).producer_gone() == old(link).producer_gone(),
            final(link).consumer_gone() == old(link).consumer_gone(),
            forall|tx: Self::Peer| #[trigger]
                tx.attached(*old(link)) ==> tx.attached(*final(link)) && tx.known(*final(link))
                    == tx.known(*old(link)),
    ;

    /// Append up to `max` ready owned values, preserving the destination prefix.
    /// Returns the number appended.
    fn drain_into(&mut self, link: &mut Self::Link, max: usize, out: &mut Batch<T>) -> (n: usize)
        requires
            old(link).wf(),
            old(self).attached(*old(link)),
        ensures
            final(link).wf(),
            final(self).attached(*final(link)),
            n == min(old(self).ready(*old(link)), max as int),
            final(self).known(*final(link)) == Self::kept(old(self).ready(*old(link)), n as int),
            n <= old(link).queue().len(),
            final(out)@ == old(out)@ + old(link).queue().take(n as int),
            final(link).queue() == old(link).queue().skip(n as int),
            final(link).bound() == old(link).bound(),
            final(link).producer_gone() == old(link).producer_gone(),
            final(link).consumer_gone() == old(link).consumer_gone(),
            forall|tx: Self::Peer| #[trigger]
                tx.attached(*old(link)) ==> tx.attached(*final(link)) && tx.known(*final(link))
                    == tx.known(*old(link)),
    {
        self.drain_in_place(link, max, out)
    }

    /// Nothing ready to pop right now.
    fn is_empty(&self, link: &Self::Link) -> (empty: bool)
        requires
            link.wf(),
            self.attached(*link),
        ensures
            empty == (link.queue().len() == 0),
    ;

    /// Producer gone AND drained: this transport will never yield again.
    fn is_finished(&self, link: &Self::Link) -> (finished: bool)
        requires
            link.wf(),
            self.attached(*link),
        ensures
            finished == (link.producer_gone() && link.queue().len() == 0),
    ;

    /// Leave for good: publish it, and let go of what this side owns.
    fn leave(&mut self, link: &mut Self::Link)
        requires
            old(link).wf(),
            old(self).attached(*old(link)),
        ensures
            final(link).wf(),
            final(self).attached(*final(link)),
            final(link).consumer_gone(),
            final(link).queue() == Self::remains(*old(link)),
            final(self).known(*final(link)) == 0,
            final(link).bound() == old(link).bound(),
            final(link).producer_gone() == old(link).producer_gone(),
            forall|tx: Self::Peer| #[trigger]
                tx.attached(*old(link)) ==> tx.attached(*final(link)) && tx.known(*final(link))
                    == tx.known(*old(link)),
    ;

    /// Publish that the consuming endpoint has left. Values may remain queued.
    fn close(&mut self, link: &mut Self::Link)
        requires
            old(link).wf(),
            old(self).attached(*old(link)),
        ensures
            final(link).wf(),
            final(self).attached(*final(link)),
            final(self).known(*final(link)) == old(self).known(*old(link)),
            final(link).consumer_gone(),
            final(link).queue() == old(link).queue(),
            final(link).bound() == old(link).bound(),
            final(link).producer_gone() == old(link).producer_gone(),
            forall|tx: Self::Peer| #[trigger]
                tx.attached(*old(link)) ==> tx.attached(*final(link)) && tx.known(*final(link))
                    == tx.known(*old(link)),
    ;
}

/// The smaller of two numbers.
pub open spec fn min(a: int, b: int) -> int {
    if a <= b {
        a
    } else {
        b
    }
}

} // verus!
