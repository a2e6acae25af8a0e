//! Owned FIFO bulk destination shared by storage backends and channel topologies.
use vstd::prelude::*;

verus! {

/// A reusable owned batch: append values, borrow its ready slice, or pop in FIFO
/// order. Call `clear()` to reuse consumed storage; it also drops unread values.
///
/// Its view is the sequence of unread values, oldest first.
pub struct Batch<T> {
    values: Vec<T>,
    read: usize,
}

impl<T> View for Batch<T> {
    type V = Seq<T>;

    closed spec fn view(&self) -> Seq<T> {
        self.values@
    }
}

impl<T> Batch<T> {
    /// How many values left through `pop_front` since the last `clear` without
    /// having been put back. It stays at `usize::MAX` once it gets there.
    pub closed spec fn vacated(&self) -> nat {
        self.read as nat
    }

    /// Create an empty batch without allocating.
    pub fn new() -> (batch: Self)
        ensures
            batch@ == Seq::<T>::empty(),
            batch.vacated() == 0,
    {
        Self { values: Vec::new(), read: 0 }
    }

    /// Drop unread values and make the complete allocation reusable.
    pub fn clear(&mut self)
        ensures
            final(self)@ == Seq::<T>::empty(),
            final(self).vacated() == 0,
    {
        self.values.clear();
        self.read = 0;
    }

    /// Number of unread values.
    pub fn len(&self) -> (n: usize)
        ensures
            n == self@.len(),
    {
        self.values.len()
    }

    /// Whether every value has been consumed.
    pub fn is_empty(&self) -> (empty: bool)
        ensures
            empty == (self@.len() == 0),
    {
        self.values.len() == 0
    }

    /// Borrow the unread values, without moving them.
    pub fn as_slice(&self) -> (slice: &[T])
        ensures
            slice@ == self@,
    {
        self.values.as_slice()
    }

    /// Reserve space before a backend starts transferring ownership. Only the allocation
    /// changes, and how large it gets is up to the allocator.
    pub(crate) fn reserve(&mut self, additional: usize)
        ensures
            final(self)@ == old(self)@,
            final(self).vacated() == old(self).vacated(),
    {
        self.values.reserve(additional);
    }

    /// Append one owned value, preserving any unread prefix.
    pub fn push_back(&mut self, value: T)
        ensures
            final(self)@ == old(self)@.push(value),
            final(self).vacated() == old(self).vacated(),
    {
        self.values.push(value);
    }

    /// Move the oldest unread value out of the batch.
    pub fn pop_front(&mut self) -> (value: Option<T>)
        ensures
            old(self)@.len() == 0 ==> value is None && *final(self) == *old(self),
            old(self)@.len() > 0 ==> {
                &&& value == Some(old(self)@[0])
                &&& final(self)@ == old(self)@.skip(1)
                &&& final(self).vacated() == if old(self).vacated() < usize::MAX {
                    old(self).vacated() + 1
                } else {
                    old(self).vacated()
                }
            },
    {
        if self.values.len() == 0 {
            return None;
        }
        self.read = self.read.saturating_add(1);
        let value = self.values.remove(0);
        assert(self.values@ == old(self).values@.skip(1));
        Some(value)
    }

    /// Return a rejected value to the slot just vacated by `pop_front`.
    pub fn restore_front(&mut self, value: T)
        requires
            old(self).vacated() > 0,
        ensures
            final(self)@ == seq![value] + old(self)@,
            final(self).vacated() == old(self).vacated() - 1,
    {
        self.values.insert(0, value);
        self.read = self.read - 1;
        assert(self.values@ == seq![value] + old(self).values@);
    }
}

impl<T> Default for Batch<T> {
    fn default() -> (batch: Self)
        ensures
            batch@ == Seq::<T>::empty(),
            batch.vacated() == 0,
    {
        Self::new()
    }
}

/// A batch gives its values back in the order in which they were appended, appending never
/// disturbs what is already unread, and restoring a taken value undoes taking it.
pub proof fn law_batch_is_fifo<T>(unread: Seq<T>, value: T)
    ensures
        unread.len() > 0 ==> unread.push(value)[0] == unread[0] && unread.push(value).skip(1)
            == unread.skip(1).push(value),
        unread.len() == 0 ==> unread.push(value)[0] == value && unread.push(value).skip(1)
            == Seq::<T>::empty(),
        unread.len() > 0 ==> seq![unread[0]] + unread.skip(1) == unread,
{
    if unread.len() > 0 {
        assert(seq![unread[0]] + unread.skip(1) =~= unread);
    }
}

} // verus!
