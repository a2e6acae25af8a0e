//! Delivery policies of brokered channels.
use crate::mpmc::brokered::Targets;
use vstd::prelude::*;

verus! {

/// Every value goes to the next consumer that takes it.
pub struct RoundRobin {
    /// Where the next rotation over the consumers starts.
    pub cursor: usize,
}

impl Clone for RoundRobin {
    fn clone(&self) -> (copy: RoundRobin)
        ensures
            copy == *self,
    {
        RoundRobin { cursor: self.cursor }
    }
}

impl Default for RoundRobin {
    fn default() -> (policy: RoundRobin)
        ensures
            policy.cursor == 0,
    {
        RoundRobin { cursor: 0 }
    }
}

/// Chooses the consumer of each value.
///
/// The specification has a body so that code which is not verified can implement the
/// trait too.
pub trait Router<T>: Sized {
    /// What a choice may come to: the router `was` becomes `is` and names `target` for
    /// `item`.
    open spec fn chooses(was: Self, is: Self, item: T, consumers: nat, target: usize) -> bool {
        true
    }

    /// The consumer of `item` among `consumers`; larger numbers wrap around.
    fn target(&mut self, item: &T, consumers: usize) -> (target: usize)
        ensures
            Self::chooses(*old(self), *final(self), *item, consumers as nat, target),
    ;
}

/// Every value goes to the one consumer that the router chooses.
pub struct Route<F> {
    /// The chooser.
    pub router: F,
}

impl<F: Clone> Clone for Route<F> {
    fn clone(&self) -> (copy: Route<F>)
        ensures
            cloned(self.router, copy.router),
    {
        Route { router: self.router.clone() }
    }
}

/// Chooses the consumers of each value.
///
/// The specification has a body so that code which is not verified can implement the
/// trait too.
pub trait Subscriber<T>: Sized {
    /// What a choice may come to: the subscriber `was` becomes `is` and names `targets`
    /// for `item`.
    open spec fn selects(was: Self, is: Self, item: T, consumers: nat, targets: Targets) -> bool {
        true
    }

    /// The consumers of `item` among `consumers`.
    fn targets(&mut self, item: &T, consumers: usize) -> (targets: Targets)
        ensures
            Self::selects(*old(self), *final(self), *item, consumers as nat, targets),
    ;
}

/// Every value goes to all consumers that the subscriber chooses.
pub struct PubSub<F> {
    /// The chooser.
    pub subscribe: F,
    /// The consumers that exist.
    pub consumer_mask: u64,
}

impl<F: Clone> Clone for PubSub<F> {
    fn clone(&self) -> (copy: PubSub<F>)
        ensures
            cloned(self.subscribe, copy.subscribe),
            copy.consumer_mask == self.consumer_mask,
    {
        PubSub { subscribe: self.subscribe.clone(), consumer_mask: self.consumer_mask }
    }
}

} // verus!
