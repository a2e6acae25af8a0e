//! Channel topology markers.
use super::broker::Spawned;
use super::engine::Claim;
use super::membership::Locked;
use super::reclaim::Drop;
use core::marker::PhantomData;
use vstd::prelude::*;

verus! {

/// Fixed-membership multiple-producer, single-consumer topology.
pub struct MpscFixed;

/// Bounded producer-pool MPSC topology with reusable producer slots.
pub struct MpscPool;

/// Runtime-registerable MPSC topology with explicit membership and reclaim policies.
pub struct MpscDynamic<Membership = Locked, Reclaim = Drop> {
    /// The policies.
    pub policies: PhantomData<(Membership, Reclaim)>,
}

/// Fixed-membership competing-consumer MPMC topology.
///
/// Its transfer engine is selected statically and does not enter opened hot paths.
pub struct Mpmc<Engine = Claim> {
    /// The engine.
    pub engine: PhantomData<Engine>,
}

/// Dynamic brokerless MPMC topology with lock-protected membership.
pub struct MpmcDynamicLocked;

/// Dynamic brokerless MPMC topology with bounded array membership.
pub struct MpmcDynamicArray;

/// Brokered MPMC topology parameterized by broker ownership.
pub struct MpmcBrokered<Run = Spawned> {
    /// Who runs the brokers.
    pub run: PhantomData<Run>,
}

/// Bounded broadcast topology in which every active reader receives each message.
pub struct Broadcast;

/// Bidirectional shared-memory process transport topology.
pub struct ProcessDuplex;

} // verus!
