//! Typed channels: local MPMC, broadcast and brokered channels, and process channels over
//! shared memory.
//!
//! The channels are state machines. Shared state is an argument of every operation, each
//! endpoint keeps what is its own, and an operation that would block says how to wait
//! instead. Whoever drives the machines decides what runs on which thread: every operation
//! is one step, and the contracts hold however the steps of different endpoints interleave.
//!
//! [`Channel`] declares a channel: which topology, storage, routing and transport it has,
//! and how large it is. [`backend`] holds the storage, [`mpmc`] the local channels, and
//! [`ipc`] the process channels.

pub mod backend;
pub mod bits;
pub mod capacity;
pub mod cursor;
mod declaration;
pub mod ipc;
pub mod mpmc;
pub mod open;
pub mod pause;
pub mod round_robin;
pub mod routing;

pub use declaration::{
    broker, codec, engine, execution, law_new_declarations_can_be_opened, membership, reclaim,
    topology, transport, wait, Channel, Shape,
};
pub use open::{InvalidShape, OpenError};
