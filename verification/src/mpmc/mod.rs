//! Multi-consumer local channels keep delivery semantics and transfer engines explicit.
//!
//! * [`brokerless`] is a competing-consumer work queue with no middle thread.
//!   Consumers claim one producer's storage long enough to drain a batch;
//!   each value reaches exactly one consumer.
//! * [`lanes`] has the same delivery semantics, with one permanent lane for each
//!   pair of a producer and a consumer.
//! * [`brokered`] puts brokers between producers and consumers, which route every
//!   value to one consumer or to a set of them.
//! * [`broadcast`] shows every value to every active reader; the slowest reader
//!   holds the publisher up.

pub mod broadcast;
pub mod brokered;
pub mod brokerless;
pub mod lanes;
