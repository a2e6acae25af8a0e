//! Payload representation markers.
use core::marker::PhantomData;
use vstd::prelude::*;

verus! {

/// Selects ordinary in-process Rust value representation.
pub struct Native;

/// Local reusable payload blocks with explicit ownership leases.
pub struct Leased;

/// Selects raw byte-stream process payloads.
pub struct Bytes;

/// Selects fixed-layout POD process payloads of type `T`.
pub struct Pod<T> {
    /// The values.
    pub payload: PhantomData<T>,
}

/// Selects process payloads encoded by codec `C`.
pub struct Encoded<C> {
    /// The codec.
    pub codec: PhantomData<C>,
}

} // verus!
