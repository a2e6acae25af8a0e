//! Explicit-codec process-duplex shorthand.
use super::IpcCodec;
use crate::codec::Encoded;
use crate::backend::Ring;
use crate::execution::Sync;
use crate::routing::RoundRobin;
use crate::topology::ProcessDuplex;
use crate::transport::{ProcessAttach, ProcessCreate};
use crate::wait::Park;
use crate::{Channel, Shape};
use vstd::prelude::*;

verus! {

/// Creating-side declaration for this payload representation.
pub type Create<T, C> = Channel<
    T,
    ProcessDuplex,
    Ring,
    Sync,
    Park,
    RoundRobin,
    ProcessCreate,
    Encoded<C>,
>;

/// Attaching-side declaration for this payload representation.
pub type Attach<T, C> = Channel<
    T,
    ProcessDuplex,
    Ring,
    Sync,
    Park,
    RoundRobin,
    ProcessAttach,
    Encoded<C>,
>;

/// Declare the creating side of an explicit-codec process duplex.
pub fn channel<T, C: IpcCodec<T>>() -> (channel: Create<T, C>)
    ensures
        channel.shape == Shape::initial(),
        channel.transport.endpoint@ == "default"@,
{
    Channel::<T>::new().ipc().codec::<C>()
}

/// Declare the attaching side of an explicit-codec process duplex.
pub fn attach<T, C: IpcCodec<T>>() -> (channel: Attach<T, C>)
    ensures
        channel.shape == Shape::initial(),
        channel.transport.endpoint@ == "default"@,
{
    Channel::<T>::new().ipc().attach().codec::<C>()
}

} // verus!
