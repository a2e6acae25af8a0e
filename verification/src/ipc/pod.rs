//! POD process-duplex shorthand.
use super::IpcPod;
use crate::codec::Pod;
use crate::backend::Ring;
use crate::execution::Sync;
use crate::routing::RoundRobin;
use crate::topology::ProcessDuplex;
use crate::transport::{ProcessAttach, ProcessCreate};
use crate::wait::Park;
use crate::{Channel, Shape};
use vstd::prelude::*;

verus! {

/// Creating-side declaration for this payload representation.
pub type Create<P> = Channel<
    P,
    ProcessDuplex,
    Ring,
    Sync,
    Park,
    RoundRobin,
    ProcessCreate,
    Pod<P>,
>;

/// Attaching-side declaration for this payload representation.
pub type Attach<P> = Channel<
    P,
    ProcessDuplex,
    Ring,
    Sync,
    Park,
    RoundRobin,
    ProcessAttach,
    Pod<P>,
>;

/// Declare the creating side of a POD process duplex.
pub fn channel<P: IpcPod>() -> (channel: Create<P>)
    ensures
        channel.shape == Shape::initial(),
        channel.transport.endpoint@ == "default"@,
{
    Channel::<P>::new().ipc().pod()
}

/// Declare the attaching side of a POD process duplex.
pub fn attach<P: IpcPod>() -> (channel: Attach<P>)
    ensures
        channel.shape == Shape::initial(),
        channel.transport.endpoint@ == "default"@,
{
    Channel::<P>::new().ipc().attach().pod()
}

} // verus!
