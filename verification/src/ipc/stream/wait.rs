//! Waiting for the peer of a stream.
use crate::ipc::event::WaitOutcome;
use crate::ipc::Fault;
use vstd::prelude::*;

verus! {

/// The longest that an endpoint waits without looking whether its peer is alive, in
/// nanoseconds.
pub const LIVENESS_POLL_NANOS: u128 = 10_000_000;

/// How long to park, `elapsed` nanoseconds into a wait that may take `timeout`.
pub fn wait_budget(elapsed: u128, timeout: u128) -> (result: Result<u128, Fault>)
    ensures
        result is Ok <==> elapsed < timeout,
        result matches Ok(nanos) ==> nanos == if timeout - elapsed < LIVENESS_POLL_NANOS {
            timeout - elapsed
        } else {
            LIVENESS_POLL_NANOS as int
        },
        result matches Ok(nanos) ==> 0 < nanos <= 10_000_000 && elapsed + nanos <= timeout,
        result matches Err(fault) ==> fault == Fault::WaitTimedOut,
{
    if elapsed >= timeout {
        return Err(Fault::WaitTimedOut);
    }
    let left: u128 = timeout - elapsed;
    if left < LIVENESS_POLL_NANOS {
        Ok(left)
    } else {
        Ok(LIVENESS_POLL_NANOS)
    }
}

/// Whether to go on after parking. The peer matters only when nothing else has happened.
pub fn after_wait(outcome: WaitOutcome, peer_closed: bool) -> (result: Result<(), Fault>)
    ensures
        result is Err <==> outcome == WaitOutcome::TimedOut && peer_closed,
        result matches Err(fault) ==> fault == Fault::PeerClosed,
{
    match outcome {
        WaitOutcome::TimedOut => if peer_closed {
            Err(Fault::PeerClosed)
        } else {
            Ok(())
        },
        WaitOutcome::Changed => Ok(()),
    }
}

/// What a look at the control connection has shown.
#[derive(Clone, Copy, Debug, PartialEq, Eq, Structural)]
pub enum Peek {
    /// So many bytes are there.
    Ready(usize),
    /// Nothing is there yet.
    WouldBlock,
    /// The look was interrupted.
    Interrupted,
    /// The look has failed.
    Failed,
}

/// Whether the peer has closed the control connection, if that can be said.
pub fn peer_closed(peek: Peek) -> (closed: Option<bool>)
    ensures
        closed is None <==> peek == Peek::Failed,
        closed == Some(true) <==> peek == Peek::Ready(0),
{
    match peek {
        Peek::Ready(bytes) => Some(bytes == 0),
        Peek::WouldBlock => Some(false),
        Peek::Interrupted => Some(false),
        Peek::Failed => None,
    }
}

/// What a read of the source has come to.
#[derive(Clone, Copy, Debug, PartialEq, Eq, Structural)]
pub enum ReadOutcome {
    /// So many bytes were read; none at the end of the source.
    Read(usize),
    /// The read was interrupted.
    Interrupted,
    /// The read has failed.
    Failed,
}

/// What follows a read of the source.
#[derive(Clone, Copy, Debug, PartialEq, Eq, Structural)]
pub enum ReadStep {
    /// So many bytes are there, and there is room for more.
    More(usize),
    /// So many bytes are there, and no more will come.
    Stop(usize),
    /// The source has failed.
    Failed,
}

/// Go on filling a chunk of `capacity` bytes, of which `filled` are there.
pub fn read_chunk(filled: usize, capacity: usize, outcome: ReadOutcome) -> (step: ReadStep)
    requires
        filled < capacity,
        outcome matches ReadOutcome::Read(n) ==> filled + n <= capacity,
    ensures
        step == match outcome {
            ReadOutcome::Read(n) => if n == 0 || filled + n == capacity {
                ReadStep::Stop((filled + n) as usize)
            } else {
                ReadStep::More((filled + n) as usize)
            },
            ReadOutcome::Interrupted => ReadStep::More(filled),
            ReadOutcome::Failed => ReadStep::Failed,
        },
{
    match outcome {
        ReadOutcome::Read(n) => if n == 0 || filled + n == capacity {
            ReadStep::Stop(filled + n)
        } else {
            ReadStep::More(filled + n)
        },
        ReadOutcome::Interrupted => ReadStep::More(filled),
        ReadOutcome::Failed => ReadStep::Failed,
    }
}

} // verus!
