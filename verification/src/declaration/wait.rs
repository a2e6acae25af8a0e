//! Consumer wait-policy markers.
use vstd::prelude::*;

verus! {

/// Selects parking-lot eventcount waits.
pub struct Park;

/// Selects standard-library thread park/unpark waits.
pub struct StdThread;

/// Selects bounded spinning followed by parking.
pub struct Hybrid;

/// Selects continuous busy spinning while waiting.
pub struct Spin;

/// Selects spinning with scheduler yields while waiting.
pub struct SpinYield;

/// Selects task-waker notification for asynchronous endpoints.
pub struct Task;

} // verus!
