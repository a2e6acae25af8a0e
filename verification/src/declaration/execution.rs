//! Execution-surface markers.
use vstd::prelude::*;

verus! {

/// Selects the synchronous endpoint surface.
pub struct Sync;

/// Selects the runtime-neutral asynchronous endpoint surface.
pub struct Async;

} // verus!
