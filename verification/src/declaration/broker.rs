//! Broker ownership markers.
use vstd::prelude::*;

verus! {

/// Selects broker threads spawned transactionally while opening.
pub struct Spawned;

/// Selects broker handles returned to the caller for manual execution.
pub struct Manual;

} // verus!
