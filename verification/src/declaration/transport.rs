//! Address-space and transport markers.
use vstd::prelude::*;

verus! {

/// Selects in-process transport.
pub struct Local;

/// Selects creation of a new process-duplex transport.
pub struct ProcessCreate {
    /// The name of the endpoint.
    pub endpoint: String,
}

/// Selects attachment to an existing process-duplex endpoint.
pub struct ProcessAttach {
    /// The name of the endpoint.
    pub endpoint: String,
}

} // verus!
