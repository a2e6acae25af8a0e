//! Dynamic-MPSC membership markers.
use vstd::prelude::*;

verus! {

/// Selects lock-protected dynamic-MPSC membership.
pub struct Locked;

/// Selects intrusive lock-free dynamic-MPSC membership.
pub struct LockFree;

} // verus!
