//! Dynamic-MPSC finished-ring policies.
use vstd::prelude::*;

verus! {

/// Drops finished dynamic-MPSC rings instead of retaining them.
pub struct Drop;

/// Retains finished dynamic-MPSC rings in a bounded reuse pool.
pub struct Pooled;

} // verus!
