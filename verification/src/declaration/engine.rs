//! Fixed-MPMC transfer-engine markers.
use vstd::prelude::*;

verus! {

/// Selects consumer claims over one SPSC ring per producer.
pub struct Claim;

/// Selects one permanently owned SPSC lane per producer-consumer pair.
pub struct Lanes;

} // verus!
