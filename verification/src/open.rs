//! Why a declaration could not be opened.
use vstd::prelude::*;

verus! {

/// A numeric shape that no channel can have.
#[derive(Clone, Copy, PartialEq, Eq, Structural, Debug)]
pub enum InvalidShape {
    /// No workers, no batch, or a capacity that is not a positive multiple of it.
    LeasedWorkers,
    /// No ring holds that many block descriptors.
    LeasedDescriptors,
    /// More payload slots than can be counted.
    LeasedPayloads,
    /// More return descriptors than can be counted.
    LeasedReturns,
    /// An allocation that no address space holds.
    LeasedAllocation,
}

/// Why a declaration could not be opened.
#[derive(Clone, Copy, PartialEq, Eq, Structural, Debug)]
pub enum OpenError {
    /// The numeric shape is invalid.
    Invalid(InvalidShape),
}

impl OpenError {
    /// What a reader is told.
    pub open spec fn text(&self) -> &'static str {
        match self {
            OpenError::Invalid(InvalidShape::LeasedWorkers) =>
                "leased channels require non-zero workers and capacity divisible by batch",
            OpenError::Invalid(
                InvalidShape::LeasedDescriptors,
            ) => "leased descriptor capacity overflows",
            OpenError::Invalid(InvalidShape::LeasedPayloads) => "leased payload count overflows",
            OpenError::Invalid(InvalidShape::LeasedReturns) => "leased return topology overflows",
            OpenError::Invalid(
                InvalidShape::LeasedAllocation,
            ) => "leased channel allocation shape overflows",
        }
    }

    /// What a reader is told.
    pub fn message(&self) -> (message: &'static str)
        ensures
            message@ == self.text()@,
    {
        match self {
            OpenError::Invalid(InvalidShape::LeasedWorkers) =>
                "leased channels require non-zero workers and capacity divisible by batch",
            OpenError::Invalid(
                InvalidShape::LeasedDescriptors,
            ) => "leased descriptor capacity overflows",
            OpenError::Invalid(InvalidShape::LeasedPayloads) => "leased payload count overflows",
            OpenError::Invalid(InvalidShape::LeasedReturns) => "leased return topology overflows",
            OpenError::Invalid(
                InvalidShape::LeasedAllocation,
            ) => "leased channel allocation shape overflows",
        }
    }
}

} // verus!
