use vstd::prelude::*;

verus! {

/// Why a region or a traversal refused an operation.
#[derive(Debug, Clone, Copy, PartialEq, Eq, Structural)]
pub enum EraseError {
    /// A write whose length is not a multiple of the region's update granularity.
    BadAlignment,
    /// A write longer than what is left of the region.
    MemoryInUse,
    /// Memory read back after a write does not hold what was written.
    AccessDenied,
    /// An advance past the end of a region.
    Unavailable,
    /// No region is left to take more data.
    OutOfMemory,
    /// The storage driver wrote fewer bytes than asked, or a value has the wrong size.
    InternalError,
}

} // verus!
