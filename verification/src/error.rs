//! The ways in which the memory tiers fail.

use vstd::prelude::*;

verus! {

/// Why a memory operation could not be carried out.
#[derive(Clone, Copy, Debug, PartialEq, Eq, Structural)]
pub enum MemoryError {
    /// The early region allocator has no region with room for the request.
    OutOfPhysicalMemory,
    /// The node arena has no free slot left.
    NodeExhaustion,
    /// The buddy allocator holds no free block of the order asked for or above.
    OrderExhaustion,
    /// The request is larger than the largest slab size class.
    SizeClassOverflow,
    /// The heap was used before its slab caches were built.
    UninitializedAllocator,
    /// The early region allocator was used, or torn down, after its teardown.
    DoubleDecommission,
    /// A tier was about to be built a second time.
    AlreadyInitialized,
}

} // verus!
