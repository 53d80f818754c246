//! Failure kinds reported by the index engine.

use vstd::prelude::*;

verus! {

/// Why an index operation could not be carried out.
#[derive(Clone, Copy, Debug, PartialEq, Eq, Structural)]
pub enum VamanaError {
    /// The requested capacity is zero, so the graph would have no nodes.
    ZeroCapacity,
    /// The degree bound is zero, so no node could have an out-neighbour.
    ZeroDegree,
    /// The byte size of the layout does not fit in the address space.
    LayoutOverflow,
    /// The storage substrate cannot provide the bytes that the layout needs.
    StorageExhausted,
    /// The storage region is smaller than the layout of the index.
    StorageTooSmall,
    /// The storage region was laid out for another capacity or degree bound,
    /// or does not hold a well-formed graph.
    LayoutMismatch,
    /// A vector has another number of dimensions than the dataset.
    DimensionMismatch,
    /// More vectors were named than the index has room for.
    CapacityExceeded,
    /// A vector was named that the dataset does not hold.
    IdOutOfRange,
}

} // verus!
