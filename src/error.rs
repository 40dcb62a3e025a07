use vstd::prelude::*;

use crate::index::CompactionFailure;

verus! {

/// What can go wrong in the library, by kind, with the offending value where there is one.
#[derive(Clone, Copy, Debug, PartialEq, Eq, Structural)]
pub enum Error {
    InvalidCellIndex(u64),
    InvalidVertexIndex(u64),
    InvalidDirectedEdgeIndex(u64),
    InvalidResolution(u8),
    /// A coordinate that is not a finite latitude and longitude.
    InvalidLatLng,
    CompactionError(CompactionFailure),
    NonParsableCellIndex,
    NonParsableVertexIndex,
    NonParsableDirectedEdgeIndex,
    LengthMismatch,
    /// A cell too far from its anchor, or across a pentagon distortion, for local coordinates.
    LocalIjError,
    /// A ring's inner bound is not below its outer bound.
    InvalidKRange { k_min: u32, k_max: u32 },
}

} // verus!
