//! The ways in which building a tree or subdividing a cell can fail.
use vstd::prelude::*;

verus! {

#[derive(Debug, Clone, Copy, PartialEq, Eq, Structural)]
pub enum RasterError {
    /// The edges of a rectangle are not ordered.
    InvalidRect,
    /// The middle of a cell lies on one of its edges, so a child would have
    /// no area.
    DegenerateSubdivision,
    /// A segment is a curve; only points and lines are rasterized.
    UnsupportedSegment,
    /// The input is larger than the limits of the buffers allow.
    Overflow,
}

} // verus!
