//! Paths and their paints.
use crate::geometry::rect::Rect;
use vstd::prelude::*;

verus! {

/// The rule that decides from a crossing count whether a sample is inside.
/// The rasterizer fills by `EvenOdd`.
#[derive(Debug, Clone, Copy, PartialEq, Eq, Structural)]
pub enum FillRule {
    NonZero,
    EvenOdd,
}

/// A path: the segments `seg_start_idx..seg_end_idx`, filled with the paint
/// `paint_id`.
#[derive(Debug)]
pub struct AbstractPath {
    pub seg_start_idx: usize,
    pub seg_end_idx: usize,
    pub fill_rule: FillRule,
    pub paint_id: usize,
    pub bounding_box: Rect,
}

#[derive(Debug)]
pub enum Paint {
    SolidColor { rgba: [u8; 4] },
}

impl Paint {
    /// The four bytes of the paint: red, green, blue, alpha.
    pub open spec fn color(self) -> Seq<u8> {
        match self {
            Paint::SolidColor { rgba } => rgba@,
        }
    }
}

} // verus!
