//! Geometry primitives: grid points and axis-aligned rectangles.
pub mod point;
pub mod rect;
