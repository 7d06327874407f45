//! A quadtree coverage engine for even-odd filled polygonal paths on the
//! integer pixel grid.
//!
//! Coordinates are integers in pixel units; a pixel `(x, y)` is sampled at its
//! grid point. Every derived quantity (implicit line coefficients, extents,
//! probe positions) is computed exactly in a wider integer type, so no
//! predicate of this crate rounds.
//!
//! The segments of the paths are classified against the cells of a quadtree
//! (`abstract_segment`, `classify`). A cell is subdivided in four passes
//! (`split`, `scan`, `scatter`, joined in `subdivide`) that turn its entries
//! (`cell_entry`) into the entries of its four children. The tree is built
//! level by level (`quad_tree`), and the renderer walks the entries of each
//! leaf for each of its pixels (`cpu_renderer`).
//!
//! The laws of the library are proved beside it. What a subdivision emits
//! is unique and in order (`unique`, `order`) and stays within the machine's
//! integers (`bounds`). A subdivision keeps the parity of every count
//! (`conserve`, `chain`, `tally`, `settle`), so that every cell of the tree
//! counts as the root does (`faithful`) and the image is the image of the
//! even-odd rule, whatever the depth of the tree (`even_odd`, `image`).
pub mod geometry;

pub mod abstract_segment;
pub mod error;
pub mod path;

pub mod cell_entry;
pub mod classify;
pub mod split;
pub mod scan;
pub mod scatter;
pub mod subdivide;

pub mod quad_tree;
pub mod cpu_renderer;
pub mod dispatch;

pub mod unique;
pub mod order;
pub mod bounds;

pub mod conserve;
pub mod chain;
pub mod tally;
pub mod settle;
pub mod faithful;
pub mod even_odd;
pub mod image;
