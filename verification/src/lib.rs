//! A bounds-safe abstraction over two-dimensional rectangular grids of cells.
//!
//! The [`grid::Grid`] trait asks an implementor for a handful of storage
//! primitives (borrow the backing rows, replace them wholesale, produce and
//! copy cell values) and derives from them a family of geometric queries:
//! Moore neighborhoods, diagonal and straight rays cast outward to the grid
//! edge, knight-style offset jumps, and a translation of the whole grid that
//! pads vacated space with the default cell value.
//!
//! The mathematical model of a grid is a sequence of rows, each a sequence of
//! cells; [`geometry`] holds the specification functions that the contracts
//! are stated over, together with proofs of their general laws.

pub mod geometry;
pub mod grid;
pub mod int_grid;
