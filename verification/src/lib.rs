//! Exact tilings of an M-dimensional grid of side N by axis-aligned bricks
//! whose edges are drawn from a fixed tuple of N lengths: the data model and
//! the incremental constraint engine that a backtracking search drives.

pub mod combinatorics;
pub mod comparisons;
pub mod export;
pub mod grid;
pub mod interval;
pub mod json;
pub mod lines;
pub mod ndarray;
pub mod plot;
pub mod recipe;
pub mod recipe_builder;
pub mod recipe_json;
pub mod search;
pub mod slices;
pub mod symmetry;
pub mod tuples;
pub mod utils;

use vstd::prelude::*;

verus! {

/// Edge lengths and positions.
pub type IntType = i32;

/// A grid coordinate: one index per axis.
pub type Coord = Vec<usize>;

/// The size of a grid along each axis.
pub type Shape = Vec<usize>;

/// The edge lengths available to the bricks.
pub type DimensionTuple = Vec<IntType>;

/// For each axis, the index of the dimension-tuple entry that supplies the
/// brick's extent along that axis.
pub type Orientation = Vec<usize>;

/// The footprint of one brick: one interval per axis.
pub type HyperRectangle = Vec<interval::Interval>;

} // verus!
