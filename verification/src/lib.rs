//! A region quadtree over integer grids: points, axis-aligned rectangles and
//! the tree that indexes points under a fixed capacity for each node.
//!
//! A rectangle holds its lower edges and not its upper ones, so the four
//! quadrants of a node never share a point. A node keeps the points that it
//! stored while it was a leaf; once it is full it subdivides, and later
//! points go to its quadrants.
//!
//! - [`scalar`]: what a coordinate type must offer, and the instances for
//!   `i32` and `i64`;
//! - [`geometry`]: [`Vector2`] and [`Rect`], with their models;
//! - [`model`]: the model of the tree and of its operations;
//! - [`tree`]: [`Quadtree`] itself;
//! - [`laws`]: what is proved of the models.

pub mod geometry;
pub mod laws;
pub mod model;
pub mod scalar;
pub mod tree;

pub use geometry::{max, min, Rect, Vector2};
pub use scalar::Scalar;
pub use tree::Quadtree;
