//! A dependency resolver.
//!
//! A [`DepGraph`] records which named items depend on which others, which of
//! them are already satisfied, and a target. Items are then pulled one at a
//! time, each one only after everything it depends on has been satisfied, and
//! the target last.
//!
//! What the graph computes is stated over [`GraphModel`], a mathematical
//! model of the graph: [`model`] defines it and the resolution of an item,
//! [`walk`] relates a resolution to the paths of the graph, [`sequence`]
//! defines the whole sequence of items that pulling gives, and [`laws`]
//! proves what holds of them.

pub mod error;
pub mod graph;
pub mod iter;
pub mod laws;
pub mod model;
pub mod sequence;
pub mod walk;

pub use error::DepGraphError;
pub use graph::DepGraph;
pub use iter::{DepGraphIterator, DepGraphSatisfyingIterator};
pub use model::{GraphModel, Id, Resolution};
