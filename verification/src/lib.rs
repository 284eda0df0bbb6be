//! Compresses a collection of trajectories — ordered sequences of positions
//! sharing a common start — into a branching tree whose edges are maximal
//! shared path segments, recording for every segment which trajectories
//! traverse it. The tree is built level-synchronously over position depth
//! and can be materialized either as an id-keyed table or as an
//! index-addressed arena; both are proved to yield exactly the tree that
//! the model in [`model`] describes.

pub mod arena_store;
pub mod builder;
pub mod coverage;
pub mod laws;
pub mod model;
pub mod traversal;
pub mod tree;
