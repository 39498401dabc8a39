//! An in-memory binary search tree over any partially ordered element type,
//! with insertion and four verified traversal orders (pre-order, in-order,
//! post-order, breadth-first).

pub mod laws;
pub mod tree;

pub use tree::BinarySearchTree;
