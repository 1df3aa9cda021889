//! An unbalanced binary search tree that maps ordered keys to values.
//!
//! The tree is a plain recursive enum. Its two operations, [`BTree::insert`]
//! and [`BTree::find`], are specified against the map that the tree stands
//! for and against the exact shape that an insertion produces.

pub mod laws;
pub mod order;
pub mod tree;

pub use tree::BTree;
