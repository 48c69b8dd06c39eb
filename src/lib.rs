//! An unbalanced binary search tree over any totally ordered element type,
//! with membership lookup, insertion, deletion and in-order traversal.
pub mod binarytree;
pub mod order;

pub use binarytree::iter::{IntoIter, Iter};
pub use binarytree::{BinaryTree, Node};
