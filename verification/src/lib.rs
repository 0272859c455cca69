//! An ordered map implemented as an unbalanced binary search tree.
//!
//! The tree maps keys with a total order to arbitrary values.  Lookup and
//! insertion walk the tree iteratively with a single cursor, and disposal
//! dismantles the tree through an explicit work-list, so that even a fully
//! degenerate chain of millions of nodes is traversed and released without
//! deep call-stack recursion.

pub mod order;
pub mod tree;

pub use order::Cmp;
pub use order::TreeKey;
pub use tree::BST;
