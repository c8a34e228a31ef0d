//! An unbalanced binary search tree over `i64` values.
//!
//! The tree supports insertion (duplicates are silently dropped), membership
//! lookup, size queries, a generic reduction over all values, and in-order
//! iteration in three forms: consuming, read-only, and value-rewriting.

pub mod fold;
pub mod iter;
pub mod iter_mut;
pub mod order;
pub mod parallel;
pub mod tree;

pub use iter::TreeIter;
pub use iter::TreeRefIter;
pub use iter_mut::IterMut;
pub use iter_mut::NodeIterMut;
pub use iter_mut::State;
pub use tree::Link;
pub use tree::Node;
pub use tree::Tree;
