//! An AVL tree of `i32` keys: insertion with rebalancing, and membership search.
mod height_bound;
pub mod laws;
pub mod node;
mod proofs;
pub mod tree;

pub use node::Node;
pub use tree::AVLTree;
