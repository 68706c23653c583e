//! An authenticated AVL tree: a height-balanced binary search tree over
//! string-keyed transactions in which every node carries a SHA-256 digest of
//! its record, its children's digests and its height.

pub mod order;
pub mod digest;
pub mod tree;
