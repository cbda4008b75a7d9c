//! Reconstruction of binary trees from pairs of traversals: every binary tree
//! over a sequence of values is enumerated, and the trees whose traversals
//! agree with two observed orders are kept.

pub mod enumerate;
pub mod matching;
pub mod render;
pub mod split;
pub mod tree;
