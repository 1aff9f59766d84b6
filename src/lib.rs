//! The node tree of a CommonMark-style document: the closed set of node kinds,
//! their nesting rules, and an index-based arena that links nodes into a tree.
pub mod node;
pub mod tree;
