//! Ternary B-tree: a map whose internal nodes hold up to two keys `k0 < k1`
//! and three children, left (keys below `k0`), middle (from `k0` up to
//! `k1`) and right (from `k1` up).  Insertion splits full nodes on the way
//! down, so it needs a single pass; removal borrows from or merges with a
//! sibling to refill a node left without keys.
pub mod order;
pub mod model;
mod node;
mod node_lemmas;
pub mod tree;
pub mod laws;

pub use crate::tree::TernaryBTree;
