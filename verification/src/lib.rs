//! An unbalanced binary search tree over an index arena.
//!
//! Nodes are stored in a growable arena; child links own the subtree
//! structure logically (a subtree is reached only through its parent's
//! `left`/`right` index), while each node's `parent` field is a plain
//! back-reference used for upward walks only.  Every mutating operation
//! is proved to preserve the tree's ordering and back-reference
//! invariants.

pub mod arena;
pub mod facts;
pub mod ops;
