//! An arena-indexed binary search tree.
//!
//! Nodes live in a flat, append-only backing store (the arena) and refer to
//! each other by integer index instead of by pointer.  The arena owns every
//! node; `parent`, `left` and `right` are plain index values, so the usual
//! aliasing problems of pointer-based trees never arise.  Deletion unlinks a
//! node from the tree topology but never removes or reuses its slot, so
//! indices stay stable for the lifetime of the store.

pub mod shape;
pub mod traverse;
pub mod arena;

pub use arena::ArenaTree;
pub use arena::Node;
pub use traverse::Traversal;
