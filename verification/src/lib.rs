//! An indexed skip list: an ordered sequence container with positional
//! access, insertion and removal in expected logarithmic time.
//!
//! Elements are ordered by insertion position, not by comparison: the list
//! is a sequence, not a sorted map. Nodes live in an arena and carry
//! multi-level forward links with per-link spans; a geometric level
//! generator assigns node heights so that each level roughly halves the
//! number of nodes that take part in it.

mod level_generator;
pub mod skipnode;
pub mod skiplist;
pub mod laws;

pub use skiplist::SkipList;
pub use skipnode::SkipNode;
