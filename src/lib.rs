//! Minimum number of door toggles on a rooted tree of hubs and rooms.
//!
//! `tree` holds the data model and the need-propagation engine; `loader`
//! turns an edge list and room declarations into a rooted tree.

pub mod tree;
pub mod loader;
