//! Ordered collections backed by skip lists.
//!
//! [`SkipList`] is an ordered bag of values and [`SkipMap`] an ordered map from
//! keys to values. Both keep their nodes in a slot arena and link them by slot
//! index, one chain of links for each level.

pub mod arena;
pub mod entry;
pub mod laws;
pub mod links;
pub mod model;
pub mod node;
pub mod order;
pub mod rng;
pub mod skiplist;
pub mod skipmap;
pub mod storage;

pub use skiplist::SkipList;
pub use skipmap::SkipMap;
