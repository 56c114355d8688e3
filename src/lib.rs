//! An adaptive replacement cache: a fixed-capacity key/value cache that
//! balances recency against frequency by itself.
//!
//! The cache keeps four access-ordered lists: two of resident entries
//! (seen once, seen at least twice) and two of keys recently evicted from
//! them.  Every request is classified against the four lists and moves
//! entries between them; a partition value adapts to which side of the
//! history is being hit.
pub mod arc;
pub mod model;
pub mod order;
pub mod pseudo_lru;

pub use arc::{Arc, Place};
pub use pseudo_lru::{CacheError, Insert, PseudoLru};
