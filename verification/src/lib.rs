//! A 3-dimensional k-d tree mapping coordinate keys to opaque payloads.
//!
//! The tree is built once from a list of items and a key function, by
//! recursive median partitioning, and is then queried many times for the
//! stored item nearest (by squared Euclidean distance) to a query point.

mod blockdb;
mod keys;
mod node;
mod sort;

pub use crate::blockdb::{may_key, BlockDb};
pub use crate::keys::{in_range, sq_dist, KEY_BOUND};
