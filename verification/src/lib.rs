//! A fixed-capacity least-recently-used (LRU) cache, verified with Verus.
//!
//! The cache keeps at most `capacity` key-value entries; every lookup or
//! update promotes its entry to most-recently-used, and an insertion that
//! would exceed capacity evicts the least-recently-used entry. The recency
//! order is maintained as a doubly linked list threaded through an
//! index-addressed arena, with a hash map giving constant-time lookup from
//! key to arena slot.

pub mod cache;
pub mod compute;
pub mod laws;
