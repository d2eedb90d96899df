//! An LRU-2 cache admission and eviction policy.
//!
//! A key is promoted into the hot cache only on its second observed access:
//! a bounded FIFO "history" queue holds keys seen once, a bounded LRU "cache"
//! queue holds confirmed-hot keys, and a position index maps every tracked
//! key to its current slot in whichever queue holds it. The index is kept
//! exactly consistent with the queues after every operation.

pub mod laws;
pub mod model;
pub mod store;
