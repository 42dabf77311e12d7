//! A fixed-capacity, write-back key/value cache with an approximate-LRU
//! eviction policy: a two-handed variant of the CLOCK (second-chance)
//! algorithm, with the two scanning cursors held a fixed half-capacity
//! offset apart.

pub mod cache;
pub mod laws;
pub mod model;
