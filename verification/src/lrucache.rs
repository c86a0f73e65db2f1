//! A cache of fixed capacity that evicts the least recently used entry.

pub mod lrucache;
pub mod recency;
