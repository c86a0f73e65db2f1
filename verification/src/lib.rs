//! Small collections built on hash maps and a handle-based linked list:
//! a least-recently-used cache, in-place list reversal, and four takes on a
//! map that can be looked up from either side.

pub mod linkedlist;
pub mod lrucache;
pub mod maps;
