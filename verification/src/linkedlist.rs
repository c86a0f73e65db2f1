//! A linked list with stable node handles, and in-place reversal.

pub mod fastlist;
pub mod reverse;
pub mod tickets;
