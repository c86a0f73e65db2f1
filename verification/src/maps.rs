//! Maps, and what the standard hash map does with shared keys.

pub mod dualindexmap;
pub mod rckeys;
