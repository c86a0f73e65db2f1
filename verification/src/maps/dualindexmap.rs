//! A map that can be asked for the value of a key and for the key of a
//! value. It keeps two hash maps, one for each direction, so each key and
//! each value has to end up in both. The four modules differ in how a
//! single `put` gets its arguments into two containers.

pub mod clonetrait;
pub mod compileerr;
pub mod copytrait;
pub mod rcversion;
