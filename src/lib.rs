//! Bit-level mutation of messages and measurement of how much a
//! cryptographic digest changes when a single input bit is flipped.

pub mod manipulations;
pub mod digest;
pub mod statistics;
pub mod automatic;
pub mod manual;
pub mod reverse;
