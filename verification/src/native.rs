//! Functions that the host supplies.

pub mod function;
