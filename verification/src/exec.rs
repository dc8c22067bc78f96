//! Evaluation: runtime values and the tree-walking interpreter.

pub mod interpreter;
pub mod invariants;
pub mod theorems;
pub mod value;
