//! The front end: tokens, syntax trees and the semantic analyzer.

pub mod forest;
pub mod lexer;
pub mod parser;
pub mod semantic_analyzer;
