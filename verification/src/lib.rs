//! Front end and evaluator of a small, statically typed scripting language.
//!
//! Source text goes through four stages, each with a mathematical model that its
//! contract is stated over:
//!
//! - [`base::lexer`] turns text into tokens;
//! - [`base::parser`] turns tokens into an untyped syntax tree;
//! - [`base::semantic_analyzer`] resolves names and checks types over a forest of scopes,
//!   and gives an annotated tree;
//! - [`exec::interpreter`] evaluates the annotated tree against a table of values, and
//!   offers the entry point that runs source text through all stages.
//!
//! Scopes, symbols and values go by identities. Analysis and evaluation take them from a
//! supply ([`identity::Identities`]), so that what they compute is a function of their
//! input and of the identities supplied. [`base::forest`], [`exec::invariants`] and
//! [`exec::theorems`] state what holds of the stages together.
//!
//! Nothing here reads or writes: what evaluation wants rendered or called is handed to
//! the host as a list of effects.

pub mod base;
pub mod exec;
pub mod identity;
pub mod native;
