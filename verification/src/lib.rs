//! A minimal interpreter for a parenthesized, Lisp-like expression
//! language: a tokenizer that turns text into a raw token tree, a
//! literal resolver that classifies leaves into typed values and marks
//! call sites, and an execution environment that substitutes variables
//! and evaluates calls against a registry of native functions.

pub mod eval;
pub mod init;
pub mod parser;
pub mod text;
pub mod types;
