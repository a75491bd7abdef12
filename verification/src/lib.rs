//! Lexical-analysis front end for a small scripting language.
//!
//! The `lexer` module turns a source string into a sequence of classified
//! tokens with byte spans; the `diag` module maps an offending span back to a
//! line/column position and formats a diagnostic message.

pub mod diag;
pub mod lexer;
