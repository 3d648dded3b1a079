//! A minimal evaluator for a Lisp-like symbolic expression language:
//! numbers, interned symbols, and cons pairs, with a fixed built-in operator
//! set (arithmetic, pair construction and access, quoting).
//!
//! Expression trees live in a fixed-capacity cell arena with explicit
//! free-list allocation (`arena`). Text is tokenized (`lexer`), parsed into
//! arena trees (`parser`), evaluated against a fixed operator table
//! (`eval`), and rendered back to text (`print`). The `sexp` module gives
//! the mathematical model that all contracts are stated over.

pub mod arena;
pub mod cell;
pub mod env;
pub mod eval;
pub mod laws;
pub mod lexer;
pub mod parser;
pub mod print;
pub mod sexp;
