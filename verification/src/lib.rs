//! A small SQL engine: a lexer, a parser and an in-memory database, each with
//! contracts that Verus checks.
pub mod text;
pub mod lexer;
pub mod ast;
pub mod parser;
pub mod backend;
pub mod error;
pub mod repl;
