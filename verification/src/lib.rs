//! The front end of an interpreter for a small C-like scripting
//! language: a hand-written lexer that turns source text into a stream
//! of tokens, and a Pratt parser that turns the token stream into an
//! abstract syntax tree, collecting one error message per failed
//! statement.
//!
//! Every lexing and parsing step is specified by a mathematical function
//! over character and token sequences and verified against it, down to
//! the exact text of error messages and of the pretty-printer's output.

pub mod ast;
pub mod chars;
pub mod lexer;
pub mod parser;
pub mod token;
