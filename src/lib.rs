//! Module-item syntax over a token stream, and the dispatch identity of
//! built-in protocols.

pub mod ast;
pub mod parse;
pub mod parser;
pub mod protocol;
pub mod span;
pub mod token;
