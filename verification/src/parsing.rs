//! Lexical scanning and parsing of presentation sources.

pub mod grammar;
pub mod integers;
pub mod lexical_laws;
pub mod parser;
pub mod scanning;
pub mod token_stream;
pub mod tokenizer;
