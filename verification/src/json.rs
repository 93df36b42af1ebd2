//! A JSON text validator and parser: a tokenizer that turns a character
//! sequence into lexical tokens, and a recursive-descent parser that turns
//! the token sequence into a value tree, rejecting anything outside the
//! JSON object/array grammar.

pub mod token;
pub mod value;
pub mod error;
pub mod tokenizer;
pub mod parser;
pub mod encoder;
pub mod roundtrip;
