//! A front end for a minimal lambda-calculus language: a lexer that turns
//! source text into a token stream (with single-token pushback), and a
//! recursive-descent parser that turns the token stream into an abstract
//! syntax tree or a typed parse error.

pub mod token;
pub mod lexer;
pub mod error;
pub mod parse_node;
pub mod parser;
pub mod visitor;
pub mod render;
