//! A small imperative language: a tokenizer, a parser and a tree-walking
//! evaluator, each with its behaviour stated as a contract.
pub mod evaluator;
pub mod lexer;
pub mod number;
pub mod parser;
pub mod runtime;
pub mod utils;
