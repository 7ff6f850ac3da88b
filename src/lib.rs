//! A six-instruction tape language: a parser with explicit bracket checking,
//! a tree-walking interpreter over a fixed tape, and a generator of equivalent
//! Rust source text.

pub mod syntax;
pub mod parser;
pub mod machine;
pub mod codegen;
