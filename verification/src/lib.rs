//! A small arithmetic expression language.
//!
//! Source text flows through the lexer and the recursive-descent parser to an
//! immutable abstract syntax tree, which two independent back ends consume: a
//! tree-walking interpreter and a compiler to a branch-free stack machine.
//! Numbers are exact decimals (an integer mantissa scaled by a power of ten),
//! so both back ends are proved to return the very same results.

pub mod ast;
pub mod lexer;
pub mod machine;
pub mod parser;
pub mod pipeline;
pub mod regex;
pub mod token;
pub mod value;
