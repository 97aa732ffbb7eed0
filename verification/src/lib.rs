//! A small arithmetic expression language: a tokenizer for numbers,
//! operators and brackets, a recursive-descent parser with two precedence
//! tiers and grouping, and the expression tree the parser builds.
//!
//! Evaluating a tree uses floating-point arithmetic, which stays outside
//! this library; the tree hands each literal out as its digit text.

pub mod ast;
pub mod lexer;
pub mod parser;
