//! An arithmetic expression evaluator: a lexer, a recursive-descent parser
//! and an evaluator over unsigned 64-bit integers, each with a contract
//! stated over a mathematical model of its input.
pub mod tokenizer;
pub mod parser;
pub mod evaluator;
pub mod calculator;
