//! Integer arithmetic expressions: a lexer, a recursive-descent parser and an
//! evaluator, each with a functional specification.
pub mod lexer;
pub mod parser;
pub mod evaluator;
pub mod lemmas;

