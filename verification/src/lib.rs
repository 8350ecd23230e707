//! A small expression language: a lexer, a precedence-climbing parser and a
//! tree-walking evaluator over an environment of variables.
//!
//! Text becomes tokens ([`tokenizer`]), tokens become syntax trees
//! ([`parser`]), and trees are evaluated one after the other in an
//! environment that each of them may change ([`interpret`]). Every stage is a
//! function with a contract over a mathematical model of its data, and every
//! failure is a value.
//!
//! Numbers are the one thing that the library does not work out. No decision
//! of the language depends on the value of a number, so the evaluator keeps
//! each number as the arithmetic that defines it, and the caller computes it
//! in floating point.

pub mod grouping;
pub mod interpret;
pub mod locality;
pub mod parser;
pub mod text;
pub mod tokenizer;
