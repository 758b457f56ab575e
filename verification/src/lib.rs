//! Arithmetic expression evaluation: a tokenizer and an operator-precedence,
//! stack-based reduction engine that turns text such as `"(1 + 2) * 4 / 2"`
//! into an expression tree, ready for numeric evaluation by a caller.
//!
//! The numeric step itself works on a floating-point type and therefore lives
//! with the callers; this crate owns the lexical and structural work and proves
//! it against a grammar of expressions, terms and factors.

pub mod ast;
pub mod determinism;
pub mod evaluator;
pub mod laws;
pub mod tokenizer;
