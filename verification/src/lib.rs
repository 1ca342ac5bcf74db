//! Interpreter for a minimalist keyword-driven language over
//! arbitrary-precision integers: a tokenizer and recursive-descent parser
//! that build an abstract syntax tree, and a small-step evaluator that
//! executes it against a mutable variable store, a function registry and
//! an in-memory output sink.

mod bigint;
mod grammar;
mod vm;

pub use bigint::BigInt;
pub use grammar::{parse_program, Expected, Expression, Statement, SyntaxError};
pub use vm::{EvalError, State};
