//! An interpreter for a small concatenative stack language: source text is
//! split into named procedures of whitespace-separated words, and a
//! stackless, instruction-splicing engine evaluates them over a single
//! operand stack of arbitrary-precision integers.

pub mod bignum;
pub mod call_stack;
pub mod command;
pub mod compile;
pub mod engine;
pub mod laws;
pub mod util;
