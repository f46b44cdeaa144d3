//! Reconstructs expression-style text from linear stack-machine bytecode.
//!
//! A flat sequence of instruction words is classified into tokens, split
//! into functions, bound into an operand forest by an append-only virtual
//! stack, and finally rendered as nested infix or call expressions, one
//! line per unconsumed root token.

pub mod function;
pub mod opcodes;
pub mod parser;
pub mod printer;
pub mod stack;
pub mod text;
pub mod token;
