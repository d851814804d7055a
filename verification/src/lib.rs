//! A three-stage pipeline for a small arithmetic expression language:
//! a lexer, a single-pass operator-precedence (Pratt) compiler that emits
//! bytecode directly, and a stack-based virtual machine that executes it.
//!
//! Numeric values are exact rationals, so every arithmetic result stated in
//! a contract is pinned down precisely and division by zero is rejected
//! rather than producing an infinity.

pub mod chunk;
pub mod compiler;
pub mod scanner;
pub mod token_type;
pub mod value;
pub mod vm;
