//! A verified evaluator core for infix arithmetic: a tokenizer, an
//! operator-precedence converter to postfix order, and a stack-machine
//! reducer of postfix sequences.
//!
//! The library works on exact data only. A number is kept as the run of
//! decimal digits that was read, and the outcome of an evaluation is the
//! expression tree that the reduction builds; turning literals into machine
//! numbers and folding the tree is left to the host program.

pub mod eval;
pub mod grammar;
pub mod lexer;
pub mod postfix;
pub mod token;

pub use eval::{compute, evaluate, evaluate_line, Expr, SpecExpr};
pub use lexer::{classify, tokenize, CharClass};
pub use postfix::to_postfix;
pub use token::{precedence, BinaryOp, EvalError, Literal, SpecToken, Token};
