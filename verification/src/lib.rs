//! Arithmetic expression pipeline: tokenize an infix expression, transform it
//! to postfix (Reverse Polish Notation) with the shunting-yard algorithm, and
//! reduce the postfix sequence to a single expression value.

pub mod token;
pub mod tokenizer;
pub mod transform;
pub mod eval;
pub mod laws;
