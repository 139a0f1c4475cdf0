//! An arithmetic-expression evaluator over arbitrary-precision decimals:
//! lexical tokenization, shunting-yard reordering into postfix form, and
//! evaluation of the postfix form on a value stack.

pub mod decimal;
pub mod evaluator;
pub mod laws;
pub mod tokenizer;
pub mod tokens;
