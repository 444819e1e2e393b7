//! A Reverse Polish Notation evaluator.
//!
//! The library turns an expression such as `"pi 2 / sin"` into an expression
//! tree, or into a precise error, with every step verified: the operator
//! registry, the tokenizer, and two evaluation engines (a left-to-right stack
//! machine and a right-to-left recursive descent). Numeric literals are kept
//! as their text, which the platform's float parser accepts by construction;
//! computing the floating-point value of a tree is left to the caller.
pub mod eval;
pub mod lexer;
pub mod registry;
pub mod theorems;

pub use eval::{evaluate_expression, exec_index, execute, execute_recursive, EvaluationError, Expr};
pub use lexer::{parse, Token};
pub use registry::{get_operator, BinaryFunction, NamedConstant, Operator, UnaryFunction};
