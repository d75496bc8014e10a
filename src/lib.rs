//! Arithmetic expressions: a scanner that turns text into tokens, and a
//! precedence-climbing parser that turns tokens into an expression tree.
pub mod text;
pub mod scanner;
pub mod ast;
