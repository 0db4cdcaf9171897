//! A minimal expression-language runtime: a lexer for its s-expression
//! surface syntax, a tree builder, an unhygienic macro expander, and a
//! tree-walking evaluator with lexically scoped environments.

pub mod assoc;
pub mod display;
pub mod error;
pub mod expand;
pub mod interpreter;
pub mod lexer;
pub mod parser;
