//! A pure untyped lambda-calculus evaluator: terms, capture-avoiding
//! substitution, normal-order single-step reduction, an evaluation driver
//! collecting a trace of rewrite events, and a cosmetic renaming pass that
//! strips mechanically generated numeric name suffixes where safe.

pub mod ast;
pub mod config;
pub mod lexer;
mod text;
pub mod vm;

pub use ast::expr::{abs, apl, var, Expr};
pub use ast::red_type::RedType;
pub use config::Config;
pub use lexer::lexer::Lexer;
pub use lexer::parser::Parser;
pub use lexer::token::Token;
pub use vm::{EvalError, Vm};
