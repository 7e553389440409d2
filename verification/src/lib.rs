//! A verified lexer, parser, declaration analysis and C emitter for the teeny
//! language.
pub mod ast;
pub mod driver;
pub mod emit;
pub mod error;
pub mod grammar;
pub mod lex;
pub mod parse;
pub mod token;
pub mod verify;

pub use ast::{Expr, IfBranch, IfStmt, PrintValue, Stmt, WhileStmt};
pub use emit::Emitter;
pub use error::Error;
pub use lex::Lexer;
pub use parse::Parser;
pub use token::{BinaryOp, Token, UnaryOp};
