//! A lexer and a precedence-climbing parser for a small shell-like command
//! language: words, `'`/`"` quoting, `\` escapes, `$name`, `$(...)`, `|`,
//! `>` and `2>`.
//!
//! `split` turns a line into tokens, each with its range in the line;
//! `parse` turns the tokens into one syntax tree, or a positioned
//! diagnostic that `Error::display` renders against the line.

pub mod ast;
pub mod diag;
pub mod lexer;
pub mod parser;
pub mod syntax;
pub mod token;

pub use ast::AstNode;
pub use diag::{ErrRange, Error, ErrorType, Loc};
pub use lexer::split;
pub use parser::parse;
pub use token::{CommandBit, OpenOrClose, OperatorPrecedence, RedirType};
