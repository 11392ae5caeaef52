//! Front end of an indentation-sensitive Lisp: a tokenizer that reports each
//! line's indentation as a token, and a parser that reconciles parenthesised
//! lists with indentation blocks into one syntax tree held in an arena.

pub mod ast;
pub mod grammar;
pub mod lexer;
pub mod lexis;
pub mod parser;
pub mod text;
pub mod token;

pub use ast::{Ast, AstKind, ParseError};
pub use grammar::Expected;
pub use lexer::{scan, tokenize, Lexer};
pub use parser::{parse, Parser};
pub use token::{LexError, Token, TokenKind};
