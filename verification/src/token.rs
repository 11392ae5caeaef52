//! Tokens, the errors of tokenizing, and their mathematical counterparts.

use crate::text::byte_offset;
use vstd::prelude::*;

verus! {

/// What a token is. `Indent` carries the number of spaces and tabs that
/// begin its line.
#[derive(Clone, Copy, Debug, PartialEq, Eq, Structural)]
pub enum TokenKind {
    Id,
    Number,
    String,
    LParen,
    RParen,
    Quote,
    Indent(usize),
    Eof,
}

/// Why a text could not be tokenized.
#[derive(Clone, Copy, Debug, PartialEq, Eq, Structural)]
pub enum LexError {
    /// A character that begins no token.
    UnexpectedChar { ch: char, line: usize },
    /// A string literal whose line or text ends before its closing quote.
    UnterminatedString { line: usize },
}

/// A token as the grammar sees it: its kind, its line, and the positions of
/// its first character and of the character after its last.
pub ghost struct Lexeme {
    pub kind: TokenKind,
    pub line: nat,
    pub lo: int,
    pub hi: int,
}

/// A token of a source text: kind, line (counted from 0), the byte offsets
/// between which it stands, and the text between them.
#[derive(Clone, Copy, Debug)]
pub struct Token<'src> {
    pub kind: TokenKind,
    pub line: usize,
    pub start_offset: usize,
    pub end_offset: usize,
    pub text: &'src str,
}

/// The value of a token.
pub ghost struct TokenView {
    pub kind: TokenKind,
    pub line: nat,
    pub start: nat,
    pub end: nat,
    pub text: Seq<char>,
}

impl<'src> View for Token<'src> {
    type V = TokenView;

    open spec fn view(&self) -> TokenView {
        TokenView {
            kind: self.kind,
            line: self.line as nat,
            start: self.start_offset as nat,
            end: self.end_offset as nat,
            text: self.text@,
        }
    }
}

impl Lexeme {
    /// The token that this lexeme is in the source `src`: positions become
    /// byte offsets, and the text between them is taken along.
    pub open spec fn render(self, src: Seq<char>) -> TokenView {
        TokenView {
            kind: self.kind,
            line: self.line,
            start: byte_offset(src, self.lo),
            end: byte_offset(src, self.hi),
            text: src.subrange(self.lo, self.hi),
        }
    }
}

} // verus!
