//! The tokenizer: a pull interface over a source text that measures each
//! line's indentation and hands out one token at a time.

use crate::lexis::{
    in_class, lemma_lexeme_at, lemma_number_end, lemma_run_from_inside, lemma_step,
    lemma_string_end, lemma_token_bounds, lemma_token_pair, lemma_tokens_cover, covered,
    lexemes, number_end, opening, origin, run_end, step, stream, stream_from, string_end,
    CharClass, Cursor, Mode,
};
use crate::text::{
    byte_len, byte_offset, char_width, decode, digit, fits, id_char, indent_char, inline_space,
    is_digit, lemma_fits, lemma_offset_ends, lemma_offset_monotone, lemma_offset_step, line_end,
    slice,
};
use crate::token::{LexError, Lexeme, Token, TokenKind};
use vstd::prelude::*;

verus! {

/// The kind of token that the character `c` begins, given whether it is a
/// letter; `None` where it begins none.
pub fn opens(c: char, letter: bool) -> (kind: Option<TokenKind>)
    ensures
        kind == opening(c, letter),
{
    if c == '(' {
        Some(TokenKind::LParen)
    } else if c == ')' {
        Some(TokenKind::RParen)
    } else if c == '\'' {
        Some(TokenKind::Quote)
    } else if c == '"' {
        Some(TokenKind::String)
    } else if digit(c) {
        Some(TokenKind::Number)
    } else if letter {
        Some(TokenKind::Id)
    } else {
        None
    }
}

/// Whether `c` belongs to the class `k`.
pub fn has_class(k: CharClass, c: char) -> (b: bool)
    ensures
        b == in_class(k, c),
{
    match k {
        CharClass::Indent => indent_char(c),
        CharClass::InlineSpace => inline_space(c),
        CharClass::Digit => digit(c),
        CharClass::IdChar => id_char(c),
    }
}

/// A tokenizer over one source text. It keeps the text, its characters, the
/// position and byte offset it has reached, the line that position is on,
/// and whether it stands at the start of a line.
pub struct Lexer<'src> {
    src: &'src str,
    chars: Vec<char>,
    pos: usize,
    line: usize,
    offset: usize,
    state: Mode,
}

impl<'src> Lexer<'src> {
    /// The fields agree: the characters are those of the text, the position
    /// lies in it, the offset is that of the position, and no more lines
    /// were counted than characters passed.
    pub closed spec fn wf(&self) -> bool {
        &&& self.chars@ == self.src@
        &&& self.pos <= self.chars@.len()
        &&& self.line <= self.pos
        &&& self.offset == byte_offset(self.src@, self.pos as int)
        &&& fits(self.src@)
    }

    /// The text that is tokenized.
    pub closed spec fn source(&self) -> Seq<char> {
        self.src@
    }

    /// Where the tokenizer stands.
    pub closed spec fn cursor(&self) -> Cursor {
        Cursor { pos: self.pos as int, line: self.line as nat, mode: self.state }
    }

    /// A tokenizer at the start of `src`.
    pub fn new(src: &'src str) -> (lexer: Self)
        ensures
            lexer.wf(),
            lexer.source() == src@,
            lexer.cursor() == origin(),
    {
        let chars = decode(src);
        proof {
            lemma_offset_ends(src@);
        }
        Lexer { src, chars, pos: 0, line: 0, offset: 0, state: Mode::Indent }
    }

    /// The character at which the tokenizer stands, if the text has not
    /// ended.
    pub fn next_char(&self) -> (c: Option<char>)
        requires
            self.wf(),
        ensures
            c == if self.cursor().pos < self.source().len() {
                Some(self.source()[self.cursor().pos])
            } else {
                None
            },
    {
        if self.pos < self.chars.len() {
            Some(self.chars[self.pos])
        } else {
            None
        }
    }

    /// Byte offset of the position after `pos`.
    fn offset_after(&self, pos: usize, offset: usize) -> (next: usize)
        requires
            self.wf(),
            pos < self.src@.len(),
            offset == byte_offset(self.src@, pos as int),
        ensures
            next == byte_offset(self.src@, pos + 1),
    {
        proof {
            lemma_offset_step(self.src@, pos as int);
            lemma_offset_monotone(self.src@, pos + 1, self.src@.len() as int);
            lemma_offset_ends(self.src@);
        }
        offset + char_width(self.chars[pos])
    }

    /// End of the run of class `k` that begins at `pos`, as a position and
    /// as a byte offset.
    fn scan_run(&self, pos: usize, offset: usize, k: CharClass) -> (end: (usize, usize))
        requires
            self.wf(),
            pos <= self.src@.len(),
            offset == byte_offset(self.src@, pos as int),
        ensures
            end.0 == run_end(self.src@, pos as int, k),
            end.1 == byte_offset(self.src@, end.0 as int),
            pos <= end.0 <= self.src@.len(),
    {
        let mut i: usize = pos;
        let mut off: usize = offset;
        while i < self.chars.len() && has_class(k, self.chars[i])
            invariant
                self.wf(),
                pos <= i <= self.src@.len(),
                off == byte_offset(self.src@, i as int),
                forall|j: int| pos <= j < i ==> in_class(k, #[trigger] self.src@[j]),
            decreases self.src@.len() - i,
        {
            off = self.offset_after(i, off);
            i = i + 1;
        }
        proof {
            lemma_run_from_inside(self.src@, pos as int, i as int, k);
        }
        (i, off)
    }

    /// Passes over lines of indentation alone, counting them, and gives the
    /// `Indent` token of the first line that holds more, or of what is left
    /// of the text.
    fn scan_indent(&mut self) -> (token: Token<'src>)
        requires
            old(self).wf(),
            old(self).cursor().mode == Mode::Indent,
        ensures
            final(self).wf(),
            final(self).source() == old(self).source(),
            step(old(self).source(), old(self).cursor()) matches Ok((lx, next)) && token@
                == lx.render(old(self).source()) && final(self).cursor() == next,
    {
        loop
            invariant
                self.wf(),
                self.src == old(self).src,
                self.state == Mode::Indent,
                step(self.src@, self.cursor()) == step(old(self).src@, old(self).cursor()),
            decreases self.src@.len() - self.pos,
        {
            let (e, e_off) = self.scan_run(self.pos, self.offset, CharClass::Indent);
            if e < self.chars.len() && line_end(self.chars[e]) {
                let next_off = self.offset_after(e, e_off);
                self.pos = e + 1;
                self.offset = next_off;
                self.line = self.line + 1;
            } else {
                let start: usize = self.offset;
                let text = slice(self.src, start, start, Ghost(self.pos as int), Ghost(self.pos as int));
                let token = Token {
                    kind: TokenKind::Indent(e - self.pos),
                    line: self.line,
                    start_offset: start,
                    end_offset: start,
                    text,
                };
                self.pos = e;
                self.offset = e_off;
                self.state = Mode::Token;
                return token;
            }
        }
    }

    /// End of the number literal that begins at `pos`.
    fn scan_number(&self, pos: usize, offset: usize) -> (end: (usize, usize))
        requires
            self.wf(),
            pos < self.src@.len(),
            is_digit(self.src@[pos as int]),
            offset == byte_offset(self.src@, pos as int),
        ensures
            end.0 == number_end(self.src@, pos as int),
            end.1 == byte_offset(self.src@, end.0 as int),
            pos < end.0 <= self.src@.len(),
    {
        proof {
            lemma_number_end(self.src@, pos as int);
        }
        let n: usize = self.chars.len();
        let (a, a_off) = self.scan_run(pos, offset, CharClass::Digit);
        let (b, b_off) = if a < n && n - a > 1 && self.chars[a] == '.' && digit(self.chars[a + 1]) {
            let dot_off = self.offset_after(a, a_off);
            self.scan_run(a + 1, dot_off, CharClass::Digit)
        } else {
            (a, a_off)
        };
        if b < n && (self.chars[b] == 'e' || self.chars[b] == 'E') {
            let mark_off = self.offset_after(b, b_off);
            let (s, s_off) = if n - b > 1 && (self.chars[b + 1] == '+' || self.chars[b + 1]
                == '-') {
                (b + 2, self.offset_after(b + 1, mark_off))
            } else {
                (b + 1, mark_off)
            };
            if s < n && digit(self.chars[s]) {
                self.scan_run(s, s_off, CharClass::Digit)
            } else {
                (b, b_off)
            }
        } else {
            (b, b_off)
        }
    }

    /// End of the string literal whose opening quote stands at `pos`, or
    /// `None` where the line or the text ends before the closing quote.
    fn scan_string(&self, pos: usize, offset: usize) -> (end: Option<(usize, usize)>)
        requires
            self.wf(),
            pos < self.src@.len(),
            offset == byte_offset(self.src@, pos as int),
        ensures
            match string_end(self.src@, pos + 1) {
                Some(e) => end matches Some(found) && found.0 == e && found.1 == byte_offset(
                    self.src@,
                    e,
                ) && pos < e <= self.src@.len(),
                None => end is None,
            },
    {
        let n: usize = self.chars.len();
        let mut i: usize = pos + 1;
        let mut off: usize = self.offset_after(pos, offset);
        proof {
            lemma_string_end(self.src@, pos + 1);
        }
        while i < n
            invariant
                self.wf(),
                n == self.src@.len(),
                pos < i <= n,
                off == byte_offset(self.src@, i as int),
                string_end(self.src@, i as int) == string_end(self.src@, pos + 1),
            decreases n - i,
        {
            let c = self.chars[i];
            if c == '"' {
                let end_off = self.offset_after(i, off);
                return Some((i + 1, end_off));
            } else if c == '\n' {
                return None;
            } else if c == '\\' {
                if n - i > 1 && self.chars[i + 1] != '\n' {
                    let mid = self.offset_after(i, off);
                    off = self.offset_after(i + 1, mid);
                    i = i + 2;
                } else {
                    return None;
                }
            } else {
                off = self.offset_after(i, off);
                i = i + 1;
            }
        }
        None
    }

    /// End of the identifier that begins at `pos`.
    fn scan_id(&self, pos: usize, offset: usize) -> (end: (usize, usize))
        requires
            self.wf(),
            pos < self.src@.len(),
            offset == byte_offset(self.src@, pos as int),
        ensures
            end.0 == run_end(self.src@, pos + 1, CharClass::IdChar),
            end.1 == byte_offset(self.src@, end.0 as int),
            pos < end.0 <= self.src@.len(),
    {
        let n: usize = self.chars.len();
        let next_off = self.offset_after(pos, offset);
        self.scan_run(pos + 1, next_off, CharClass::IdChar)
    }

    /// The next token. After `Eof` every call gives `Eof` again; after an
    /// error the tokenizer stands where it stood, so the error comes again.
    pub fn next_token(&mut self) -> (r: Result<Token<'src>, LexError>)
        requires
            old(self).wf(),
        ensures
            final(self).wf(),
            final(self).source() == old(self).source(),
            match step(old(self).source(), old(self).cursor()) {
                Ok((lx, next)) => r matches Ok(token) && token@ == lx.render(old(self).source())
                    && final(self).cursor() == next,
                Err(e) => r matches Err(found) && found == e && final(self).cursor() == old(
                    self,
                ).cursor(),
            },
    {
        if let Mode::Indent = self.state {
            return Ok(self.scan_indent());
        }
        let n: usize = self.chars.len();
        let (p, p_off) = self.scan_run(self.pos, self.offset, CharClass::InlineSpace);
        if p >= n {
            let text = slice(self.src, p_off, p_off, Ghost(p as int), Ghost(p as int));
            self.pos = p;
            self.offset = p_off;
            return Ok(
                Token {
                    kind: TokenKind::Eof,
                    line: self.line,
                    start_offset: p_off,
                    end_offset: p_off,
                    text,
                },
            );
        }
        let c = self.chars[p];
        if c == '\n' {
            let next_off = self.offset_after(p, p_off);
            self.pos = p + 1;
            self.offset = next_off;
            self.line = self.line + 1;
            self.state = Mode::Indent;
            return Ok(self.scan_indent());
        }
        proof {
            lemma_lexeme_at(self.src@, p as int, self.line as nat);
        }
        let (kind, end, end_off) = match opens(c, c.is_alphabetic()) {
            None => {
                return Err(LexError::UnexpectedChar { ch: c, line: self.line });
            },
            Some(TokenKind::String) => match self.scan_string(p, p_off) {
                Some((e, e_off)) => (TokenKind::String, e, e_off),
                None => {
                    return Err(LexError::UnterminatedString { line: self.line });
                },
            },
            Some(TokenKind::Number) => {
                let (e, e_off) = self.scan_number(p, p_off);
                (TokenKind::Number, e, e_off)
            },
            Some(TokenKind::Id) => {
                let (e, e_off) = self.scan_id(p, p_off);
                (TokenKind::Id, e, e_off)
            },
            Some(kind) => (kind, p + 1, self.offset_after(p, p_off)),
        };
        let text = slice(self.src, p_off, end_off, Ghost(p as int), Ghost(end as int));
        let token = Token { kind, line: self.line, start_offset: p_off, end_offset: end_off, text };
        self.pos = end;
        self.offset = end_off;
        Ok(token)
    }
}

/// The tokens `ts` are the lexemes `ls` as they stand in `src`.
pub open spec fn tokens_render(src: Seq<char>, ls: Seq<Lexeme>, ts: Seq<Token>) -> bool {
    &&& ts.len() == ls.len()
    &&& forall|i: int| 0 <= i < ls.len() ==> (#[trigger] ts[i])@ == ls[i].render(src)
}

/// The end of a run of tokens is the end `end` of a stream as it stands in
/// `src`: the token `Eof`, or the same error.
pub open spec fn end_renders(src: Seq<char>, end: Result<Lexeme, LexError>, found: Result<Token, LexError>) -> bool {
    match end {
        Ok(eof) => found matches Ok(token) && token@ == eof.render(src),
        Err(e) => found matches Err(x) && x == e,
    }
}

/// The tokens stand apart from each other in their order; each takes as
/// many bytes as its text. A token begins after the one before it begins,
/// but after an `Indent` of width 0, which shares its offset with the token
/// that follows.
pub open spec fn offsets_in_order(ts: Seq<Token>) -> bool {
    &&& forall|i: int|
        0 <= i < ts.len() ==> (#[trigger] ts[i]).start_offset + byte_len(ts[i].text@)
            == ts[i].end_offset
    &&& forall|i: int, j: int|
        0 <= i < j < ts.len() ==> (#[trigger] ts[i]).end_offset <= (#[trigger] ts[j]).start_offset
    &&& forall|i: int, j: int|
        0 <= i < j < ts.len() ==> (#[trigger] ts[i]).start_offset < (#[trigger] ts[j]).start_offset
            || (j == i + 1 && ts[i].kind == TokenKind::Indent(0) && ts[i].start_offset
            == ts[j].start_offset)
}

/// Every token of `src` up to its end, and that end: the token `Eof`, or
/// the error at which tokenizing stopped.
pub fn tokenize<'src>(src: &'src str) -> (r: (Vec<Token<'src>>, Result<Token<'src>, LexError>))
    ensures
        fits(src@),
        tokens_render(src@, stream(src@).tokens, r.0@),
        end_renders(src@, stream(src@).end, r.1),
{
    let mut lexer = Lexer::new(src);
    let mut tokens: Vec<Token<'src>> = Vec::new();
    let ghost mut done: Seq<Lexeme> = Seq::empty();
    let n: usize = lexer.chars.len();
    assert(done + stream_from(src@, lexer.cursor()).tokens =~= stream(src@).tokens);
    loop
        invariant
            lexer.wf(),
            lexer.src@ == src@,
            n == src@.len(),
            stream(src@).tokens == done + stream_from(src@, lexer.cursor()).tokens,
            stream(src@).end == stream_from(src@, lexer.cursor()).end,
            tokens_render(src@, done, tokens@),
        decreases
                src@.len() - lexer.pos,
                (if lexer.state == Mode::Indent {
                    1int
                } else {
                    0int
                }),
    {
        let ghost cur = lexer.cursor();
        proof {
            lemma_step(src@, cur);
        }
        match lexer.next_token() {
            Err(e) => {
                return (tokens, Err(e));
            },
            Ok(token) => {
                match token.kind {
                    TokenKind::Eof => {
                        return (tokens, Ok(token));
                    },
                    _ => {
                        proof {
                            let lx = step(src@, cur)->Ok_0.0;
                            let rest = stream_from(src@, lexer.cursor());
                            assert(stream_from(src@, cur).tokens == seq![lx] + rest.tokens);
                            assert(done + (seq![lx] + rest.tokens) =~= done.push(lx)
                                + rest.tokens);
                            done = done.push(lx);
                        }
                        tokens.push(token);
                    },
                }
            },
        }
    }
}

/// The tokens of `src`, `Eof` left out, or the first error.
pub fn scan<'src>(src: &'src str) -> (r: Result<Vec<Token<'src>>, LexError>)
    ensures
        match lexemes(src@) {
            Ok(ls) => r matches Ok(tokens) && tokens_render(src@, ls, tokens@) && offsets_in_order(
                tokens@,
            ) && covered(src@, ls),
            Err(e) => r matches Err(x) && x == e,
        },
{
    let (tokens, end) = tokenize(src);
    match end {
        Ok(_) => {
            proof {
                lemma_fits(src@);
                lemma_rendered_in_order(src@, tokens@);
                lemma_tokens_cover(src@);
            }
            Ok(tokens)
        },
        Err(e) => Err(e),
    }
}

/// The byte offsets of the tokens of a text follow the layout of its
/// lexemes.
pub proof fn lemma_rendered_in_order(src: Seq<char>, ts: Seq<Token>)
    requires
        src.len() <= usize::MAX,
        tokens_render(src, stream(src).tokens, ts),
    ensures
        offsets_in_order(ts),
{
    let ls = stream(src).tokens;
    assert forall|i: int| 0 <= i < ts.len() implies (#[trigger] ts[i]).start_offset + byte_len(
        ts[i].text@,
    ) == ts[i].end_offset by {
        assert(ts[i]@ == ls[i].render(src));
        lemma_token_bounds(src, i);
        lemma_offset_monotone(src, ls[i].lo, ls[i].hi);
    }
    assert forall|i: int, j: int| 0 <= i < j < ts.len() implies (#[trigger] ts[i]).end_offset <= (
    #[trigger] ts[j]).start_offset && (ts[i].start_offset < ts[j].start_offset || (j == i + 1
        && ts[i].kind == TokenKind::Indent(0) && ts[i].start_offset == ts[j].start_offset)) by {
        assert(ts[i]@ == ls[i].render(src));
        assert(ts[j]@ == ls[j].render(src));
        lemma_token_pair(src, i, j);
        lemma_offset_monotone(src, ls[i].hi, ls[j].lo);
        lemma_offset_monotone(src, ls[i].lo, ls[j].lo);
    }
}

} // verus!
