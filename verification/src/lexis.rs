//! The lexical grammar, as functions on a text and a position in it.

use crate::text::{alphabetic, is_digit, is_id_char, is_indent_char, is_inline_space, is_line_end, is_space};
use crate::token::{LexError, Lexeme, TokenKind};
use vstd::prelude::*;

verus! {

/// The classes of characters of which the grammar takes whole runs.
#[derive(Clone, Copy, Debug)]
pub enum CharClass {
    Indent,
    InlineSpace,
    Digit,
    IdChar,
}

/// Whether `c` belongs to the class `k`.
pub open spec fn in_class(k: CharClass, c: char) -> bool {
    match k {
        CharClass::Indent => is_indent_char(c),
        CharClass::InlineSpace => is_inline_space(c),
        CharClass::Digit => is_digit(c),
        CharClass::IdChar => is_id_char(c),
    }
}

/// Length of the longest run of characters of class `k` that begins at `pos`.
pub open spec fn run_len(src: Seq<char>, pos: int, k: CharClass) -> nat
    decreases src.len() - pos,
{
    if 0 <= pos < src.len() && in_class(k, src[pos]) {
        1 + run_len(src, pos + 1, k)
    } else {
        0
    }
}

/// Position at which the run of class `k` that begins at `pos` ends.
pub open spec fn run_end(src: Seq<char>, pos: int, k: CharClass) -> int {
    pos + run_len(src, pos, k)
}

/// Position after the number literal that begins at `pos`: digits, then
/// optionally a point and digits, then optionally an exponent mark, a sign
/// and digits; each optional part only where it is complete.
pub open spec fn number_end(src: Seq<char>, pos: int) -> int {
    let a = run_end(src, pos, CharClass::Digit);
    let b = if a + 1 < src.len() && src[a] == '.' && is_digit(src[a + 1]) {
        run_end(src, a + 1, CharClass::Digit)
    } else {
        a
    };
    let s = if b + 1 < src.len() && (src[b + 1] == '+' || src[b + 1] == '-') {
        b + 2
    } else {
        b + 1
    };
    if b < src.len() && (src[b] == 'e' || src[b] == 'E') && s < src.len() && is_digit(src[s]) {
        run_end(src, s, CharClass::Digit)
    } else {
        b
    }
}

/// Position after the closing quote of a string literal whose content
/// continues at `pos`, or `None` where the line or the text ends first. A
/// backslash takes the character after it along, whatever it is, but a
/// newline.
pub open spec fn string_end(src: Seq<char>, pos: int) -> Option<int>
    decreases src.len() - pos,
{
    if pos < 0 || pos >= src.len() {
        None
    } else if src[pos] == '"' {
        Some(pos + 1)
    } else if src[pos] == '\n' {
        None
    } else if src[pos] == '\\' {
        if pos + 1 < src.len() && src[pos + 1] != '\n' {
            string_end(src, pos + 2)
        } else {
            None
        }
    } else {
        string_end(src, pos + 1)
    }
}

/// The kind of token that the character `c` begins, given whether it is a
/// letter; `None` where it begins none. Parentheses and the quote mark are
/// tokens by themselves, a double quote begins a string, a digit a number,
/// a letter an identifier.
pub open spec fn opening(c: char, letter: bool) -> Option<TokenKind> {
    if c == '(' {
        Some(TokenKind::LParen)
    } else if c == ')' {
        Some(TokenKind::RParen)
    } else if c == '\'' {
        Some(TokenKind::Quote)
    } else if c == '"' {
        Some(TokenKind::String)
    } else if is_digit(c) {
        Some(TokenKind::Number)
    } else if letter {
        Some(TokenKind::Id)
    } else {
        None
    }
}

/// The token that begins at `pos`, a position in the text that holds no
/// whitespace.
pub open spec fn lexeme_at(src: Seq<char>, pos: int, line: nat) -> Result<Lexeme, LexError> {
    match opening(src[pos], alphabetic(src[pos])) {
        None => Err(LexError::UnexpectedChar { ch: src[pos], line: line as usize }),
        Some(TokenKind::String) => match string_end(src, pos + 1) {
            Some(e) => Ok(Lexeme { kind: TokenKind::String, line, lo: pos, hi: e }),
            None => Err(LexError::UnterminatedString { line: line as usize }),
        },
        Some(TokenKind::Number) => Ok(
            Lexeme { kind: TokenKind::Number, line, lo: pos, hi: number_end(src, pos) },
        ),
        Some(TokenKind::Id) => Ok(
            Lexeme {
                kind: TokenKind::Id,
                line,
                lo: pos,
                hi: run_end(src, pos + 1, CharClass::IdChar),
            },
        ),
        Some(kind) => Ok(Lexeme { kind, line, lo: pos, hi: pos + 1 }),
    }
}

/// The two states of the tokenizer: at the start of a line, where
/// indentation is measured, and inside a line.
#[derive(Clone, Copy, Debug, PartialEq, Eq, Structural)]
pub enum Mode {
    Indent,
    Token,
}

/// Where the tokenizer stands in a text.
pub ghost struct Cursor {
    pub pos: int,
    pub line: nat,
    pub mode: Mode,
}

/// Where tokenizing begins.
pub open spec fn origin() -> Cursor {
    Cursor { pos: 0, line: 0, mode: Mode::Indent }
}

/// The next token from `cur` on, and where the tokenizer stands after it.
///
/// At the start of a line the indentation is measured; a line of
/// indentation alone is passed over and counted. Otherwise a token `Indent`
/// of no length marks the start of the line. Inside a line whitespace is
/// passed over; a newline leads to the start of the next line; the end of
/// the text gives `Eof`, again and again.
pub open spec fn step(src: Seq<char>, cur: Cursor) -> Result<(Lexeme, Cursor), LexError>
    decreases src.len() - cur.pos,
{
    match cur.mode {
        Mode::Indent => {
            let e = run_end(src, cur.pos, CharClass::Indent);
            if 0 <= cur.pos && e < src.len() && is_line_end(src[e]) {
                step(src, Cursor { pos: e + 1, line: cur.line + 1, mode: Mode::Indent })
            } else {
                Ok(
                    (
                        Lexeme {
                            kind: TokenKind::Indent((e - cur.pos) as usize),
                            line: cur.line,
                            lo: cur.pos,
                            hi: cur.pos,
                        },
                        Cursor { pos: e, line: cur.line, mode: Mode::Token },
                    ),
                )
            }
        },
        Mode::Token => {
            let p = run_end(src, cur.pos, CharClass::InlineSpace);
            if cur.pos < 0 || p >= src.len() {
                Ok(
                    (
                        Lexeme { kind: TokenKind::Eof, line: cur.line, lo: p, hi: p },
                        Cursor { pos: p, line: cur.line, mode: Mode::Token },
                    ),
                )
            } else if src[p] == '\n' {
                step(src, Cursor { pos: p + 1, line: cur.line + 1, mode: Mode::Indent })
            } else {
                match lexeme_at(src, p, cur.line) {
                    Ok(lx) => Ok((lx, Cursor { pos: lx.hi, line: cur.line, mode: Mode::Token })),
                    Err(e) => Err(e),
                }
            }
        },
    }
}

/// No character between `a` and `b` is anything but whitespace.
pub open spec fn blank(src: Seq<char>, a: int, b: int) -> bool {
    forall|k: int| a <= k < b && 0 <= k < src.len() ==> is_space(#[trigger] src[k])
}

/// The tokenizer stands inside a line, at a character that is no whitespace
/// or at the end of the text.
pub open spec fn settled(src: Seq<char>, cur: Cursor) -> bool {
    cur.mode == Mode::Token && (cur.pos >= src.len() || !is_space(src[cur.pos]))
}

/// A run ends inside the text, holds only its class, and cannot go on.
pub proof fn lemma_run(src: Seq<char>, pos: int, k: CharClass)
    requires
        0 <= pos <= src.len(),
    ensures
        pos <= run_end(src, pos, k) <= src.len(),
        forall|i: int| pos <= i < run_end(src, pos, k) ==> in_class(k, #[trigger] src[i]),
        run_end(src, pos, k) < src.len() ==> !in_class(k, src[run_end(src, pos, k)]),
    decreases src.len() - pos,
{
    if pos < src.len() && in_class(k, src[pos]) {
        lemma_run(src, pos + 1, k);
    }
}

/// A run that has begun ends where the run from any place inside it ends.
pub proof fn lemma_run_from_inside(src: Seq<char>, pos: int, mid: int, k: CharClass)
    requires
        0 <= pos <= mid <= src.len(),
        forall|i: int| pos <= i < mid ==> in_class(k, #[trigger] src[i]),
    ensures
        run_end(src, pos, k) == run_end(src, mid, k),
    decreases mid - pos,
{
    if pos < mid {
        assert(in_class(k, src[pos]));
        lemma_run_from_inside(src, pos + 1, mid, k);
    }
}

/// A number literal ends after its first digit or later, inside the text.
pub proof fn lemma_number_end(src: Seq<char>, pos: int)
    requires
        0 <= pos < src.len(),
        is_digit(src[pos]),
    ensures
        pos < number_end(src, pos) <= src.len(),
{
    lemma_run(src, pos, CharClass::Digit);
    let a = run_end(src, pos, CharClass::Digit);
    assert(in_class(CharClass::Digit, src[pos]));
    if a + 1 < src.len() {
        lemma_run(src, a + 1, CharClass::Digit);
    }
    let b = if a + 1 < src.len() && src[a] == '.' && is_digit(src[a + 1]) {
        run_end(src, a + 1, CharClass::Digit)
    } else {
        a
    };
    let s = if b + 1 < src.len() && (src[b + 1] == '+' || src[b + 1] == '-') {
        b + 2
    } else {
        b + 1
    };
    if s < src.len() {
        lemma_run(src, s, CharClass::Digit);
    }
}

/// A string literal ends after the place where its content is taken up.
pub proof fn lemma_string_end(src: Seq<char>, pos: int)
    requires
        0 <= pos,
    ensures
        string_end(src, pos) matches Some(e) ==> pos < e <= src.len(),
    decreases src.len() - pos,
{
    if pos < src.len() && src[pos] != '"' && src[pos] != '\n' {
        if src[pos] == '\\' {
            if pos + 1 < src.len() && src[pos + 1] != '\n' {
                lemma_string_end(src, pos + 2);
            }
        } else {
            lemma_string_end(src, pos + 1);
        }
    }
}

/// A token that begins at `pos` is not empty and ends inside the text.
pub proof fn lemma_lexeme_at(src: Seq<char>, pos: int, line: nat)
    requires
        0 <= pos < src.len(),
    ensures
        lexeme_at(src, pos, line) matches Ok(lx) ==> lx.lo == pos && pos < lx.hi <= src.len()
            && lx.line == line && !(lx.kind is Indent) && !(lx.kind is Eof),
{
    lemma_string_end(src, pos + 1);
    if is_digit(src[pos]) {
        lemma_number_end(src, pos);
    }
    lemma_run(src, pos + 1, CharClass::IdChar);
}

/// What one step of the tokenizer does to the text: it passes over
/// whitespace only, and the token it gives lies between where it stood and
/// where it stands.
pub proof fn lemma_step(src: Seq<char>, cur: Cursor)
    requires
        0 <= cur.pos <= src.len(),
    ensures
        step(src, cur) matches Ok((lx, next)) ==> {
            &&& cur.pos <= lx.lo <= lx.hi <= next.pos <= src.len()
            &&& blank(src, cur.pos, lx.lo)
            &&& blank(src, lx.hi, next.pos)
            &&& next.mode == Mode::Token
            &&& next.line == lx.line
            &&& cur.line <= lx.line
            &&& lx.line - cur.line <= lx.lo - cur.pos
            &&& (lx.kind is Eof ==> lx.lo == src.len() && next.pos == src.len())
            &&& (lx.kind matches TokenKind::Indent(w) ==> lx.lo == lx.hi && settled(src, next) && (
            src.len() <= usize::MAX ==> w == next.pos - lx.lo))
            &&& (settled(src, cur) ==> lx.lo == cur.pos && !(lx.kind is Indent))
            &&& (cur.mode == Mode::Token && !(lx.kind is Eof) ==> cur.pos < next.pos)
            &&& (!(lx.kind is Indent) ==> next.pos == lx.hi)
            &&& (!(lx.kind is Indent) && !(lx.kind is Eof) ==> lx.lo < lx.hi)
        },
    decreases src.len() - cur.pos,
{
    match cur.mode {
        Mode::Indent => {
            lemma_run(src, cur.pos, CharClass::Indent);
            let e = run_end(src, cur.pos, CharClass::Indent);
            if e < src.len() && is_line_end(src[e]) {
                let after = Cursor { pos: e + 1, line: cur.line + 1, mode: Mode::Indent };
                lemma_step(src, after);
                assert forall|k: int| cur.pos <= k < e + 1 implies is_space(#[trigger] src[k]) by {
                    if k < e {
                        assert(in_class(CharClass::Indent, src[k]));
                    }
                }
            } else {
                assert forall|k: int| cur.pos <= k < e implies is_space(#[trigger] src[k]) by {
                    assert(in_class(CharClass::Indent, src[k]));
                }
            }
        },
        Mode::Token => {
            lemma_run(src, cur.pos, CharClass::InlineSpace);
            let p = run_end(src, cur.pos, CharClass::InlineSpace);
            assert forall|k: int| cur.pos <= k < p implies is_space(#[trigger] src[k]) by {
                assert(in_class(CharClass::InlineSpace, src[k]));
            }
            if p >= src.len() {
            } else if src[p] == '\n' {
                let after = Cursor { pos: p + 1, line: cur.line + 1, mode: Mode::Indent };
                lemma_step(src, after);
            } else {
                lemma_lexeme_at(src, p, cur.line);
            }
        },
    }
}

/// The tokens of a text from some place on, and what ends them: the token
/// `Eof`, or the error at which tokenizing stops.
pub ghost struct Stream {
    pub tokens: Seq<Lexeme>,
    pub end: Result<Lexeme, LexError>,
}

/// The tokens that `step` gives from `cur` on, up to `Eof` or an error.
pub open spec fn stream_from(src: Seq<char>, cur: Cursor) -> Stream
    decreases src.len() - cur.pos, (if cur.mode == Mode::Indent { 1int } else { 0int }),
    when 0 <= cur.pos <= src.len()
{
    match step(src, cur) {
        Err(e) => Stream { tokens: Seq::empty(), end: Err(e) },
        Ok((lx, next)) => {
            if lx.kind is Eof {
                Stream { tokens: Seq::empty(), end: Ok(lx) }
            } else {
                proof {
                    lemma_step(src, cur);
                }
                let rest = stream_from(src, next);
                Stream { tokens: seq![lx] + rest.tokens, end: rest.end }
            }
        },
    }
}

/// The tokens of a whole text.
pub open spec fn stream(src: Seq<char>) -> Stream {
    stream_from(src, origin())
}

/// The tokens of a text, `Eof` left out, or the error that tokenizing it
/// meets.
pub open spec fn lexemes(src: Seq<char>) -> Result<Seq<Lexeme>, LexError> {
    match stream(src).end {
        Ok(_) => Ok(stream(src).tokens),
        Err(e) => Err(e),
    }
}

/// Where the token before token `i` ends; `from` for the first.
pub open spec fn prev_end(from: int, ts: Seq<Lexeme>, i: int) -> int {
    if i <= 0 {
        from
    } else {
        ts[i - 1].hi
    }
}

/// Where whatever follows token `i` begins: the next token, or `Eof`.
pub open spec fn next_start(st: Stream, i: int) -> int {
    if i + 1 < st.tokens.len() {
        st.tokens[i + 1].lo
    } else {
        st.end->Ok_0.lo
    }
}

/// The tokens stand in the text from `from` on in their order, apart from
/// each other, with nothing but whitespace before each. An `Indent` has no
/// length, every other token has, and none is `Eof`. Lines never go back.
pub open spec fn laid_out(src: Seq<char>, from: int, ts: Seq<Lexeme>) -> bool {
    forall|i: int|
        0 <= i < ts.len() ==> {
            &&& prev_end(from, ts, i) <= (#[trigger] ts[i]).lo <= ts[i].hi <= src.len()
            &&& blank(src, prev_end(from, ts, i), ts[i].lo)
            &&& (ts[i].kind is Indent ==> ts[i].lo == ts[i].hi)
            &&& (!(ts[i].kind is Indent) ==> ts[i].lo < ts[i].hi)
            &&& !(ts[i].kind is Eof)
            &&& (i > 0 ==> ts[i - 1].line <= ts[i].line)
        }
}

/// Every character of the text is whitespace or lies inside a token.
pub open spec fn covered(src: Seq<char>, ts: Seq<Lexeme>) -> bool {
    forall|k: int|
        0 <= k < src.len() ==> is_space(#[trigger] src[k]) || exists|i: int|
            0 <= i < ts.len() && (#[trigger] ts[i]).lo <= k < ts[i].hi
}

/// After an `Indent` of width `w` comes a token that is no `Indent`, or
/// `Eof`, and it begins `w` characters after the start of the line.
pub open spec fn indents_measured(st: Stream) -> bool {
    forall|i: int|
        0 <= i < st.tokens.len() ==> ((#[trigger] st.tokens[i]).kind matches TokenKind::Indent(w)
            ==> {
            &&& (i + 1 < st.tokens.len() ==> !(st.tokens[i + 1].kind is Indent))
            &&& (i + 1 < st.tokens.len() || st.end is Ok ==> next_start(st, i) == st.tokens[i].lo
                + w)
        })
}

/// Where the tokens end with `Eof`, it stands at the end of the text, and
/// only whitespace lies between the last token and it.
pub open spec fn ends_clean(src: Seq<char>, from: int, st: Stream) -> bool {
    st.end matches Ok(eof) ==> {
        &&& eof.kind is Eof
        &&& eof.lo == src.len()
        &&& eof.hi == src.len()
        &&& blank(src, prev_end(from, st.tokens, st.tokens.len() as int), src.len() as int)
        &&& (st.tokens.len() > 0 ==> st.tokens.last().line <= eof.line)
    }
}

/// The layout of the tokens from any place on.
pub proof fn lemma_stream_from(src: Seq<char>, cur: Cursor)
    requires
        0 <= cur.pos <= src.len() <= usize::MAX,
    ensures
        laid_out(src, cur.pos, stream_from(src, cur).tokens),
        indents_measured(stream_from(src, cur)),
        ends_clean(src, cur.pos, stream_from(src, cur)),
        forall|i: int|
            0 <= i < stream_from(src, cur).tokens.len() ==> cur.line <= (
            #[trigger] stream_from(src, cur).tokens[i]).line,
        stream_from(src, cur).end matches Ok(eof) ==> cur.line <= eof.line,
        settled(src, cur) && stream_from(src, cur).tokens.len() > 0 ==> stream_from(
            src,
            cur,
        ).tokens[0].lo == cur.pos && !(stream_from(src, cur).tokens[0].kind is Indent),
        settled(src, cur) && stream_from(src, cur).tokens.len() == 0 && stream_from(
            src,
            cur,
        ).end is Ok ==> cur.pos == src.len(),
    decreases src.len() - cur.pos, (if cur.mode == Mode::Indent { 1int } else { 0int }),
{
    lemma_step(src, cur);
    let st = stream_from(src, cur);
    match step(src, cur) {
        Err(e) => {},
        Ok((lx, next)) => {
            if lx.kind is Eof {
            } else {
                let rest = stream_from(src, next);
                lemma_stream_from(src, next);
                let ts = st.tokens;
                assert(ts == seq![lx] + rest.tokens);
                assert(ts[0] == lx);
                assert forall|i: int| 0 <= i < ts.len() implies {
                    &&& prev_end(cur.pos, ts, i) <= (#[trigger] ts[i]).lo <= ts[i].hi <= src.len()
                    &&& blank(src, prev_end(cur.pos, ts, i), ts[i].lo)
                    &&& (ts[i].kind is Indent ==> ts[i].lo == ts[i].hi)
                    &&& (!(ts[i].kind is Indent) ==> ts[i].lo < ts[i].hi)
                    &&& !(ts[i].kind is Eof)
                    &&& (i > 0 ==> ts[i - 1].line <= ts[i].line)
                    &&& cur.line <= ts[i].line
                } by {
                    if i > 0 {
                        assert(ts[i] == rest.tokens[i - 1]);
                        assert(ts[i - 1] == if i == 1 {
                            lx
                        } else {
                            rest.tokens[i - 2]
                        });
                        assert(prev_end(next.pos, rest.tokens, i - 1) == if i == 1 {
                            next.pos
                        } else {
                            rest.tokens[i - 2].hi
                        });
                    }
                }
                assert forall|i: int| 0 <= i < ts.len() implies ((#[trigger] ts[i]).kind matches TokenKind::Indent(
                    w,
                ) ==> {
                    &&& (i + 1 < ts.len() ==> !(ts[i + 1].kind is Indent))
                    &&& (i + 1 < ts.len() || st.end is Ok ==> next_start(st, i) == ts[i].lo + w)
                }) by {
                    if i > 0 {
                        assert(ts[i] == rest.tokens[i - 1]);
                        if i + 1 < ts.len() {
                            assert(ts[i + 1] == rest.tokens[i]);
                        }
                        assert(next_start(st, i) == next_start(rest, i - 1));
                    } else {
                        if 1 < ts.len() {
                            assert(ts[1] == rest.tokens[0]);
                        }
                    }
                }
                if rest.tokens.len() > 0 {
                    assert(ts.last() == rest.tokens.last());
                    assert(ts[ts.len() - 1] == rest.tokens[rest.tokens.len() - 1]);
                }
                assert(prev_end(cur.pos, ts, ts.len() as int) == if rest.tokens.len() == 0 {
                    lx.hi
                } else {
                    prev_end(next.pos, rest.tokens, rest.tokens.len() as int)
                });
            }
        },
    }
}

/// The tokens of a text stand in it in their order and apart from each
/// other; with the whitespace between them they make up the whole text.
/// The start of each token lies after the start of the one before it, but
/// where that one is an `Indent` of width 0, which shares its place with
/// the token that follows.
pub proof fn lemma_tokens_cover(src: Seq<char>)
    requires
        src.len() <= usize::MAX,
    ensures
        laid_out(src, 0, stream(src).tokens),
        indents_measured(stream(src)),
        ends_clean(src, 0, stream(src)),
        forall|i: int, j: int|
            0 <= i < j < stream(src).tokens.len() ==> (#[trigger] stream(src).tokens[i]).hi <= (
            #[trigger] stream(src).tokens[j]).lo,
        forall|i: int, j: int|
            0 <= i < j < stream(src).tokens.len() ==> (#[trigger] stream(src).tokens[i]).lo < (
            #[trigger] stream(src).tokens[j]).lo || (j == i + 1 && stream(src).tokens[i].kind
                == TokenKind::Indent(0) && stream(src).tokens[i].lo == stream(src).tokens[j].lo),
        lexemes(src) is Ok ==> covered(src, stream(src).tokens),
{
    lemma_stream_from(src, origin());
    let st = stream(src);
    let ts = st.tokens;
    assert forall|i: int, j: int| 0 <= i < j < ts.len() implies (#[trigger] ts[i]).hi <= (
    #[trigger] ts[j]).lo && (ts[i].lo < ts[j].lo || (j == i + 1 && ts[i].kind
        == TokenKind::Indent(0) && ts[i].lo == ts[j].lo)) by {
        lemma_token_pair(src, i, j);
    }
    if lexemes(src) is Ok {
        assert forall|k: int| 0 <= k < src.len() implies is_space(#[trigger] src[k]) || exists|
            i: int,
        |
            0 <= i < ts.len() && (#[trigger] ts[i]).lo <= k < ts[i].hi by {
            lemma_covered(src, st, k, ts.len() as int);
        }
    }
}

/// Two tokens of a text: the earlier ends before the later begins, and
/// begins before it too, but where it is an `Indent` of width 0 right
/// before it.
pub proof fn lemma_token_pair(src: Seq<char>, i: int, j: int)
    requires
        src.len() <= usize::MAX,
        0 <= i < j < stream(src).tokens.len(),
    ensures
        0 <= stream(src).tokens[i].lo <= stream(src).tokens[i].hi <= stream(src).tokens[j].lo
            <= stream(src).tokens[j].hi <= src.len(),
        stream(src).tokens[i].lo < stream(src).tokens[j].lo || (j == i + 1 && stream(
            src,
        ).tokens[i].kind == TokenKind::Indent(0) && stream(src).tokens[i].lo == stream(
            src,
        ).tokens[j].lo),
{
    lemma_stream_from(src, origin());
    let ts = stream(src).tokens;
    lemma_apart(src, ts, i, j);
    lemma_inside(src, ts, i);
    lemma_inside(src, ts, j);
    if ts[i].kind is Indent {
        assert(!(ts[i + 1].kind is Indent));
        assert(ts[i + 1].lo < ts[i + 1].hi);
        if i + 1 < j {
            lemma_apart(src, ts, i + 1, j);
        }
    } else {
        assert(ts[i].lo < ts[i].hi);
    }
}

/// One token of a text lies inside it.
pub proof fn lemma_token_bounds(src: Seq<char>, i: int)
    requires
        src.len() <= usize::MAX,
        0 <= i < stream(src).tokens.len(),
    ensures
        0 <= stream(src).tokens[i].lo <= stream(src).tokens[i].hi <= src.len(),
{
    lemma_stream_from(src, origin());
    lemma_inside(src, stream(src).tokens, i);
}

/// A token that is laid out lies inside the text.
proof fn lemma_inside(src: Seq<char>, ts: Seq<Lexeme>, i: int)
    requires
        laid_out(src, 0, ts),
        0 <= i < ts.len(),
    ensures
        0 <= ts[i].lo <= ts[i].hi <= src.len(),
{
    assert(0 <= ts[0].lo);
    if i > 0 {
        lemma_apart(src, ts, 0, i);
    }
}

/// Of two tokens the later begins where the earlier ends, or after.
proof fn lemma_apart(src: Seq<char>, ts: Seq<Lexeme>, i: int, j: int)
    requires
        laid_out(src, 0, ts),
        0 <= i < j < ts.len(),
    ensures
        ts[i].hi <= ts[j].lo,
        ts[i].lo <= ts[j].lo,
    decreases j - i,
{
    assert(ts[j - 1].hi <= ts[j].lo);
    assert(ts[i].lo <= ts[i].hi);
    if i + 1 < j {
        lemma_apart(src, ts, i, j - 1);
        assert(ts[j - 1].lo <= ts[j - 1].hi);
    }
}

/// A character before the end of the first `n` tokens' reach is whitespace
/// or inside one of them.
proof fn lemma_covered(src: Seq<char>, st: Stream, k: int, n: int)
    requires
        laid_out(src, 0, st.tokens),
        0 <= n <= st.tokens.len(),
        0 <= k < src.len(),
        n == st.tokens.len() ==> blank(src, prev_end(0, st.tokens, n), src.len() as int),
        n < st.tokens.len() ==> k < st.tokens[n].lo,
    ensures
        is_space(src[k]) || exists|i: int|
            0 <= i < st.tokens.len() && (#[trigger] st.tokens[i]).lo <= k < st.tokens[i].hi,
    decreases n,
{
    let ts = st.tokens;
    if n == 0 {
        if 0 < ts.len() {
            assert(blank(src, 0, ts[0].lo));
        }
    } else {
        if n < ts.len() {
            assert(blank(src, ts[n - 1].hi, ts[n].lo));
        }
        if k < ts[n - 1].lo {
            lemma_covered(src, st, k, n - 1);
        }
    }
}

} // verus!
