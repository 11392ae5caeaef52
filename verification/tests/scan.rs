use indent_lisp::{scan, LexError, Lexer, Token, TokenKind};

fn brief<'a>(t: &Token<'a>) -> (TokenKind, usize, usize, usize, &'a str) {
    (t.kind, t.line, t.start_offset, t.end_offset, t.text)
}

fn briefs<'a>(src: &'a str) -> Vec<(TokenKind, usize, usize, usize, &'a str)> {
    scan(src).unwrap().iter().map(brief).collect()
}

fn is_blank(text: &str) -> bool {
    text.chars().all(|c| c == ' ' || c == '\t' || c == '\n' || c == '\r' || c == '\x0C')
}

/// Checks the layout of the tokens of `src`: in order, apart, each with the
/// text between its offsets, and nothing but whitespace between them.
fn check_layout(src: &str) {
    let tokens = scan(src).unwrap();
    let mut at = 0;
    let mut zero_indent_before = false;
    let mut first = true;
    for t in tokens.iter() {
        assert!(t.start_offset <= t.end_offset);
        assert!(t.end_offset <= src.len());
        assert!(at <= t.start_offset);
        assert_eq!(&src[t.start_offset..t.end_offset], t.text);
        assert!(is_blank(&src[at..t.start_offset]));
        if !first && !zero_indent_before {
            assert!(at <= t.start_offset);
        }
        match t.kind {
            TokenKind::Indent(w) => {
                assert_eq!(t.start_offset, t.end_offset);
                assert!(is_blank(&src[t.start_offset..t.start_offset + w]));
                zero_indent_before = w == 0;
            }
            TokenKind::Eof => panic!("Eof among the tokens"),
            _ => {
                assert!(t.start_offset < t.end_offset);
                zero_indent_before = false;
            }
        }
        at = t.end_offset;
        first = false;
    }
    assert!(is_blank(&src[at..]));
}

#[test]
fn scan_list_on_one_line() {
    assert_eq!(
        briefs("(a b c)"),
        vec![
            (TokenKind::Indent(0), 0, 0, 0, ""),
            (TokenKind::LParen, 0, 0, 1, "("),
            (TokenKind::Id, 0, 1, 2, "a"),
            (TokenKind::Id, 0, 3, 4, "b"),
            (TokenKind::Id, 0, 5, 6, "c"),
            (TokenKind::RParen, 0, 6, 7, ")"),
        ]
    );
}

#[test]
fn scan_empty_text_gives_one_indent() {
    assert_eq!(briefs(""), vec![(TokenKind::Indent(0), 0, 0, 0, "")]);
}

#[test]
fn scan_skips_blank_lines_and_counts_them() {
    assert_eq!(
        briefs("a\n\n  \n  b"),
        vec![
            (TokenKind::Indent(0), 0, 0, 0, ""),
            (TokenKind::Id, 0, 0, 1, "a"),
            (TokenKind::Indent(2), 3, 6, 6, ""),
            (TokenKind::Id, 3, 8, 9, "b"),
        ]
    );
}

#[test]
fn scan_counts_tabs_and_spaces_alike() {
    assert_eq!(
        briefs("\t \tx"),
        vec![(TokenKind::Indent(3), 0, 0, 0, ""), (TokenKind::Id, 0, 3, 4, "x")]
    );
}

#[test]
fn scan_trailing_newline_leaves_an_indent() {
    assert_eq!(
        briefs("a\n   "),
        vec![
            (TokenKind::Indent(0), 0, 0, 0, ""),
            (TokenKind::Id, 0, 0, 1, "a"),
            (TokenKind::Indent(3), 1, 2, 2, ""),
        ]
    );
}

#[test]
fn scan_carriage_return_inside_a_line_is_whitespace() {
    assert_eq!(
        briefs("a\r\nb"),
        vec![
            (TokenKind::Indent(0), 0, 0, 0, ""),
            (TokenKind::Id, 0, 0, 1, "a"),
            (TokenKind::Indent(0), 1, 3, 3, ""),
            (TokenKind::Id, 1, 3, 4, "b"),
        ]
    );
}

#[test]
fn scan_carriage_return_ends_a_blank_line() {
    assert_eq!(
        briefs("a\n\r\nb"),
        vec![
            (TokenKind::Indent(0), 0, 0, 0, ""),
            (TokenKind::Id, 0, 0, 1, "a"),
            (TokenKind::Indent(0), 3, 4, 4, ""),
            (TokenKind::Id, 3, 4, 5, "b"),
        ]
    );
}

#[test]
fn scan_offsets_are_bytes() {
    assert_eq!(
        briefs("λx (é)"),
        vec![
            (TokenKind::Indent(0), 0, 0, 0, ""),
            (TokenKind::Id, 0, 0, 3, "λx"),
            (TokenKind::LParen, 0, 4, 5, "("),
            (TokenKind::Id, 0, 5, 7, "é"),
            (TokenKind::RParen, 0, 7, 8, ")"),
        ]
    );
}

#[test]
fn scan_identifier_takes_symbols_after_its_first_letter() {
    assert_eq!(
        briefs("set-car! a<=b? x9"),
        vec![
            (TokenKind::Indent(0), 0, 0, 0, ""),
            (TokenKind::Id, 0, 0, 8, "set-car!"),
            (TokenKind::Id, 0, 9, 14, "a<=b?"),
            (TokenKind::Id, 0, 15, 17, "x9"),
        ]
    );
}

#[test]
fn scan_symbol_cannot_begin_an_identifier() {
    assert_eq!(scan("+").unwrap_err(), LexError::UnexpectedChar { ch: '+', line: 0 });
    assert_eq!(scan("a\n-b").unwrap_err(), LexError::UnexpectedChar { ch: '-', line: 1 });
}

#[test]
fn scan_number_forms() {
    assert_eq!(
        briefs("12 1.5 2e10 3.25E-7 4e+2"),
        vec![
            (TokenKind::Indent(0), 0, 0, 0, ""),
            (TokenKind::Number, 0, 0, 2, "12"),
            (TokenKind::Number, 0, 3, 6, "1.5"),
            (TokenKind::Number, 0, 7, 11, "2e10"),
            (TokenKind::Number, 0, 12, 19, "3.25E-7"),
            (TokenKind::Number, 0, 20, 24, "4e+2"),
        ]
    );
}

#[test]
fn scan_number_stops_before_an_incomplete_part() {
    assert_eq!(
        briefs("3e 1e+ 12abc"),
        vec![
            (TokenKind::Indent(0), 0, 0, 0, ""),
            (TokenKind::Number, 0, 0, 1, "3"),
            (TokenKind::Id, 0, 1, 2, "e"),
            (TokenKind::Number, 0, 3, 4, "1"),
            (TokenKind::Id, 0, 4, 6, "e+"),
            (TokenKind::Number, 0, 7, 9, "12"),
            (TokenKind::Id, 0, 9, 12, "abc"),
        ]
    );
    assert_eq!(scan("2.").unwrap_err(), LexError::UnexpectedChar { ch: '.', line: 0 });
    assert_eq!(scan("1.5.6").unwrap_err(), LexError::UnexpectedChar { ch: '.', line: 0 });
}

#[test]
fn scan_string_with_escapes() {
    assert_eq!(
        briefs("\"a\\\"b\" \"\\\\\" x"),
        vec![
            (TokenKind::Indent(0), 0, 0, 0, ""),
            (TokenKind::String, 0, 0, 6, "\"a\\\"b\""),
            (TokenKind::String, 0, 7, 11, "\"\\\\\""),
            (TokenKind::Id, 0, 12, 13, "x"),
        ]
    );
}

#[test]
fn scan_unterminated_string() {
    assert_eq!(scan("\"abc").unwrap_err(), LexError::UnterminatedString { line: 0 });
    assert_eq!(scan("x\n\"abc\nd\"").unwrap_err(), LexError::UnterminatedString { line: 1 });
    assert_eq!(scan("\"abc\\").unwrap_err(), LexError::UnterminatedString { line: 0 });
    assert_eq!(scan("\"abc\\\"").unwrap_err(), LexError::UnterminatedString { line: 0 });
    assert_eq!(scan("\"abc\\\nd\"").unwrap_err(), LexError::UnterminatedString { line: 0 });
}

#[test]
fn scan_unexpected_char() {
    assert_eq!(scan("(a $)").unwrap_err(), LexError::UnexpectedChar { ch: '$', line: 0 });
    assert_eq!(scan("a\n\n  #").unwrap_err(), LexError::UnexpectedChar { ch: '#', line: 2 });
    assert_eq!(scan("a \u{b} b").unwrap_err(), LexError::UnexpectedChar { ch: '\u{b}', line: 0 });
}

#[test]
fn scan_quote_is_a_token() {
    assert_eq!(
        briefs("'x"),
        vec![
            (TokenKind::Indent(0), 0, 0, 0, ""),
            (TokenKind::Quote, 0, 0, 1, "'"),
            (TokenKind::Id, 0, 1, 2, "x"),
        ]
    );
}

#[test]
fn scan_tokens_cover_the_text() {
    check_layout("");
    check_layout("(a b c)");
    check_layout("a\n  b\n  c\nd");
    check_layout("  \n\t\n (define (f x)\r\n    \"s p a c e\"  'y 1.5e3)\n\n\n  tail  \n   ");
    check_layout("λx (é \"ü\\\"ö\")\n  näme");
}

#[test]
fn scan_starts_grow_but_after_an_indent_of_width_zero() {
    let tokens = scan("a\n  b c\nd").unwrap();
    let starts: Vec<usize> = tokens.iter().map(|t| t.start_offset).collect();
    assert_eq!(starts, vec![0, 0, 2, 4, 6, 8, 8]);
    for i in 0..tokens.len() - 1 {
        let shared = tokens[i].kind == TokenKind::Indent(0);
        assert_eq!(tokens[i].start_offset == tokens[i + 1].start_offset, shared);
        assert!(tokens[i].end_offset <= tokens[i + 1].start_offset);
    }
}

#[test]
fn lexer_gives_eof_again_and_again() {
    let mut lexer = Lexer::new("a ");
    assert_eq!(lexer.next_char(), Some('a'));
    assert_eq!(lexer.next_token().unwrap().kind, TokenKind::Indent(0));
    assert_eq!(lexer.next_token().unwrap().kind, TokenKind::Id);
    assert_eq!(lexer.next_char(), Some(' '));
    let eof = lexer.next_token().unwrap();
    assert_eq!(brief(&eof), (TokenKind::Eof, 0, 2, 2, ""));
    assert_eq!(lexer.next_char(), None);
    let again = lexer.next_token().unwrap();
    assert_eq!(brief(&again), (TokenKind::Eof, 0, 2, 2, ""));
}

#[test]
fn lexer_stays_at_an_error() {
    let mut lexer = Lexer::new("a  $");
    lexer.next_token().unwrap();
    lexer.next_token().unwrap();
    let first = lexer.next_token().unwrap_err();
    let second = lexer.next_token().unwrap_err();
    assert_eq!(first, LexError::UnexpectedChar { ch: '$', line: 0 });
    assert_eq!(second, first);
    assert_eq!(lexer.next_char(), Some(' '));
}

#[test]
fn tokenize_keeps_the_tokens_before_an_error() {
    let (tokens, end) = indent_lisp::tokenize("(a $)");
    assert_eq!(tokens.len(), 3);
    assert_eq!(end.unwrap_err(), LexError::UnexpectedChar { ch: '$', line: 0 });
    let (tokens, end) = indent_lisp::tokenize("a\n");
    assert_eq!(tokens.len(), 3);
    assert_eq!(brief(&end.unwrap()), (TokenKind::Eof, 1, 2, 2, ""));
}
