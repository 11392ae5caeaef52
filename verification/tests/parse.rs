use indent_lisp::{parse, Ast, AstKind, Expected, LexError, ParseError, TokenKind};
use typed_arena::Arena;

/// The tree written out: lists in brackets, a quote as `'`, a number after
/// `#`, a string in quotes as it is said.
fn show(node: &Ast) -> String {
    match &node.kind {
        AstKind::List(items) => {
            let inner: Vec<String> = items.iter().map(|n| show(n)).collect();
            format!("[{}]", inner.join(" "))
        }
        AstKind::Quote(inner) => format!("'{}", show(inner)),
        AstKind::Number(text) => format!("#{}", text),
        AstKind::String(value) => format!("{:?}", value),
        AstKind::Id(name) => format!("{}", name),
    }
}

fn shown(src: &str) -> Vec<String> {
    let arena = Arena::new();
    let forest = parse(&arena, src).unwrap();
    forest.iter().map(|n| show(n)).collect()
}

fn error(src: &str) -> ParseError {
    let arena = Arena::new();
    parse(&arena, src).unwrap_err()
}

/// Checks that every node's span is the text between its offsets and
/// covers its children, which stand in order.
fn check_spans(src: &str, node: &Ast) {
    assert_eq!(&src[node.start_offset..node.end_offset], node.span);
    match &node.kind {
        AstKind::List(items) => {
            let mut at = node.start_offset;
            for item in items.iter() {
                assert!(at <= item.start_offset);
                assert!(item.end_offset <= node.end_offset);
                assert!(node.line <= item.line);
                check_spans(src, item);
                at = item.end_offset;
            }
        }
        AstKind::Quote(inner) => {
            assert!(node.start_offset < inner.start_offset);
            assert_eq!(inner.end_offset, node.end_offset);
            check_spans(src, inner);
        }
        AstKind::Number(text) => assert_eq!(*text, node.span),
        AstKind::Id(name) => assert_eq!(*name, node.span),
        AstKind::String(_) => {}
    }
}

#[test]
fn parse_list_of_three() {
    let arena = Arena::new();
    let forest = parse(&arena, "(a b c)").unwrap();
    assert_eq!(forest.len(), 1);
    match &forest[0].kind {
        AstKind::List(items) => {
            assert_eq!(items.len(), 3);
            assert_eq!(items[0].kind, AstKind::Id("a"));
            assert_eq!(items[1].kind, AstKind::Id("b"));
            assert_eq!(items[2].kind, AstKind::Id("c"));
            assert_eq!((items[1].line, items[1].start_offset, items[1].end_offset), (0, 3, 4));
        }
        other => panic!("not a list: {:?}", other),
    }
    assert_eq!(forest[0].span, "(a b c)");
    assert_eq!((forest[0].line, forest[0].start_offset, forest[0].end_offset), (0, 0, 7));
}

#[test]
fn parse_quote_wraps_one_form() {
    let arena = Arena::new();
    let forest = parse(&arena, "'x").unwrap();
    assert_eq!(forest.len(), 1);
    match &forest[0].kind {
        AstKind::Quote(inner) => {
            assert_eq!(inner.kind, AstKind::Id("x"));
            assert_eq!((inner.start_offset, inner.end_offset), (1, 2));
        }
        other => panic!("not a quote: {:?}", other),
    }
    assert_eq!(forest[0].span, "'x");
    assert_eq!(shown("''(a 'b)"), vec!["''[a 'b]"]);
}

#[test]
fn parse_list_over_two_lines() {
    assert_eq!(shown("(a (b c)\n   d)"), vec!["[a [b c] d]"]);
    let arena = Arena::new();
    let src = "(a (b c)\n   d)";
    let forest = parse(&arena, src).unwrap();
    assert_eq!(forest[0].span, src);
    check_spans(src, forest[0]);
}

#[test]
fn parse_indented_block() {
    let src = "a\n  b\n  c\nd";
    assert_eq!(shown(src), vec!["[a [b c]]", "d"]);
    let arena = Arena::new();
    let forest = parse(&arena, src).unwrap();
    assert_eq!(forest[0].span, "a\n  b\n  c");
    assert_eq!((forest[0].line, forest[0].start_offset, forest[0].end_offset), (0, 0, 9));
    match &forest[0].kind {
        AstKind::List(items) => {
            assert_eq!(items.len(), 2);
            assert_eq!(items[1].span, "b\n  c");
            assert_eq!((items[1].line, items[1].start_offset, items[1].end_offset), (1, 4, 9));
        }
        other => panic!("not a list: {:?}", other),
    }
    assert_eq!((forest[1].line, forest[1].start_offset, forest[1].end_offset), (3, 10, 11));
    check_spans(src, forest[0]);
    check_spans(src, forest[1]);
}

#[test]
fn parse_dedent_to_no_open_level() {
    assert_eq!(error("a\n  b\n c"), ParseError::IndentMismatch { got: 1, levels: vec![] });
}

#[test]
fn parse_dedent_between_open_levels() {
    assert_eq!(
        error("a\n  b\n      c\n    d"),
        ParseError::IndentMismatch { got: 4, levels: vec![2] }
    );
    assert_eq!(
        error("a\n  b\n    c\n      d\n     e"),
        ParseError::IndentMismatch { got: 5, levels: vec![2, 4] }
    );
}

#[test]
fn parse_unclosed_list_at_end() {
    assert_eq!(error("(a b"), ParseError::UnclosedList { line: 0 });
    assert_eq!(error("(a\n  (b c)\n"), ParseError::UnclosedList { line: 2 });
}

#[test]
fn parse_unclosed_list_at_dedent() {
    assert_eq!(error("a\n  (b\nc)"), ParseError::UnclosedList { line: 2 });
}

#[test]
fn parse_hands_on_lex_errors() {
    assert_eq!(
        error("(a $)"),
        ParseError::Lex(LexError::UnexpectedChar { ch: '$', line: 0 })
    );
    assert_eq!(error("a\n\"b"), ParseError::Lex(LexError::UnterminatedString { line: 1 }));
    assert_eq!(error("a $"), ParseError::Lex(LexError::UnexpectedChar { ch: '$', line: 0 }));
}

#[test]
fn parse_reports_the_first_error_in_the_text() {
    assert_eq!(
        error(") $"),
        ParseError::UnexpectedToken { expected: Expected::Form, found: TokenKind::RParen, line: 0 }
    );
}

#[test]
fn parse_twice_gives_equal_forests() {
    let src = "(define (f x)\n   \"s\\n\" 'y 1.5e3)\nblock\n  one\n    two\n  three\n";
    let first_arena = Arena::new();
    let second_arena = Arena::new();
    let first = parse(&first_arena, src).unwrap();
    let second = parse(&second_arena, src).unwrap();
    assert_eq!(first, second);
    assert_eq!(first.len(), 2);
    for node in first.iter() {
        check_spans(src, node);
    }
    assert_eq!(error("(a"), error("(a"));
}

#[test]
fn parse_empty_texts() {
    assert_eq!(shown(""), Vec::<String>::new());
    assert_eq!(shown("\n\n"), Vec::<String>::new());
    assert_eq!(shown("   \n \t "), Vec::<String>::new());
}

#[test]
fn parse_ignores_an_empty_last_line() {
    assert_eq!(shown("a\n"), vec!["a"]);
    assert_eq!(shown("a\n     "), vec!["a"]);
    assert_eq!(shown("a\n  b\n "), vec!["[a [b]]"]);
}

#[test]
fn parse_nested_blocks() {
    assert_eq!(shown("a\n  b\n    c\n  d\ne"), vec!["[a [[b [c]] d]]", "e"]);
    assert_eq!(shown("a\n  b\n    c\nd"), vec!["[a [[b [c]]]]", "d"]);
}

#[test]
fn parse_block_without_a_line_above_it() {
    assert_eq!(shown("  a\n  b"), vec!["[a b]"]);
    assert_eq!(shown("  a\nb"), vec!["[a]", "b"]);
    assert_eq!(error("  a\n b"), ParseError::IndentMismatch { got: 1, levels: vec![] });
}

#[test]
fn parse_block_under_a_list() {
    assert_eq!(shown("(f x)\n  (g 1)\n  'h"), vec!["[[f x] [[g #1] 'h]]"]);
}

#[test]
fn parse_atoms() {
    assert_eq!(shown("(1.5 \"a\\\"b\" name)"), vec!["[#1.5 \"a\\\"b\" name]"]);
    let arena = Arena::new();
    let forest = parse(&arena, "\"l1\\nl2\\t\\\\\\q\\0\\r\"").unwrap();
    assert_eq!(forest[0].kind, AstKind::String("l1\nl2\t\\q\0\r".to_string()));
    assert_eq!(forest[0].span, "\"l1\\nl2\\t\\\\\\q\\0\\r\"");
    let forest = parse(&arena, "\"\"").unwrap();
    assert_eq!(forest[0].kind, AstKind::String(String::new()));
    let forest = parse(&arena, "3.25E-7").unwrap();
    assert_eq!(forest[0].kind, AstKind::Number("3.25E-7"));
}

#[test]
fn parse_two_forms_on_a_line() {
    assert_eq!(
        error("a b"),
        ParseError::UnexpectedToken { expected: Expected::LineEnd, found: TokenKind::Id, line: 0 }
    );
    assert_eq!(
        error("x\n(a) )"),
        ParseError::UnexpectedToken {
            expected: Expected::LineEnd,
            found: TokenKind::RParen,
            line: 1
        }
    );
}

#[test]
fn parse_form_expected() {
    assert_eq!(
        error(")"),
        ParseError::UnexpectedToken { expected: Expected::Form, found: TokenKind::RParen, line: 0 }
    );
    assert_eq!(
        error("'"),
        ParseError::UnexpectedToken { expected: Expected::Form, found: TokenKind::Eof, line: 0 }
    );
    assert_eq!(
        error("(')"),
        ParseError::UnexpectedToken { expected: Expected::Form, found: TokenKind::RParen, line: 0 }
    );
}

#[test]
fn parse_quote_before_a_dedent() {
    assert_eq!(
        error("a\n  '\nb"),
        ParseError::UnexpectedToken {
            expected: Expected::Form,
            found: TokenKind::Indent(0),
            line: 2
        }
    );
}

#[test]
fn parse_quote_continued_on_the_next_line() {
    assert_eq!(shown("'\n  x"), vec!["'x"]);
    let arena = Arena::new();
    let forest = parse(&arena, "'\n  x").unwrap();
    assert_eq!(forest[0].span, "'\n  x");
    assert_eq!((forest[0].line, forest[0].start_offset, forest[0].end_offset), (0, 0, 5));
}

#[test]
fn parse_list_lines_may_stand_at_the_block_indentation() {
    assert_eq!(shown("(a\nb)"), vec!["[a b]"]);
    assert_eq!(shown("x\n  (a\n  b)\n  c"), vec!["[x [[a b] c]]"]);
}

#[test]
fn parse_spans_are_bytes() {
    let src = "(λ é)\n  ü";
    let arena = Arena::new();
    let forest = parse(&arena, src).unwrap();
    assert_eq!(forest.len(), 1);
    assert_eq!((forest[0].start_offset, forest[0].end_offset), (0, 12));
    check_spans(src, forest[0]);
    assert_eq!(show(forest[0]), "[[λ é] [ü]]");
}

#[test]
fn parser_can_be_made_and_run() {
    let arena = Arena::new();
    let parser = indent_lisp::Parser::new(&arena, "(a)\n(b)");
    let forest = parser.parse().unwrap();
    assert_eq!(forest.len(), 2);
    assert_eq!(show(forest[1]), "[b]");
}
