use indent_lisp::text::{char_width, decode, digit, escape, extends_id, id_char, indent_char, inline_space, line_end, symbol, text_len, unquote};

#[test]
fn char_width_is_the_utf8_length() {
    assert_eq!(char_width('a'), 1);
    assert_eq!(char_width('\u{7f}'), 1);
    assert_eq!(char_width('\u{80}'), 2);
    assert_eq!(char_width('é'), 2);
    assert_eq!(char_width('\u{7ff}'), 2);
    assert_eq!(char_width('\u{800}'), 3);
    assert_eq!(char_width('€'), 3);
    assert_eq!(char_width('\u{ffff}'), 3);
    assert_eq!(char_width('\u{10000}'), 4);
    assert_eq!(char_width('\u{10ffff}'), 4);
    for c in ['a', 'é', '€', '😀'] {
        assert_eq!(char_width(c), c.len_utf8());
    }
}

#[test]
fn character_classes() {
    assert!(indent_char(' ') && indent_char('\t') && !indent_char('\n') && !indent_char('a'));
    assert!(line_end('\n') && line_end('\r') && line_end('\x0C') && !line_end(' '));
    assert!(inline_space(' ') && inline_space('\t') && inline_space('\r') && inline_space('\x0C'));
    assert!(!inline_space('\n') && !inline_space('\u{b}') && !inline_space('x'));
    assert!(digit('0') && digit('9') && !digit('a') && !digit('/') && !digit(':'));
    for c in "-_?!*+/<>=".chars() {
        assert!(symbol(c));
        assert!(id_char(c));
    }
    assert!(!symbol('a') && !symbol('(') && !symbol('.'));
    assert!(id_char('a') && id_char('7') && id_char('é') && !id_char('(') && !id_char(' '));
    assert!(extends_id('(', true) && extends_id('+', false) && !extends_id('(', false));
}

#[test]
fn decode_gives_the_characters() {
    assert_eq!(decode("aé€"), vec!['a', 'é', '€']);
    assert_eq!(decode(""), Vec::<char>::new());
    assert_eq!(text_len("aé€"), 6);
}

#[test]
fn unquote_resolves_escapes() {
    assert_eq!(unquote("\"abc\""), "abc");
    assert_eq!(unquote("\"a\\\"b\""), "a\"b");
    assert_eq!(unquote("\"a\\\\b\""), "a\\b");
    assert_eq!(unquote("\"\\n\\t\\r\\0\\x\""), "\n\t\r\0x");
    assert_eq!(unquote("\"\""), "");
    assert_eq!(unquote("\""), "");
    assert_eq!(unquote(""), "");
    assert_eq!(escape('n'), '\n');
    assert_eq!(escape('"'), '"');
}
