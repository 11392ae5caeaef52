//! Character classes of the surface syntax, and the arithmetic that ties
//! character positions in a source text to byte offsets in its UTF-8 form.

use vstd::prelude::*;
use vstd::std_specs::iter::IteratorSpec;
use vstd::string::*;
use vstd::utf8::*;

verus! {

/// A character that counts towards a line's indentation.
pub open spec fn is_indent_char(c: char) -> bool {
    c == ' ' || c == '\t'
}

/// A character that ends a line made of indentation only.
pub open spec fn is_line_end(c: char) -> bool {
    c == '\n' || c == '\r' || c == '\x0C'
}

/// ASCII whitespace: the characters that no token ever covers.
pub open spec fn is_space(c: char) -> bool {
    is_indent_char(c) || is_line_end(c)
}

/// Whitespace that separates tokens without ending the line.
pub open spec fn is_inline_space(c: char) -> bool {
    is_space(c) && c != '\n'
}

/// An ASCII decimal digit.
pub open spec fn is_digit(c: char) -> bool {
    '0' <= c <= '9'
}

/// The symbolic characters that may continue an identifier.
pub open spec fn is_symbol(c: char) -> bool {
    c == '-' || c == '_' || c == '?' || c == '!' || c == '*' || c == '+' || c == '/' || c == '<'
        || c == '>' || c == '='
}

/// Whether Unicode classes the character as alphabetic.
pub uninterp spec fn alphabetic(c: char) -> bool;

/// Whether Unicode classes the character as alphabetic or numeric.
pub uninterp spec fn alphanumeric(c: char) -> bool;

/// A character that may continue an identifier once it has begun.
pub open spec fn is_id_char(c: char) -> bool {
    alphanumeric(c) || is_symbol(c)
}

/// `char::is_alphabetic` consults the Unicode tables; its answer depends on
/// the character alone and is referred to as `alphabetic`.
pub assume_specification[ char::is_alphabetic ](c: char) -> (b: bool)
    ensures
        b == alphabetic(c),
;

/// `char::is_alphanumeric` consults the Unicode tables; its answer depends on
/// the character alone and is referred to as `alphanumeric`.
pub assume_specification[ char::is_alphanumeric ](c: char) -> (b: bool)
    ensures
        b == alphanumeric(c),
;

/// Whether `c` counts towards a line's indentation.
pub fn indent_char(c: char) -> (b: bool)
    ensures
        b == is_indent_char(c),
{
    c == ' ' || c == '\t'
}

/// Whether `c` ends a line made of indentation only.
pub fn line_end(c: char) -> (b: bool)
    ensures
        b == is_line_end(c),
{
    c == '\n' || c == '\r' || c == '\x0C'
}

/// Whether `c` is whitespace that does not end the line.
pub fn inline_space(c: char) -> (b: bool)
    ensures
        b == is_inline_space(c),
{
    c == ' ' || c == '\t' || c == '\r' || c == '\x0C'
}

/// Whether `c` is an ASCII decimal digit.
pub fn digit(c: char) -> (b: bool)
    ensures
        b == is_digit(c),
{
    '0' <= c && c <= '9'
}

/// Whether `c` is one of the symbolic characters of identifiers.
pub fn symbol(c: char) -> (b: bool)
    ensures
        b == is_symbol(c),
{
    c == '-' || c == '_' || c == '?' || c == '!' || c == '*' || c == '+' || c == '/' || c == '<'
        || c == '>' || c == '='
}

/// Whether `c` may continue an identifier, given whether it is a letter or
/// a digit of any script: those may, and the symbolic characters.
pub fn extends_id(c: char, letter_or_digit: bool) -> (b: bool)
    ensures
        b == (letter_or_digit || is_symbol(c)),
{
    letter_or_digit || symbol(c)
}

/// Whether `c` may continue an identifier.
pub fn id_char(c: char) -> (b: bool)
    ensures
        b == is_id_char(c),
{
    extends_id(c, c.is_alphanumeric())
}

/// Number of bytes that the character takes in UTF-8.
pub open spec fn utf8_width(c: char) -> nat {
    encode_scalar(c as u32).len()
}

/// Number of bytes that the text takes in UTF-8.
pub open spec fn byte_len(s: Seq<char>) -> nat {
    encode_utf8(s).len()
}

/// Byte offset, in the UTF-8 form of `s`, at which the character of index `i`
/// begins (the whole length where `i` is the number of characters).
pub open spec fn byte_offset(s: Seq<char>, i: int) -> nat {
    byte_len(s.take(i))
}

/// Number of bytes that `c` takes in UTF-8.
pub fn char_width(c: char) -> (n: usize)
    ensures
        n == utf8_width(c),
        1 <= n <= 4,
{
    let u: u32 = c as u32;
    proof {
        char_is_scalar(c);
    }
    if u < 0x80 {
        1
    } else if u < 0x800 {
        2
    } else if u < 0x10000 {
        3
    } else {
        4
    }
}

/// Encoding distributes over concatenation.
pub proof fn lemma_encode_concat(a: Seq<char>, b: Seq<char>)
    ensures
        encode_utf8(a + b) == encode_utf8(a) + encode_utf8(b),
    decreases a.len(),
{
    if a.len() == 0 {
        assert(a + b =~= b);
        assert(encode_utf8(a) + encode_utf8(b) =~= encode_utf8(b));
    } else {
        lemma_encode_concat(a.drop_first(), b);
        assert((a + b).drop_first() =~= a.drop_first() + b);
        assert((a + b)[0] == a[0]);
        assert(encode_utf8(a + b) =~= encode_utf8(a) + encode_utf8(b));
    }
}

/// Every character takes between one and four bytes.
pub proof fn lemma_width_bounds(c: char)
    ensures
        1 <= utf8_width(c) <= 4,
{
    char_is_scalar(c);
}

/// The offset of the next character lies one character's width further on.
pub proof fn lemma_offset_step(s: Seq<char>, i: int)
    requires
        0 <= i < s.len(),
    ensures
        byte_offset(s, i + 1) == byte_offset(s, i) + utf8_width(s[i]),
        byte_offset(s, i) < byte_offset(s, i + 1),
{
    let one = seq![s[i]];
    assert(s.take(i + 1) =~= s.take(i) + one);
    lemma_encode_concat(s.take(i), one);
    assert(one.drop_first() =~= Seq::<char>::empty());
    assert(encode_utf8(one) =~= encode_scalar(s[i] as u32)) by {
        reveal_with_fuel(encode_utf8, 2);
    }
    lemma_width_bounds(s[i]);
}

/// Offsets grow with positions, strictly.
pub proof fn lemma_offset_monotone(s: Seq<char>, i: int, j: int)
    requires
        0 <= i <= j <= s.len(),
    ensures
        byte_offset(s, i) <= byte_offset(s, j),
        i < j ==> byte_offset(s, i) < byte_offset(s, j),
        byte_offset(s, j) - byte_offset(s, i) == byte_len(s.subrange(i, j)),
        j - i <= byte_offset(s, j) - byte_offset(s, i),
    decreases j - i,
{
    if i == j {
        assert(s.subrange(i, j) =~= Seq::<char>::empty());
    } else {
        lemma_offset_monotone(s, i, j - 1);
        lemma_offset_step(s, j - 1);
        let one = seq![s[j - 1]];
        assert(s.subrange(i, j) =~= s.subrange(i, j - 1) + one);
        lemma_encode_concat(s.subrange(i, j - 1), one);
        assert(one.drop_first() =~= Seq::<char>::empty());
        assert(encode_utf8(one) =~= encode_scalar(s[j - 1] as u32)) by {
            reveal_with_fuel(encode_utf8, 2);
        }
    }
}

/// The first and the last offset.
pub proof fn lemma_offset_ends(s: Seq<char>)
    ensures
        byte_offset(s, 0) == 0,
        byte_offset(s, s.len() as int) == byte_len(s),
{
    assert(s.take(0) =~= Seq::<char>::empty());
    assert(s.take(s.len() as int) =~= s);
}

/// The offset of a character is a place where the bytes may be cut.
proof fn lemma_offset_is_boundary(s: Seq<char>, i: int)
    requires
        0 <= i <= s.len(),
    ensures
        is_char_boundary(encode_utf8(s), byte_offset(s, i) as int),
    decreases s.len(),
{
    encode_utf8_valid_utf8(s);
    if i == 0 {
        lemma_offset_ends(s);
    } else {
        let bytes = encode_utf8(s);
        let rest = s.drop_first();
        encode_utf8_first_scalar(s);
        assert(pop_first_scalar(bytes) =~= encode_utf8(rest));
        lemma_offset_is_boundary(rest, i - 1);
        let one = seq![s[0]];
        assert(s.take(i) =~= one + rest.take(i - 1));
        lemma_encode_concat(one, rest.take(i - 1));
        assert(one.drop_first() =~= Seq::<char>::empty());
        assert(encode_utf8(one) =~= encode_scalar(s[0] as u32)) by {
            reveal_with_fuel(encode_utf8, 2);
        }
        lemma_width_bounds(s[0]);
        assert(byte_offset(s, i) - length_of_first_scalar(bytes) == byte_offset(rest, i - 1));
    }
}

/// Two texts with the same bytes are the same text.
proof fn lemma_encode_injective(a: Seq<char>, b: Seq<char>)
    requires
        encode_utf8(a) == encode_utf8(b),
    ensures
        a == b,
{
    encode_utf8_decode_utf8(a);
    encode_utf8_decode_utf8(b);
}

/// Length of the text in bytes.
pub fn text_len(s: &str) -> (n: usize)
    ensures
        n == byte_len(s@),
{
    s.as_bytes().len()
}

/// The text can be held in memory: its bytes can be counted in a `usize`.
pub open spec fn fits(s: Seq<char>) -> bool {
    byte_len(s) <= usize::MAX
}

/// A text that fits has no more characters than a `usize` can count.
pub proof fn lemma_fits(s: Seq<char>)
    requires
        fits(s),
    ensures
        s.len() <= usize::MAX,
{
    lemma_offset_monotone(s, 0, s.len() as int);
    lemma_offset_ends(s);
}

/// The part of `s` between two byte offsets, given the character positions
/// that they belong to.
pub(crate) fn slice<'a>(s: &'a str, start: usize, end: usize, Ghost(lo): Ghost<int>, Ghost(hi): Ghost<int>) -> (r:
    &'a str)
    requires
        0 <= lo <= hi <= s@.len(),
        start == byte_offset(s@, lo),
        end == byte_offset(s@, hi),
    ensures
        r@ == s@.subrange(lo, hi),
{
    proof {
        let head = s@.take(hi);
        let tail = s@.skip(hi);
        assert(s@ =~= head + tail);
        lemma_encode_concat(head, tail);
        lemma_offset_is_boundary(s@, hi);
    }
    let (first, _) = s.split_at(end);
    proof {
        assert(encode_utf8(s@).subrange(0, end as int) =~= encode_utf8(s@.take(hi)));
        lemma_encode_injective(first@, s@.take(hi));
        assert(first@.take(lo) =~= s@.take(lo));
        lemma_offset_is_boundary(first@, lo);
        assert(first@ =~= first@.take(lo) + first@.skip(lo));
        lemma_encode_concat(first@.take(lo), first@.skip(lo));
    }
    let (_, r) = first.split_at(start);
    proof {
        assert(encode_utf8(first@).subrange(start as int, encode_utf8(first@).len() as int)
            =~= encode_utf8(first@.skip(lo)));
        lemma_encode_injective(r@, first@.skip(lo));
        assert(first@.skip(lo) =~= s@.subrange(lo, hi));
    }
    r
}

/// The characters of a text, one by one.
pub fn decode(src: &str) -> (chars: Vec<char>)
    ensures
        chars@ == src@,
        fits(src@),
{
    let mut chars: Vec<char> = Vec::with_capacity(text_len(src));
    let mut rest = src.chars();
    loop
        invariant
            chars@ + rest.remaining() =~= src@,
        ensures
            chars@ =~= src@,
        decreases src@.len() - chars@.len(),
    {
        let ghost before = rest.remaining();
        match rest.next() {
            Some(c) => {
                chars.push(c);
                assert(before =~= seq![c] + rest.remaining());
            },
            None => {
                assert(before.len() == 0);
                break ;
            },
        }
    }
    chars
}

/// `String::push` appends the character to the end of the string.
pub assume_specification[ std::string::String::push ](s: &mut std::string::String, c: char)
    ensures
        final(s)@ == old(s)@.push(c),
;

/// The character that a backslash and `c` stand for in a string literal:
/// `n`, `t`, `r` and `0` give a newline, a tab, a carriage return and the
/// character of code 0; every other character gives itself.
pub open spec fn escaped(c: char) -> char {
    if c == 'n' {
        '\n'
    } else if c == 't' {
        '\t'
    } else if c == 'r' {
        '\r'
    } else if c == '0' {
        '\0'
    } else {
        c
    }
}

/// The text with each backslash and the character after it replaced by
/// the character that the two stand for. A backslash at the very end
/// stays.
pub open spec fn unescape(s: Seq<char>) -> Seq<char>
    decreases s.len(),
{
    if s.len() == 0 {
        Seq::empty()
    } else if s[0] == '\\' && s.len() >= 2 {
        seq![escaped(s[1])] + unescape(s.skip(2))
    } else {
        seq![s[0]] + unescape(s.skip(1))
    }
}

/// What a string literal says: the text between its quotes, escapes
/// resolved.
pub open spec fn literal_value(text: Seq<char>) -> Seq<char> {
    if text.len() >= 2 {
        unescape(text.subrange(1, text.len() - 1))
    } else {
        Seq::empty()
    }
}

/// The character that a backslash and `c` stand for in a string literal.
pub fn escape(c: char) -> (r: char)
    ensures
        r == escaped(c),
{
    if c == 'n' {
        '\n'
    } else if c == 't' {
        '\t'
    } else if c == 'r' {
        '\r'
    } else if c == '0' {
        '\0'
    } else {
        c
    }
}

/// What the string literal `text` says.
pub fn unquote(text: &str) -> (value: String)
    ensures
        value@ == literal_value(text@),
{
    let chars = decode(text);
    let n: usize = chars.len();
    let mut value = String::new();
    if n < 2 {
        return value;
    }
    let ghost inner = text@.subrange(1, n - 1);
    let mut i: usize = 1;
    assert(inner.skip(0) =~= inner);
    while i < n - 1
        invariant
            chars@ == text@,
            n == chars@.len(),
            n >= 2,
            inner == text@.subrange(1, n - 1),
            1 <= i <= n - 1,
            value@ + unescape(inner.skip(i - 1)) == unescape(inner),
        decreases n - i,
    {
        let ghost rest = inner.skip(i - 1);
        let c = chars[i];
        assert(rest[0] == c);
        if c == '\\' && i + 1 < n - 1 {
            let d = chars[i + 1];
            assert(rest[1] == d);
            assert(rest.skip(2) =~= inner.skip(i + 1));
            assert(value@.push(escaped(d)) + unescape(inner.skip(i + 1)) =~= value@ + (
            seq![escaped(d)] + unescape(inner.skip(i + 1))));
            value.push(escape(d));
            i = i + 2;
        } else {
            assert(rest.skip(1) =~= inner.skip(i as int));
            assert(value@.push(c) + unescape(inner.skip(i as int)) =~= value@ + (seq![c]
                + unescape(inner.skip(i as int))));
            value.push(c);
            i = i + 1;
        }
    }
    assert(inner.skip(n - 2) =~= Seq::<char>::empty());
    assert(value@ + Seq::<char>::empty() =~= value@);
    value
}

} // verus!
