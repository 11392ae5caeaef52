//! The grammar: forms in parentheses, and the blocks that indentation makes
//! of lines, as functions from the tokens of a text to its syntax tree.

use crate::lexis::{lemma_token_bounds, lemma_token_pair, lemma_tokens_cover, stream, Stream};
use crate::token::{LexError, TokenKind};
use vstd::prelude::*;

verus! {

/// What a node of the syntax tree is. The text of an atom is found in the
/// source, between the node's positions.
pub ghost enum Shape {
    List(Seq<Node>),
    Quote(Box<Node>),
    Number,
    String,
    Id,
}

/// A node of the syntax tree: its shape, the line it begins on, and the
/// positions of its first character and of the character after its last.
pub ghost struct Node {
    pub shape: Shape,
    pub line: nat,
    pub lo: int,
    pub hi: int,
}

/// What the parser looked for where it found something else.
#[derive(Clone, Copy, Debug, PartialEq, Eq, Structural)]
pub enum Expected {
    /// An atom, a quote or an opening parenthesis.
    Form,
    /// The end of the line.
    LineEnd,
}

/// Why a text has no syntax tree.
pub ghost enum Fault {
    UnexpectedToken { expected: Expected, found: TokenKind, line: nat },
    UnclosedList { line: nat },
    IndentMismatch { got: usize, levels: Seq<usize> },
    Lex(LexError),
}

/// The indentation of the innermost open block; 0 where none is open.
pub open spec fn top(levels: Seq<usize>) -> usize {
    if levels.len() == 0 {
        0
    } else {
        levels.last()
    }
}

/// `next` where it lies after `i` and within the `len` tokens, as it always
/// does: the parser never stands still, and never runs past the end.
pub open spec fn onward(i: int, next: int, len: nat) -> int {
    if i < next <= len {
        next
    } else {
        len as int
    }
}

/// What it means to find the end of the tokens where `expected` should be:
/// the error that ended them, or an unexpected `Eof`.
pub open spec fn end_fault(st: Stream, expected: Expected) -> Fault {
    match st.end {
        Err(e) => Fault::Lex(e),
        Ok(eof) => Fault::UnexpectedToken { expected, found: eof.kind, line: eof.line },
    }
}

/// The form that begins at token `i`, and the index of the token after it.
/// `level` is the indentation of the block that the form stands in.
///
/// An atom is one token. A quote wraps the form that follows it, which may
/// stand on the next line if that line is indented no less than the block.
/// A list runs from its opening parenthesis to the matching closing one.
pub open spec fn form(st: Stream, i: int, level: usize) -> Result<(Node, int), Fault>
    decreases st.tokens.len() - i, 0int,
{
    if !(0 <= i < st.tokens.len()) {
        Err(end_fault(st, Expected::Form))
    } else {
        let t = st.tokens[i];
        match t.kind {
            TokenKind::Id => Ok((Node { shape: Shape::Id, line: t.line, lo: t.lo, hi: t.hi }, i + 1)),
            TokenKind::Number => Ok(
                (Node { shape: Shape::Number, line: t.line, lo: t.lo, hi: t.hi }, i + 1),
            ),
            TokenKind::String => Ok(
                (Node { shape: Shape::String, line: t.line, lo: t.lo, hi: t.hi }, i + 1),
            ),
            TokenKind::Quote => {
                let j = if continues(st, i + 1, level) {
                    i + 2
                } else {
                    i + 1
                };
                match form(st, j, level) {
                    Err(f) => Err(f),
                    Ok((inner, next)) => Ok(
                        (
                            Node {
                                shape: Shape::Quote(Box::new(inner)),
                                line: t.line,
                                lo: t.lo,
                                hi: inner.hi,
                            },
                            next,
                        ),
                    ),
                }
            },
            TokenKind::LParen => match items(st, i + 1, level) {
                Err(f) => Err(f),
                Ok((children, close)) => Ok(
                    (
                        Node {
                            shape: Shape::List(children),
                            line: t.line,
                            lo: t.lo,
                            hi: st.tokens[close].hi,
                        },
                        close + 1,
                    ),
                ),
            },
            _ => Err(Fault::UnexpectedToken { expected: Expected::Form, found: t.kind, line: t.line }),
        }
    }
}

/// Token `i` begins a line that continues a form begun on an earlier line:
/// it is an `Indent` of the block's indentation or more.
pub open spec fn continues(st: Stream, i: int, level: usize) -> bool {
    0 <= i < st.tokens.len() && (st.tokens[i].kind matches TokenKind::Indent(w) && w >= level)
}

/// The forms of a list from token `i` up to the closing parenthesis, and
/// the index of that parenthesis. Lines indented no less than the block
/// continue the list; a line indented less, or the end of the text, leaves
/// it unclosed.
pub open spec fn items(st: Stream, i: int, level: usize) -> Result<(Seq<Node>, int), Fault>
    decreases st.tokens.len() - i, 1int,
{
    if !(0 <= i < st.tokens.len()) {
        match st.end {
            Err(e) => Err(Fault::Lex(e)),
            Ok(eof) => Err(Fault::UnclosedList { line: eof.line }),
        }
    } else {
        let t = st.tokens[i];
        match t.kind {
            TokenKind::RParen => Ok((Seq::empty(), i)),
            TokenKind::Indent(w) => if w < level {
                Err(Fault::UnclosedList { line: t.line })
            } else {
                items(st, i + 1, level)
            },
            _ => match form(st, i, level) {
                Err(f) => Err(f),
                Ok((first, next)) => match items(st, onward(i, next, st.tokens.len()), level) {
                    Err(f) => Err(f),
                    Ok((rest, close)) => Ok((seq![first] + rest, close)),
                },
            },
        }
    }
}

/// Token `i` is an `Indent` with nothing after it: the text ends in an
/// empty line.
pub open spec fn trailing(st: Stream, i: int) -> bool {
    i + 1 == st.tokens.len() && st.end is Ok && st.tokens[i].kind is Indent
}

/// Token `i` begins a line that is indented more than the innermost open
/// block.
pub open spec fn deeper(st: Stream, i: int, levels: Seq<usize>) -> bool {
    0 <= i < st.tokens.len() && !trailing(st, i) && (st.tokens[i].kind matches TokenKind::Indent(w)
        && w > top(levels))
}

/// The node of a block: a list of the block's lines.
pub open spec fn block_node(children: Seq<Node>) -> Node {
    Node {
        shape: Shape::List(children),
        line: children[0].line,
        lo: children[0].lo,
        hi: children.last().hi,
    }
}

/// The node of a line with the block that hangs under it: the list of the
/// line's form and the block.
pub open spec fn headed_node(head: Node, children: Seq<Node>) -> Node {
    Node {
        shape: Shape::List(seq![head, block_node(children)]),
        line: head.line,
        lo: head.lo,
        hi: children.last().hi,
    }
}

/// The lines of the block that is indented by `top(levels)`, from token `i`
/// on, and the index of the token at which the block ends: the end of the
/// tokens, an empty last line, or a line indented less.
pub open spec fn block(st: Stream, i: int, levels: Seq<usize>) -> Result<(Seq<Node>, int), Fault>
    decreases st.tokens.len() - i,
        (if deeper(st, i, levels) {
            3int
        } else {
            1int
        }),
{
    if !(0 <= i < st.tokens.len()) {
        match st.end {
            Err(e) => Err(Fault::Lex(e)),
            Ok(_) => Ok((Seq::empty(), i)),
        }
    } else {
        let t = st.tokens[i];
        match t.kind {
            TokenKind::Indent(w) => if trailing(st, i) || w < top(levels) {
                Ok((Seq::empty(), i))
            } else {
                match line(st, i, levels) {
                    Err(f) => Err(f),
                    Ok((first, next)) => match block(st, onward(i, next, st.tokens.len()), levels) {
                        Err(f) => Err(f),
                        Ok((rest, end)) => Ok((seq![first] + rest, end)),
                    },
                }
            },
            _ => Err(
                Fault::UnexpectedToken { expected: Expected::LineEnd, found: t.kind, line: t.line },
            ),
        }
    }
}

/// The block under a line has ended at token `next`; the line that follows
/// must be indented as one of the blocks still open.
pub open spec fn mismatch(st: Stream, next: int, levels: Seq<usize>) -> Option<Fault> {
    if deeper(st, next, levels) {
        Some(Fault::IndentMismatch { got: st.tokens[next].kind->Indent_0, levels })
    } else {
        None
    }
}

/// One line of a block, which begins with the `Indent` at token `i`, and the
/// index of the token after all that belongs to it.
///
/// A line indented as the block holds one form. Where the next line is
/// indented more, it opens a block under this one, and the line's node is
/// the list of its form and that block. A line indented more than the block
/// while no form stands above it is a block by itself.
pub open spec fn line(st: Stream, i: int, levels: Seq<usize>) -> Result<(Node, int), Fault>
    decreases st.tokens.len() - i,
        (if deeper(st, i, levels) {
            2int
        } else {
            0int
        }),
{
    if !(0 <= i < st.tokens.len()) || !(st.tokens[i].kind is Indent) {
        Err(end_fault(st, Expected::LineEnd))
    } else if deeper(st, i, levels) {
        let inner = levels.push(st.tokens[i].kind->Indent_0);
        match block(st, i, inner) {
            Err(f) => Err(f),
            Ok((children, next)) => match mismatch(st, next, levels) {
                Some(f) => Err(f),
                None => Ok((block_node(children), next)),
            },
        }
    } else {
        match form(st, i + 1, top(levels)) {
            Err(f) => Err(f),
            Ok((head, j)) => {
                proof {
                    lemma_form(st, i + 1, top(levels));
                }
                if !(0 <= j < st.tokens.len()) {
                    match st.end {
                        Err(e) => Err(Fault::Lex(e)),
                        Ok(_) => Ok((head, j)),
                    }
                } else if !(st.tokens[j].kind is Indent) {
                    Err(
                        Fault::UnexpectedToken {
                            expected: Expected::LineEnd,
                            found: st.tokens[j].kind,
                            line: st.tokens[j].line,
                        },
                    )
                } else if deeper(st, j, levels) {
                    let inner = levels.push(st.tokens[j].kind->Indent_0);
                    match block(st, j, inner) {
                        Err(f) => Err(f),
                        Ok((children, next)) => match mismatch(st, next, levels) {
                            Some(f) => Err(f),
                            None => Ok((headed_node(head, children), next)),
                        },
                    }
                } else {
                    Ok((head, j))
                }
            },
        }
    }
}

/// The syntax trees of the lines of a text that stand at its outermost
/// level.
pub open spec fn forest(st: Stream) -> Result<Seq<Node>, Fault> {
    match block(st, 0, Seq::empty()) {
        Err(f) => Err(f),
        Ok((nodes, _)) => Ok(nodes),
    }
}

/// The syntax trees of a text, or the first fault in it.
pub open spec fn parse_text(src: Seq<char>) -> Result<Seq<Node>, Fault> {
    forest(stream(src))
}

/// A form takes at least one token, begins with its first token and ends
/// with its last.
pub proof fn lemma_form(st: Stream, i: int, level: usize)
    ensures
        form(st, i, level) matches Ok((node, next)) ==> {
            &&& 0 <= i < next <= st.tokens.len()
            &&& node.lo == st.tokens[i].lo
            &&& node.hi == st.tokens[next - 1].hi
            &&& node.line == st.tokens[i].line
        },
    decreases st.tokens.len() - i, 0int,
{
    if 0 <= i < st.tokens.len() {
        let t = st.tokens[i];
        match t.kind {
            TokenKind::Quote => {
                let j = if continues(st, i + 1, level) {
                    i + 2
                } else {
                    i + 1
                };
                lemma_form(st, j, level);
            },
            TokenKind::LParen => {
                lemma_items(st, i + 1, level);
            },
            _ => {},
        }
    }
}

/// The forms of a list end at a closing parenthesis.
pub proof fn lemma_items(st: Stream, i: int, level: usize)
    ensures
        items(st, i, level) matches Ok((nodes, close)) ==> {
            &&& 0 <= i <= close < st.tokens.len()
            &&& st.tokens[close].kind == TokenKind::RParen
        },
    decreases st.tokens.len() - i, 1int,
{
    if 0 <= i < st.tokens.len() {
        let t = st.tokens[i];
        match t.kind {
            TokenKind::RParen => {},
            TokenKind::Indent(w) => {
                if w >= level {
                    lemma_items(st, i + 1, level);
                }
            },
            _ => {
                lemma_form(st, i, level);
                match form(st, i, level) {
                    Err(f) => {},
                    Ok((first, next)) => {
                        lemma_items(st, next, level);
                    },
                }
            },
        }
    }
}

/// A block ends at or after the token it begins at. Where it holds lines,
/// the first begins at the token after the first `Indent` and the last ends
/// with the token before the block's end.
pub proof fn lemma_block(st: Stream, i: int, levels: Seq<usize>)
    requires
        0 <= i,
    ensures
        block(st, i, levels) matches Ok((nodes, end)) ==> {
            &&& i <= end
            &&& (nodes.len() == 0 ==> end == i)
            &&& (i <= st.tokens.len() ==> end <= st.tokens.len())
            &&& (nodes.len() > 0 ==> {
                &&& i + 2 <= end <= st.tokens.len()
                &&& nodes[0].lo == st.tokens[i + 1].lo
                &&& nodes[0].line == st.tokens[i + 1].line
                &&& nodes.last().hi == st.tokens[end - 1].hi
            })
            &&& (deeper(st, i, levels) || (0 <= i < st.tokens.len() && !trailing(st, i)
                && st.tokens[i].kind == TokenKind::Indent(top(levels))) ==> nodes.len() > 0)
            &&& (end < st.tokens.len() ==> st.tokens[end].kind is Indent && (trailing(st, end)
                || st.tokens[end].kind->Indent_0 < top(levels)))
            &&& (end >= st.tokens.len() ==> st.end is Ok)
        },
    decreases st.tokens.len() - i,
        (if deeper(st, i, levels) {
            3int
        } else {
            1int
        }),
{
    if 0 <= i < st.tokens.len() {
        let t = st.tokens[i];
        match t.kind {
            TokenKind::Indent(w) => {
                if trailing(st, i) || w < top(levels) {
                } else {
                    lemma_line(st, i, levels);
                    match line(st, i, levels) {
                        Err(f) => {},
                        Ok((first, next)) => {
                            lemma_block(st, next, levels);
                            match block(st, next, levels) {
                                Err(f) => {},
                                Ok((rest, end)) => {
                                    let nodes = seq![first] + rest;
                                    assert(nodes[0] == first);
                                    if rest.len() > 0 {
                                        assert(nodes.last() == rest.last());
                                    }
                                },
                            }
                        },
                    }
                }
            },
            _ => {},
        }
    }
}

/// A line takes its `Indent` and at least one token more; its node begins
/// at the token after the `Indent` and ends with the line's last token.
/// After it comes the end of the tokens or a line indented no more than
/// the block.
pub proof fn lemma_line(st: Stream, i: int, levels: Seq<usize>)
    requires
        0 <= i < st.tokens.len(),
        st.tokens[i].kind is Indent,
        !trailing(st, i),
        st.tokens[i].kind->Indent_0 >= top(levels),
    ensures
        line(st, i, levels) matches Ok((node, next)) ==> {
            &&& i + 2 <= next <= st.tokens.len()
            &&& node.lo == st.tokens[i + 1].lo
            &&& node.line == st.tokens[i + 1].line
            &&& node.hi == st.tokens[next - 1].hi
            &&& (next < st.tokens.len() ==> st.tokens[next].kind is Indent && !deeper(
                st,
                next,
                levels,
            ))
            &&& (next >= st.tokens.len() ==> st.end is Ok)
        },
    decreases st.tokens.len() - i,
        (if deeper(st, i, levels) {
            2int
        } else {
            0int
        }),
{
    if deeper(st, i, levels) {
        let inner = levels.push(st.tokens[i].kind->Indent_0);
        assert(top(inner) == st.tokens[i].kind->Indent_0);
        lemma_block(st, i, inner);
    } else {
        lemma_form(st, i + 1, top(levels));
        match form(st, i + 1, top(levels)) {
            Err(f) => {},
            Ok((head, j)) => {
                if 0 <= j < st.tokens.len() && st.tokens[j].kind is Indent && deeper(st, j, levels) {
                    let inner = levels.push(st.tokens[j].kind->Indent_0);
                    assert(top(inner) == st.tokens[j].kind->Indent_0);
                    lemma_block(st, j, inner);
                }
            },
        }
    }
}

/// The tokens stand in their order and apart from each other, and each
/// has some length but the `Indent`s.
pub open spec fn spaced(st: Stream) -> bool {
    &&& forall|i: int, j: int|
        0 <= i < j < st.tokens.len() ==> (#[trigger] st.tokens[i]).hi <= (
        #[trigger] st.tokens[j]).lo
    &&& forall|i: int|
        0 <= i < st.tokens.len() ==> (#[trigger] st.tokens[i]).lo <= st.tokens[i].hi && (!(
        st.tokens[i].kind is Indent) ==> st.tokens[i].lo < st.tokens[i].hi)
}

/// The nodes stand between `lo` and `hi` in their order and apart from
/// each other.
pub open spec fn in_row(ns: Seq<Node>, lo: int, hi: int) -> bool {
    &&& forall|i: int| 0 <= i < ns.len() ==> lo <= (#[trigger] ns[i]).lo && ns[i].hi <= hi
    &&& forall|i: int, j: int|
        0 <= i < j < ns.len() ==> (#[trigger] ns[i]).hi <= (#[trigger] ns[j]).lo
}

/// The node is a tree laid out in the text: it has some length; the
/// children of a list stand inside it, in their order and apart from each
/// other; the form under a quote begins after the quote mark and ends with
/// the node; and the same holds of every node below.
pub open spec fn sound(n: Node) -> bool
    decreases n,
{
    &&& n.lo < n.hi
    &&& match n.shape {
        Shape::List(children) => in_row(children, n.lo, n.hi) && forall|i: int|
            0 <= i < children.len() ==> sound(#[trigger] children[i]),
        Shape::Quote(inner) => n.lo < inner.lo && inner.hi == n.hi && sound(*inner),
        _ => true,
    }
}

/// Each of the nodes is sound.
pub open spec fn all_sound(ns: Seq<Node>) -> bool {
    forall|i: int| 0 <= i < ns.len() ==> sound(#[trigger] ns[i])
}

/// A node put before a row of nodes that begins after it makes a row.
proof fn lemma_row_cons(first: Node, rest: Seq<Node>, lo: int, mid: int, hi: int)
    requires
        lo <= first.lo,
        first.hi <= mid <= hi,
        in_row(rest, mid, hi),
        sound(first),
        all_sound(rest),
    ensures
        in_row(seq![first] + rest, lo, hi),
        all_sound(seq![first] + rest),
{
    let ns = seq![first] + rest;
    assert forall|i: int| 0 <= i < ns.len() implies lo <= (#[trigger] ns[i]).lo && ns[i].hi <= hi
        && sound(ns[i]) by {
        if i > 0 {
            assert(ns[i] == rest[i - 1]);
        }
    }
    assert forall|i: int, j: int| 0 <= i < j < ns.len() implies (#[trigger] ns[i]).hi <= (
    #[trigger] ns[j]).lo by {
        assert(ns[j] == rest[j - 1]);
        if i > 0 {
            assert(ns[i] == rest[i - 1]);
        }
    }
}

/// A form is a sound node.
pub proof fn lemma_form_sound(st: Stream, i: int, level: usize)
    requires
        spaced(st),
    ensures
        form(st, i, level) matches Ok((node, next)) ==> sound(node),
    decreases st.tokens.len() - i, 0int,
{
    lemma_form(st, i, level);
    if 0 <= i < st.tokens.len() {
        let t = st.tokens[i];
        match t.kind {
            TokenKind::Quote => {
                let j = if continues(st, i + 1, level) {
                    i + 2
                } else {
                    i + 1
                };
                lemma_form(st, j, level);
                lemma_form_sound(st, j, level);
                if form(st, j, level) is Ok {
                    assert(t.hi <= st.tokens[j].lo);
                }
            },
            TokenKind::LParen => {
                lemma_items(st, i + 1, level);
                lemma_items_sound(st, i + 1, level);
                match items(st, i + 1, level) {
                    Err(f) => {},
                    Ok((children, close)) => {
                        assert(t.hi <= st.tokens[i + 1].lo);
                        assert(st.tokens[close].lo <= st.tokens[close].hi);
                        assert(in_row(children, t.lo, st.tokens[close].hi));
                    },
                }
            },
            _ => {},
        }
    }
}

/// The forms of a list are sound nodes, which stand in their order between
/// the token that the list's content begins with and its closing
/// parenthesis.
pub proof fn lemma_items_sound(st: Stream, i: int, level: usize)
    requires
        spaced(st),
    ensures
        items(st, i, level) matches Ok((nodes, close)) ==> all_sound(nodes) && in_row(
            nodes,
            st.tokens[i].lo,
            st.tokens[close].lo,
        ),
    decreases st.tokens.len() - i, 1int,
{
    lemma_items(st, i, level);
    if 0 <= i < st.tokens.len() {
        let t = st.tokens[i];
        match t.kind {
            TokenKind::RParen => {},
            TokenKind::Indent(w) => {
                if w >= level {
                    lemma_items(st, i + 1, level);
                    lemma_items_sound(st, i + 1, level);
                    match items(st, i + 1, level) {
                        Err(f) => {},
                        Ok((nodes, close)) => {
                            assert(t.lo <= t.hi && t.hi <= st.tokens[i + 1].lo);
                            assert(in_row(nodes, t.lo, st.tokens[close].lo));
                        },
                    }
                }
            },
            _ => {
                lemma_form(st, i, level);
                lemma_form_sound(st, i, level);
                match form(st, i, level) {
                    Err(f) => {},
                    Ok((first, next)) => {
                        lemma_items(st, next, level);
                        lemma_items_sound(st, next, level);
                        match items(st, next, level) {
                            Err(f) => {},
                            Ok((rest, close)) => {
                                let mid = st.tokens[next].lo;
                                assert(st.tokens[next - 1].hi <= mid);
                                assert(st.tokens[next].lo <= st.tokens[next].hi);
                                assert(mid <= st.tokens[close].lo);
                                lemma_row_cons(first, rest, t.lo, mid, st.tokens[close].lo);
                            },
                        }
                    },
                }
            },
        }
    }
}

/// The lines of a block are sound nodes, which stand in their order from
/// the first token of the first line to the last token of the last.
pub proof fn lemma_block_sound(st: Stream, i: int, levels: Seq<usize>)
    requires
        spaced(st),
        0 <= i,
    ensures
        block(st, i, levels) matches Ok((nodes, end)) ==> all_sound(nodes) && (nodes.len() > 0
            ==> in_row(nodes, st.tokens[i + 1].lo, st.tokens[end - 1].hi)),
    decreases st.tokens.len() - i,
        (if deeper(st, i, levels) {
            3int
        } else {
            1int
        }),
{
    lemma_block(st, i, levels);
    if 0 <= i < st.tokens.len() {
        let t = st.tokens[i];
        match t.kind {
            TokenKind::Indent(w) => {
                if trailing(st, i) || w < top(levels) {
                } else {
                    lemma_line(st, i, levels);
                    lemma_line_sound(st, i, levels);
                    match line(st, i, levels) {
                        Err(f) => {},
                        Ok((first, next)) => {
                            lemma_block(st, next, levels);
                            lemma_block_sound(st, next, levels);
                            match block(st, next, levels) {
                                Err(f) => {},
                                Ok((rest, end)) => {
                                    let hi = st.tokens[end - 1].hi;
                                    if rest.len() > 0 {
                                        let mid = st.tokens[next + 1].lo;
                                        assert(st.tokens[next - 1].hi <= mid);
                                        assert(rest[0].lo <= rest[0].hi <= hi);
                                        lemma_row_cons(first, rest, first.lo, mid, hi);
                                    } else {
                                        lemma_row_cons(first, rest, first.lo, first.hi, hi);
                                    }
                                },
                            }
                        },
                    }
                }
            },
            _ => {},
        }
    }
}

/// The node of a block of sound lines in a row is sound.
proof fn lemma_block_node_sound(children: Seq<Node>)
    requires
        children.len() > 0,
        all_sound(children),
        in_row(children, children[0].lo, children.last().hi),
    ensures
        sound(block_node(children)),
{
    assert(children[0].lo < children[0].hi);
    assert(children[0].hi <= children.last().hi);
}

/// The node of a sound line with a block of sound lines under it, which
/// begins after the line, is sound.
proof fn lemma_headed_node_sound(head: Node, children: Seq<Node>)
    requires
        children.len() > 0,
        sound(head),
        all_sound(children),
        in_row(children, children[0].lo, children.last().hi),
        head.hi <= children[0].lo,
    ensures
        sound(headed_node(head, children)),
{
    lemma_block_node_sound(children);
    let under = block_node(children);
    let pair = seq![head, under];
    assert(pair[0] == head && pair[1] == under);
    assert(children[0].lo < children[0].hi <= children.last().hi);
    assert(in_row(pair, head.lo, under.hi));
    assert(all_sound(pair));
}

/// The node of a line is sound.
pub proof fn lemma_line_sound(st: Stream, i: int, levels: Seq<usize>)
    requires
        spaced(st),
        0 <= i < st.tokens.len(),
        st.tokens[i].kind is Indent,
        !trailing(st, i),
        st.tokens[i].kind->Indent_0 >= top(levels),
    ensures
        line(st, i, levels) matches Ok((node, next)) ==> sound(node),
    decreases st.tokens.len() - i,
        (if deeper(st, i, levels) {
            2int
        } else {
            0int
        }),
{
    lemma_line(st, i, levels);
    if deeper(st, i, levels) {
        let inner = levels.push(st.tokens[i].kind->Indent_0);
        assert(top(inner) == st.tokens[i].kind->Indent_0);
        lemma_block(st, i, inner);
        lemma_block_sound(st, i, inner);
        if let Ok((children, next)) = block(st, i, inner) {
            lemma_block_node_sound(children);
        }
    } else {
        lemma_form(st, i + 1, top(levels));
        lemma_form_sound(st, i + 1, top(levels));
        match form(st, i + 1, top(levels)) {
            Err(f) => {},
            Ok((head, j)) => {
                if 0 <= j < st.tokens.len() && st.tokens[j].kind is Indent && deeper(st, j, levels) {
                    let inner = levels.push(st.tokens[j].kind->Indent_0);
                    assert(top(inner) == st.tokens[j].kind->Indent_0);
                    lemma_block(st, j, inner);
                    lemma_block_sound(st, j, inner);
                    if let Ok((children, next)) = block(st, j, inner) {
                        assert(st.tokens[j - 1].hi <= st.tokens[j + 1].lo);
                        lemma_headed_node_sound(head, children);
                    }
                }
            },
        }
    }
}

/// The tokens of a text are spaced.
pub proof fn lemma_stream_spaced(src: Seq<char>)
    requires
        src.len() <= usize::MAX,
    ensures
        spaced(stream(src)),
{
    let ts = stream(src).tokens;
    lemma_tokens_cover(src);
    assert forall|i: int, j: int| 0 <= i < j < ts.len() implies (#[trigger] ts[i]).hi <= (
    #[trigger] ts[j]).lo by {
        lemma_token_pair(src, i, j);
    }
    assert forall|i: int| 0 <= i < ts.len() implies (#[trigger] ts[i]).lo <= ts[i].hi && (!(
    ts[i].kind is Indent) ==> ts[i].lo < ts[i].hi) by {
        lemma_token_bounds(src, i);
    }
}

/// Every tree of a text is laid out in it: each node spans itself and all
/// below it and no more, the children of a node stand inside it in their
/// order and apart from each other, and so do the trees in the text.
pub proof fn lemma_trees_sound(src: Seq<char>)
    requires
        src.len() <= usize::MAX,
    ensures
        parse_text(src) matches Ok(nodes) ==> all_sound(nodes) && in_row(
            nodes,
            0,
            src.len() as int,
        ),
{
    let st = stream(src);
    lemma_stream_spaced(src);
    lemma_block(st, 0, Seq::empty());
    lemma_block_sound(st, 0, Seq::empty());
    if let Ok((nodes, end)) = block(st, 0, Seq::empty()) {
        if nodes.len() > 0 {
            lemma_token_bounds(src, 1);
            lemma_token_bounds(src, end - 1);
            assert(in_row(nodes, 0, src.len() as int));
        }
    }
}

} // verus!
