//! The parser: recursive descent over the tokens of a text, with a stack of
//! the indentations of the blocks that are open, and an arena that owns
//! every node.

use crate::ast::{
    lemma_list_render, lemma_list_tree, render, render_all, trees, Ast, AstKind, ParseError, Tree,
};
use crate::grammar::{
    block, block_node, continues, deeper, end_fault, form, headed_node, items, lemma_block,
    lemma_form, lemma_items, lemma_line, line, mismatch, parse_text, top, trailing, Expected,
    Fault, Node,
};
use crate::lexer::{end_renders, tokenize, tokens_render};
use crate::lexis::{lemma_token_bounds, lemma_token_pair, stream};
use crate::text::{lemma_fits, slice, unquote};
use crate::token::{LexError, Token, TokenKind};
use typed_arena::Arena;
use vstd::prelude::*;

verus! {

/// `typed_arena::Arena`, the region that owns the nodes of one parse. Its
/// inside is not looked into: an arena is only handed on to `alloc`.
#[verifier::external_type_specification]
#[verifier::external_body]
#[verifier::reject_recursive_types(T)]
pub struct ExArena<T>(Arena<T>);

/// `Arena::alloc` moves the value into the arena and gives a reference to
/// where it now lies, good for as long as the arena: what is read through
/// the reference is the value that was given. It grows the arena by
/// doubling and fails only where memory does.
#[verifier::external_body]
fn alloc_node<'a>(arena: &'a Arena<Ast<'a>>, node: Ast<'a>) -> (r: &'a Ast<'a>)
    ensures
        *r == node,
{
    arena.alloc(node)
}

/// The result `r` with the nodes `acc` put before its own.
pub open spec fn prepend(acc: Seq<Node>, r: Result<(Seq<Node>, int), Fault>) -> Result<
    (Seq<Node>, int),
    Fault,
> {
    match r {
        Ok((rest, end)) => Ok((acc + rest, end)),
        Err(f) => Err(f),
    }
}

/// What the parser found is what the grammar says of one node: the same
/// node, as it stands in `src`, and the same next token; or the same fault.
pub open spec fn node_found<'a>(
    src: Seq<char>,
    said: Result<(Node, int), Fault>,
    found: Result<(&'a Ast<'a>, usize), ParseError>,
) -> bool {
    match said {
        Ok((node, next)) => found matches Ok(pair) && pair.0.tree() == render(src, node) && pair.1
            == next,
        Err(f) => found matches Err(e) && e@ == f,
    }
}

/// What the parser found is what the grammar says of a run of nodes.
pub open spec fn nodes_found<'a>(
    src: Seq<char>,
    said: Result<(Seq<Node>, int), Fault>,
    found: Result<(Vec<&'a Ast<'a>>, usize), ParseError>,
) -> bool {
    match said {
        Ok((nodes, next)) => found matches Ok(pair) && trees(pair.0@) == render_all(src, nodes)
            && pair.1 == next,
        Err(f) => found matches Err(e) && e@ == f,
    }
}

/// What `parse` returns for the text `src`: the trees that the grammar
/// gives it, as they stand in the text, or the fault that the grammar
/// finds.
pub open spec fn parsed<'a>(src: Seq<char>, r: Result<Vec<&'a Ast<'a>>, ParseError>) -> bool {
    match parse_text(src) {
        Ok(nodes) => r matches Ok(forest) && trees(forest@) == render_all(src, nodes),
        Err(f) => r matches Err(e) && e@ == f,
    }
}

/// What a parse amounts to, whatever arena holds the nodes: the values of
/// the trees, or the fault.
pub open spec fn outcome<'a>(r: Result<Vec<&'a Ast<'a>>, ParseError>) -> Result<Seq<Tree>, Fault> {
    match r {
        Ok(forest) => Ok(trees(forest@)),
        Err(e) => Err(e@),
    }
}

/// Parsing one text twice, into two arenas, gives trees of the same value
/// throughout, or the same fault.
pub proof fn lemma_parse_repeatable<'a, 'b>(
    src: Seq<char>,
    first: Result<Vec<&'a Ast<'a>>, ParseError>,
    second: Result<Vec<&'b Ast<'b>>, ParseError>,
)
    requires
        parsed(src, first),
        parsed(src, second),
    ensures
        outcome(first) == outcome(second),
{
}

/// The tokens from `i` to `j` reach from the start of the first to the end
/// of the last, inside the text.
proof fn lemma_span(src: Seq<char>, i: int, j: int)
    requires
        src.len() <= usize::MAX,
        0 <= i <= j < stream(src).tokens.len(),
    ensures
        0 <= stream(src).tokens[i].lo <= stream(src).tokens[j].hi <= src.len(),
{
    lemma_token_bounds(src, i);
    if i < j {
        lemma_token_pair(src, i, j);
    }
}

/// The state of one parse: the arena that takes the nodes, the text and its
/// tokens, and the indentations of the blocks that are open, innermost
/// last.
pub struct Parser<'a> {
    arena: &'a Arena<Ast<'a>>,
    src: &'a str,
    tokens: Vec<Token<'a>>,
    end: Result<Token<'a>, LexError>,
    indent: Vec<usize>,
}

impl<'a> Parser<'a> {
    /// The tokens held are those of the text held.
    pub closed spec fn wf(&self) -> bool {
        &&& self.src@.len() <= usize::MAX
        &&& tokens_render(self.src@, stream(self.src@).tokens, self.tokens@)
        &&& end_renders(self.src@, stream(self.src@).end, self.end)
    }

    /// The text that is parsed.
    pub closed spec fn source(&self) -> Seq<char> {
        self.src@
    }

    /// The indentations of the open blocks, innermost last.
    pub closed spec fn levels(&self) -> Seq<usize> {
        self.indent@
    }

    /// All of the state but the open blocks.
    pub closed spec fn input(&self) -> (
        &'a Arena<Ast<'a>>,
        &'a str,
        Vec<Token<'a>>,
        Result<Token<'a>, LexError>,
    ) {
        (self.arena, self.src, self.tokens, self.end)
    }

    /// A parser for `src` with no block open, whose nodes will lie in
    /// `arena`.
    pub fn new(arena: &'a Arena<Ast<'a>>, src: &'a str) -> (parser: Self)
        ensures
            parser.wf(),
            parser.source() == src@,
            parser.levels() == Seq::<usize>::empty(),
    {
        let (tokens, end) = tokenize(src);
        proof {
            lemma_fits(src@);
        }
        Parser { arena, src, tokens, end, indent: Vec::new() }
    }

    /// The syntax trees of the lines of the text that stand at its
    /// outermost level, or the first error.
    pub fn parse(self) -> (r: Result<Vec<&'a Ast<'a>>, ParseError>)
        requires
            self.wf(),
            self.levels() == Seq::<usize>::empty(),
        ensures
            parsed(self.source(), r),
    {
        let mut parser = self;
        match parser.parse_block(0) {
            Err(e) => Err(e),
            Ok((forest, _)) => Ok(forest),
        }
    }

    /// The error for the end of the tokens where `expected` should be.
    fn end_error(&self, expected: Expected) -> (e: ParseError)
        requires
            self.wf(),
        ensures
            e@ == end_fault(stream(self.src@), expected),
    {
        match self.end {
            Err(e) => ParseError::Lex(e),
            Ok(eof) => ParseError::UnexpectedToken { expected, found: eof.kind, line: eof.line },
        }
    }

    /// The indentation of the innermost open block.
    fn top(&self) -> (w: usize)
        ensures
            w == top(self.indent@),
    {
        let n: usize = self.indent.len();
        if n == 0 {
            0
        } else {
            self.indent[n - 1]
        }
    }

    /// Whether token `i` is an `Indent` of `level` or more.
    fn continues(&self, i: usize, level: usize) -> (b: bool)
        requires
            self.wf(),
        ensures
            b == continues(stream(self.src@), i as int, level),
    {
        if i < self.tokens.len() {
            match self.tokens[i].kind {
                TokenKind::Indent(w) => w >= level,
                _ => false,
            }
        } else {
            false
        }
    }

    /// Whether token `i` is an `Indent` with nothing after it.
    fn trailing(&self, i: usize) -> (b: bool)
        requires
            self.wf(),
            i < self.tokens@.len(),
        ensures
            b == trailing(stream(self.src@), i as int),
    {
        let last = i == self.tokens.len() - 1;
        let ended = match self.end {
            Ok(_) => true,
            Err(_) => false,
        };
        let indent = match self.tokens[i].kind {
            TokenKind::Indent(_) => true,
            _ => false,
        };
        last && ended && indent
    }

    /// Whether token `i` begins a line indented more than the innermost
    /// open block.
    fn deeper(&self, i: usize) -> (b: bool)
        requires
            self.wf(),
        ensures
            b == deeper(stream(self.src@), i as int, self.indent@),
    {
        if i < self.tokens.len() {
            match self.tokens[i].kind {
                TokenKind::Indent(w) => !self.trailing(i) && w > self.top(),
                _ => false,
            }
        } else {
            false
        }
    }

    /// The form that begins at token `i`, in a block indented by `level`,
    /// and the index of the token after it.
    fn parse_form(&self, i: usize, level: usize) -> (r: Result<(&'a Ast<'a>, usize), ParseError>)
        requires
            self.wf(),
        ensures
            node_found(self.source(), form(stream(self.source()), i as int, level), r),
        decreases self.tokens@.len() - i, 0int,
    {
        let n: usize = self.tokens.len();
        let ghost st = stream(self.src@);
        if i >= n {
            return Err(self.end_error(Expected::Form));
        }
        let t = self.tokens[i];
        proof {
            lemma_token_bounds(self.src@, i as int);
            assert(t@ == st.tokens[i as int].render(self.src@));
        }
        match t.kind {
            TokenKind::Id => {
                let node = alloc_node(
                    self.arena,
                    Ast {
                        kind: AstKind::Id(t.text),
                        line: t.line,
                        start_offset: t.start_offset,
                        end_offset: t.end_offset,
                        span: t.text,
                    },
                );
                Ok((node, i + 1))
            },
            TokenKind::Number => {
                let node = alloc_node(
                    self.arena,
                    Ast {
                        kind: AstKind::Number(t.text),
                        line: t.line,
                        start_offset: t.start_offset,
                        end_offset: t.end_offset,
                        span: t.text,
                    },
                );
                Ok((node, i + 1))
            },
            TokenKind::String => {
                let value = unquote(t.text);
                let node = alloc_node(
                    self.arena,
                    Ast {
                        kind: AstKind::String(value),
                        line: t.line,
                        start_offset: t.start_offset,
                        end_offset: t.end_offset,
                        span: t.text,
                    },
                );
                Ok((node, i + 1))
            },
            TokenKind::Quote => {
                let j: usize = if self.continues(i + 1, level) {
                    i + 2
                } else {
                    i + 1
                };
                proof {
                    lemma_form(st, j as int, level);
                }
                match self.parse_form(j, level) {
                    Err(e) => Err(e),
                    Ok((inner, next)) => {
                        let ghost said = form(st, j as int, level)->Ok_0.0;
                        proof {
                            lemma_span(self.src@, i as int, next - 1);
                        }
                        let span = slice(
                            self.src,
                            t.start_offset,
                            inner.end_offset,
                            Ghost(st.tokens[i as int].lo),
                            Ghost(said.hi),
                        );
                        let node = alloc_node(
                            self.arena,
                            Ast {
                                kind: AstKind::Quote(inner),
                                line: t.line,
                                start_offset: t.start_offset,
                                end_offset: inner.end_offset,
                                span,
                            },
                        );
                        Ok((node, next))
                    },
                }
            },
            TokenKind::LParen => {
                proof {
                    lemma_items(st, i + 1, level);
                }
                match self.parse_items(i + 1, level) {
                    Err(e) => Err(e),
                    Ok((children, close)) => {
                        let ghost said = items(st, i + 1, level)->Ok_0.0;
                        let last = self.tokens[close];
                        proof {
                            lemma_span(self.src@, i as int, close as int);
                            assert(last@ == st.tokens[close as int].render(self.src@));
                        }
                        let span = slice(
                            self.src,
                            t.start_offset,
                            last.end_offset,
                            Ghost(st.tokens[i as int].lo),
                            Ghost(st.tokens[close as int].hi),
                        );
                        let node = alloc_node(
                            self.arena,
                            Ast {
                                kind: AstKind::List(children),
                                line: t.line,
                                start_offset: t.start_offset,
                                end_offset: last.end_offset,
                                span,
                            },
                        );
                        proof {
                            lemma_list_tree(*node);
                            lemma_list_render(self.src@, form(st, i as int, level)->Ok_0.0);
                        }
                        Ok((node, close + 1))
                    },
                }
            },
            _ => Err(
                ParseError::UnexpectedToken { expected: Expected::Form, found: t.kind, line: t.line },
            ),
        }
    }

    /// The forms of a list from token `i` up to the closing parenthesis,
    /// and the index of that parenthesis.
    fn parse_items(&self, i: usize, level: usize) -> (r: Result<
        (Vec<&'a Ast<'a>>, usize),
        ParseError,
    >)
        requires
            self.wf(),
        ensures
            nodes_found(self.source(), items(stream(self.source()), i as int, level), r),
        decreases self.tokens@.len() - i, 1int,
    {
        let n: usize = self.tokens.len();
        let ghost st = stream(self.src@);
        let mut found: Vec<&'a Ast<'a>> = Vec::new();
        let mut k: usize = i;
        let ghost mut acc: Seq<Node> = Seq::empty();
        proof {
            assert(trees(found@) =~= render_all(self.src@, acc));
            match items(st, i as int, level) {
                Ok((rest, end)) => {
                    assert(acc + rest =~= rest);
                },
                Err(f) => {},
            }
        }
        loop
            invariant
                self.wf(),
                n == self.tokens@.len(),
                st == stream(self.src@),
                i <= k,
                items(st, i as int, level) == prepend(acc, items(st, k as int, level)),
                trees(found@) == render_all(self.src@, acc),
            decreases n - k,
        {
            if k >= n {
                return Err(
                    match self.end {
                        Err(e) => ParseError::Lex(e),
                        Ok(eof) => ParseError::UnclosedList { line: eof.line },
                    },
                );
            }
            let t = self.tokens[k];
            assert(t@ == st.tokens[k as int].render(self.src@));
            match t.kind {
                TokenKind::RParen => {
                    assert(acc + Seq::<Node>::empty() =~= acc);
                    return Ok((found, k));
                },
                TokenKind::Indent(w) => {
                    if w < level {
                        return Err(ParseError::UnclosedList { line: t.line });
                    }
                    k = k + 1;
                },
                _ => {
                    proof {
                        lemma_form(st, k as int, level);
                    }
                    match self.parse_form(k, level) {
                        Err(e) => {
                            return Err(e);
                        },
                        Ok((node, next)) => {
                            proof {
                                let first = form(st, k as int, level)->Ok_0.0;
                                match items(st, next as int, level) {
                                    Ok((rest, end)) => {
                                        assert(acc + (seq![first] + rest) =~= acc.push(first)
                                            + rest);
                                    },
                                    Err(f) => {},
                                }
                                assert(trees(found@.push(node)) =~= trees(found@).push(
                                    node.tree(),
                                ));
                                assert(render_all(self.src@, acc.push(first)) =~= render_all(
                                    self.src@,
                                    acc,
                                ).push(render(self.src@, first)));
                                acc = acc.push(first);
                            }
                            found.push(node);
                            k = next;
                        },
                    }
                },
            }
        }
    }

    /// The node of a block whose lines are `children`.
    fn block_node(&self, children: Vec<&'a Ast<'a>>, Ghost(nodes): Ghost<Seq<Node>>) -> (r: &'a Ast<
        'a,
    >)
        requires
            self.wf(),
            nodes.len() > 0,
            trees(children@) == render_all(self.src@, nodes),
            0 <= nodes[0].lo <= nodes.last().hi <= self.src@.len(),
        ensures
            r.tree() == render(self.src@, block_node(nodes)),
    {
        let n: usize = children.len();
        assert(trees(children@).len() == n);
        let first = children[0];
        let last = children[n - 1];
        assert(first.tree() == trees(children@)[0]);
        assert(last.tree() == trees(children@)[n - 1]);
        let span = slice(
            self.src,
            first.start_offset,
            last.end_offset,
            Ghost(nodes[0].lo),
            Ghost(nodes.last().hi),
        );
        let node = alloc_node(
            self.arena,
            Ast {
                kind: AstKind::List(children),
                line: first.line,
                start_offset: first.start_offset,
                end_offset: last.end_offset,
                span,
            },
        );
        proof {
            lemma_list_tree(*node);
            lemma_list_render(self.src@, block_node(nodes));
        }
        node
    }

    /// The node of the line `head` with the block of `children` under it.
    fn headed_node(
        &self,
        head: &'a Ast<'a>,
        children: Vec<&'a Ast<'a>>,
        Ghost(said): Ghost<Node>,
        Ghost(nodes): Ghost<Seq<Node>>,
    ) -> (r: &'a Ast<'a>)
        requires
            self.wf(),
            nodes.len() > 0,
            head.tree() == render(self.src@, said),
            trees(children@) == render_all(self.src@, nodes),
            0 <= said.lo <= nodes[0].lo <= nodes.last().hi <= self.src@.len(),
        ensures
            r.tree() == render(self.src@, headed_node(said, nodes)),
    {
        let under = self.block_node(children, Ghost(nodes));
        let span = slice(
            self.src,
            head.start_offset,
            under.end_offset,
            Ghost(said.lo),
            Ghost(nodes.last().hi),
        );
        let mut pair: Vec<&'a Ast<'a>> = Vec::new();
        pair.push(head);
        pair.push(under);
        let node = alloc_node(
            self.arena,
            Ast {
                kind: AstKind::List(pair),
                line: head.line,
                start_offset: head.start_offset,
                end_offset: under.end_offset,
                span,
            },
        );
        proof {
            lemma_list_tree(*node);
            lemma_list_render(self.src@, headed_node(said, nodes));
            assert(trees(pair@) =~= render_all(self.src@, seq![said, block_node(nodes)]));
        }
        node
    }

    /// The error, if any, of a line that follows a closed block at token
    /// `next` and is indented as none of the open blocks.
    fn mismatch(&self, next: usize) -> (e: Option<ParseError>)
        requires
            self.wf(),
        ensures
            match mismatch(stream(self.src@), next as int, self.indent@) {
                Some(f) => e matches Some(found) && found@ == f,
                None => e is None,
            },
    {
        if self.deeper(next) {
            match self.tokens[next].kind {
                TokenKind::Indent(got) => {
                    let mut levels: Vec<usize> = Vec::new();
                    let mut k: usize = 0;
                    while k < self.indent.len()
                        invariant
                            k <= self.indent@.len(),
                            levels@ == self.indent@.take(k as int),
                        decreases self.indent@.len() - k,
                    {
                        levels.push(self.indent[k]);
                        assert(self.indent@.take(k + 1) =~= self.indent@.take(k as int).push(
                            self.indent@[k as int],
                        ));
                        k = k + 1;
                    }
                    assert(self.indent@.take(k as int) =~= self.indent@);
                    Some(ParseError::IndentMismatch { got, levels })
                },
                _ => None,
            }
        } else {
            None
        }
    }

    /// The lines of the innermost open block from token `i` on, and the
    /// index of the token at which the block ends.
    fn parse_block(&mut self, i: usize) -> (r: Result<(Vec<&'a Ast<'a>>, usize), ParseError>)
        requires
            old(self).wf(),
        ensures
            final(self).wf(),
            final(self).input() == old(self).input(),
            r is Ok ==> final(self).levels() == old(self).levels(),
            nodes_found(
                old(self).source(),
                block(stream(old(self).source()), i as int, old(self).levels()),
                r,
            ),
        decreases
                old(self).tokens@.len() - i,
                (if deeper(stream(old(self).src@), i as int, old(self).indent@) {
                    5int
                } else {
                    1int
                }),
    {
        let n: usize = self.tokens.len();
        let ghost st = stream(self.src@);
        let ghost levels = self.indent@;
        let mut found: Vec<&'a Ast<'a>> = Vec::new();
        let mut k: usize = i;
        let ghost mut acc: Seq<Node> = Seq::empty();
        proof {
            assert(trees(found@) =~= render_all(self.src@, acc));
            match block(st, i as int, levels) {
                Ok((rest, end)) => {
                    assert(acc + rest =~= rest);
                },
                Err(f) => {},
            }
        }
        loop
            invariant
                self.wf(),
                self.input() == old(self).input(),
                self.indent@ == levels,
                levels == old(self).indent@,
                n == self.tokens@.len(),
                st == stream(self.src@),
                i <= k,
                k == i || !deeper(st, k as int, levels),
                block(st, i as int, levels) == prepend(acc, block(st, k as int, levels)),
                trees(found@) == render_all(self.src@, acc),
            decreases n - k,
        {
            if k >= n {
                match self.end {
                    Err(e) => {
                        return Err(ParseError::Lex(e));
                    },
                    Ok(_) => {
                        assert(acc + Seq::<Node>::empty() =~= acc);
                        return Ok((found, k));
                    },
                }
            }
            let t = self.tokens[k];
            assert(t@ == st.tokens[k as int].render(self.src@));
            match t.kind {
                TokenKind::Indent(w) => {
                    if self.trailing(k) || w < self.top() {
                        assert(acc + Seq::<Node>::empty() =~= acc);
                        return Ok((found, k));
                    }
                    proof {
                        lemma_line(st, k as int, levels);
                    }
                    match self.parse_line(k) {
                        Err(e) => {
                            return Err(e);
                        },
                        Ok((node, next)) => {
                            proof {
                                let first = line(st, k as int, levels)->Ok_0.0;
                                match block(st, next as int, levels) {
                                    Ok((rest, end)) => {
                                        assert(acc + (seq![first] + rest) =~= acc.push(first)
                                            + rest);
                                    },
                                    Err(f) => {},
                                }
                                assert(trees(found@.push(node)) =~= trees(found@).push(
                                    node.tree(),
                                ));
                                assert(render_all(self.src@, acc.push(first)) =~= render_all(
                                    self.src@,
                                    acc,
                                ).push(render(self.src@, first)));
                                acc = acc.push(first);
                            }
                            found.push(node);
                            k = next;
                        },
                    }
                },
                _ => {
                    return Err(
                        ParseError::UnexpectedToken {
                            expected: Expected::LineEnd,
                            found: t.kind,
                            line: t.line,
                        },
                    );
                },
            }
        }
    }

    /// The block that the `Indent` at token `i` opens, and the index of the
    /// token at which it ends, provided that the line after it is
    /// indented as a block that is still open.
    fn open_block(&mut self, i: usize, width: usize) -> (r: Result<(Vec<&'a Ast<'a>>, usize), ParseError>)
        requires
            old(self).wf(),
            deeper(stream(old(self).src@), i as int, old(self).indent@),
            stream(old(self).src@).tokens[i as int].kind == TokenKind::Indent(width),
        ensures
            final(self).wf(),
            final(self).input() == old(self).input(),
            r is Ok ==> final(self).levels() == old(self).levels(),
            match block(stream(old(self).src@), i as int, old(self).indent@.push(width)) {
                Err(f) => r matches Err(e) && e@ == f,
                Ok((nodes, next)) => match mismatch(
                    stream(old(self).src@),
                    next,
                    old(self).indent@,
                ) {
                    Some(f) => r matches Err(e) && e@ == f,
                    None => r matches Ok(pair) && trees(pair.0@) == render_all(
                        old(self).src@,
                        nodes,
                    ) && pair.1 == next,
                },
            },
        decreases old(self).tokens@.len() - i, 3int,
    {
        let ghost levels = self.indent@;
        self.indent.push(width);
        assert(top(self.indent@) == width);
        let under = self.parse_block(i);
        self.indent.pop();
        match under {
            Err(e) => Err(e),
            Ok((children, next)) => {
                assert(self.indent@ =~= levels);
                match self.mismatch(next) {
                    Some(e) => Err(e),
                    None => Ok((children, next)),
                }
            },
        }
    }

    /// One line of the innermost open block, which begins with the `Indent`
    /// at token `i`, and the index of the token after all that belongs to
    /// it.
    fn parse_line(&mut self, i: usize) -> (r: Result<(&'a Ast<'a>, usize), ParseError>)
        requires
            old(self).wf(),
            i < stream(old(self).source()).tokens.len(),
            stream(old(self).source()).tokens[i as int].kind is Indent,
            !trailing(stream(old(self).source()), i as int),
            stream(old(self).source()).tokens[i as int].kind->Indent_0 >= top(old(self).levels()),
        ensures
            final(self).wf(),
            final(self).input() == old(self).input(),
            r is Ok ==> final(self).levels() == old(self).levels(),
            node_found(
                old(self).source(),
                line(stream(old(self).source()), i as int, old(self).levels()),
                r,
            ),
        decreases
                old(self).tokens@.len() - i,
                (if deeper(stream(old(self).src@), i as int, old(self).indent@) {
                    4int
                } else {
                    0int
                }),
    {
        let n: usize = self.tokens.len();
        let ghost st = stream(self.src@);
        let ghost levels = self.indent@;
        let t = self.tokens[i];
        assert(t@ == st.tokens[i as int].render(self.src@));
        let width: usize = match t.kind {
            TokenKind::Indent(w) => w,
            _ => 0,
        };
        if self.deeper(i) {
            proof {
                assert(top(levels.push(width)) == width);
                lemma_block(st, i as int, levels.push(width));
            }
            match self.open_block(i, width) {
                Err(e) => Err(e),
                Ok((children, next)) => {
                    let ghost nodes = block(st, i as int, levels.push(width))->Ok_0.0;
                    proof {
                        lemma_span(self.src@, i + 1, next - 1);
                    }
                    Ok((self.block_node(children, Ghost(nodes)), next))
                },
            }
        } else {
            let level = self.top();
            proof {
                lemma_form(st, i + 1, level);
            }
            match self.parse_form(i + 1, level) {
                Err(e) => Err(e),
                Ok((head, j)) => self.parse_under(i, head, j, Ghost(form(st, i + 1, level)->Ok_0.0)),
            }
        }
    }

    /// What a line is whose form `head` ends before token `j`: the form
    /// itself, or the list of it and the block that the next line opens
    /// under it.
    fn parse_under(&mut self, i: usize, head: &'a Ast<'a>, j: usize, Ghost(said): Ghost<Node>) -> (r:
        Result<(&'a Ast<'a>, usize), ParseError>)
        requires
            old(self).wf(),
            i < j,
            i < old(self).tokens@.len(),
            stream(old(self).src@).tokens[i as int].kind is Indent,
            !deeper(stream(old(self).src@), i as int, old(self).indent@),
            form(stream(old(self).src@), i + 1, top(old(self).indent@)) == Ok::<
                (Node, int),
                Fault,
            >((said, j as int)),
            head.tree() == render(old(self).src@, said),
        ensures
            final(self).wf(),
            final(self).input() == old(self).input(),
            r is Ok ==> final(self).levels() == old(self).levels(),
            node_found(
                old(self).source(),
                line(stream(old(self).source()), i as int, old(self).levels()),
                r,
            ),
        decreases old(self).tokens@.len() - j, 6int,
    {
        let n: usize = self.tokens.len();
        let ghost st = stream(self.src@);
        let ghost levels = self.indent@;
        proof {
            lemma_form(st, i + 1, top(levels));
        }
        if j >= n {
            return match self.end {
                Err(e) => Err(ParseError::Lex(e)),
                Ok(_) => Ok((head, j)),
            };
        }
        let u = self.tokens[j];
        assert(u@ == st.tokens[j as int].render(self.src@));
        match u.kind {
            TokenKind::Indent(under) => {
                if self.deeper(j) {
                    proof {
                        assert(top(levels.push(under)) == under);
                        lemma_block(st, j as int, levels.push(under));
                    }
                    match self.open_block(j, under) {
                        Err(e) => Err(e),
                        Ok((children, next)) => {
                            let ghost nodes = block(st, j as int, levels.push(under))->Ok_0.0;
                            proof {
                                lemma_span(self.src@, i + 1, j - 1);
                                lemma_span(self.src@, j + 1, next - 1);
                                lemma_token_pair(self.src@, i + 1, j + 1);
                            }
                            Ok((self.headed_node(head, children, Ghost(said), Ghost(nodes)), next))
                        },
                    }
                } else {
                    Ok((head, j))
                }
            },
            _ => Err(
                ParseError::UnexpectedToken {
                    expected: Expected::LineEnd,
                    found: u.kind,
                    line: u.line,
                },
            ),
        }
    }
}

/// The syntax trees of the lines of `src` that stand at its outermost
/// level, their nodes laid in `arena`; or the first error.
pub fn parse<'a>(arena: &'a Arena<Ast<'a>>, src: &'a str) -> (r: Result<Vec<&'a Ast<'a>>, ParseError>)
    ensures
        parsed(src@, r),
{
    Parser::new(arena, src).parse()
}

} // verus!
