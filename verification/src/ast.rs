//! The syntax tree: nodes that refer to their children, and their value.

use crate::grammar::{Fault, Node, Shape};
use crate::text::{byte_offset, literal_value};
use vstd::prelude::*;

verus! {

/// What a node is, with what it holds: the children of a list, the form
/// under a quote, the text of a number as it was written, what a string
/// says, or the name of an identifier.
#[derive(Debug, PartialEq, Eq)]
pub enum AstKind<'a> {
    List(Vec<&'a Ast<'a>>),
    Quote(&'a Ast<'a>),
    Number(&'a str),
    String(String),
    Id(&'a str),
}

/// A node of the syntax tree, with the line it begins on, the byte offsets
/// between which it and all below it stand, and the text between them.
#[derive(Debug, PartialEq, Eq)]
pub struct Ast<'a> {
    pub kind: AstKind<'a>,
    pub line: usize,
    pub start_offset: usize,
    pub end_offset: usize,
    pub span: &'a str,
}

/// The value of a node's kind.
pub ghost enum TreeKind {
    List(Seq<Tree>),
    Quote(Box<Tree>),
    Number(Seq<char>),
    String(Seq<char>),
    Id(Seq<char>),
}

/// The value of a node and of all below it.
pub ghost struct Tree {
    pub kind: TreeKind,
    pub line: nat,
    pub start: nat,
    pub end: nat,
    pub span: Seq<char>,
}

impl<'a> Ast<'a> {
    /// The value of the node and of all below it.
    pub open spec fn tree(&self) -> Tree
        decreases self,
    {
        Tree {
            kind: match self.kind {
                AstKind::List(items) => TreeKind::List(
                    Seq::new(
                        items@.len(),
                        |i: int|
                            if 0 <= i < items@.len() {
                                items@[i].tree()
                            } else {
                                arbitrary()
                            },
                    ),
                ),
                AstKind::Quote(inner) => TreeKind::Quote(Box::new(inner.tree())),
                AstKind::Number(text) => TreeKind::Number(text@),
                AstKind::String(value) => TreeKind::String(value@),
                AstKind::Id(name) => TreeKind::Id(name@),
            },
            line: self.line as nat,
            start: self.start_offset as nat,
            end: self.end_offset as nat,
            span: self.span@,
        }
    }
}

impl<'a> View for Ast<'a> {
    type V = Tree;

    open spec fn view(&self) -> Tree {
        self.tree()
    }
}

/// The values of the nodes.
pub open spec fn trees<'a>(nodes: Seq<&'a Ast<'a>>) -> Seq<Tree> {
    Seq::new(nodes.len(), |i: int| nodes[i].tree())
}

/// The value of the node `n` of the grammar as it stands in `src`:
/// positions become byte offsets, the text between them is taken along,
/// and an atom gets what its text says.
pub open spec fn render(src: Seq<char>, n: Node) -> Tree
    decreases n,
{
    let span = src.subrange(n.lo, n.hi);
    Tree {
        kind: match n.shape {
            Shape::List(children) => TreeKind::List(
                Seq::new(
                    children.len(),
                    |i: int|
                        if 0 <= i < children.len() {
                            render(src, children[i])
                        } else {
                            arbitrary()
                        },
                ),
            ),
            Shape::Quote(inner) => TreeKind::Quote(Box::new(render(src, *inner))),
            Shape::Number => TreeKind::Number(span),
            Shape::String => TreeKind::String(literal_value(span)),
            Shape::Id => TreeKind::Id(span),
        },
        line: n.line,
        start: byte_offset(src, n.lo),
        end: byte_offset(src, n.hi),
        span,
    }
}

/// The values of the nodes `ns` of the grammar as they stand in `src`.
pub open spec fn render_all(src: Seq<char>, ns: Seq<Node>) -> Seq<Tree> {
    Seq::new(ns.len(), |i: int| render(src, ns[i]))
}

/// The value of a list node is the list of its children's values.
pub proof fn lemma_list_tree<'a>(ast: Ast<'a>)
    ensures
        ast.kind matches AstKind::List(items) ==> ast.tree().kind == TreeKind::List(trees(items@)),
{
    if let AstKind::List(items) = ast.kind {
        assert(ast.tree().kind->List_0 =~= trees(items@));
    }
}

/// The value of a list of the grammar is the list of its children's
/// values.
pub proof fn lemma_list_render(src: Seq<char>, n: Node)
    ensures
        n.shape matches Shape::List(children) ==> render(src, n).kind == TreeKind::List(
            render_all(src, children),
        ),
{
    if let Shape::List(children) = n.shape {
        assert(render(src, n).kind->List_0 =~= render_all(src, children));
    }
}

/// Why a text could not be parsed.
#[derive(Debug, PartialEq, Eq)]
pub enum ParseError {
    /// A token stands where another was looked for.
    UnexpectedToken { expected: crate::grammar::Expected, found: crate::token::TokenKind, line: usize },
    /// The text ends, or a line is indented less than its block, inside a
    /// list.
    UnclosedList { line: usize },
    /// A line is indented less than its block, and as none of the blocks
    /// that are still open: `levels` are their indentations.
    IndentMismatch { got: usize, levels: Vec<usize> },
    /// The text could not be tokenized.
    Lex(crate::token::LexError),
}

impl View for ParseError {
    type V = Fault;

    open spec fn view(&self) -> Fault {
        match *self {
            ParseError::UnexpectedToken { expected, found, line } => Fault::UnexpectedToken {
                expected,
                found,
                line: line as nat,
            },
            ParseError::UnclosedList { line } => Fault::UnclosedList { line: line as nat },
            ParseError::IndentMismatch { got, levels } => Fault::IndentMismatch {
                got,
                levels: levels@,
            },
            ParseError::Lex(e) => Fault::Lex(e),
        }
    }
}

} // verus!
