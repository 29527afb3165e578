//! The syntax tree that a parser hands over: typed nodes with byte ranges.

use vstd::prelude::*;
use crate::text::{dots, reads_dots, word};

verus! {

/// One node of a parsed source file.
///
/// `start..end` is the node's range in the source text, in bytes. A node with
/// `error` set covers a span that the parser could not make sense of.
#[derive(Debug)]
pub struct SyntaxNode {
    pub kind: u16,
    pub error: bool,
    pub start: usize,
    pub end: usize,
    pub children: Vec<SyntaxNode>,
}

/// The node and everything below it, parents before children, siblings left to right.
pub open spec fn preorder(s: SyntaxNode) -> Seq<SyntaxNode>
    decreases s, 0int,
{
    seq![s] + preorder_of(s.children@, s.children@.len() as int)
}

/// The pre-order of the first `count` subtrees of `nodes`, one after the other.
pub open spec fn preorder_of(nodes: Seq<SyntaxNode>, count: int) -> Seq<SyntaxNode>
    decreases nodes, count,
{
    if 0 < count <= nodes.len() {
        preorder_of(nodes, count - 1) + preorder(nodes[count - 1])
    } else {
        Seq::empty()
    }
}

/// The children that a pattern can be aligned with: an error node is a leaf to the matcher.
pub open spec fn visible_children(s: SyntaxNode) -> Seq<SyntaxNode> {
    if s.error {
        Seq::empty()
    } else {
        s.children@
    }
}

/// A bracket or a separator: a name of one byte, one of `( ) [ ] { } , ;`.
pub open spec fn is_punctuation(name: Seq<u8>) -> bool {
    name.len() == 1 && (name[0] == 40 || name[0] == 41 || name[0] == 91 || name[0] == 93
        || name[0] == 123 || name[0] == 125 || name[0] == 44 || name[0] == 59)
}

/// Whether a node of a parser's tree is one that the matcher is to see.
/// Error nodes are seen. Of the others, those are left out that the
/// grammar lets stand anywhere (comments), and the unnamed ones that are
/// brackets or separators: they say nothing that the shape of the tree
/// does not say.
pub open spec fn is_shown(named: bool, extra: bool, error: bool, name: Seq<u8>) -> bool {
    error || (!extra && (named || !is_punctuation(name)))
}

/// Whether a node of a parser's tree is one that the matcher is to see;
/// `name` is the name of the node's kind.
pub fn shown(named: bool, extra: bool, error: bool, name: &[u8]) -> (r: bool)
    ensures
        r == is_shown(named, extra, error, name@),
{
    if error {
        return true;
    }
    if extra {
        return false;
    }
    if named || name.len() != 1 {
        return true;
    }
    let b = name[0];
    !(b == 40 || b == 41 || b == 91 || b == 93 || b == 123 || b == 125 || b == 44 || b == 59)
}

impl SyntaxNode {
    /// The node that stands for a node of a parser's tree. One that the
    /// parser marks as an error or as missing is an error node, but for an
    /// error that reads `...`: that is the ellipsis, a leaf of its kind.
    pub fn adopt(
        kind: u16,
        start: usize,
        end: usize,
        error: bool,
        missing: bool,
        children: Vec<SyntaxNode>,
        text: &[u8],
    ) -> (s: SyntaxNode)
        ensures
            s.start == start,
            s.end == end,
            s.error == ((error || missing) && !(word(text@, start as int, end as int) =~= dots())),
            s.kind == if s.error {
                u16::MAX
            } else {
                kind
            },
            s.children@ == if (error || missing) && !s.error {
                Seq::empty()
            } else {
                children@
            },
    {
        if error || missing {
            if reads_dots(text, start, end) {
                SyntaxNode::leaf(kind, start, end)
            } else {
                SyntaxNode::failed(start, end, children)
            }
        } else {
            SyntaxNode::branch(kind, start, end, children)
        }
    }

    /// A node without children.
    pub fn leaf(kind: u16, start: usize, end: usize) -> (s: SyntaxNode)
        ensures
            s.kind == kind,
            !s.error,
            s.start == start,
            s.end == end,
            s.children@.len() == 0,
    {
        SyntaxNode { kind, error: false, start, end, children: Vec::new() }
    }

    /// A node with the given children.
    pub fn branch(kind: u16, start: usize, end: usize, children: Vec<SyntaxNode>) -> (s:
        SyntaxNode)
        ensures
            s.kind == kind,
            !s.error,
            s.start == start,
            s.end == end,
            s.children == children,
    {
        SyntaxNode { kind, error: false, start, end, children }
    }

    /// A node that stands for a span the parser could not parse.
    pub fn failed(start: usize, end: usize, children: Vec<SyntaxNode>) -> (s: SyntaxNode)
        ensures
            s.kind == u16::MAX,
            s.error,
            s.start == start,
            s.end == end,
            s.children == children,
    {
        SyntaxNode { kind: u16::MAX, error: true, start, end, children }
    }
}

} // verus!
