//! The compiled form of a query.

use vstd::prelude::*;
use crate::grammar::{Dialect, Grammar};
use crate::text::copy_of;

verus! {

/// The kind that a pattern node asks of a source node.
#[derive(Clone, Copy, Debug, PartialEq, Eq, Structural)]
pub enum KindTag {
    /// Any kind will do.
    Any,
    /// This kind, or one that the grammar holds interchangeable with it.
    Rule(u16),
}

/// How the children of a pattern node line up with those of a source node.
#[derive(Clone, Copy, Debug, PartialEq, Eq, Structural)]
pub enum Mode {
    /// One to one and in order; only an ellipsis skips source children.
    Strict,
    /// In order, with any number of other source children before, between and after.
    Loose,
}

/// A node of a compiled pattern.
#[derive(Debug)]
pub enum PatternNode {
    /// Matches any subtree.
    Wildcard,
    /// Matches any subtree and binds it to the variable with this index;
    /// a later occurrence asks for the same text.
    Variable(usize),
    /// In a list of children, stands for any number of source children.
    Ellipsis,
    /// A leaf of the query: a source node of this kind with this text, whitespace ignored.
    Token { kind: u16, text: Vec<u8> },
    /// An inner node of the query: a source node of this kind whose children line up.
    Tree { kind: KindTag, mode: Mode, children: Vec<PatternNode> },
}

/// Every variable below `p` has an index under `count`.
pub open spec fn variables_below(p: PatternNode, count: int) -> bool
    decreases p,
{
    match p {
        PatternNode::Variable(v) => v < count,
        PatternNode::Tree { kind, mode, children } => forall|i: int|
            0 <= i < children@.len() ==> variables_below(#[trigger] children@[i], count),
        _ => true,
    }
}

/// Whether every variable below `p` has an index under `count`.
pub fn covers(p: &PatternNode, count: usize) -> (r: bool)
    ensures
        r == variables_below(*p, count as int),
    decreases *p,
{
    match p {
        PatternNode::Variable(v) => *v < count,
        PatternNode::Tree { kind, mode, children } => {
            let mut i: usize = 0;
            while i < children.len()
                invariant
                    i <= children.len(),
                    *p is Tree,
                    p->children == *children,
                    forall|k: int|
                        0 <= k < i ==> variables_below(#[trigger] children@[k], count as int),
                decreases children.len() - i,
            {
                if !covers(&children[i], count) {
                    return false;
                }
                i += 1;
            }
            true
        },
        _ => true,
    }
}

/// The byte strings that a list of vectors holds.
pub open spec fn texts(v: Seq<Vec<u8>>) -> Seq<Seq<u8>> {
    v.map_values(|t: Vec<u8>| t@)
}

/// A compiled query: the pattern, the names of its variables in the order
/// of their first occurrence, and the grammar it was compiled for.
///
/// Every variable of the pattern has a name, and the pattern is more than
/// an ellipsis.
#[derive(Debug)]
pub struct PatternTree {
    root: PatternNode,
    variables: Vec<Vec<u8>>,
    grammar: Grammar,
}

impl PatternTree {
    /// The pattern itself.
    pub closed spec fn pattern(&self) -> PatternNode {
        self.root
    }

    /// The names of the variables; a variable's index is its place in this list.
    pub closed spec fn names(&self) -> Seq<Seq<u8>> {
        texts(self.variables@)
    }

    /// The grammar's classes of interchangeable kinds.
    pub closed spec fn classes(&self) -> Seq<(u16, u16)> {
        self.grammar.classes@
    }

    /// The dialect the query was compiled for.
    pub closed spec fn language(&self) -> Dialect {
        self.grammar.dialect
    }

    /// Every variable of the pattern has a name, and the root is no ellipsis.
    pub open spec fn well_formed(&self) -> bool {
        &&& !(self.pattern() is Ellipsis)
        &&& variables_below(self.pattern(), self.names().len() as int)
    }

    #[verifier::type_invariant]
    closed spec fn named(self) -> bool {
        &&& !(self.root is Ellipsis)
        &&& variables_below(self.root, self.variables@.len() as int)
    }

    /// Puts a pattern tree together from parts that fit.
    pub(crate) fn assemble(root: PatternNode, variables: Vec<Vec<u8>>, grammar: Grammar) -> (tree:
        PatternTree)
        requires
            !(root is Ellipsis),
            variables_below(root, variables@.len() as int),
        ensures
            tree.pattern() == root,
            tree.names() == texts(variables@),
            tree.classes() == grammar.classes@,
            tree.language() == grammar.dialect,
            tree.well_formed(),
    {
        PatternTree { root, variables, grammar }
    }

    /// Puts a pattern tree together by hand. There is none where `root` is
    /// an ellipsis or a variable of `root` has no name in `variables`.
    pub fn new(root: PatternNode, variables: Vec<Vec<u8>>, grammar: Grammar) -> (r: Option<
        PatternTree,
    >)
        ensures
            r is Some == (!(root is Ellipsis) && variables_below(root, variables@.len() as int)),
            r matches Some(tree) ==> tree.pattern() == root && tree.names() == texts(variables@)
                && tree.classes() == grammar.classes@ && tree.language() == grammar.dialect
                && tree.well_formed(),
    {
        let dots = match root {
            PatternNode::Ellipsis => true,
            _ => false,
        };
        if !dots && covers(&root, variables.len()) {
            Some(PatternTree::assemble(root, variables, grammar))
        } else {
            None
        }
    }

    /// The names of the variables of the query, in the order in which they first occur in it.
    pub fn identifiers(&self) -> (r: Vec<Vec<u8>>)
        ensures
            texts(r@) == self.names(),
    {
        let mut r: Vec<Vec<u8>> = Vec::new();
        let mut i: usize = 0;
        while i < self.variables.len()
            invariant
                i <= self.variables.len(),
                r@.len() == i,
                forall|k: int| 0 <= k < i ==> (#[trigger] r@[k])@ == self.variables@[k]@,
            decreases self.variables.len() - i,
        {
            r.push(copy_of(&self.variables[i]));
            i += 1;
        }
        proof {
            assert(texts(r@) =~= texts(self.variables@));
        }
        r
    }

    /// The pattern itself.
    pub fn root(&self) -> (r: &PatternNode)
        ensures
            *r == self.pattern(),
            self.well_formed(),
    {
        proof {
            use_type_invariant(self);
        }
        &self.root
    }

    /// The grammar's classes of interchangeable kinds.
    pub fn kind_classes(&self) -> (r: &Vec<(u16, u16)>)
        ensures
            r@ == self.classes(),
    {
        &self.grammar.classes
    }

    /// The dialect the query was compiled for.
    pub fn dialect(&self) -> (r: Dialect)
        ensures
            r == self.language(),
    {
        self.grammar.dialect
    }

    /// The name of the variable with index `variable`.
    pub fn name(&self, variable: usize) -> (r: &Vec<u8>)
        requires
            variable < self.names().len(),
        ensures
            r@ == self.names()[variable as int],
    {
        &self.variables[variable]
    }
}

} // verus!
