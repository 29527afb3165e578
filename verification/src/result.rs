//! What a successful unification is reported as.

use vstd::prelude::*;
use crate::syntax::SyntaxNode;

verus! {

/// What one variable of the pattern stands for in one match.
#[derive(Debug)]
pub struct Binding {
    /// The variable's name.
    pub name: Vec<u8>,
    /// Where the bound subtree starts in the source text.
    pub start: usize,
    /// Where it ends.
    pub end: usize,
    /// Its text without whitespace.
    pub text: Vec<u8>,
}

/// One node of the source at which the pattern fits, and the bindings made there.
#[derive(Debug)]
pub struct MatchResult<'a> {
    /// The node that the root of the pattern was unified with.
    pub root: &'a SyntaxNode,
    /// The variables that were bound, in the order in which they were met.
    pub bindings: Vec<Binding>,
}

/// A binding as a plain value.
pub struct BindingView {
    pub name: Seq<u8>,
    pub start: int,
    pub end: int,
    pub text: Seq<u8>,
}

/// A match as a plain value.
pub struct MatchView {
    pub root: SyntaxNode,
    pub bindings: Seq<BindingView>,
}

impl View for Binding {
    type V = BindingView;

    open spec fn view(&self) -> BindingView {
        BindingView {
            name: self.name@,
            start: self.start as int,
            end: self.end as int,
            text: self.text@,
        }
    }
}

impl<'a> View for MatchResult<'a> {
    type V = MatchView;

    open spec fn view(&self) -> MatchView {
        MatchView { root: *self.root, bindings: self.bindings@.map_values(|b: Binding| b@) }
    }
}

/// The matches that a list holds, as plain values.
pub open spec fn views<'a>(list: Seq<MatchResult<'a>>) -> Seq<MatchView> {
    list.map_values(|m: MatchResult<'a>| m@)
}

impl<'a> MatchResult<'a> {
    /// Where the match starts in the source text.
    pub fn start(&self) -> (r: usize)
        ensures
            r == self@.root.start,
    {
        self.root.start
    }

    /// Where the match ends in the source text.
    pub fn end(&self) -> (r: usize)
        ensures
            r == self@.root.end,
    {
        self.root.end
    }
}

} // verus!
