//! What the matcher has to know of a grammar: which node kinds are blocks,
//! and which kinds may stand for one another.

use vstd::prelude::*;

verus! {

/// The grammar variant that a syntax tree was parsed with.
#[derive(Clone, Copy, Debug, PartialEq, Eq, Structural)]
pub enum Dialect {
    C,
    Cpp,
}

/// The grammar-specific tables of one dialect.
///
/// `blocks` lists the kinds whose children are statements. `classes` pairs a
/// kind with the class of interchangeable forms that it belongs to.
#[derive(Clone, Debug)]
pub struct Grammar {
    pub dialect: Dialect,
    pub blocks: Vec<u16>,
    pub classes: Vec<(u16, u16)>,
}

/// The class that the first entry for `kind` at or after `from` names.
pub open spec fn class_of(classes: Seq<(u16, u16)>, kind: u16, from: int) -> Option<u16>
    decreases classes.len() - from,
{
    if from < 0 || from >= classes.len() {
        None
    } else if classes[from].0 == kind {
        Some(classes[from].1)
    } else {
        class_of(classes, kind, from + 1)
    }
}

/// Two kinds are interchangeable when they are equal or belong to the same class.
pub open spec fn interchangeable(classes: Seq<(u16, u16)>, a: u16, b: u16) -> bool {
    a == b || (class_of(classes, a, 0) is Some && class_of(classes, a, 0) == class_of(
        classes,
        b,
        0,
    ))
}

/// Looks up the class of `kind`.
pub fn find_class(classes: &Vec<(u16, u16)>, kind: u16) -> (r: Option<u16>)
    ensures
        r == class_of(classes@, kind, 0),
{
    let mut i: usize = 0;
    while i < classes.len()
        invariant
            i <= classes.len(),
            class_of(classes@, kind, 0) == class_of(classes@, kind, i as int),
        decreases classes.len() - i,
    {
        if classes[i].0 == kind {
            return Some(classes[i].1);
        }
        i += 1;
    }
    None
}

/// Whether kinds `a` and `b` may stand for one another.
pub fn kinds_agree(classes: &Vec<(u16, u16)>, a: u16, b: u16) -> (r: bool)
    ensures
        r == interchangeable(classes@, a, b),
{
    if a == b {
        return true;
    }
    match find_class(classes, a) {
        None => false,
        Some(ca) => match find_class(classes, b) {
            None => false,
            Some(cb) => ca == cb,
        },
    }
}

impl Grammar {
    /// Whether nodes of `kind` hold statements.
    pub open spec fn block(&self, kind: u16) -> bool {
        self.blocks@.contains(kind)
    }

    /// Whether nodes of `kind` hold statements.
    pub fn is_block(&self, kind: u16) -> (r: bool)
        ensures
            r == self.block(kind),
    {
        let mut i: usize = 0;
        while i < self.blocks.len()
            invariant
                i <= self.blocks.len(),
                forall|k: int| 0 <= k < i ==> self.blocks@[k] != kind,
            decreases self.blocks.len() - i,
        {
            if self.blocks[i] == kind {
                return true;
            }
            i += 1;
        }
        false
    }
}

} // verus!
