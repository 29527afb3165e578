//! Structural search over syntax trees of C-family source code.
//!
//! A query fragment is compiled into a [`pattern::PatternTree`]; the matcher
//! unifies that pattern against every node of a source syntax tree and
//! reports each node at which it fits, together with the source text that
//! each variable of the pattern stands for.

pub mod compile;
pub mod error;
pub mod grammar;
pub mod laws;
pub mod matcher;
pub mod pattern;
pub mod render;
pub mod result;
pub mod syntax;
pub mod text;
