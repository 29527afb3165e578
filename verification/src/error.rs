//! Why a query could not be compiled.

use vstd::prelude::*;
use vstd::string::*;
use crate::text::{line_start, newlines};

verus! {

/// The two ways in which compiling a query fails.
#[derive(Clone, Copy, Debug, PartialEq, Eq, Structural)]
pub enum ErrorKind {
    /// The fragment is no valid code of the dialect.
    Syntax,
    /// The fragment has several top-level nodes and so no single root.
    AmbiguousRoot,
}

/// A query that was not compiled, with a message for the person who wrote it.
#[derive(Debug)]
pub struct QueryError {
    pub kind: ErrorKind,
    pub message: String,
}

/// What is wrong with a query.
pub enum Fault {
    /// The parser could not parse the span that starts at this offset.
    Unparsed(usize),
    /// The fragment holds no node at all.
    Empty,
    /// The fragment holds no node of the kind that was asked for.
    Missing,
    /// The fragment is nothing but an ellipsis.
    BareEllipsis,
    /// The fragment has more than one root.
    Ambiguous,
}

/// The decimal digit `d` as a character.
pub open spec fn digit(d: int) -> char {
    if d == 0 {
        '0'
    } else if d == 1 {
        '1'
    } else if d == 2 {
        '2'
    } else if d == 3 {
        '3'
    } else if d == 4 {
        '4'
    } else if d == 5 {
        '5'
    } else if d == 6 {
        '6'
    } else if d == 7 {
        '7'
    } else if d == 8 {
        '8'
    } else {
        '9'
    }
}

/// `n` in decimal, without leading zeros.
pub open spec fn decimal(n: int) -> Seq<char>
    decreases n,
{
    if n < 10 {
        seq![digit(n)]
    } else {
        decimal(n / 10).push(digit(n % 10))
    }
}

/// The line of the byte at offset `at`, counted from 1. An offset past the
/// end of the text counts as the end.
pub open spec fn line_of(text: Seq<u8>, at: int) -> int {
    let at = if at > text.len() {
        text.len() as int
    } else {
        at
    };
    newlines(text, at) + 1
}

/// The column of the byte at offset `at` in its line, in bytes, counted from 1.
pub open spec fn column_of(text: Seq<u8>, at: int) -> int {
    let at = if at > text.len() {
        text.len() as int
    } else {
        at
    };
    at - line_start(text, at) + 1
}

impl Fault {
    /// The kind of error that the fault is reported as.
    pub open spec fn kind(self) -> ErrorKind {
        match self {
            Fault::Ambiguous => ErrorKind::AmbiguousRoot,
            _ => ErrorKind::Syntax,
        }
    }

    /// The message that the fault is reported with.
    pub open spec fn message(self, text: Seq<u8>) -> Seq<char> {
        match self {
            Fault::Unparsed(at) => "syntax error at line "@ + decimal(line_of(text, at as int))
                + ", column "@ + decimal(column_of(text, at as int)),
            Fault::Empty => "the pattern is empty"@,
            Fault::Missing => "the pattern holds no node of the requested kind"@,
            Fault::BareEllipsis => "the pattern is nothing but an ellipsis"@,
            Fault::Ambiguous =>
                "the pattern has more than one root; put its statements in a block"@,
        }
    }
}

/// The decimal digit `d` as text.
fn digit_text(d: u128) -> (r: &'static str)
    requires
        d < 10,
    ensures
        r@ == seq![digit(d as int)],
{
    proof {
        reveal_strlit("0");
        reveal_strlit("1");
        reveal_strlit("2");
        reveal_strlit("3");
        reveal_strlit("4");
        reveal_strlit("5");
        reveal_strlit("6");
        reveal_strlit("7");
        reveal_strlit("8");
        reveal_strlit("9");
    }
    let r = if d == 0 {
        "0"
    } else if d == 1 {
        "1"
    } else if d == 2 {
        "2"
    } else if d == 3 {
        "3"
    } else if d == 4 {
        "4"
    } else if d == 5 {
        "5"
    } else if d == 6 {
        "6"
    } else if d == 7 {
        "7"
    } else if d == 8 {
        "8"
    } else {
        "9"
    };
    assert(r@ =~= seq![digit(d as int)]);
    r
}

/// Writes `n` in decimal at the end of `out`.
fn write_decimal(n: u128, out: &mut String)
    ensures
        final(out)@ == old(out)@ + decimal(n as int),
    decreases n,
{
    if n >= 10 {
        write_decimal(n / 10, out);
    }
    let ghost before = out@;
    out.append(digit_text(n % 10));
    proof {
        if n >= 10 {
            assert(old(out)@ + decimal(n as int / 10) + seq![digit(n as int % 10)] =~= old(out)@
                + decimal(n as int));
        }
    }
}

impl QueryError {
    /// The error for a span that the parser could not parse, at byte `at` of `text`.
    pub fn unparsed(text: &[u8], at: usize) -> (e: QueryError)
        ensures
            e.kind == Fault::Unparsed(at).kind(),
            e.message@ == Fault::Unparsed(at).message(text@),
    {
        let at = if at > text.len() {
            text.len()
        } else {
            at
        };
        let mut line: u128 = 1;
        let mut begin: usize = 0;
        let mut i: usize = 0;
        while i < at
            invariant
                i <= at <= text.len(),
                line == newlines(text@, i as int) + 1,
                line <= i + 1,
                begin == line_start(text@, i as int),
                begin <= i,
            decreases at - i,
        {
            if text[i] == 10 {
                line += 1;
                begin = i + 1;
            }
            i += 1;
        }
        let column: u128 = (at - begin) as u128 + 1;
        let mut message = String::from_str("syntax error at line ");
        write_decimal(line, &mut message);
        message.append(", column ");
        write_decimal(column, &mut message);
        QueryError { kind: ErrorKind::Syntax, message }
    }

    /// The error for a fault that has no place in the text.
    pub fn plain(fault: Fault) -> (e: QueryError)
        requires
            !(fault is Unparsed),
        ensures
            e.kind == fault.kind(),
            forall|text: Seq<u8>| e.message@ == fault.message(text),
    {
        match fault {
            Fault::Ambiguous => QueryError {
                kind: ErrorKind::AmbiguousRoot,
                message: String::from_str(
                    "the pattern has more than one root; put its statements in a block",
                ),
            },
            Fault::Empty => QueryError {
                kind: ErrorKind::Syntax,
                message: String::from_str("the pattern is empty"),
            },
            Fault::Missing => QueryError {
                kind: ErrorKind::Syntax,
                message: String::from_str("the pattern holds no node of the requested kind"),
            },
            _ => QueryError {
                kind: ErrorKind::Syntax,
                message: String::from_str("the pattern is nothing but an ellipsis"),
            },
        }
    }
}

} // verus!
