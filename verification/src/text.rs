//! Source text as bytes: spans, and comparison that ignores whitespace.

use vstd::prelude::*;

verus! {

/// ASCII whitespace: space, tab, line feed, vertical tab, form feed, carriage return.
pub open spec fn is_space(b: u8) -> bool {
    b == 32 || (9 <= b && b <= 13)
}

/// The bytes of `s` that are not whitespace, in order.
pub open spec fn squeeze(s: Seq<u8>) -> Seq<u8>
    decreases s.len(),
{
    if s.len() == 0 {
        s
    } else if is_space(s.last()) {
        squeeze(s.drop_last())
    } else {
        squeeze(s.drop_last()).push(s.last())
    }
}

/// The bytes of `text` from `start` up to `end`; empty where that is no range of `text`.
pub open spec fn span(text: Seq<u8>, start: int, end: int) -> Seq<u8> {
    if 0 <= start <= end <= text.len() {
        text.subrange(start, end)
    } else {
        Seq::empty()
    }
}

/// What a span of source text says once whitespace is ignored.
pub open spec fn word(text: Seq<u8>, start: int, end: int) -> Seq<u8> {
    squeeze(span(text, start, end))
}

/// Where the line that holds offset `at` begins: after the nearest line
/// feed before `at`, or at the start of the text.
pub open spec fn line_start(text: Seq<u8>, at: int) -> int
    decreases at,
{
    if at <= 0 {
        0
    } else if at <= text.len() && text[at - 1] == 10 {
        at
    } else {
        line_start(text, at - 1)
    }
}

/// Where the line that holds offset `at` ends: at the nearest line feed at
/// or after `at`, or at the end of the text.
pub open spec fn line_end(text: Seq<u8>, at: int) -> int
    decreases text.len() - at,
{
    if at >= text.len() {
        text.len() as int
    } else if at >= 0 && text[at] == 10 {
        at
    } else {
        line_end(text, at + 1)
    }
}

/// How many line feeds stand before offset `upto`.
pub open spec fn newlines(text: Seq<u8>, upto: int) -> int
    decreases upto,
{
    if upto <= 0 || upto > text.len() {
        0
    } else {
        newlines(text, upto - 1) + if text[upto - 1] == 10 {
            1int
        } else {
            0int
        }
    }
}

/// Whether `b` is ASCII whitespace.
pub fn byte_is_space(b: u8) -> (r: bool)
    ensures
        r == is_space(b),
{
    b == 32 || (9 <= b && b <= 13)
}

/// Whether `start..end` is a range of a text of `len` bytes.
pub fn in_range(len: usize, start: usize, end: usize) -> (r: bool)
    ensures
        r == (start <= end && end <= len),
{
    start <= end && end <= len
}

/// A byte added at the end stays unless it is whitespace.
pub proof fn lemma_squeeze_push(s: Seq<u8>, b: u8)
    ensures
        squeeze(s.push(b)) == if is_space(b) {
            squeeze(s)
        } else {
            squeeze(s).push(b)
        },
{
    assert(s.push(b).drop_last() =~= s);
}

/// Two texts in a row say what the first says and then what the second says.
pub proof fn lemma_squeeze_add(a: Seq<u8>, b: Seq<u8>)
    ensures
        squeeze(a + b) == squeeze(a) + squeeze(b),
    decreases b.len(),
{
    if b.len() == 0 {
        assert(a + b =~= a);
        assert(squeeze(a) + squeeze(b) =~= squeeze(a));
    } else {
        lemma_squeeze_add(a, b.drop_last());
        assert((a + b).drop_last() =~= a + b.drop_last());
        assert((a + b).last() == b.last());
        if is_space(b.last()) {
        } else {
            assert(squeeze(a) + squeeze(b.drop_last()).push(b.last()) =~= (squeeze(a) + squeeze(
                b.drop_last(),
            )).push(b.last()));
        }
    }
}

/// The bytes of `text[start..end]` that are not whitespace.
pub fn squeezed(text: &[u8], start: usize, end: usize) -> (out: Vec<u8>)
    ensures
        out@ == word(text@, start as int, end as int),
{
    let mut out: Vec<u8> = Vec::new();
    if !in_range(text.len(), start, end) {
        return out;
    }
    let mut i: usize = start;
    while i < end
        invariant
            start <= i <= end <= text.len(),
            out@ == squeeze(text@.subrange(start as int, i as int)),
        decreases end - i,
    {
        let b = text[i];
        proof {
            lemma_squeeze_push(text@.subrange(start as int, i as int), b);
            assert(text@.subrange(start as int, i as int).push(b) =~= text@.subrange(
                start as int,
                i + 1,
            ));
        }
        if !byte_is_space(b) {
            out.push(b);
        }
        i += 1;
    }
    out
}

/// Three dots: the word that stands for any number of nodes.
pub open spec fn dots() -> Seq<u8> {
    seq![46u8, 46u8, 46u8]
}

/// Whether a span of `text` reads `...`, whitespace ignored.
pub fn reads_dots(text: &[u8], start: usize, end: usize) -> (r: bool)
    ensures
        r == (word(text@, start as int, end as int) =~= dots()),
{
    let w = squeezed(text, start, end);
    w.len() == 3 && w[0] == 46 && w[1] == 46 && w[2] == 46
}

/// A copy of `bytes`.
pub fn copy_of(bytes: &Vec<u8>) -> (out: Vec<u8>)
    ensures
        out@ == bytes@,
{
    let mut out: Vec<u8> = Vec::new();
    let mut i: usize = 0;
    while i < bytes.len()
        invariant
            i <= bytes.len(),
            out@ == bytes@.subrange(0, i as int),
        decreases bytes.len() - i,
    {
        out.push(bytes[i]);
        proof {
            assert(bytes@.subrange(0, i as int).push(bytes@[i as int]) =~= bytes@.subrange(
                0,
                i + 1,
            ));
        }
        i += 1;
    }
    proof {
        assert(bytes@.subrange(0, i as int) =~= bytes@);
    }
    out
}

/// A span that begins with a byte that is no whitespace keeps that byte in front.
pub proof fn lemma_squeeze_first(s: Seq<u8>)
    requires
        s.len() > 0,
    ensures
        squeeze(s) == if is_space(s[0]) {
            squeeze(s.drop_first())
        } else {
            seq![s[0]] + squeeze(s.drop_first())
        },
{
    let head = seq![s[0]];
    assert(head + s.drop_first() =~= s);
    lemma_squeeze_add(head, s.drop_first());
    assert(head.drop_last() =~= Seq::<u8>::empty());
    assert(squeeze(head.drop_last()) =~= Seq::<u8>::empty());
    if is_space(s[0]) {
        assert(squeeze(head) + squeeze(s.drop_first()) =~= squeeze(s.drop_first()));
    } else {
        assert(squeeze(head) =~= head);
    }
}

/// Splits the word of a range at `mid`.
pub proof fn lemma_word_split(text: Seq<u8>, start: int, mid: int, end: int)
    requires
        0 <= start <= mid <= end <= text.len(),
    ensures
        squeeze(text.subrange(start, end)) == squeeze(text.subrange(start, mid)) + squeeze(
            text.subrange(mid, end),
        ),
{
    assert(text.subrange(start, end) =~= text.subrange(start, mid) + text.subrange(mid, end));
    lemma_squeeze_add(text.subrange(start, mid), text.subrange(mid, end));
}

/// The word of a range whose first byte is no whitespace begins with that byte.
pub proof fn lemma_word_head(text: Seq<u8>, at: int, end: int)
    requires
        0 <= at < end <= text.len(),
        !is_space(text[at]),
    ensures
        squeeze(text.subrange(at, end)).len() > 0,
        squeeze(text.subrange(at, end))[0] == text[at],
{
    lemma_squeeze_first(text.subrange(at, end));
}

/// Whether two spans of `text` say the same once whitespace is ignored.
pub fn same_word(
    text: &[u8],
    a_start: usize,
    a_end: usize,
    b_start: usize,
    b_end: usize,
) -> (r: bool)
    ensures
        r == (word(text@, a_start as int, a_end as int) == word(
            text@,
            b_start as int,
            b_end as int,
        )),
{
    let a_ok = in_range(text.len(), a_start, a_end);
    let b_ok = in_range(text.len(), b_start, b_end);
    let a0: usize = if a_ok { a_start } else { 0 };
    let a1: usize = if a_ok { a_end } else { 0 };
    let b0: usize = if b_ok { b_start } else { 0 };
    let b1: usize = if b_ok { b_end } else { 0 };
    let ghost wa = squeeze(text@.subrange(a0 as int, a1 as int));
    let ghost wb = squeeze(text@.subrange(b0 as int, b1 as int));
    proof {
        assert(text@.subrange(0, 0) =~= Seq::<u8>::empty());
        assert(wa == word(text@, a_start as int, a_end as int));
        assert(wb == word(text@, b_start as int, b_end as int));
    }
    let mut i: usize = a0;
    let mut j: usize = b0;
    loop
        invariant
            a0 <= i <= a1 <= text.len(),
            b0 <= j <= b1 <= text.len(),
            wa == squeeze(text@.subrange(a0 as int, a1 as int)),
            wb == squeeze(text@.subrange(b0 as int, b1 as int)),
            wa == word(text@, a_start as int, a_end as int),
            wb == word(text@, b_start as int, b_end as int),
            squeeze(text@.subrange(a0 as int, i as int)) == squeeze(
                text@.subrange(b0 as int, j as int),
            ),
        decreases (a1 - i) + (b1 - j),
    {
        let ghost done = squeeze(text@.subrange(a0 as int, i as int));
        proof {
            lemma_word_split(text@, a0 as int, i as int, a1 as int);
            lemma_word_split(text@, b0 as int, j as int, b1 as int);
        }
        if i < a1 && byte_is_space(text[i]) {
            proof {
                lemma_squeeze_push(text@.subrange(a0 as int, i as int), text@[i as int]);
                assert(text@.subrange(a0 as int, i as int).push(text@[i as int])
                    =~= text@.subrange(a0 as int, i + 1));
            }
            i += 1;
        } else if j < b1 && byte_is_space(text[j]) {
            proof {
                lemma_squeeze_push(text@.subrange(b0 as int, j as int), text@[j as int]);
                assert(text@.subrange(b0 as int, j as int).push(text@[j as int])
                    =~= text@.subrange(b0 as int, j + 1));
            }
            j += 1;
        } else if i == a1 || j == b1 {
            proof {
                assert(text@.subrange(a1 as int, a1 as int) =~= Seq::<u8>::empty());
                assert(text@.subrange(b1 as int, b1 as int) =~= Seq::<u8>::empty());
                if i < a1 {
                    lemma_word_head(text@, i as int, a1 as int);
                    assert(wa.len() > wb.len());
                }
                if j < b1 {
                    lemma_word_head(text@, j as int, b1 as int);
                    assert(wb.len() > wa.len());
                }
                if i == a1 && j == b1 {
                    assert(wa =~= done);
                    assert(wb =~= done);
                }
            }
            return i == a1 && j == b1;
        } else if text[i] != text[j] {
            proof {
                lemma_word_head(text@, i as int, a1 as int);
                lemma_word_head(text@, j as int, b1 as int);
                assert(wa[done.len() as int] == text@[i as int]);
                assert(wb[done.len() as int] == text@[j as int]);
            }
            return false;
        } else {
            proof {
                lemma_squeeze_push(text@.subrange(a0 as int, i as int), text@[i as int]);
                assert(text@.subrange(a0 as int, i as int).push(text@[i as int])
                    =~= text@.subrange(a0 as int, i + 1));
                lemma_squeeze_push(text@.subrange(b0 as int, j as int), text@[j as int]);
                assert(text@.subrange(b0 as int, j as int).push(text@[j as int])
                    =~= text@.subrange(b0 as int, j + 1));
            }
            i += 1;
            j += 1;
        }
    }
}

/// Whether a span of `text` says `expected` once whitespace is ignored.
pub fn word_is(text: &[u8], start: usize, end: usize, expected: &Vec<u8>) -> (r: bool)
    ensures
        r == (word(text@, start as int, end as int) == expected@),
{
    if !in_range(text.len(), start, end) {
        assert(expected@.len() == 0 ==> expected@ =~= Seq::<u8>::empty());
        return expected.len() == 0;
    }
    let ghost w = squeeze(text@.subrange(start as int, end as int));
    let mut i: usize = start;
    let mut k: usize = 0;
    while i < end
        invariant
            start <= i <= end <= text.len(),
            k <= expected.len(),
            w == squeeze(text@.subrange(start as int, end as int)),
            squeeze(text@.subrange(start as int, i as int)) == expected@.subrange(0, k as int),
        decreases end - i,
    {
        let b = text[i];
        proof {
            lemma_word_split(text@, start as int, i as int, end as int);
            lemma_squeeze_push(text@.subrange(start as int, i as int), b);
            assert(text@.subrange(start as int, i as int).push(b) =~= text@.subrange(
                start as int,
                i + 1,
            ));
        }
        if !byte_is_space(b) {
            if k >= expected.len() || expected[k] != b {
                proof {
                    lemma_word_head(text@, i as int, end as int);
                    assert(w[k as int] == b);
                }
                return false;
            }
            proof {
                assert(expected@.subrange(0, k as int).push(b) =~= expected@.subrange(0, k + 1));
            }
            k += 1;
        }
        i += 1;
    }
    proof {
        assert(text@.subrange(start as int, end as int) =~= text@.subrange(
            start as int,
            i as int,
        ));
        if k == expected.len() {
            assert(expected@.subrange(0, k as int) =~= expected@);
        }
    }
    k == expected.len()
}

} // verus!
