//! A match shown in its source: the lines around it, the match and the
//! bound variables set off in colour.

use vstd::prelude::*;
use crate::result::{BindingView, MatchResult, MatchView};
use crate::text::{line_end, line_start};

verus! {

/// The colours that a match is shown in.
#[derive(Clone, Copy, Debug, PartialEq, Eq, Structural)]
pub enum Tint {
    Red,
    Green,
}

/// The code that selects `tint` as foreground colour in an ANSI escape sequence.
pub open spec fn code_of(tint: Tint) -> Seq<u8> {
    match tint {
        Tint::Red => seq![51u8, 49u8],
        Tint::Green => seq![51u8, 50u8],
    }
}

/// `colored::Color::to_fg_str`, on the colour of the same name: the code
/// of the colour as a foreground, `31` for red and `32` for green.
#[verifier::external_body]
fn foreground(tint: Tint) -> (code: Vec<u8>)
    ensures
        code@ == code_of(tint),
{
    let color = match tint {
        Tint::Red => colored::Color::Red,
        Tint::Green => colored::Color::Green,
    };
    color.to_fg_str().as_bytes().to_vec()
}

/// `colored::control::ShouldColorize::should_colorize`, asked of what
/// `colored::control::ShouldColorize::from_env` reads at the time of the
/// call: whether the process's environment and its output want colour. No
/// override that was set elsewhere in the process plays a part. Nothing is
/// known of the answer.
#[verifier::external_body]
fn environment_wants_color() -> bool {
    colored::control::ShouldColorize::from_env().should_colorize()
}

/// Where the window begins that shows `lines` lines before the line of `at`.
pub open spec fn window_start(text: Seq<u8>, at: int, lines: int) -> int
    decreases lines,
{
    let begin = line_start(text, at);
    if lines <= 0 || begin <= 0 {
        begin
    } else {
        window_start(text, begin - 1, lines - 1)
    }
}

/// Where the window ends that shows `lines` lines after the line of `at`.
pub open spec fn window_end(text: Seq<u8>, at: int, lines: int) -> int
    decreases lines,
{
    let end = line_end(text, at);
    if lines <= 0 || end >= text.len() {
        end
    } else {
        window_end(text, end + 1, lines - 1)
    }
}

/// Whether the byte at `at` belongs to a bound variable.
pub open spec fn in_binding(bindings: Seq<BindingView>, at: int) -> bool {
    exists|k: int| 0 <= k < bindings.len() && (#[trigger] bindings[k]).start <= at < bindings[k].end
}

/// The colour of the byte at `at` of a match: green in a bound variable, red elsewhere.
pub open spec fn tint_at(m: MatchView, at: int) -> Tint {
    if in_binding(m.bindings, at) {
        Tint::Green
    } else {
        Tint::Red
    }
}

/// Where the run of bytes of one colour ends that begins at `at`.
pub open spec fn run_end(m: MatchView, at: int, end: int) -> int
    decreases end - at,
{
    if at + 1 >= end {
        end
    } else if tint_at(m, at + 1) != tint_at(m, at) {
        at + 1
    } else {
        run_end(m, at + 1, end)
    }
}

/// `bytes` in the colour `tint`: between the escape sequence that selects
/// the colour and the one that resets it. Without colour, `bytes` alone.
pub open spec fn paint(tint: Tint, bytes: Seq<u8>, color: bool) -> Seq<u8> {
    if color {
        seq![27u8, 91u8] + code_of(tint) + seq![109u8] + bytes + seq![27u8, 91u8, 48u8, 109u8]
    } else {
        bytes
    }
}

/// The bytes of the match from `at` to `end`, run by run, each in its colour.
pub open spec fn painted(text: Seq<u8>, m: MatchView, at: int, end: int, color: bool) -> Seq<u8>
    decreases end - at,
{
    if at >= end {
        Seq::empty()
    } else {
        let stop = run_end(m, at, end);
        if at < stop <= end {
            paint(tint_at(m, at), text.subrange(at, stop), color) + painted(
                text,
                m,
                stop,
                end,
                color,
            )
        } else {
            Seq::empty()
        }
    }
}

/// A match as it is shown: the source from `before` lines above the match
/// to `after` lines below it, with the match painted.
pub open spec fn rendered(text: Seq<u8>, m: MatchView, before: int, after: int, color: bool) -> Seq<
    u8,
> {
    let start = m.root.start as int;
    let end = m.root.end as int;
    text.subrange(window_start(text, start, before), start) + painted(text, m, start, end, color)
        + text.subrange(end, window_end(text, end, after))
}

/// A run ends after its first byte and not after the end.
pub proof fn lemma_run_end(m: MatchView, at: int, end: int)
    requires
        at < end,
    ensures
        at < run_end(m, at, end) <= end,
    decreases end - at,
{
    if at + 1 < end && tint_at(m, at + 1) == tint_at(m, at) {
        lemma_run_end(m, at + 1, end);
    }
}

/// The line of an offset begins at or before it.
pub proof fn lemma_line_start(text: Seq<u8>, at: int)
    requires
        0 <= at,
    ensures
        0 <= line_start(text, at) <= at,
    decreases at,
{
    if at > 0 && !(at <= text.len() && text[at - 1] == 10) {
        lemma_line_start(text, at - 1);
    }
}

/// The line of an offset ends at or after it, within the text.
pub proof fn lemma_line_end(text: Seq<u8>, at: int)
    requires
        0 <= at <= text.len(),
    ensures
        at <= line_end(text, at) <= text.len(),
    decreases text.len() - at,
{
    if at < text.len() && text[at] != 10 {
        lemma_line_end(text, at + 1);
    }
}

/// A window begins at or before the offset it is about.
pub proof fn lemma_window_start(text: Seq<u8>, at: int, lines: int)
    requires
        0 <= at,
    ensures
        0 <= window_start(text, at, lines) <= at,
    decreases lines,
{
    lemma_line_start(text, at);
    let begin = line_start(text, at);
    if !(lines <= 0 || begin <= 0) {
        lemma_window_start(text, begin - 1, lines - 1);
    }
}

/// A window ends at or after the offset it is about, within the text.
pub proof fn lemma_window_end(text: Seq<u8>, at: int, lines: int)
    requires
        0 <= at <= text.len(),
    ensures
        at <= window_end(text, at, lines) <= text.len(),
    decreases lines,
{
    lemma_line_end(text, at);
    let end = line_end(text, at);
    if !(lines <= 0 || end >= text.len()) {
        lemma_window_end(text, end + 1, lines - 1);
    }
}

/// Without colour the painted match is the text of the match.
pub proof fn lemma_painted_plain(text: Seq<u8>, m: MatchView, at: int, end: int)
    requires
        0 <= at <= end <= text.len(),
    ensures
        painted(text, m, at, end, false) == text.subrange(at, end),
    decreases end - at,
{
    if at < end {
        lemma_run_end(m, at, end);
        let stop = run_end(m, at, end);
        lemma_painted_plain(text, m, stop, end);
        assert(text.subrange(at, stop) + text.subrange(stop, end) =~= text.subrange(at, end));
    } else {
        assert(text.subrange(at, end) =~= Seq::<u8>::empty());
    }
}

/// Without colour a match is shown as the lines of the source around it, unchanged.
pub proof fn lemma_rendered_plain(text: Seq<u8>, m: MatchView, before: int, after: int)
    requires
        m.root.start <= m.root.end <= text.len(),
    ensures
        rendered(text, m, before, after, false) == text.subrange(
            window_start(text, m.root.start as int, before),
            window_end(text, m.root.end as int, after),
        ),
{
    let start = m.root.start as int;
    let end = m.root.end as int;
    lemma_window_start(text, start, before);
    lemma_window_end(text, end, after);
    lemma_painted_plain(text, m, start, end);
    assert(text.subrange(window_start(text, start, before), start) + text.subrange(start, end)
        + text.subrange(end, window_end(text, end, after)) =~= text.subrange(
        window_start(text, start, before),
        window_end(text, end, after),
    ));
}

/// Where the line that holds offset `at` begins.
fn start_of_line(text: &[u8], at: usize) -> (r: usize)
    requires
        at <= text.len(),
    ensures
        r == line_start(text@, at as int),
        r <= at,
{
    let mut i: usize = at;
    while i > 0 && text[i - 1] != 10
        invariant
            i <= at <= text.len(),
            line_start(text@, at as int) == line_start(text@, i as int),
        decreases i,
    {
        i -= 1;
    }
    i
}

/// Where the line that holds offset `at` ends.
fn end_of_line(text: &[u8], at: usize) -> (r: usize)
    requires
        at <= text.len(),
    ensures
        r == line_end(text@, at as int),
        at <= r <= text.len(),
{
    let mut i: usize = at;
    while i < text.len() && text[i] != 10
        invariant
            at <= i <= text.len(),
            line_end(text@, at as int) == line_end(text@, i as int),
        decreases text.len() - i,
    {
        i += 1;
    }
    i
}

/// Where the window begins that shows `lines` lines before the line of `at`.
fn start_of_window(text: &[u8], at: usize, lines: usize) -> (r: usize)
    requires
        at <= text.len(),
    ensures
        r == window_start(text@, at as int, lines as int),
        r <= at,
{
    let mut here: usize = at;
    let mut left: usize = lines;
    loop
        invariant
            here <= at <= text.len(),
            window_start(text@, at as int, lines as int) == window_start(
                text@,
                here as int,
                left as int,
            ),
        decreases left,
    {
        let begin = start_of_line(text, here);
        if left == 0 || begin == 0 {
            return begin;
        }
        here = begin - 1;
        left -= 1;
    }
}

/// Where the window ends that shows `lines` lines after the line of `at`.
fn end_of_window(text: &[u8], at: usize, lines: usize) -> (r: usize)
    requires
        at <= text.len(),
    ensures
        r == window_end(text@, at as int, lines as int),
        at <= r <= text.len(),
{
    let mut here: usize = at;
    let mut left: usize = lines;
    loop
        invariant
            at <= here <= text.len(),
            window_end(text@, at as int, lines as int) == window_end(
                text@,
                here as int,
                left as int,
            ),
        decreases left,
    {
        let end = end_of_line(text, here);
        if left == 0 || end >= text.len() {
            return end;
        }
        here = end + 1;
        left -= 1;
    }
}

/// Adds `bytes[from..to]` to `out`.
fn push_range(out: &mut Vec<u8>, bytes: &[u8], from: usize, to: usize)
    requires
        from <= to <= bytes.len(),
    ensures
        final(out)@ == old(out)@ + bytes@.subrange(from as int, to as int),
{
    let mut i: usize = from;
    while i < to
        invariant
            from <= i <= to <= bytes.len(),
            out@ == old(out)@ + bytes@.subrange(from as int, i as int),
        decreases to - i,
    {
        out.push(bytes[i]);
        proof {
            assert(bytes@.subrange(from as int, i as int).push(bytes@[i as int])
                =~= bytes@.subrange(from as int, i + 1));
        }
        i += 1;
    }
}

impl<'a> MatchResult<'a> {
    /// The range of the match is a range of `text`.
    pub open spec fn fits(&self, text: Seq<u8>) -> bool {
        self@.root.start <= self@.root.end <= text.len()
    }

    /// Whether the range of the match is a range of `text`.
    pub fn within(&self, text: &[u8]) -> (r: bool)
        ensures
            r == self.fits(text@),
    {
        self.root.start <= self.root.end && self.root.end <= text.len()
    }

    /// Whether the byte at `at` belongs to a bound variable.
    fn bound_at(&self, at: usize) -> (r: bool)
        ensures
            r == in_binding(self@.bindings, at as int),
    {
        let mut k: usize = 0;
        while k < self.bindings.len()
            invariant
                k <= self.bindings.len(),
                forall|n: int|
                    0 <= n < k ==> !((#[trigger] self@.bindings[n]).start <= at
                        < self@.bindings[n].end),
            decreases self.bindings.len() - k,
        {
            if self.bindings[k].start <= at && at < self.bindings[k].end {
                proof {
                    assert(self@.bindings[k as int].start <= at < self@.bindings[k as int].end);
                }
                return true;
            }
            k += 1;
        }
        false
    }

    /// Shows the match in the source it was found in: `before` lines above
    /// it, the match, and `after` lines below it. With `color` the match is
    /// painted red and the bound variables in it green.
    pub fn render_with(&self, text: &[u8], before: usize, after: usize, color: bool) -> (out: Vec<
        u8,
    >)
        requires
            self.fits(text@),
        ensures
            out@ == rendered(text@, self@, before as int, after as int, color),
    {
        let start = self.root.start;
        let end = self.root.end;
        let from = start_of_window(text, start, before);
        let to = end_of_window(text, end, after);
        let mut out: Vec<u8> = Vec::new();
        push_range(&mut out, text, from, start);
        let ghost head = out@;
        let mut at: usize = start;
        while at < end
            invariant
                start <= at <= end <= text.len(),
                head + painted(text@, self@, start as int, end as int, color) == out@ + painted(
                    text@,
                    self@,
                    at as int,
                    end as int,
                    color,
                ),
            decreases end - at,
        {
            let green = self.bound_at(at);
            let mut stop: usize = at + 1;
            while stop < end && self.bound_at(stop) == green
                invariant
                    at < stop <= end,
                    green == in_binding(self@.bindings, at as int),
                    run_end(self@, at as int, end as int) == run_end(
                        self@,
                        stop - 1,
                        end as int,
                    ),
                    tint_at(self@, stop - 1) == tint_at(self@, at as int),
                decreases end - stop,
            {
                stop += 1;
            }
            let ghost so_far = out@;
            let tint = if green {
                Tint::Green
            } else {
                Tint::Red
            };
            if color {
                out.push(27);
                out.push(91);
                let code = foreground(tint);
                push_range(&mut out, code.as_slice(), 0, code.len());
                out.push(109);
            }
            push_range(&mut out, text, at, stop);
            if color {
                out.push(27);
                out.push(91);
                out.push(48);
                out.push(109);
            }
            proof {
                let run = paint(tint, text@.subrange(at as int, stop as int), color);
                assert(code_of(tint).subrange(0, code_of(tint).len() as int) =~= code_of(tint));
                assert(out@ =~= so_far + run);
                assert(run_end(self@, at as int, end as int) == stop);
                assert(so_far + (run + painted(text@, self@, stop as int, end as int, color))
                    =~= (so_far + run) + painted(text@, self@, stop as int, end as int, color));
            }
            at = stop;
        }
        proof {
            assert(out@ + Seq::<u8>::empty() =~= out@);
        }
        push_range(&mut out, text, end, to);
        out
    }

    /// Shows the match as `render_with` does. `color` says whether the match
    /// is painted; where it is `None`, the environment decides.
    pub fn render(&self, text: &[u8], before: usize, after: usize, color: Option<bool>) -> (out:
        Vec<u8>)
        requires
            self.fits(text@),
        ensures
            match color {
                Some(wanted) => out@ == rendered(
                    text@,
                    self@,
                    before as int,
                    after as int,
                    wanted,
                ),
                None => out@ == rendered(text@, self@, before as int, after as int, true) || out@
                    == rendered(text@, self@, before as int, after as int, false),
            },
    {
        let wanted = match color {
            Some(wanted) => wanted,
            None => environment_wants_color(),
        };
        self.render_with(text, before, after, wanted)
    }
}

} // verus!
