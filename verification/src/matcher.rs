//! Unification of a pattern with a source subtree.
//!
//! One table of bindings is threaded through the whole attempt at one source
//! node. Where source children may be skipped, the positions are tried from
//! the left. Whatever fails later in the pattern sends the search back to
//! the last place where another way was open, however deep in the pattern
//! that place lies: what is left to do is kept on a stack of frames.

use vstd::prelude::*;
use crate::grammar::{interchangeable, kinds_agree};
use crate::pattern::{variables_below, KindTag, Mode, PatternNode, PatternTree};
use crate::result::{views, Binding, BindingView, MatchResult, MatchView};
use crate::syntax::{preorder, preorder_of, visible_children, SyntaxNode};
use crate::text::{copy_of, same_word, squeezed, word, word_is};

verus! {

/// What a variable is bound to: the source range of the subtree it first met.
#[derive(Clone, Copy, Debug, PartialEq, Eq, Structural)]
pub struct Bound {
    pub variable: usize,
    pub start: usize,
    pub end: usize,
}

/// The first entry for `variable` at or after `from`.
pub open spec fn lookup(table: Seq<Bound>, variable: usize, from: int) -> Option<Bound>
    decreases table.len() - from,
{
    if from < 0 || from >= table.len() {
        None
    } else if table[from].variable == variable {
        Some(table[from])
    } else {
        lookup(table, variable, from + 1)
    }
}

/// `after` is `before` with entries added at its end.
pub open spec fn extends(before: Seq<Bound>, after: Seq<Bound>) -> bool {
    before.len() <= after.len() && after.subrange(0, before.len() as int) =~= before
}

/// Meeting `variable` at `s`: a free variable is bound to `s`; a bound one
/// asks that `s` reads as its first binding does, whitespace ignored.
pub open spec fn bind(text: Seq<u8>, table: Seq<Bound>, variable: usize, s: SyntaxNode) -> Option<
    Seq<Bound>,
> {
    match lookup(table, variable, 0) {
        None => Some(table.push(Bound { variable, start: s.start, end: s.end })),
        Some(first) => if word(text, first.start as int, first.end as int) == word(
            text,
            s.start as int,
            s.end as int,
        ) {
            Some(table)
        } else {
            None
        },
    }
}

/// Whether the kind of `s` is what `tag` asks for. An error node has no kind to offer.
pub open spec fn tag_fits(classes: Seq<(u16, u16)>, tag: KindTag, s: SyntaxNode) -> bool {
    match tag {
        KindTag::Any => true,
        KindTag::Rule(kind) => !s.error && interchangeable(classes, kind, s.kind),
    }
}

/// Every table that unifying `p` with `s` can leave, in the order in which
/// the ways of fitting are tried. `p` and `s` do not fit where it is empty.
pub open spec fn unify_all(
    p: PatternNode,
    s: SyntaxNode,
    text: Seq<u8>,
    classes: Seq<(u16, u16)>,
    table: Seq<Bound>,
) -> Seq<Seq<Bound>>
    decreases p, 0int, 0int, 0int,
{
    match p {
        PatternNode::Wildcard => seq![table],
        PatternNode::Ellipsis => seq![table],
        PatternNode::Variable(v) => match bind(text, table, v, s) {
            Some(bound) => seq![bound],
            None => Seq::empty(),
        },
        PatternNode::Token { kind, text: t } => if !s.error && interchangeable(
            classes,
            kind,
            s.kind,
        ) && word(text, s.start as int, s.end as int) == t@ {
            seq![table]
        } else {
            Seq::empty()
        },
        PatternNode::Tree { kind, mode, children } => if tag_fits(classes, kind, s) {
            align_all(
                children@,
                0,
                visible_children(s),
                0,
                mode == Mode::Loose,
                mode == Mode::Loose,
                text,
                classes,
                table,
            )
        } else {
            Seq::empty()
        },
    }
}

/// Every table that lining up the slots `slots[i..]` with `nodes[j..]` can
/// leave, in the order in which the ways of lining up are tried: slot `i`
/// at the nearest child first, and there each way in which it fits.
///
/// `flex` says whether source children may be passed over before slot `i` is
/// placed, and whether children may be left over once the slots are used up:
/// it holds after an ellipsis, and throughout a loose node (`loose`).
pub open spec fn align_all(
    slots: Seq<PatternNode>,
    i: int,
    nodes: Seq<SyntaxNode>,
    j: int,
    flex: bool,
    loose: bool,
    text: Seq<u8>,
    classes: Seq<(u16, u16)>,
    table: Seq<Bound>,
) -> Seq<Seq<Bound>>
    decreases slots, slots.len() - i, nodes.len() - j, 0int,
{
    if i < 0 || j < 0 {
        Seq::empty()
    } else if i >= slots.len() {
        if flex || j >= nodes.len() {
            seq![table]
        } else {
            Seq::empty()
        }
    } else if slots[i] is Ellipsis {
        align_all(slots, i + 1, nodes, j, true, loose, text, classes, table)
    } else if j >= nodes.len() {
        Seq::empty()
    } else {
        rest_all(
            slots,
            i + 1,
            nodes,
            j + 1,
            loose,
            text,
            classes,
            unify_all(slots[i], nodes[j], text, classes, table),
            0,
        ) + if flex {
            align_all(slots, i, nodes, j + 1, flex, loose, text, classes, table)
        } else {
            Seq::empty()
        }
    }
}

/// Every table that lining up `slots[i..]` with `nodes[j..]` can leave when
/// it begins with one of `tables[k..]`, table by table.
pub open spec fn rest_all(
    slots: Seq<PatternNode>,
    i: int,
    nodes: Seq<SyntaxNode>,
    j: int,
    loose: bool,
    text: Seq<u8>,
    classes: Seq<(u16, u16)>,
    tables: Seq<Seq<Bound>>,
    k: int,
) -> Seq<Seq<Bound>>
    decreases slots, slots.len() - i, nodes.len() - j, 1 + tables.len() - k,
{
    if 0 <= k < tables.len() {
        align_all(slots, i, nodes, j, loose, loose, text, classes, tables[k]) + rest_all(
            slots,
            i,
            nodes,
            j,
            loose,
            text,
            classes,
            tables,
            k + 1,
        )
    } else {
        Seq::empty()
    }
}

/// The first of `tables`, if there is one.
pub open spec fn first_of(tables: Seq<Seq<Bound>>) -> Option<Seq<Bound>> {
    if tables.len() > 0 {
        Some(tables[0])
    } else {
        None
    }
}

/// The table after `p` has been unified with `s`: the first that a
/// unification of all of `p` leaves. `None` where they do not fit.
pub open spec fn unify_spec(
    p: PatternNode,
    s: SyntaxNode,
    text: Seq<u8>,
    classes: Seq<(u16, u16)>,
    table: Seq<Bound>,
) -> Option<Seq<Bound>> {
    first_of(unify_all(p, s, text, classes, table))
}

/// The table after the slots `slots[i..]` have been lined up with `nodes[j..]`.
pub open spec fn align_spec(
    slots: Seq<PatternNode>,
    i: int,
    nodes: Seq<SyntaxNode>,
    j: int,
    flex: bool,
    loose: bool,
    text: Seq<u8>,
    classes: Seq<(u16, u16)>,
    table: Seq<Bound>,
) -> Option<Seq<Bound>> {
    first_of(align_all(slots, i, nodes, j, flex, loose, text, classes, table))
}

/// How a call that was to compute `expected` has left the table.
pub open spec fn outcome(
    expected: Option<Seq<Bound>>,
    before: Seq<Bound>,
    after: Seq<Bound>,
    ok: bool,
) -> bool {
    match expected {
        Some(table) => ok && after == table,
        None => !ok && after == before,
    }
}

/// What is left to do of a node of the pattern while one of its slots is
/// being unified: the slots from `at` on, to be lined up with the source
/// children from `from` on.
#[derive(Clone, Copy, Debug)]
pub struct Frame<'a> {
    pub slots: &'a Vec<PatternNode>,
    pub at: usize,
    pub nodes: &'a Vec<SyntaxNode>,
    pub from: usize,
    pub flex: bool,
    pub loose: bool,
}

/// The table after everything that `stack` holds has been done, beginning
/// with its last frame: the first table that gets through all of it.
pub open spec fn finish<'a>(
    stack: Seq<Frame<'a>>,
    text: Seq<u8>,
    classes: Seq<(u16, u16)>,
    table: Seq<Bound>,
) -> Option<Seq<Bound>>
    decreases stack.len(), 0int,
{
    if stack.len() == 0 {
        Some(table)
    } else {
        let f = stack.last();
        first_finished(
            align_all(
                f.slots@,
                f.at as int,
                f.nodes@,
                f.from as int,
                f.flex,
                f.loose,
                text,
                classes,
                table,
            ),
            0,
            stack.drop_last(),
            text,
            classes,
        )
    }
}

/// What the first of `tables[k..]` that gets through `stack` ends as.
pub open spec fn first_finished<'a>(
    tables: Seq<Seq<Bound>>,
    k: int,
    stack: Seq<Frame<'a>>,
    text: Seq<u8>,
    classes: Seq<(u16, u16)>,
) -> Option<Seq<Bound>>
    decreases stack.len(), 1 + tables.len() - k,
{
    if 0 <= k < tables.len() {
        match finish(stack, text, classes, tables[k]) {
            Some(done) => Some(done),
            None => first_finished(tables, k + 1, stack, text, classes),
        }
    } else {
        None
    }
}

/// The number of nodes of `p`, an inner node counted twice.
pub open spec fn size(p: PatternNode) -> nat
    decreases p, 0int,
{
    match p {
        PatternNode::Tree { kind, mode, children } => 2 + sizes(children@, 0),
        _ => 1,
    }
}

/// The sizes of the slots `slots[i..]` together.
pub open spec fn sizes(slots: Seq<PatternNode>, i: int) -> nat
    decreases slots, slots.len() - i,
{
    if 0 <= i < slots.len() {
        size(slots[i]) + sizes(slots, i + 1)
    } else {
        0
    }
}

/// How much of the pattern the frames of `stack` still hold.
pub open spec fn weight<'a>(stack: Seq<Frame<'a>>) -> nat
    decreases stack.len(),
{
    if stack.len() == 0 {
        0
    } else {
        weight(stack.drop_last()) + 1 + sizes(stack.last().slots@, stack.last().at as int)
    }
}

/// How many of `count` children stand at or after position `j`.
pub open spec fn room(count: int, j: int) -> nat {
    if j < count {
        (count - j) as nat
    } else {
        0
    }
}

/// With nothing left to do, the first table is the one that gets through.
pub proof fn lemma_first_finished_at_once<'a>(
    tables: Seq<Seq<Bound>>,
    text: Seq<u8>,
    classes: Seq<(u16, u16)>,
)
    ensures
        first_finished(tables, 0, Seq::<Frame<'a>>::empty(), text, classes) == first_of(tables),
{
    if tables.len() > 0 {
        assert(finish(Seq::<Frame<'a>>::empty(), text, classes, tables[0]) == Some(tables[0]));
    }
}

/// A single table gets through `stack` or not; of no table, none does.
pub proof fn lemma_first_finished_few<'a>(
    table: Seq<Bound>,
    stack: Seq<Frame<'a>>,
    text: Seq<u8>,
    classes: Seq<(u16, u16)>,
)
    ensures
        first_finished(seq![table], 0, stack, text, classes) == finish(
            stack,
            text,
            classes,
            table,
        ),
        first_finished(Seq::empty(), 0, stack, text, classes) is None,
{
    let one = seq![table];
    assert(one[0] == table);
    assert(first_finished(one, 1, stack, text, classes) is None);
}

/// Of two lists of tables in a row, the first table that gets through
/// `stack` is that of the first list, or else that of the second.
pub proof fn lemma_first_finished_add<'a>(
    a: Seq<Seq<Bound>>,
    b: Seq<Seq<Bound>>,
    stack: Seq<Frame<'a>>,
    text: Seq<u8>,
    classes: Seq<(u16, u16)>,
)
    ensures
        first_finished(a + b, 0, stack, text, classes) == match first_finished(
            a,
            0,
            stack,
            text,
            classes,
        ) {
            Some(done) => Some(done),
            None => first_finished(b, 0, stack, text, classes),
        },
{
    lemma_first_finished_front(a, b, 0, stack, text, classes);
}

proof fn lemma_first_finished_front<'a>(
    a: Seq<Seq<Bound>>,
    b: Seq<Seq<Bound>>,
    k: int,
    stack: Seq<Frame<'a>>,
    text: Seq<u8>,
    classes: Seq<(u16, u16)>,
)
    requires
        0 <= k <= a.len(),
    ensures
        first_finished(a + b, k, stack, text, classes) == match first_finished(
            a,
            k,
            stack,
            text,
            classes,
        ) {
            Some(done) => Some(done),
            None => first_finished(b, 0, stack, text, classes),
        },
    decreases a.len() - k,
{
    if k < a.len() {
        assert((a + b)[k] == a[k]);
        lemma_first_finished_front(a, b, k + 1, stack, text, classes);
    } else {
        lemma_first_finished_back(a, b, 0, stack, text, classes);
    }
}

proof fn lemma_first_finished_back<'a>(
    a: Seq<Seq<Bound>>,
    b: Seq<Seq<Bound>>,
    k: int,
    stack: Seq<Frame<'a>>,
    text: Seq<u8>,
    classes: Seq<(u16, u16)>,
)
    requires
        0 <= k <= b.len(),
    ensures
        first_finished(a + b, a.len() + k, stack, text, classes) == first_finished(
            b,
            k,
            stack,
            text,
            classes,
        ),
    decreases b.len() - k,
{
    if k < b.len() {
        assert((a + b)[a.len() + k] == b[k]);
        lemma_first_finished_back(a, b, k + 1, stack, text, classes);
    }
}

/// Getting one of `tables[k..]` through a frame and then through `stack`
/// is getting one of the tables that the frame makes of them through `stack`.
pub proof fn lemma_first_finished_frame<'a>(
    tables: Seq<Seq<Bound>>,
    k: int,
    frame: Frame<'a>,
    stack: Seq<Frame<'a>>,
    text: Seq<u8>,
    classes: Seq<(u16, u16)>,
)
    requires
        0 <= k,
        frame.flex == frame.loose,
    ensures
        first_finished(tables, k, stack.push(frame), text, classes) == first_finished(
            rest_all(
                frame.slots@,
                frame.at as int,
                frame.nodes@,
                frame.from as int,
                frame.loose,
                text,
                classes,
                tables,
                k,
            ),
            0,
            stack,
            text,
            classes,
        ),
    decreases tables.len() - k,
{
    if k < tables.len() {
        let above = stack.push(frame);
        assert(above.last() == frame);
        assert(above.drop_last() =~= stack);
        assert(finish(above, text, classes, tables[k]) == first_finished(
            align_all(
                frame.slots@,
                frame.at as int,
                frame.nodes@,
                frame.from as int,
                frame.loose,
                frame.loose,
                text,
                classes,
                tables[k],
            ),
            0,
            stack,
            text,
            classes,
        ));
        lemma_first_finished_frame(tables, k + 1, frame, stack, text, classes);
        lemma_first_finished_add(
            align_all(
                frame.slots@,
                frame.at as int,
                frame.nodes@,
                frame.from as int,
                frame.loose,
                frame.loose,
                text,
                classes,
                tables[k],
            ),
            rest_all(
                frame.slots@,
                frame.at as int,
                frame.nodes@,
                frame.from as int,
                frame.loose,
                text,
                classes,
                tables,
                k + 1,
            ),
            stack,
            text,
            classes,
        );
    }
}

/// A frame on top adds its own load to the weight.
pub proof fn lemma_weight_push<'a>(stack: Seq<Frame<'a>>, frame: Frame<'a>)
    ensures
        weight(stack.push(frame)) == weight(stack) + 1 + sizes(frame.slots@, frame.at as int),
{
    assert(stack.push(frame).drop_last() =~= stack);
}

/// Looks up what `variable` is bound to.
pub fn find_bound(table: &Vec<Bound>, variable: usize) -> (r: Option<Bound>)
    ensures
        r == lookup(table@, variable, 0),
{
    let mut i: usize = 0;
    while i < table.len()
        invariant
            i <= table.len(),
            lookup(table@, variable, 0) == lookup(table@, variable, i as int),
        decreases table.len() - i,
    {
        if table[i].variable == variable {
            return Some(table[i]);
        }
        i += 1;
    }
    None
}

/// Whether the kind of `s` is what `tag` asks for.
pub fn tag_agrees(classes: &Vec<(u16, u16)>, tag: KindTag, s: &SyntaxNode) -> (r: bool)
    ensures
        r == tag_fits(classes@, tag, *s),
{
    match tag {
        KindTag::Any => true,
        KindTag::Rule(kind) => !s.error && kinds_agree(classes, kind, s.kind),
    }
}

/// Whether `p` and `s` fit when no variable is looked at: kinds, texts and
/// the lining up of children. Where they do not, no table makes them unify.
pub open spec fn fits(
    p: PatternNode,
    s: SyntaxNode,
    text: Seq<u8>,
    classes: Seq<(u16, u16)>,
) -> bool
    decreases p, 0int, 0int,
{
    match p {
        PatternNode::Token { kind, text: t } => !s.error && interchangeable(classes, kind, s.kind)
            && word(text, s.start as int, s.end as int) == t@,
        PatternNode::Tree { kind, mode, children } => tag_fits(classes, kind, s) && lines_up(
            children@,
            0,
            visible_children(s),
            0,
            mode == Mode::Loose,
            mode == Mode::Loose,
            text,
            classes,
        ),
        _ => true,
    }
}

/// Whether the slots `slots[i..]` line up with `nodes[j..]` when no variable is looked at.
pub open spec fn lines_up(
    slots: Seq<PatternNode>,
    i: int,
    nodes: Seq<SyntaxNode>,
    j: int,
    flex: bool,
    loose: bool,
    text: Seq<u8>,
    classes: Seq<(u16, u16)>,
) -> bool
    decreases slots, slots.len() - i, nodes.len() - j,
{
    if i < 0 || j < 0 {
        false
    } else if i >= slots.len() {
        flex || j >= nodes.len()
    } else if slots[i] is Ellipsis {
        lines_up(slots, i + 1, nodes, j, true, loose, text, classes)
    } else if j >= nodes.len() {
        false
    } else {
        (fits(slots[i], nodes[j], text, classes) && lines_up(
            slots,
            i + 1,
            nodes,
            j + 1,
            loose,
            loose,
            text,
            classes,
        )) || (flex && lines_up(slots, i, nodes, j + 1, flex, loose, text, classes))
    }
}

/// A pattern that unifies with a subtree in some way fits it.
pub proof fn lemma_unify_needs_fit(
    p: PatternNode,
    s: SyntaxNode,
    text: Seq<u8>,
    classes: Seq<(u16, u16)>,
    table: Seq<Bound>,
)
    ensures
        unify_all(p, s, text, classes, table).len() > 0 ==> fits(p, s, text, classes),
    decreases p, 0int, 0int, 0int,
{
    match p {
        PatternNode::Tree { kind, mode, children } => {
            lemma_align_needs_fit(
                children@,
                0,
                visible_children(s),
                0,
                mode == Mode::Loose,
                mode == Mode::Loose,
                text,
                classes,
                table,
            );
        },
        _ => {},
    }
}

/// Slots that line up with the children in some way line up when no variable is looked at.
pub proof fn lemma_align_needs_fit(
    slots: Seq<PatternNode>,
    i: int,
    nodes: Seq<SyntaxNode>,
    j: int,
    flex: bool,
    loose: bool,
    text: Seq<u8>,
    classes: Seq<(u16, u16)>,
    table: Seq<Bound>,
)
    ensures
        align_all(slots, i, nodes, j, flex, loose, text, classes, table).len() > 0 ==> lines_up(
            slots,
            i,
            nodes,
            j,
            flex,
            loose,
            text,
            classes,
        ),
    decreases slots, slots.len() - i, nodes.len() - j, 0int,
{
    if i < 0 || j < 0 || i >= slots.len() {
    } else if slots[i] is Ellipsis {
        lemma_align_needs_fit(slots, i + 1, nodes, j, true, loose, text, classes, table);
    } else if j >= nodes.len() {
    } else {
        let ways = unify_all(slots[i], nodes[j], text, classes, table);
        lemma_unify_needs_fit(slots[i], nodes[j], text, classes, table);
        lemma_rest_needs_fit(slots, i + 1, nodes, j + 1, loose, text, classes, ways, 0);
        if flex {
            lemma_align_needs_fit(slots, i, nodes, j + 1, flex, loose, text, classes, table);
        }
    }
}

/// The rest of the slots, lined up in some way from one of the tables,
/// lines up when no variable is looked at.
pub proof fn lemma_rest_needs_fit(
    slots: Seq<PatternNode>,
    i: int,
    nodes: Seq<SyntaxNode>,
    j: int,
    loose: bool,
    text: Seq<u8>,
    classes: Seq<(u16, u16)>,
    tables: Seq<Seq<Bound>>,
    k: int,
)
    ensures
        rest_all(slots, i, nodes, j, loose, text, classes, tables, k).len() > 0 ==> tables.len()
            > 0 && lines_up(slots, i, nodes, j, loose, loose, text, classes),
    decreases slots, slots.len() - i, nodes.len() - j, 1 + tables.len() - k,
{
    if 0 <= k < tables.len() {
        lemma_align_needs_fit(slots, i, nodes, j, loose, loose, text, classes, tables[k]);
        lemma_rest_needs_fit(slots, i, nodes, j, loose, text, classes, tables, k + 1);
    }
}

/// What has been found out, while one list of slots is lined up with one
/// list of source children, about where a slot cannot be placed: from
/// position `dead[i]` on, slot `i` and those after it do not line up,
/// whatever the variables are bound to.
pub open spec fn dead_ends(
    dead: Seq<usize>,
    slots: Seq<PatternNode>,
    nodes: Seq<SyntaxNode>,
    loose: bool,
    text: Seq<u8>,
    classes: Seq<(u16, u16)>,
) -> bool {
    &&& dead.len() == slots.len()
    &&& forall|i: int, j: int|
        0 <= i < slots.len() && !(slots[i] is Ellipsis) && dead[i] <= j <= nodes.len()
            ==> !#[trigger] lines_up(slots, i, nodes, j, true, loose, text, classes)
}

/// Slots that do not line up from `j` on do not line up from a later position on.
pub proof fn lemma_dead_onward(
    slots: Seq<PatternNode>,
    i: int,
    nodes: Seq<SyntaxNode>,
    j: int,
    k: int,
    loose: bool,
    text: Seq<u8>,
    classes: Seq<(u16, u16)>,
)
    requires
        0 <= i < slots.len(),
        !(slots[i] is Ellipsis),
        0 <= j <= k <= nodes.len(),
        !lines_up(slots, i, nodes, j, true, loose, text, classes),
    ensures
        !lines_up(slots, i, nodes, k, true, loose, text, classes),
    decreases k - j,
{
    if j < k {
        lemma_dead_onward(slots, i, nodes, j + 1, k, loose, text, classes);
    }
}

/// The dead ends that are known before anything has been tried: no slot
/// finds a place behind the last of `count` children.
fn no_dead_ends(slots: usize, count: usize) -> (dead: Vec<usize>)
    ensures
        dead@.len() == slots,
        forall|i: int| 0 <= i < slots ==> dead@[i] == count,
{
    let mut dead: Vec<usize> = Vec::new();
    let mut i: usize = 0;
    while i < slots
        invariant
            i <= slots,
            dead@.len() == i,
            forall|k: int| 0 <= k < i ==> dead@[k] == count,
        decreases slots - i,
    {
        dead.push(count);
        i += 1;
    }
    dead
}

/// Whether `p` and `s` fit when no variable is looked at. This is decided
/// without going back over a place twice, and tells the search what it
/// need not try.
pub fn shape_fits(p: &PatternNode, s: &SyntaxNode, text: &[u8], classes: &Vec<(u16, u16)>) -> (r:
    bool)
    ensures
        r == fits(*p, *s, text@, classes@),
    decreases *p, 0int, 0int,
{
    match p {
        PatternNode::Token { kind, text: t } => {
            !s.error && kinds_agree(classes, *kind, s.kind) && word_is(text, s.start, s.end, t)
        },
        PatternNode::Tree { kind, mode, children } => {
            if !tag_agrees(classes, *kind, s) {
                return false;
            }
            let loose = match mode {
                Mode::Loose => true,
                Mode::Strict => false,
            };
            if s.error {
                let none: Vec<SyntaxNode> = Vec::new();
                shape_lines_up(children, &none, loose, text, classes)
            } else {
                shape_lines_up(children, &s.children, loose, text, classes)
            }
        },
        _ => true,
    }
}

/// Whether `slots` line up with `nodes` when no variable is looked at.
pub fn shape_lines_up(
    slots: &Vec<PatternNode>,
    nodes: &Vec<SyntaxNode>,
    loose: bool,
    text: &[u8],
    classes: &Vec<(u16, u16)>,
) -> (r: bool)
    ensures
        r == lines_up(slots@, 0, nodes@, 0, loose, loose, text@, classes@),
    decreases slots@, slots.len() + 1, 0int,
{
    let mut dead = no_dead_ends(slots.len(), nodes.len());
    shape_place(slots, 0, nodes, 0, loose, loose, text, classes, &mut dead)
}

/// Whether `slots[i..]` line up with `nodes[j..]` when no variable is
/// looked at. `dead` keeps where a slot was found to have no place, so
/// that going back to an earlier slot does not try the same places again.
fn shape_place(
    slots: &Vec<PatternNode>,
    i: usize,
    nodes: &Vec<SyntaxNode>,
    j: usize,
    flex: bool,
    loose: bool,
    text: &[u8],
    classes: &Vec<(u16, u16)>,
    dead: &mut Vec<usize>,
) -> (r: bool)
    requires
        i <= slots.len(),
        j <= nodes.len(),
        dead_ends(old(dead)@, slots@, nodes@, loose, text@, classes@),
    ensures
        r == lines_up(slots@, i as int, nodes@, j as int, flex, loose, text@, classes@),
        dead_ends(final(dead)@, slots@, nodes@, loose, text@, classes@),
    decreases slots@, slots.len() - i, nodes.len() - j,
{
    if i >= slots.len() {
        return flex || j >= nodes.len();
    }
    if let PatternNode::Ellipsis = slots[i] {
        return shape_place(slots, i + 1, nodes, j, true, loose, text, classes, dead);
    }
    let mut k: usize = j;
    while k < nodes.len()
        invariant
            i < slots.len(),
            !(slots@[i as int] is Ellipsis),
            j <= k <= nodes.len(),
            k > j ==> flex,
            dead_ends(dead@, slots@, nodes@, loose, text@, classes@),
            lines_up(slots@, i as int, nodes@, j as int, flex, loose, text@, classes@) == lines_up(
                slots@,
                i as int,
                nodes@,
                k as int,
                flex,
                loose,
                text@,
                classes@,
            ),
        decreases nodes.len() - k,
    {
        if flex && k >= dead[i] {
            return false;
        }
        if shape_fits(&slots[i], &nodes[k], text, classes) {
            if shape_place(slots, i + 1, nodes, k + 1, loose, loose, text, classes, dead) {
                return true;
            }
        }
        if !flex {
            return false;
        }
        k += 1;
    }
    if flex && j < dead[i] {
        let ghost known = dead@;
        dead.set(i, j);
        proof {
            assert forall|a: int, b: int|
                0 <= a < slots@.len() && !(slots@[a] is Ellipsis) && dead@[a] <= b
                    <= nodes@.len() implies !#[trigger] lines_up(
                slots@,
                a,
                nodes@,
                b,
                true,
                loose,
                text@,
                classes@,
            ) by {
                if a == i {
                    lemma_dead_onward(
                        slots@,
                        i as int,
                        nodes@,
                        j as int,
                        b,
                        loose,
                        text@,
                        classes@,
                    );
                } else {
                    assert(known[a] == dead@[a]);
                }
            }
        }
    }
    false
}

/// Unifies `p` with the subtree at `s`. On success the table holds the
/// bindings that were made; on failure it is as it was.
pub fn unify(
    p: &PatternNode,
    s: &SyntaxNode,
    text: &[u8],
    classes: &Vec<(u16, u16)>,
    table: &mut Vec<Bound>,
) -> (ok: bool)
    ensures
        outcome(
            unify_spec(*p, *s, text@, classes@, old(table)@),
            old(table)@,
            final(table)@,
            ok,
        ),
{
    let none: Vec<SyntaxNode> = Vec::new();
    let mut stack: Vec<Frame<'_>> = Vec::new();
    proof {
        lemma_first_finished_at_once(unify_all(*p, *s, text@, classes@, table@), text@, classes@);
    }
    step(p, s, text, classes, &none, &mut stack, table)
}

/// Lines up the slots `slots[i..]` with the source children `nodes[j..]`.
pub fn align(
    slots: &Vec<PatternNode>,
    i: usize,
    nodes: &Vec<SyntaxNode>,
    j: usize,
    flex: bool,
    loose: bool,
    text: &[u8],
    classes: &Vec<(u16, u16)>,
    table: &mut Vec<Bound>,
) -> (ok: bool)
    ensures
        outcome(
            align_spec(
                slots@,
                i as int,
                nodes@,
                j as int,
                flex,
                loose,
                text@,
                classes@,
                old(table)@,
            ),
            old(table)@,
            final(table)@,
            ok,
        ),
{
    let none: Vec<SyntaxNode> = Vec::new();
    let mut stack: Vec<Frame<'_>> = Vec::new();
    proof {
        lemma_first_finished_at_once(
            align_all(slots@, i as int, nodes@, j as int, flex, loose, text@, classes@, table@),
            text@,
            classes@,
        );
    }
    place(slots, i, nodes, j, flex, loose, text, classes, &none, &mut stack, table)
}

/// Does what `stack` holds, beginning with its last frame.
fn run<'a>(
    text: &[u8],
    classes: &Vec<(u16, u16)>,
    none: &'a Vec<SyntaxNode>,
    stack: &mut Vec<Frame<'a>>,
    table: &mut Vec<Bound>,
) -> (ok: bool)
    requires
        none@.len() == 0,
    ensures
        final(stack)@ == old(stack)@,
        outcome(
            finish(old(stack)@, text@, classes@, old(table)@),
            old(table)@,
            final(table)@,
            ok,
        ),
    decreases
            weight(old(stack)@),
            if old(stack)@.len() == 0 {
                0
            } else {
                2 + room(old(stack)@.last().nodes@.len() as int, old(stack)@.last().from as int)
            },
{
    if stack.len() == 0 {
        return true;
    }
    let ghost whole = stack@;
    let frame = stack[stack.len() - 1];
    stack.pop();
    proof {
        assert(stack@ =~= whole.drop_last());
        assert(whole =~= stack@.push(frame));
        lemma_weight_push(stack@, frame);
    }
    let ok = place(
        frame.slots,
        frame.at,
        frame.nodes,
        frame.from,
        frame.flex,
        frame.loose,
        text,
        classes,
        none,
        stack,
        table,
    );
    stack.push(frame);
    ok
}

/// Unifies `p` with `s` and then does what `stack` holds; where that
/// fails, goes on to the next way in which `p` and `s` fit.
fn step<'a>(
    p: &'a PatternNode,
    s: &'a SyntaxNode,
    text: &[u8],
    classes: &Vec<(u16, u16)>,
    none: &'a Vec<SyntaxNode>,
    stack: &mut Vec<Frame<'a>>,
    table: &mut Vec<Bound>,
) -> (ok: bool)
    requires
        none@.len() == 0,
    ensures
        final(stack)@ == old(stack)@,
        outcome(
            first_finished(
                unify_all(*p, *s, text@, classes@, old(table)@),
                0,
                old(stack)@,
                text@,
                classes@,
            ),
            old(table)@,
            final(table)@,
            ok,
        ),
    decreases weight(old(stack)@) + size(*p), 0int,
{
    proof {
        lemma_first_finished_few(table@, stack@, text@, classes@);
    }
    match p {
        PatternNode::Wildcard => run(text, classes, none, stack, table),
        PatternNode::Ellipsis => run(text, classes, none, stack, table),
        PatternNode::Variable(v) => {
            match find_bound(table, *v) {
                None => {
                    let ghost before = table@;
                    table.push(Bound { variable: *v, start: s.start, end: s.end });
                    proof {
                        lemma_first_finished_few(table@, stack@, text@, classes@);
                    }
                    if run(text, classes, none, stack, table) {
                        true
                    } else {
                        table.pop();
                        proof {
                            assert(table@ =~= before);
                        }
                        false
                    }
                },
                Some(first) => {
                    if same_word(text, first.start, first.end, s.start, s.end) {
                        run(text, classes, none, stack, table)
                    } else {
                        false
                    }
                },
            }
        },
        PatternNode::Token { kind, text: t } => {
            if !s.error && kinds_agree(classes, *kind, s.kind) && word_is(
                text,
                s.start,
                s.end,
                t,
            ) {
                run(text, classes, none, stack, table)
            } else {
                false
            }
        },
        PatternNode::Tree { kind, mode, children } => {
            if !tag_agrees(classes, *kind, s) {
                return false;
            }
            let loose = match mode {
                Mode::Loose => true,
                Mode::Strict => false,
            };
            let nodes: &'a Vec<SyntaxNode> = if s.error {
                none
            } else {
                &s.children
            };
            proof {
                assert(nodes@ =~= visible_children(*s));
                assert(size(*p) == 2 + sizes(children@, 0));
                lemma_align_needs_fit(
                    children@,
                    0,
                    nodes@,
                    0,
                    loose,
                    loose,
                    text@,
                    classes@,
                    table@,
                );
            }
            if !shape_lines_up(children, nodes, loose, text, classes) {
                return false;
            }
            place(children, 0, nodes, 0, loose, loose, text, classes, none, stack, table)
        },
    }
}

/// Lines up the slots `slots[i..]` with `nodes[j..]` and then does what
/// `stack` holds; where that fails, goes on to the next way of lining up.
fn place<'a>(
    slots: &'a Vec<PatternNode>,
    i: usize,
    nodes: &'a Vec<SyntaxNode>,
    j: usize,
    flex: bool,
    loose: bool,
    text: &[u8],
    classes: &Vec<(u16, u16)>,
    none: &'a Vec<SyntaxNode>,
    stack: &mut Vec<Frame<'a>>,
    table: &mut Vec<Bound>,
) -> (ok: bool)
    requires
        none@.len() == 0,
    ensures
        final(stack)@ == old(stack)@,
        outcome(
            first_finished(
                align_all(
                    slots@,
                    i as int,
                    nodes@,
                    j as int,
                    flex,
                    loose,
                    text@,
                    classes@,
                    old(table)@,
                ),
                0,
                old(stack)@,
                text@,
                classes@,
            ),
            old(table)@,
            final(table)@,
            ok,
        ),
    decreases
            weight(old(stack)@) + 1 + sizes(slots@, i as int),
            1 + room(nodes@.len() as int, j as int),
{
    proof {
        lemma_first_finished_few(table@, stack@, text@, classes@);
    }
    if i >= slots.len() {
        if flex || j >= nodes.len() {
            return run(text, classes, none, stack, table);
        }
        return false;
    }
    proof {
        assert(sizes(slots@, i as int) == size(slots@[i as int]) + sizes(slots@, i + 1));
    }
    if let PatternNode::Ellipsis = slots[i] {
        return place(slots, i + 1, nodes, j, true, loose, text, classes, none, stack, table);
    }
    let ghost below = stack@;
    let ghost before = table@;
    let mut k: usize = j;
    while k < nodes.len()
        invariant
            none@.len() == 0,
            i < slots.len(),
            !(slots@[i as int] is Ellipsis),
            j <= k,
            stack@ == below,
            below == old(stack)@,
            table@ == before,
            before == old(table)@,
            k > j ==> flex,
            first_finished(
                align_all(slots@, i as int, nodes@, j as int, flex, loose, text@, classes@, before),
                0,
                below,
                text@,
                classes@,
            ) == first_finished(
                align_all(slots@, i as int, nodes@, k as int, flex, loose, text@, classes@, before),
                0,
                below,
                text@,
                classes@,
            ),
        decreases nodes.len() - k,
    {
        let frame = Frame { slots, at: i + 1, nodes, from: k + 1, flex: loose, loose };
        let ghost ways = unify_all(slots@[i as int], nodes@[k as int], text@, classes@, before);
        let ghost here = rest_all(slots@, i + 1, nodes@, k + 1, loose, text@, classes@, ways, 0);
        let ghost skip = if flex {
            align_all(slots@, i as int, nodes@, k + 1, flex, loose, text@, classes@, before)
        } else {
            Seq::empty()
        };
        proof {
            lemma_weight_push(below, frame);
            lemma_first_finished_frame(ways, 0, frame, below, text@, classes@);
            lemma_first_finished_add(here, skip, below, text@, classes@);
        }
        stack.push(frame);
        let ok = step(&slots[i], &nodes[k], text, classes, none, stack, table);
        stack.pop();
        proof {
            assert(stack@ =~= below);
        }
        if ok {
            return true;
        }
        if !flex {
            return false;
        }
        k += 1;
    }
    false
}

/// Every entry of the table is for a variable with an index under `count`.
pub open spec fn table_below(table: Seq<Bound>, count: int) -> bool {
    forall|k: int| 0 <= k < table.len() ==> (#[trigger] table[k]).variable < count
}

/// Every table of the list is for variables with an index under `count`.
pub open spec fn tables_below(tables: Seq<Seq<Bound>>, count: int) -> bool {
    forall|k: int| 0 <= k < tables.len() ==> table_below(#[trigger] tables[k], count)
}

/// Unification binds no variable but those of the pattern, whichever way it fits.
pub proof fn lemma_unify_all_below(
    p: PatternNode,
    s: SyntaxNode,
    text: Seq<u8>,
    classes: Seq<(u16, u16)>,
    table: Seq<Bound>,
    count: int,
)
    requires
        variables_below(p, count),
        table_below(table, count),
    ensures
        tables_below(unify_all(p, s, text, classes, table), count),
    decreases p, 0int, 0int, 0int,
{
    match p {
        PatternNode::Tree { kind, mode, children } => {
            lemma_align_all_below(
                children@,
                0,
                visible_children(s),
                0,
                mode == Mode::Loose,
                mode == Mode::Loose,
                text,
                classes,
                table,
                count,
            );
        },
        _ => {},
    }
}

/// Lining up binds no variable but those of the slots, whichever way it goes.
pub proof fn lemma_align_all_below(
    slots: Seq<PatternNode>,
    i: int,
    nodes: Seq<SyntaxNode>,
    j: int,
    flex: bool,
    loose: bool,
    text: Seq<u8>,
    classes: Seq<(u16, u16)>,
    table: Seq<Bound>,
    count: int,
)
    requires
        forall|k: int| 0 <= k < slots.len() ==> variables_below(#[trigger] slots[k], count),
        table_below(table, count),
    ensures
        tables_below(align_all(slots, i, nodes, j, flex, loose, text, classes, table), count),
    decreases slots, slots.len() - i, nodes.len() - j, 0int,
{
    if i < 0 || j < 0 || i >= slots.len() {
    } else if slots[i] is Ellipsis {
        lemma_align_all_below(slots, i + 1, nodes, j, true, loose, text, classes, table, count);
    } else if j >= nodes.len() {
    } else {
        let ways = unify_all(slots[i], nodes[j], text, classes, table);
        lemma_unify_all_below(slots[i], nodes[j], text, classes, table, count);
        lemma_rest_all_below(slots, i + 1, nodes, j + 1, loose, text, classes, ways, 0, count);
        if flex {
            lemma_align_all_below(slots, i, nodes, j + 1, flex, loose, text, classes, table, count);
        }
    }
}

/// Lining up the rest binds no variable but those of the slots, whichever table it begins with.
pub proof fn lemma_rest_all_below(
    slots: Seq<PatternNode>,
    i: int,
    nodes: Seq<SyntaxNode>,
    j: int,
    loose: bool,
    text: Seq<u8>,
    classes: Seq<(u16, u16)>,
    tables: Seq<Seq<Bound>>,
    k: int,
    count: int,
)
    requires
        forall|n: int| 0 <= n < slots.len() ==> variables_below(#[trigger] slots[n], count),
        tables_below(tables, count),
    ensures
        tables_below(rest_all(slots, i, nodes, j, loose, text, classes, tables, k), count),
    decreases slots, slots.len() - i, nodes.len() - j, 1 + tables.len() - k,
{
    if 0 <= k < tables.len() {
        lemma_align_all_below(slots, i, nodes, j, loose, loose, text, classes, tables[k], count);
        lemma_rest_all_below(slots, i, nodes, j, loose, text, classes, tables, k + 1, count);
    }
}

/// Unification binds no variable but those of the pattern.
pub proof fn lemma_unify_below(
    p: PatternNode,
    s: SyntaxNode,
    text: Seq<u8>,
    classes: Seq<(u16, u16)>,
    table: Seq<Bound>,
    count: int,
)
    requires
        variables_below(p, count),
        table_below(table, count),
    ensures
        unify_spec(p, s, text, classes, table) matches Some(after) ==> table_below(after, count),
{
    lemma_unify_all_below(p, s, text, classes, table, count);
}

/// The binding that a table entry is reported as.
pub open spec fn reported(names: Seq<Seq<u8>>, text: Seq<u8>, bound: Bound) -> BindingView {
    BindingView {
        name: names[bound.variable as int],
        start: bound.start as int,
        end: bound.end as int,
        text: word(text, bound.start as int, bound.end as int),
    }
}

/// The match that a successful unification at `s` is reported as.
pub open spec fn report(
    names: Seq<Seq<u8>>,
    text: Seq<u8>,
    s: SyntaxNode,
    table: Seq<Bound>,
) -> MatchView {
    MatchView { root: s, bindings: table.map_values(|b: Bound| reported(names, text, b)) }
}

/// Trying the pattern at one candidate node, with no variable bound.
pub open spec fn attempt(
    p: PatternNode,
    names: Seq<Seq<u8>>,
    classes: Seq<(u16, u16)>,
    text: Seq<u8>,
) -> spec_fn(SyntaxNode) -> Option<MatchView> {
    |s: SyntaxNode|
        match unify_spec(p, s, text, classes, Seq::empty()) {
            Some(table) => Some(report(names, text, s, table)),
            None => None,
        }
}

/// Filtering a list in two parts gives the two results one after the other.
pub proof fn lemma_filter_map_add(
    a: Seq<SyntaxNode>,
    b: Seq<SyntaxNode>,
    f: spec_fn(SyntaxNode) -> Option<MatchView>,
)
    ensures
        (a + b).filter_map(f) == a.filter_map(f) + b.filter_map(f),
    decreases b.len(),
{
    if b.len() == 0 {
        assert(a + b =~= a);
        assert(a.filter_map(f) + b.filter_map(f) =~= a.filter_map(f));
    } else {
        lemma_filter_map_add(a, b.drop_last(), f);
        assert((a + b).drop_last() =~= a + b.drop_last());
        assert((a + b).last() == b.last());
        match f(b.last()) {
            Some(m) => {
                assert(a.filter_map(f) + (b.drop_last().filter_map(f) + seq![m]) =~= (a.filter_map(
                    f,
                ) + b.drop_last().filter_map(f)) + seq![m]);
            },
            None => {},
        }
    }
}

impl PatternTree {
    /// The matches of the pattern in the tree at `root`: every node at which
    /// the pattern unifies, in pre-order, each with the bindings made there.
    pub open spec fn found(&self, root: SyntaxNode, text: Seq<u8>) -> Seq<MatchView> {
        preorder(root).filter_map(attempt(self.pattern(), self.names(), self.classes(), text))
    }

    /// Reports the unification at `s` that left `table`.
    fn report<'a>(&self, s: &'a SyntaxNode, text: &[u8], table: &Vec<Bound>) -> (m: MatchResult<
        'a,
    >)
        requires
            table_below(table@, self.names().len() as int),
        ensures
            m@ == report(self.names(), text@, *s, table@),
    {
        let mut bindings: Vec<Binding> = Vec::new();
        let mut k: usize = 0;
        while k < table.len()
            invariant
                k <= table.len(),
                table_below(table@, self.names().len() as int),
                bindings@.len() == k,
                forall|n: int|
                    0 <= n < k ==> (#[trigger] bindings@[n])@ == reported(
                        self.names(),
                        text@,
                        table@[n],
                    ),
            decreases table.len() - k,
        {
            let bound = table[k];
            let name = copy_of(self.name(bound.variable));
            let word = squeezed(text, bound.start, bound.end);
            bindings.push(Binding { name, start: bound.start, end: bound.end, text: word });
            k += 1;
        }
        let m = MatchResult { root: s, bindings };
        proof {
            assert(m@.bindings =~= report(self.names(), text@, *s, table@).bindings);
        }
        m
    }

    /// Tries the pattern at `s` and at every node below it, and adds what fits to `out`.
    fn collect<'a>(&self, s: &'a SyntaxNode, text: &[u8], out: &mut Vec<MatchResult<'a>>)
        ensures
            views(final(out)@) == views(old(out)@) + self.found(*s, text@),
        decreases *s,
    {
        let ghost f = attempt(self.pattern(), self.names(), self.classes(), text@);
        let ghost start = views(out@);
        let p = self.root();
        let mut table: Vec<Bound> = Vec::new();
        proof {
            lemma_unify_below(
                *p,
                *s,
                text@,
                self.classes(),
                Seq::empty(),
                self.names().len() as int,
            );
            Seq::<SyntaxNode>::lemma_filter_map_singleton(*s, f);
        }
        if unify(p, s, text, self.kind_classes(), &mut table) {
            let m = self.report(s, text, &table);
            proof {
                assert(views(out@.push(m)) =~= views(out@).push(m@));
                assert(seq![*s].filter_map(f) =~= seq![m@]);
            }
            out.push(m);
        }
        assert(views(out@) =~= start + seq![*s].filter_map(f));
        let mut i: usize = 0;
        while i < s.children.len()
            invariant
                i <= s.children.len(),
                f == attempt(self.pattern(), self.names(), self.classes(), text@),
                views(out@) == start + seq![*s].filter_map(f) + preorder_of(
                    s.children@,
                    i as int,
                ).filter_map(f),
            decreases s.children.len() - i,
        {
            let ghost so_far = views(out@);
            self.collect(&s.children[i], text, out);
            proof {
                lemma_filter_map_add(
                    preorder_of(s.children@, i as int),
                    preorder(s.children@[i as int]),
                    f,
                );
                assert(views(out@) =~= start + seq![*s].filter_map(f) + preorder_of(
                    s.children@,
                    i + 1,
                ).filter_map(f));
            }
            i += 1;
        }
        proof {
            lemma_filter_map_add(seq![*s], preorder_of(s.children@, s.children@.len() as int), f);
            assert(views(out@) =~= start + self.found(*s, text@));
        }
    }

    /// Finds every node of the tree at `root` at which the pattern fits.
    ///
    /// `text` is the source that the tree was parsed from. The matches come in
    /// pre-order; no input makes the search fail.
    pub fn matches<'a>(&self, root: &'a SyntaxNode, text: &[u8]) -> (out: Vec<MatchResult<'a>>)
        ensures
            views(out@) == self.found(*root, text@),
    {
        let mut out: Vec<MatchResult<'a>> = Vec::new();
        proof {
            assert(views(out@) =~= Seq::<MatchView>::empty());
        }
        self.collect(root, text, &mut out);
        proof {
            assert(Seq::<MatchView>::empty() + self.found(*root, text@) =~= self.found(
                *root,
                text@,
            ));
        }
        out
    }
}

} // verus!
