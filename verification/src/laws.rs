//! What holds of compiling and matching taken together.

use vstd::prelude::*;
use crate::compile::{
    compiled, compiles_to, descend, entry_of, first_error, is_placeholder, lemma_first_error_add,
    name_of, verdict,
};
use crate::grammar::{interchangeable, Grammar};
use crate::matcher::{
    align_all, attempt, extends, lemma_unify_below, lookup, report, reported, rest_all,
    unify_all, unify_spec, Bound,
};
use crate::pattern::{Mode, PatternNode, PatternTree};
use crate::result::{views, MatchResult, MatchView};
use crate::syntax::{preorder, preorder_of, visible_children, SyntaxNode};
use crate::text::word;

verus! {

/// Neither `s` nor anything below it is an error node.
pub open spec fn error_free(s: SyntaxNode) -> bool
    decreases s,
{
    !s.error && forall|i: int| 0 <= i < s.children@.len() ==> error_free(#[trigger] s.children@[i])
}

/// Every variable of the table is bound to a span that reads as the
/// variable's own placeholder does: `$` and its name.
pub open spec fn bound_to_itself(table: Seq<Bound>, names: Seq<Seq<u8>>, text: Seq<u8>) -> bool {
    forall|k: int|
        0 <= k < table.len() ==> (#[trigger] table[k]).variable < names.len() && word(
            text,
            table[k].start as int,
            table[k].end as int,
        ) == seq![36u8] + names[table[k].variable as int]
}

/// Being interchangeable is an equivalence of kinds.
pub proof fn lemma_interchangeable_is_equivalence(classes: Seq<(u16, u16)>, a: u16, b: u16, c: u16)
    ensures
        interchangeable(classes, a, a),
        interchangeable(classes, a, b) ==> interchangeable(classes, b, a),
        interchangeable(classes, a, b) && interchangeable(classes, b, c) ==> interchangeable(
            classes,
            a,
            c,
        ),
{
}

/// What a lookup finds is an entry of the table for the variable asked for.
pub proof fn lemma_lookup_finds(table: Seq<Bound>, variable: usize, from: int)
    requires
        0 <= from,
    ensures
        lookup(table, variable, from) matches Some(found) ==> found.variable == variable
            && exists|k: int| from <= k < table.len() && table[k] == found,
    decreases table.len() - from,
{
    if from < table.len() && table[from].variable != variable {
        lemma_lookup_finds(table, variable, from + 1);
    }
}

/// A list without an error node has none in any of its two parts.
proof fn lemma_no_error_parts(a: Seq<SyntaxNode>, b: Seq<SyntaxNode>)
    requires
        first_error(a + b, 0) is None,
    ensures
        first_error(a, 0) is None,
        first_error(b, 0) is None,
{
    lemma_first_error_add(a, b);
}

/// Where the first `count` subtrees hold no error node in pre-order, none of them does.
proof fn lemma_no_error_each(nodes: Seq<SyntaxNode>, count: int, k: int)
    requires
        0 <= k < count <= nodes.len(),
        first_error(preorder_of(nodes, count), 0) is None,
    ensures
        first_error(preorder(nodes[k]), 0) is None,
    decreases count,
{
    lemma_no_error_parts(preorder_of(nodes, count - 1), preorder(nodes[count - 1]));
    if k < count - 1 {
        lemma_no_error_each(nodes, count - 1, k);
    }
}

/// A tree whose pre-order holds no error node holds none at all.
pub proof fn lemma_error_free(s: SyntaxNode)
    requires
        first_error(preorder(s), 0) is None,
    ensures
        error_free(s),
    decreases s,
{
    lemma_no_error_parts(seq![s], preorder_of(s.children@, s.children@.len() as int));
    assert(first_error(seq![s], 0) is None);
    assert(seq![s][0] == s);
    assert forall|i: int| 0 <= i < s.children@.len() implies error_free(
        #[trigger] s.children@[i],
    ) by {
        lemma_no_error_each(s.children@, s.children@.len() as int, i);
        lemma_error_free(s.children@[i]);
    }
}

/// The pre-order of the first `count` subtrees holds the pre-order of each of them.
proof fn lemma_preorder_of_holds(nodes: Seq<SyntaxNode>, count: int, k: int, node: SyntaxNode)
    requires
        0 <= k < count <= nodes.len(),
        preorder(nodes[k]).contains(node),
    ensures
        preorder_of(nodes, count).contains(node),
    decreases count,
{
    let front = preorder_of(nodes, count - 1);
    let back = preorder(nodes[count - 1]);
    if k < count - 1 {
        lemma_preorder_of_holds(nodes, count - 1, k, node);
        let at = choose|at: int| 0 <= at < front.len() && front[at] == node;
        assert((front + back)[at] == node);
    } else {
        let at = choose|at: int| 0 <= at < back.len() && back[at] == node;
        assert((front + back)[front.len() + at] == node);
    }
}

/// The pre-order of a tree holds the pre-order of each of its children.
pub proof fn lemma_preorder_holds_child(s: SyntaxNode, k: int, node: SyntaxNode)
    requires
        0 <= k < s.children@.len(),
        preorder(s.children@[k]).contains(node),
    ensures
        preorder(s).contains(node),
{
    let below = preorder_of(s.children@, s.children@.len() as int);
    lemma_preorder_of_holds(s.children@, s.children@.len() as int, k, node);
    let at = choose|at: int| 0 <= at < below.len() && below[at] == node;
    assert((seq![s] + below)[1 + at] == node);
}

/// The pre-order of a tree begins with its root.
pub proof fn lemma_preorder_holds_root(s: SyntaxNode)
    ensures
        preorder(s).contains(s),
{
    assert(preorder(s)[0] == s);
}

/// The node that a descent ends at is a node of the tree, and free of errors where the tree is.
proof fn lemma_descend_within(s: SyntaxNode, kind: u16)
    requires
        descend(s, kind) is Ok,
    ensures
        preorder(s).contains(descend(s, kind)->Ok_0),
        error_free(s) ==> error_free(descend(s, kind)->Ok_0),
    decreases s,
{
    if s.kind == kind {
        lemma_preorder_holds_root(s);
    } else {
        lemma_descend_within(s.children@[0], kind);
        lemma_preorder_holds_child(s, 0, descend(s, kind)->Ok_0);
    }
}

/// The entry node of a query is a node of the parsed fragment.
pub proof fn lemma_entry_within(parsed: SyntaxNode, entry: Option<u16>)
    requires
        entry_of(parsed, entry) is Ok,
    ensures
        preorder(parsed).contains(entry_of(parsed, entry)->Ok_0),
        error_free(parsed) ==> error_free(entry_of(parsed, entry)->Ok_0),
{
    match entry {
        Some(kind) => {
            lemma_descend_within(parsed, kind);
        },
        None => {
            lemma_preorder_holds_root(parsed.children@[0]);
            lemma_preorder_holds_child(parsed, 0, parsed.children@[0]);
        },
    }
}

/// One of the tables binds every variable to a span that reads as the
/// variable's own placeholder does.
pub open spec fn has_own(tables: Seq<Seq<Bound>>, names: Seq<Seq<u8>>, text: Seq<u8>) -> bool {
    exists|k: int| 0 <= k < tables.len() && bound_to_itself(#[trigger] tables[k], names, text)
}

/// What the first of two lists holds, the two in a row hold.
pub proof fn lemma_in_front(a: Seq<Seq<Bound>>, b: Seq<Seq<Bound>>, x: Seq<Bound>)
    requires
        a.contains(x),
    ensures
        (a + b).contains(x),
{
    let at = choose|at: int| 0 <= at < a.len() && a[at] == x;
    assert((a + b)[at] == x);
}

/// What the second of two lists holds, the two in a row hold.
pub proof fn lemma_in_back(a: Seq<Seq<Bound>>, b: Seq<Seq<Bound>>, x: Seq<Bound>)
    requires
        b.contains(x),
    ensures
        (a + b).contains(x),
{
    let at = choose|at: int| 0 <= at < b.len() && b[at] == x;
    assert((a + b)[a.len() + at] == x);
}

/// What lining up the rest leaves when it begins with one of the tables
/// is among what it leaves for all of them.
pub proof fn lemma_rest_all_holds(
    slots: Seq<PatternNode>,
    i: int,
    nodes: Seq<SyntaxNode>,
    j: int,
    loose: bool,
    text: Seq<u8>,
    classes: Seq<(u16, u16)>,
    tables: Seq<Seq<Bound>>,
    k: int,
    with: int,
    x: Seq<Bound>,
)
    requires
        0 <= k <= with < tables.len(),
        align_all(slots, i, nodes, j, loose, loose, text, classes, tables[with]).contains(x),
    ensures
        rest_all(slots, i, nodes, j, loose, text, classes, tables, k).contains(x),
    decreases with - k,
{
    let first = align_all(slots, i, nodes, j, loose, loose, text, classes, tables[k]);
    let others = rest_all(slots, i, nodes, j, loose, text, classes, tables, k + 1);
    if k == with {
        lemma_in_front(first, others, x);
    } else {
        lemma_rest_all_holds(slots, i, nodes, j, loose, text, classes, tables, k + 1, with, x);
        lemma_in_back(first, others, x);
    }
}

/// A pattern unifies with the query node it stands for, in one way at
/// least that binds each variable to its own placeholder.
pub proof fn lemma_unify_self(
    s: SyntaxNode,
    text: Seq<u8>,
    blocks: Seq<u16>,
    strict: bool,
    names: Seq<Seq<u8>>,
    classes: Seq<(u16, u16)>,
    p: PatternNode,
    table: Seq<Bound>,
)
    requires
        compiled(s, text, blocks, strict, names, p),
        error_free(s),
        bound_to_itself(table, names, text),
    ensures
        has_own(unify_all(p, s, text, classes, table), names, text),
    decreases p, 0int,
{
    let w = word(text, s.start as int, s.end as int);
    let all = unify_all(p, s, text, classes, table);
    match p {
        PatternNode::Variable(v) => {
            assert(is_placeholder(w));
            assert(w =~= seq![36u8] + name_of(w));
            lemma_lookup_finds(table, v, 0);
            match lookup(table, v, 0) {
                None => {
                    let after = table.push(Bound { variable: v, start: s.start, end: s.end });
                    assert(bound_to_itself(after, names, text));
                    assert(all[0] == after);
                },
                Some(first) => {
                    assert(all[0] == table);
                },
            }
        },
        PatternNode::Tree { kind, mode, children } => {
            lemma_align_self(
                s,
                text,
                blocks,
                strict,
                names,
                classes,
                children@,
                0,
                0,
                mode == Mode::Loose,
                mode == Mode::Loose,
                table,
            );
        },
        _ => {
            assert(all[0] == table);
        },
    }
}

/// The slots of a pattern line up with the children of the query node,
/// from any position that is not past the slot's own child, in one way at
/// least that binds each variable to its own placeholder.
pub proof fn lemma_align_self(
    s: SyntaxNode,
    text: Seq<u8>,
    blocks: Seq<u16>,
    strict: bool,
    names: Seq<Seq<u8>>,
    classes: Seq<(u16, u16)>,
    slots: Seq<PatternNode>,
    i: int,
    j: int,
    flex: bool,
    loose: bool,
    table: Seq<Bound>,
)
    requires
        0 <= j <= i <= slots.len(),
        flex || j == i,
        slots.len() == s.children@.len(),
        forall|k: int|
            0 <= k < slots.len() ==> compiled(
                s.children@[k],
                text,
                blocks,
                strict,
                names,
                #[trigger] slots[k],
            ),
        error_free(s),
        bound_to_itself(table, names, text),
    ensures
        has_own(
            align_all(slots, i, s.children@, j, flex, loose, text, classes, table),
            names,
            text,
        ),
    decreases slots, slots.len() - i, s.children@.len() - j,
{
    let nodes = s.children@;
    let all = align_all(slots, i, nodes, j, flex, loose, text, classes, table);
    if i >= slots.len() {
        assert(all[0] == table);
    } else if slots[i] is Ellipsis {
        lemma_align_self(
            s,
            text,
            blocks,
            strict,
            names,
            classes,
            slots,
            i + 1,
            j,
            true,
            loose,
            table,
        );
    } else {
        let ways = unify_all(slots[i], nodes[j], text, classes, table);
        let here = rest_all(slots, i + 1, nodes, j + 1, loose, text, classes, ways, 0);
        let skip = if flex {
            align_all(slots, i, nodes, j + 1, flex, loose, text, classes, table)
        } else {
            Seq::empty()
        };
        assert(all == here + skip);
        if j == i {
            assert(error_free(nodes[i]));
            lemma_unify_self(nodes[i], text, blocks, strict, names, classes, slots[i], table);
            let with = choose|k: int|
                0 <= k < ways.len() && bound_to_itself(#[trigger] ways[k], names, text);
            lemma_align_self(
                s,
                text,
                blocks,
                strict,
                names,
                classes,
                slots,
                i + 1,
                i + 1,
                loose,
                loose,
                ways[with],
            );
            let after = align_all(
                slots,
                i + 1,
                nodes,
                i + 1,
                loose,
                loose,
                text,
                classes,
                ways[with],
            );
            let k = choose|k: int|
                0 <= k < after.len() && bound_to_itself(#[trigger] after[k], names, text);
            assert(after.contains(after[k]));
            lemma_rest_all_holds(
                slots,
                i + 1,
                nodes,
                i + 1,
                loose,
                text,
                classes,
                ways,
                0,
                with,
                after[k],
            );
            lemma_in_front(here, skip, after[k]);
            let at = choose|at: int| 0 <= at < all.len() && all[at] == after[k];
            assert(bound_to_itself(all[at], names, text));
        } else {
            lemma_align_self(
                s,
                text,
                blocks,
                strict,
                names,
                classes,
                slots,
                i,
                j + 1,
                flex,
                loose,
                table,
            );
            let k = choose|k: int|
                0 <= k < skip.len() && bound_to_itself(#[trigger] skip[k], names, text);
            assert(skip.contains(skip[k]));
            lemma_in_back(here, skip, skip[k]);
            let at = choose|at: int| 0 <= at < all.len() && all[at] == skip[k];
            assert(bound_to_itself(all[at], names, text));
        }
    }
}

/// What is kept of an element of a list is among what is kept of the list.
pub proof fn lemma_filter_map_keeps(
    list: Seq<SyntaxNode>,
    f: spec_fn(SyntaxNode) -> Option<MatchView>,
    node: SyntaxNode,
)
    requires
        list.contains(node),
        f(node) is Some,
    ensures
        list.filter_map(f).contains(f(node)->Some_0),
    decreases list.len(),
{
    let kept = list.filter_map(f);
    if list.last() == node {
        assert(kept[kept.len() - 1] == f(node)->Some_0);
    } else {
        let at = choose|at: int| 0 <= at < list.len() && list[at] == node;
        assert(list.drop_last()[at] == node);
        lemma_filter_map_keeps(list.drop_last(), f, node);
        let rest = list.drop_last().filter_map(f);
        let to = choose|to: int| 0 <= to < rest.len() && rest[to] == f(node)->Some_0;
        assert(kept[to] == f(node)->Some_0);
    }
}

/// A query is found in its own fragment: matching the compiled pattern
/// against the tree and the text it was compiled from gives a match at the
/// node that the pattern was made of.
pub proof fn lemma_self_match(
    text: Seq<u8>,
    parsed: SyntaxNode,
    grammar: Grammar,
    strict: bool,
    entry: Option<u16>,
    tree: PatternTree,
)
    requires
        verdict(text, parsed, entry) is Ok,
        compiles_to(verdict(text, parsed, entry)->Ok_0, text, grammar, strict, tree),
    ensures
        exists|k: int|
            0 <= k < tree.found(parsed, text).len() && (#[trigger] tree.found(
                parsed,
                text,
            )[k]).root == verdict(text, parsed, entry)->Ok_0,
{
    let node = verdict(text, parsed, entry)->Ok_0;
    lemma_error_free(parsed);
    lemma_entry_within(parsed, entry);
    lemma_unify_self(
        node,
        text,
        grammar.blocks@,
        strict,
        tree.names(),
        tree.classes(),
        tree.pattern(),
        Seq::empty(),
    );
    let f = attempt(tree.pattern(), tree.names(), tree.classes(), text);
    lemma_filter_map_keeps(preorder(parsed), f, node);
    let found = tree.found(parsed, text);
    let k = choose|k: int| 0 <= k < found.len() && found[k] == f(node)->Some_0;
    assert(found[k].root == node);
}

/// No variable has two entries in the table.
pub open spec fn single(table: Seq<Bound>) -> bool {
    forall|a: int, b: int|
        0 <= a < b < table.len() ==> (#[trigger] table[a]).variable != (
        #[trigger] table[b]).variable
}

/// A node of `list` has the range that `bound` holds.
pub open spec fn holds_range(list: Seq<SyntaxNode>, bound: Bound) -> bool {
    exists|at: int|
        0 <= at < list.len() && (#[trigger] list[at]).start == bound.start && list[at].end
            == bound.end
}

/// The entries that `after` has more than `before` extend it, and each
/// holds the range of a node of `list`.
pub open spec fn bound_among(before: Seq<Bound>, after: Seq<Bound>, list: Seq<SyntaxNode>) -> bool {
    &&& extends(before, after)
    &&& forall|n: int| before.len() <= n < after.len() ==> holds_range(list, #[trigger] after[n])
}

/// A variable that is not found has no entry in the table.
pub proof fn lemma_lookup_none(table: Seq<Bound>, variable: usize, from: int)
    requires
        0 <= from,
        lookup(table, variable, from) is None,
    ensures
        forall|n: int| from <= n < table.len() ==> (#[trigger] table[n]).variable != variable,
    decreases table.len() - from,
{
    if from < table.len() {
        lemma_lookup_none(table, variable, from + 1);
    }
}

/// What unification may make of a table: it adds entries, each with the
/// range of a node of `list`, and binds no variable a second time.
pub open spec fn grown(before: Seq<Bound>, after: Seq<Bound>, list: Seq<SyntaxNode>) -> bool {
    &&& bound_among(before, after, list)
    &&& single(before) ==> single(after)
}

/// Each of `tables` is `before`, grown.
pub open spec fn all_grown(
    before: Seq<Bound>,
    tables: Seq<Seq<Bound>>,
    list: Seq<SyntaxNode>,
) -> bool {
    forall|k: int| 0 <= k < tables.len() ==> grown(before, #[trigger] tables[k], list)
}

/// A table that has grown twice has grown.
pub proof fn lemma_grown_twice(
    a: Seq<Bound>,
    b: Seq<Bound>,
    c: Seq<Bound>,
    list: Seq<SyntaxNode>,
)
    requires
        grown(a, b, list),
        grown(b, c, list),
    ensures
        grown(a, c, list),
{
    assert forall|n: int| 0 <= n < b.len() implies c[n] == b[n] by {
        assert(c.subrange(0, b.len() as int)[n] == c[n]);
    }
    assert(c.subrange(0, a.len() as int) =~= b.subrange(0, a.len() as int));
    assert forall|n: int| a.len() <= n < c.len() implies holds_range(list, #[trigger] c[n]) by {
        if n < b.len() {
            assert(holds_range(list, b[n]));
        }
    }
}

/// What has grown by nodes below one of the children has grown by nodes below the children.
pub proof fn lemma_grown_below(
    before: Seq<Bound>,
    tables: Seq<Seq<Bound>>,
    nodes: Seq<SyntaxNode>,
    j: int,
)
    requires
        0 <= j < nodes.len(),
        all_grown(before, tables, preorder(nodes[j])),
    ensures
        all_grown(before, tables, preorder_of(nodes, nodes.len() as int)),
{
    let inner = preorder(nodes[j]);
    let below = preorder_of(nodes, nodes.len() as int);
    assert forall|k: int| 0 <= k < tables.len() implies grown(
        before,
        #[trigger] tables[k],
        below,
    ) by {
        let after = tables[k];
        assert(grown(before, after, inner));
        assert forall|n: int| before.len() <= n < after.len() implies holds_range(
            below,
            #[trigger] after[n],
        ) by {
            assert(holds_range(inner, after[n]));
            let at = choose|at: int|
                0 <= at < inner.len() && (#[trigger] inner[at]).start == after[n].start
                    && inner[at].end == after[n].end;
            lemma_preorder_of_holds(nodes, nodes.len() as int, j, inner[at]);
            let to = choose|to: int| 0 <= to < below.len() && below[to] == inner[at];
            assert(below[to].start == after[n].start);
        }
    }
}

/// Unification binds a variable once, to a node of the subtree it is
/// tried at, whichever way pattern and subtree fit.
pub proof fn lemma_unify_all_sound(
    p: PatternNode,
    s: SyntaxNode,
    text: Seq<u8>,
    classes: Seq<(u16, u16)>,
    table: Seq<Bound>,
)
    ensures
        all_grown(table, unify_all(p, s, text, classes, table), preorder(s)),
    decreases p, 0int, 0int, 0int,
{
    let all = unify_all(p, s, text, classes, table);
    assert(table.subrange(0, table.len() as int) =~= table);
    match p {
        PatternNode::Variable(v) => {
            if lookup(table, v, 0) is None {
                lemma_lookup_none(table, v, 0);
                let after = table.push(Bound { variable: v, start: s.start, end: s.end });
                assert(after.subrange(0, table.len() as int) =~= table);
                assert(preorder(s)[0] == s);
                assert(holds_range(preorder(s), after[table.len() as int]));
            }
        },
        PatternNode::Tree { kind, mode, children } => {
            let nodes = visible_children(s);
            lemma_align_all_sound(
                children@,
                0,
                nodes,
                0,
                mode == Mode::Loose,
                mode == Mode::Loose,
                text,
                classes,
                table,
            );
            let below = preorder_of(nodes, nodes.len() as int);
            assert forall|k: int| 0 <= k < all.len() implies grown(
                table,
                #[trigger] all[k],
                preorder(s),
            ) by {
                let after = all[k];
                assert(grown(table, after, below));
                assert forall|n: int| table.len() <= n < after.len() implies holds_range(
                    preorder(s),
                    #[trigger] after[n],
                ) by {
                    assert(holds_range(below, after[n]));
                    let at = choose|at: int|
                        0 <= at < below.len() && (#[trigger] below[at]).start == after[n].start
                            && below[at].end == after[n].end;
                    assert(nodes == s.children@);
                    assert(preorder(s)[1 + at] == below[at]);
                }
            }
        },
        _ => {},
    }
}

/// Lining up binds a variable once, to a node below one of the children,
/// whichever way the slots line up.
pub proof fn lemma_align_all_sound(
    slots: Seq<PatternNode>,
    i: int,
    nodes: Seq<SyntaxNode>,
    j: int,
    flex: bool,
    loose: bool,
    text: Seq<u8>,
    classes: Seq<(u16, u16)>,
    table: Seq<Bound>,
)
    ensures
        all_grown(
            table,
            align_all(slots, i, nodes, j, flex, loose, text, classes, table),
            preorder_of(nodes, nodes.len() as int),
        ),
    decreases slots, slots.len() - i, nodes.len() - j, 0int,
{
    let below = preorder_of(nodes, nodes.len() as int);
    assert(table.subrange(0, table.len() as int) =~= table);
    if i < 0 || j < 0 || i >= slots.len() {
    } else if slots[i] is Ellipsis {
        lemma_align_all_sound(slots, i + 1, nodes, j, true, loose, text, classes, table);
    } else if j >= nodes.len() {
    } else {
        let ways = unify_all(slots[i], nodes[j], text, classes, table);
        lemma_unify_all_sound(slots[i], nodes[j], text, classes, table);
        lemma_grown_below(table, ways, nodes, j);
        lemma_rest_all_sound(slots, i + 1, nodes, j + 1, loose, text, classes, table, ways, 0);
        let here = rest_all(slots, i + 1, nodes, j + 1, loose, text, classes, ways, 0);
        if flex {
            lemma_align_all_sound(slots, i, nodes, j + 1, flex, loose, text, classes, table);
        }
        let skip = if flex {
            align_all(slots, i, nodes, j + 1, flex, loose, text, classes, table)
        } else {
            Seq::empty()
        };
        assert forall|k: int| 0 <= k < (here + skip).len() implies grown(
            table,
            #[trigger] (here + skip)[k],
            below,
        ) by {
            if k < here.len() {
                assert((here + skip)[k] == here[k]);
            } else {
                assert((here + skip)[k] == skip[k - here.len()]);
            }
        }
    }
}

/// Lining up the rest binds a variable once, to a node below one of the
/// children, whichever of the tables it begins with.
pub proof fn lemma_rest_all_sound(
    slots: Seq<PatternNode>,
    i: int,
    nodes: Seq<SyntaxNode>,
    j: int,
    loose: bool,
    text: Seq<u8>,
    classes: Seq<(u16, u16)>,
    table: Seq<Bound>,
    tables: Seq<Seq<Bound>>,
    k: int,
)
    requires
        all_grown(table, tables, preorder_of(nodes, nodes.len() as int)),
    ensures
        all_grown(
            table,
            rest_all(slots, i, nodes, j, loose, text, classes, tables, k),
            preorder_of(nodes, nodes.len() as int),
        ),
    decreases slots, slots.len() - i, nodes.len() - j, 1 + tables.len() - k,
{
    let below = preorder_of(nodes, nodes.len() as int);
    if 0 <= k < tables.len() {
        let first = align_all(slots, i, nodes, j, loose, loose, text, classes, tables[k]);
        let others = rest_all(slots, i, nodes, j, loose, text, classes, tables, k + 1);
        lemma_align_all_sound(slots, i, nodes, j, loose, loose, text, classes, tables[k]);
        lemma_rest_all_sound(slots, i, nodes, j, loose, text, classes, table, tables, k + 1);
        assert forall|n: int| 0 <= n < (first + others).len() implies grown(
            table,
            #[trigger] (first + others)[n],
            below,
        ) by {
            if n < first.len() {
                assert((first + others)[n] == first[n]);
                assert(grown(tables[k], first[n], below));
                lemma_grown_twice(table, tables[k], first[n], below);
            } else {
                assert((first + others)[n] == others[n - first.len()]);
            }
        }
    }
}

/// What a match is: its root is a node of the tree; each of its bindings
/// is for a variable of the pattern, holds the range of a node at or
/// below the root and the text of that range without whitespace; and no
/// variable is bound twice.
pub proof fn lemma_match_sound(tree: PatternTree, root: SyntaxNode, text: Seq<u8>, k: int)
    requires
        tree.well_formed(),
        tree.names().no_duplicates(),
        0 <= k < tree.found(root, text).len(),
    ensures
        ({
            let m = tree.found(root, text)[k];
            &&& preorder(root).contains(m.root)
            &&& forall|a: int|
                0 <= a < m.bindings.len() ==> {
                    let b = #[trigger] m.bindings[a];
                    &&& tree.names().contains(b.name)
                    &&& b.text == word(text, b.start, b.end)
                    &&& exists|at: int|
                        0 <= at < preorder(m.root).len() && (#[trigger] preorder(
                            m.root,
                        )[at]).start == b.start && preorder(m.root)[at].end == b.end
                }
            &&& forall|a: int, b: int|
                0 <= a < b < m.bindings.len() ==> (#[trigger] m.bindings[a]).name
                    != (#[trigger] m.bindings[b]).name
        }),
{
    let f = attempt(tree.pattern(), tree.names(), tree.classes(), text);
    let found = tree.found(root, text);
    let m = found[k];
    assert(found.contains(m));
    preorder(root).lemma_filter_map_contains(f, m);
    let s = choose|s: SyntaxNode| #[trigger] preorder(root).contains(s) && f(s) == Some(m);
    let table = unify_spec(tree.pattern(), s, text, tree.classes(), Seq::empty())->Some_0;
    let names = tree.names();
    assert(m == report(names, text, s, table));
    lemma_unify_below(tree.pattern(), s, text, tree.classes(), Seq::empty(), names.len() as int);
    lemma_unify_all_sound(tree.pattern(), s, text, tree.classes(), Seq::empty());
    assert(unify_all(tree.pattern(), s, text, tree.classes(), Seq::empty())[0] == table);
    assert forall|a: int| 0 <= a < m.bindings.len() implies {
        let b = #[trigger] m.bindings[a];
        &&& names.contains(b.name)
        &&& b.text == word(text, b.start, b.end)
        &&& exists|at: int|
            0 <= at < preorder(m.root).len() && (#[trigger] preorder(m.root)[at]).start == b.start
                && preorder(m.root)[at].end == b.end
    } by {
        let b = m.bindings[a];
        assert(b == reported(names, text, table[a]));
        let v = table[a].variable as int;
        assert(0 <= v < names.len());
        assert(names[v] == b.name);
        assert(names.contains(b.name));
        assert(b.text == word(text, b.start, b.end));
        assert(holds_range(preorder(s), table[a]));
        let at = choose|at: int|
            0 <= at < preorder(s).len() && (#[trigger] preorder(s)[at]).start == table[a].start
                && preorder(s)[at].end == table[a].end;
        assert(m.root == s);
        assert(preorder(m.root)[at].start == b.start && preorder(m.root)[at].end == b.end);
    }
    assert forall|a: int, b: int| 0 <= a < b < m.bindings.len() implies (
    #[trigger] m.bindings[a]).name != (#[trigger] m.bindings[b]).name by {
        assert(m.bindings[a] == reported(names, text, table[a]));
        assert(m.bindings[b] == reported(names, text, table[b]));
        assert(table[a].variable != table[b].variable);
    }
}

/// Matching is a function of the pattern, the tree and the text: two runs
/// on the same three give the same matches in the same order.
pub proof fn lemma_matches_repeat<'a>(
    tree: PatternTree,
    root: SyntaxNode,
    text: Seq<u8>,
    first: Seq<MatchResult<'a>>,
    second: Seq<MatchResult<'a>>,
)
    requires
        views(first) == tree.found(root, text),
        views(second) == tree.found(root, text),
    ensures
        views(first) == views(second),
        first.len() == second.len(),
        forall|k: int| 0 <= k < first.len() ==> (#[trigger] first[k])@ == second[k]@,
{
    assert(views(first).len() == first.len());
    assert(views(second).len() == second.len());
    assert forall|k: int| 0 <= k < first.len() implies (#[trigger] first[k])@ == second[k]@ by {
        assert(views(first)[k] == first[k]@);
        assert(views(second)[k] == second[k]@);
    }
}

} // verus!
