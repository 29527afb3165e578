//! From a parsed query fragment to a pattern tree.
//!
//! The fragment is parsed by the same parser as the source files. A leaf
//! that reads `$name` is a variable, one that reads `_` a wildcard and one
//! that reads `...` an ellipsis; every other node stands for itself.

use vstd::prelude::*;
use crate::error::{Fault, QueryError};
use crate::grammar::Grammar;
use crate::pattern::{texts, variables_below, KindTag, Mode, PatternNode, PatternTree};
use crate::syntax::{preorder, preorder_of, SyntaxNode};
use crate::text::{dots, reads_dots, squeezed, word};

verus! {

/// A byte that may stand in the name of a variable: a letter, a digit or `_`.
pub open spec fn is_name_byte(b: u8) -> bool {
    (48 <= b && b <= 57) || (65 <= b && b <= 90) || (97 <= b && b <= 122) || b == 95
}

/// `$` and a name after it.
pub open spec fn is_placeholder(w: Seq<u8>) -> bool {
    w.len() >= 2 && w[0] == 36 && forall|k: int| 1 <= k < w.len() ==> is_name_byte(#[trigger] w[k])
}

/// The name that a placeholder gives its variable: what follows the `$`.
pub open spec fn name_of(w: Seq<u8>) -> Seq<u8> {
    w.subrange(1, w.len() as int)
}

/// Three dots.
pub open spec fn is_ellipsis(w: Seq<u8>) -> bool {
    w =~= dots()
}

/// A single `_`.
pub open spec fn is_wildcard(w: Seq<u8>) -> bool {
    w =~= seq![95u8]
}

/// The first error node of `list` at or after `from`.
pub open spec fn first_error(list: Seq<SyntaxNode>, from: int) -> Option<SyntaxNode>
    decreases list.len() - from,
{
    if from < 0 || from >= list.len() {
        None
    } else if list[from].error {
        Some(list[from])
    } else {
        first_error(list, from + 1)
    }
}

/// Going down from `s` through only children to the first node of `kind`.
pub open spec fn descend(s: SyntaxNode, kind: u16) -> Result<SyntaxNode, Fault>
    decreases s,
{
    if s.kind == kind {
        Ok(s)
    } else if s.children@.len() == 1 {
        descend(s.children@[0], kind)
    } else if s.children@.len() == 0 {
        Err(Fault::Missing)
    } else {
        Err(Fault::Ambiguous)
    }
}

/// The node of the parsed fragment that becomes the root of the pattern.
///
/// Without an entry kind it is the only child of the parsed unit. With one,
/// it is the first node of that kind on the way down from the unit through
/// only children.
pub open spec fn entry_of(parsed: SyntaxNode, entry: Option<u16>) -> Result<SyntaxNode, Fault> {
    match entry {
        Some(kind) => descend(parsed, kind),
        None => if parsed.children@.len() == 0 {
            Err(Fault::Empty)
        } else if parsed.children@.len() == 1 {
            Ok(parsed.children@[0])
        } else {
            Err(Fault::Ambiguous)
        },
    }
}

/// Whether a query can be compiled, and from which node of the parsed fragment.
pub open spec fn verdict(text: Seq<u8>, parsed: SyntaxNode, entry: Option<u16>) -> Result<
    SyntaxNode,
    Fault,
> {
    match first_error(preorder(parsed), 0) {
        Some(n) => Err(Fault::Unparsed(n.start)),
        None => match entry_of(parsed, entry) {
            Err(fault) => Err(fault),
            Ok(node) => if node.children@.len() == 0 && is_ellipsis(
                word(text, node.start as int, node.end as int),
            ) {
                Err(Fault::BareEllipsis)
            } else {
                Ok(node)
            },
        },
    }
}

/// How the children of a node of `kind` line up: loosely in a block, unless
/// the query is compiled as strict.
pub open spec fn mode_of(blocks: Seq<u16>, kind: u16, strict: bool) -> Mode {
    if !strict && blocks.contains(kind) {
        Mode::Loose
    } else {
        Mode::Strict
    }
}

/// The names of the variables at and below `s` that `seen` does not hold
/// yet, added to `seen` in the order in which they occur.
pub open spec fn placeholders(s: SyntaxNode, text: Seq<u8>, seen: Seq<Seq<u8>>) -> Seq<Seq<u8>>
    decreases s, 0int,
{
    let w = word(text, s.start as int, s.end as int);
    if s.children@.len() == 0 {
        if is_placeholder(w) && !seen.contains(name_of(w)) {
            seen.push(name_of(w))
        } else {
            seen
        }
    } else {
        placeholders_of(s.children@, s.children@.len() as int, text, seen)
    }
}

/// `placeholders` over the first `count` subtrees of `nodes`, from left to right.
pub open spec fn placeholders_of(
    nodes: Seq<SyntaxNode>,
    count: int,
    text: Seq<u8>,
    seen: Seq<Seq<u8>>,
) -> Seq<Seq<u8>>
    decreases nodes, count,
{
    if 0 < count <= nodes.len() {
        placeholders(nodes[count - 1], text, placeholders_of(nodes, count - 1, text, seen))
    } else {
        seen
    }
}

/// `p` is the pattern that the query node `s` stands for, where the
/// variables are numbered by their place in `names`.
pub open spec fn compiled(
    s: SyntaxNode,
    text: Seq<u8>,
    blocks: Seq<u16>,
    strict: bool,
    names: Seq<Seq<u8>>,
    p: PatternNode,
) -> bool
    decreases s,
{
    let w = word(text, s.start as int, s.end as int);
    if s.children@.len() == 0 {
        if is_ellipsis(w) {
            p is Ellipsis
        } else if is_wildcard(w) {
            p is Wildcard
        } else if is_placeholder(w) {
            p matches PatternNode::Variable(v) && v < names.len() && names[v as int] == name_of(w)
        } else {
            p matches PatternNode::Token { kind, text: t } && kind == s.kind && t@ == w
        }
    } else {
        p matches PatternNode::Tree { kind, mode, children } && kind == KindTag::Rule(s.kind)
            && mode == mode_of(blocks, s.kind, strict) && children@.len() == s.children@.len()
            && forall|i: int|
            0 <= i < s.children@.len() ==> compiled(
                s.children@[i],
                text,
                blocks,
                strict,
                names,
                #[trigger] children@[i],
            )
    }
}

/// `tree` is what the query node `node` compiles to under `grammar`.
pub open spec fn compiles_to(
    node: SyntaxNode,
    text: Seq<u8>,
    grammar: Grammar,
    strict: bool,
    tree: PatternTree,
) -> bool {
    &&& tree.names() == placeholders(node, text, Seq::empty())
    &&& compiled(node, text, grammar.blocks@, strict, tree.names(), tree.pattern())
    &&& tree.classes() == grammar.classes@
    &&& tree.language() == grammar.dialect
    &&& tree.well_formed()
}

/// A pattern keeps standing for its query node when names are added to the list.
pub proof fn lemma_compiled_grows(
    s: SyntaxNode,
    text: Seq<u8>,
    blocks: Seq<u16>,
    strict: bool,
    names: Seq<Seq<u8>>,
    more: Seq<Seq<u8>>,
    p: PatternNode,
)
    requires
        compiled(s, text, blocks, strict, names, p),
        names.is_prefix_of(more),
    ensures
        compiled(s, text, blocks, strict, more, p),
    decreases s,
{
    if s.children@.len() == 0 {
        match p {
            PatternNode::Variable(v) => {
                assert(more.subrange(0, names.len() as int)[v as int] == more[v as int]);
            },
            _ => {},
        }
    } else {
        match p {
            PatternNode::Tree { kind, mode, children } => {
                assert forall|i: int| 0 <= i < s.children@.len() implies compiled(
                    s.children@[i],
                    text,
                    blocks,
                    strict,
                    more,
                    #[trigger] children@[i],
                ) by {
                    lemma_compiled_grows(
                        s.children@[i],
                        text,
                        blocks,
                        strict,
                        names,
                        more,
                        children@[i],
                    );
                }
            },
            _ => {},
        }
    }
}

/// Every variable of a compiled pattern has its name in the list.
pub proof fn lemma_compiled_below(
    s: SyntaxNode,
    text: Seq<u8>,
    blocks: Seq<u16>,
    strict: bool,
    names: Seq<Seq<u8>>,
    p: PatternNode,
)
    requires
        compiled(s, text, blocks, strict, names, p),
    ensures
        variables_below(p, names.len() as int),
    decreases s,
{
    if s.children@.len() > 0 {
        match p {
            PatternNode::Tree { kind, mode, children } => {
                assert forall|i: int| 0 <= i < children@.len() implies variables_below(
                    #[trigger] children@[i],
                    names.len() as int,
                ) by {
                    lemma_compiled_below(s.children@[i], text, blocks, strict, names, children@[i]);
                }
            },
            _ => {},
        }
    }
}

/// No name is listed twice.
pub proof fn lemma_placeholders_distinct(s: SyntaxNode, text: Seq<u8>, seen: Seq<Seq<u8>>)
    requires
        seen.no_duplicates(),
    ensures
        placeholders(s, text, seen).no_duplicates(),
    decreases s, 0int,
{
    if s.children@.len() > 0 {
        lemma_placeholders_of_distinct(s.children@, s.children@.len() as int, text, seen);
    }
}

/// No name is listed twice.
pub proof fn lemma_placeholders_of_distinct(
    nodes: Seq<SyntaxNode>,
    count: int,
    text: Seq<u8>,
    seen: Seq<Seq<u8>>,
)
    requires
        seen.no_duplicates(),
    ensures
        placeholders_of(nodes, count, text, seen).no_duplicates(),
    decreases nodes, count,
{
    if 0 < count <= nodes.len() {
        lemma_placeholders_of_distinct(nodes, count - 1, text, seen);
        lemma_placeholders_distinct(
            nodes[count - 1],
            text,
            placeholders_of(nodes, count - 1, text, seen),
        );
    }
}

/// Whether `w` is `$` and a name.
fn reads_placeholder(w: &Vec<u8>) -> (r: bool)
    ensures
        r == is_placeholder(w@),
{
    if w.len() < 2 || w[0] != 36 {
        return false;
    }
    let mut k: usize = 1;
    while k < w.len()
        invariant
            1 <= k <= w.len(),
            forall|n: int| 1 <= n < k ==> is_name_byte(#[trigger] w@[n]),
        decreases w.len() - k,
    {
        let b = w[k];
        if !((48 <= b && b <= 57) || (65 <= b && b <= 90) || (97 <= b && b <= 122) || b == 95) {
            return false;
        }
        k += 1;
    }
    true
}

/// The name in a placeholder.
fn name_in(w: &Vec<u8>) -> (name: Vec<u8>)
    requires
        w@.len() >= 1,
    ensures
        name@ == name_of(w@),
{
    let mut name: Vec<u8> = Vec::new();
    let mut k: usize = 1;
    while k < w.len()
        invariant
            1 <= k <= w.len(),
            name@ == w@.subrange(1, k as int),
        decreases w.len() - k,
    {
        name.push(w[k]);
        proof {
            assert(w@.subrange(1, k as int).push(w@[k as int]) =~= w@.subrange(1, k + 1));
        }
        k += 1;
    }
    name
}

/// Whether two byte strings are equal.
fn same_bytes(a: &Vec<u8>, b: &Vec<u8>) -> (r: bool)
    ensures
        r == (a@ == b@),
{
    if a.len() != b.len() {
        return false;
    }
    let mut k: usize = 0;
    while k < a.len()
        invariant
            k <= a.len(),
            a.len() == b.len(),
            forall|n: int| 0 <= n < k ==> a@[n] == b@[n],
        decreases a.len() - k,
    {
        if a[k] != b[k] {
            return false;
        }
        k += 1;
    }
    proof {
        assert(a@ =~= b@);
    }
    true
}

/// The place of `name` in `names`.
fn find_name(names: &Vec<Vec<u8>>, name: &Vec<u8>) -> (r: Option<usize>)
    ensures
        match r {
            Some(k) => k < names.len() && texts(names@)[k as int] == name@,
            None => !texts(names@).contains(name@),
        },
{
    let mut k: usize = 0;
    while k < names.len()
        invariant
            k <= names.len(),
            forall|n: int| 0 <= n < k ==> texts(names@)[n] != name@,
        decreases names.len() - k,
    {
        if same_bytes(&names[k], name) {
            return Some(k);
        }
        k += 1;
    }
    None
}

/// The start of the first error node at or below `s`, in pre-order.
fn find_error(s: &SyntaxNode) -> (r: Option<usize>)
    ensures
        match first_error(preorder(*s), 0) {
            Some(n) => r == Some(n.start),
            None => r is None,
        },
    decreases *s,
{
    if s.error {
        return Some(s.start);
    }
    let ghost head = seq![*s];
    assert(first_error(head, 0) is None) by {
        assert(first_error(head, 1) is None);
    }
    let mut i: usize = 0;
    while i < s.children.len()
        invariant
            i <= s.children.len(),
            head == seq![*s],
            first_error(head + preorder_of(s.children@, i as int), 0) is None,
        decreases s.children.len() - i,
    {
        let below = find_error(&s.children[i]);
        proof {
            lemma_first_error_add(
                head + preorder_of(s.children@, i as int),
                preorder(s.children@[i as int]),
            );
            assert(head + preorder_of(s.children@, i + 1) =~= (head + preorder_of(
                s.children@,
                i as int,
            )) + preorder(s.children@[i as int]));
        }
        if below.is_some() {
            proof {
                lemma_first_error_add(
                    head + preorder_of(s.children@, i + 1),
                    preorder_rest(s.children@, i + 1),
                );
                lemma_preorder_rest(s.children@, i + 1);
                assert(preorder(*s) =~= (head + preorder_of(s.children@, i + 1)) + preorder_rest(
                    s.children@,
                    i + 1,
                ));
            }
            return below;
        }
        i += 1;
    }
    None
}

/// The pre-order of the subtrees of `nodes` from `from` on.
pub open spec fn preorder_rest(nodes: Seq<SyntaxNode>, from: int) -> Seq<SyntaxNode>
    decreases nodes.len() - from,
{
    if 0 <= from < nodes.len() {
        preorder(nodes[from]) + preorder_rest(nodes, from + 1)
    } else {
        Seq::empty()
    }
}

/// The first subtrees and the rest make up all of them.
pub proof fn lemma_preorder_rest(nodes: Seq<SyntaxNode>, from: int)
    requires
        0 <= from <= nodes.len(),
    ensures
        preorder_of(nodes, nodes.len() as int) == preorder_of(nodes, from) + preorder_rest(
            nodes,
            from,
        ),
    decreases nodes.len() - from,
{
    if from < nodes.len() {
        lemma_preorder_rest(nodes, from + 1);
        assert(preorder_of(nodes, from + 1) + preorder_rest(nodes, from + 1) =~= preorder_of(
            nodes,
            from,
        ) + preorder_rest(nodes, from));
    } else {
        assert(preorder_of(nodes, from) + preorder_rest(nodes, from) =~= preorder_of(nodes, from));
    }
}

/// The first error of two lists in a row is that of the first list, or else of the second.
pub proof fn lemma_first_error_add(a: Seq<SyntaxNode>, b: Seq<SyntaxNode>)
    ensures
        first_error(a + b, 0) == match first_error(a, 0) {
            Some(n) => Some(n),
            None => first_error(b, 0),
        },
{
    lemma_first_error_front(a, b, 0);
}

proof fn lemma_first_error_front(a: Seq<SyntaxNode>, b: Seq<SyntaxNode>, from: int)
    requires
        0 <= from <= a.len(),
    ensures
        first_error(a + b, from) == match first_error(a, from) {
            Some(n) => Some(n),
            None => first_error(b, 0),
        },
    decreases a.len() - from,
{
    if from < a.len() {
        assert((a + b)[from] == a[from]);
        lemma_first_error_front(a, b, from + 1);
    } else {
        lemma_first_error_back(a, b, 0);
    }
}

proof fn lemma_first_error_back(a: Seq<SyntaxNode>, b: Seq<SyntaxNode>, from: int)
    requires
        0 <= from <= b.len(),
    ensures
        first_error(a + b, a.len() + from) == first_error(b, from),
    decreases b.len() - from,
{
    if from < b.len() {
        assert((a + b)[a.len() + from] == b[from]);
        lemma_first_error_back(a, b, from + 1);
    }
}

/// The node of the parsed fragment that becomes the root of the pattern.
fn select_entry<'a>(parsed: &'a SyntaxNode, entry: Option<u16>) -> (r: Result<
    &'a SyntaxNode,
    Fault,
>)
    ensures
        match r {
            Ok(node) => entry_of(*parsed, entry) == Ok::<SyntaxNode, Fault>(*node),
            Err(fault) => entry_of(*parsed, entry) == Err::<SyntaxNode, Fault>(fault) && !(fault
                is Unparsed),
        },
{
    match entry {
        None => {
            if parsed.children.len() == 0 {
                Err(Fault::Empty)
            } else if parsed.children.len() == 1 {
                Ok(&parsed.children[0])
            } else {
                Err(Fault::Ambiguous)
            }
        },
        Some(kind) => {
            let mut node: &'a SyntaxNode = parsed;
            loop
                invariant
                    entry == Some(kind),
                    descend(*parsed, kind) == descend(*node, kind),
                decreases *node,
            {
                if node.kind == kind {
                    return Ok(node);
                } else if node.children.len() == 1 {
                    node = &node.children[0];
                } else if node.children.len() == 0 {
                    return Err(Fault::Missing);
                } else {
                    return Err(Fault::Ambiguous);
                }
            }
        },
    }
}

/// Builds the pattern for the query node `s`, and adds the names of the
/// variables that it meets for the first time to `names`.
fn build(
    s: &SyntaxNode,
    text: &[u8],
    grammar: &Grammar,
    strict: bool,
    names: &mut Vec<Vec<u8>>,
) -> (p: PatternNode)
    ensures
        texts(final(names)@) == placeholders(*s, text@, texts(old(names)@)),
        texts(old(names)@).is_prefix_of(texts(final(names)@)),
        compiled(*s, text@, grammar.blocks@, strict, texts(final(names)@), p),
    decreases *s,
{
    if s.children.len() == 0 {
        let w = squeezed(text, s.start, s.end);
        if w.len() == 3 && w[0] == 46 && w[1] == 46 && w[2] == 46 {
            PatternNode::Ellipsis
        } else if w.len() == 1 && w[0] == 95 {
            PatternNode::Wildcard
        } else if reads_placeholder(&w) {
            let name = name_in(&w);
            match find_name(names, &name) {
                Some(k) => PatternNode::Variable(k),
                None => {
                    let k = names.len();
                    proof {
                        assert(texts(names@.push(name)) =~= texts(names@).push(name@));
                    }
                    names.push(name);
                    PatternNode::Variable(k)
                },
            }
        } else {
            PatternNode::Token { kind: s.kind, text: w }
        }
    } else {
        let mode = if !strict && grammar.is_block(s.kind) {
            Mode::Loose
        } else {
            Mode::Strict
        };
        let mut children: Vec<PatternNode> = Vec::new();
        let mut i: usize = 0;
        while i < s.children.len()
            invariant
                i <= s.children.len(),
                children@.len() == i,
                texts(names@) == placeholders_of(s.children@, i as int, text@, texts(old(names)@)),
                texts(old(names)@).is_prefix_of(texts(names@)),
                forall|k: int|
                    0 <= k < i ==> compiled(
                        s.children@[k],
                        text@,
                        grammar.blocks@,
                        strict,
                        texts(names@),
                        #[trigger] children@[k],
                    ),
            decreases s.children.len() - i,
        {
            let ghost before = texts(names@);
            let child = build(&s.children[i], text, grammar, strict, names);
            proof {
                assert forall|k: int| 0 <= k < i implies compiled(
                    s.children@[k],
                    text@,
                    grammar.blocks@,
                    strict,
                    texts(names@),
                    #[trigger] children@[k],
                ) by {
                    lemma_compiled_grows(
                        s.children@[k],
                        text@,
                        grammar.blocks@,
                        strict,
                        before,
                        texts(names@),
                        children@[k],
                    );
                }
            }
            children.push(child);
            i += 1;
        }
        PatternNode::Tree { kind: KindTag::Rule(s.kind), mode, children }
    }
}

/// Compiles a query.
///
/// `query` is the text of the fragment and `parsed` the syntax tree that the
/// dialect's parser made of it. The children of blocks line up loosely
/// unless `strict` is set. `entry` names the kind of node that is to be the
/// root of the pattern; without it the root is the fragment's only
/// top-level node.
pub fn compile(
    query: &[u8],
    parsed: &SyntaxNode,
    grammar: Grammar,
    strict: bool,
    entry: Option<u16>,
) -> (r: Result<PatternTree, QueryError>)
    ensures
        match verdict(query@, *parsed, entry) {
            Err(fault) => r matches Err(e) && e.kind == fault.kind() && e.message@ == fault.message(
                query@,
            ),
            Ok(node) => r matches Ok(tree) && compiles_to(node, query@, grammar, strict, tree)
                && tree.names().no_duplicates(),
        },
{
    match find_error(parsed) {
        Some(at) => {
            return Err(QueryError::unparsed(query, at));
        },
        None => {},
    }
    let node = match select_entry(parsed, entry) {
        Err(fault) => {
            return Err(QueryError::plain(fault));
        },
        Ok(node) => node,
    };
    if node.children.len() == 0 && reads_dots(query, node.start, node.end) {
        return Err(QueryError::plain(Fault::BareEllipsis));
    }
    let mut names: Vec<Vec<u8>> = Vec::new();
    let root = build(node, query, &grammar, strict, &mut names);
    proof {
        assert(texts(Seq::<Vec<u8>>::empty()) =~= Seq::<Seq<u8>>::empty());
        lemma_placeholders_distinct(*node, query@, Seq::empty());
        lemma_compiled_below(*node, query@, grammar.blocks@, strict, texts(names@), root);
    }
    Ok(PatternTree::assemble(root, names, grammar))
}

} // verus!
