use weggli::compile::compile;
use weggli::grammar::{Dialect, Grammar};
use weggli::matcher::{align, shape_fits, shape_lines_up, unify, Bound};
use weggli::pattern::{KindTag, Mode, PatternNode, PatternTree};
use weggli::result::MatchResult;
use weggli::syntax::SyntaxNode;

const IDENT: u16 = 1;
const NUMBER: u16 = 2;
const DOTS: u16 = 3;
const OPERATOR: u16 = 4;
const ARGS: u16 = 5;
const CALL: u16 = 6;
const ASSIGN: u16 = 7;
const STATEMENT: u16 = 8;
const BLOCK: u16 = 9;
const UNIT: u16 = 10;
const FIELD: u16 = 11;
const ARROW: u16 = 12;

enum Item<'s> {
    Block(Vec<Item<'s>>),
    CallStatement(&'s str, Vec<&'s str>),
    Call(&'s str, Vec<&'s str>),
    Assign(&'s str, &'s str, &'s str),
    Garbage(&'s str),
}

struct Cursor<'t> {
    text: &'t str,
    at: usize,
}

impl<'t> Cursor<'t> {
    fn skip(&mut self, word: &str) -> usize {
        let start = self.text[self.at..].find(word).unwrap() + self.at;
        self.at = start + word.len();
        self.at
    }

    fn token(&mut self, kind: u16, word: &str) -> SyntaxNode {
        let end = self.skip(word);
        SyntaxNode::leaf(kind, end - word.len(), end)
    }

    fn operand(&mut self, word: &str) -> SyntaxNode {
        let kind = if word == "..." {
            DOTS
        } else if word.as_bytes()[0].is_ascii_digit() {
            NUMBER
        } else {
            IDENT
        };
        self.token(kind, word)
    }

    fn call(&mut self, name: &str, args: &[&str]) -> SyntaxNode {
        let callee = self.token(IDENT, name);
        let open = self.skip("(") - 1;
        let mut operands = Vec::new();
        for word in args {
            operands.push(self.operand(word));
        }
        let close = self.skip(")");
        let list = if operands.is_empty() {
            SyntaxNode::leaf(ARGS, open, close)
        } else {
            SyntaxNode::branch(ARGS, open, close, operands)
        };
        SyntaxNode::branch(CALL, callee.start, close, vec![callee, list])
    }

    fn item(&mut self, item: &Item) -> SyntaxNode {
        match item {
            Item::Block(items) => {
                let open = self.skip("{") - 1;
                let mut children = Vec::new();
                for inner in items {
                    children.push(self.item(inner));
                }
                let close = self.skip("}");
                SyntaxNode::branch(BLOCK, open, close, children)
            }
            Item::CallStatement(name, args) => {
                let call = self.call(name, args);
                let start = call.start;
                let end = self.skip(";");
                SyntaxNode::branch(STATEMENT, start, end, vec![call])
            }
            Item::Call(name, args) => self.call(name, args),
            Item::Assign(left, operator, right) => {
                let left = self.operand(left);
                let operator = self.token(OPERATOR, operator);
                let right = self.operand(right);
                let start = left.start;
                let assign =
                    SyntaxNode::branch(ASSIGN, start, right.end, vec![left, operator, right]);
                let end = self.skip(";");
                SyntaxNode::branch(STATEMENT, start, end, vec![assign])
            }
            Item::Garbage(word) => {
                let end = self.skip(word);
                SyntaxNode::failed(end - word.len(), end, Vec::new())
            }
        }
    }
}

fn unit(text: &str, items: &[Item]) -> SyntaxNode {
    let mut cursor = Cursor { text, at: 0 };
    let mut children = Vec::new();
    for item in items {
        children.push(cursor.item(item));
    }
    SyntaxNode::branch(UNIT, 0, text.len(), children)
}

fn grammar() -> Grammar {
    Grammar { dialect: Dialect::C, blocks: vec![BLOCK, UNIT], classes: Vec::new() }
}

fn pattern(text: &str, items: &[Item], strict: bool) -> PatternTree {
    compile(text.as_bytes(), &unit(text, items), grammar(), strict, None).unwrap()
}

fn ranges(found: &[MatchResult]) -> Vec<(usize, usize)> {
    found.iter().map(|m| (m.start(), m.end())).collect()
}

fn bindings(found: &MatchResult) -> Vec<(String, usize, usize, String)> {
    found
        .bindings
        .iter()
        .map(|b| {
            (
                String::from_utf8(b.name.clone()).unwrap(),
                b.start,
                b.end,
                String::from_utf8(b.text.clone()).unwrap(),
            )
        })
        .collect()
}

#[test]
fn a_fragment_matches_itself() {
    let text = "{ strcpy($dst, src); $dst = 0; }";
    let items = [Item::Block(vec![
        Item::CallStatement("strcpy", vec!["$dst", "src"]),
        Item::Assign("$dst", "=", "0"),
    ])];
    let tree = unit(text, &items);
    let compiled = compile(text.as_bytes(), &tree, grammar(), false, None).unwrap();
    let found = compiled.matches(&tree, text.as_bytes());
    assert_eq!(ranges(&found), vec![(0, text.len())]);
    assert_eq!(found[0].root.kind, BLOCK);
    assert_eq!(bindings(&found[0]), vec![("dst".to_string(), 9, 13, "$dst".to_string())]);
}

#[test]
fn a_strict_fragment_matches_itself() {
    let text = "f(a, 1);";
    let items = [Item::CallStatement("f", vec!["a", "1"])];
    let tree = unit(text, &items);
    let compiled = compile(text.as_bytes(), &tree, grammar(), true, None).unwrap();
    let found = compiled.matches(&tree, text.as_bytes());
    assert_eq!(ranges(&found), vec![(0, 8)]);
    assert!(found[0].bindings.is_empty());
}

#[test]
fn a_variable_asks_for_the_same_text_each_time() {
    let query = "$x = $x;";
    let compiled = pattern(query, &[Item::Assign("$x", "=", "$x")], false);

    let same = "a = a;";
    let tree = unit(same, &[Item::Assign("a", "=", "a")]);
    let found = compiled.matches(&tree, same.as_bytes());
    assert_eq!(ranges(&found), vec![(0, 6)]);
    assert_eq!(bindings(&found[0]), vec![("x".to_string(), 0, 1, "a".to_string())]);

    let other = "a = b;";
    let tree = unit(other, &[Item::Assign("a", "=", "b")]);
    assert!(compiled.matches(&tree, other.as_bytes()).is_empty());
}

#[test]
fn an_operator_is_matched_by_its_text() {
    let query = "$x = $y;";
    let compiled = pattern(query, &[Item::Assign("$x", "=", "$y")], false);
    let source = "a += b;";
    let tree = unit(source, &[Item::Assign("a", "+=", "b")]);
    assert!(compiled.matches(&tree, source.as_bytes()).is_empty());
}

#[test]
fn a_loose_block_lets_statements_stand_between() {
    let query = "{ $a(); $b(); }";
    let items = [Item::Block(vec![
        Item::CallStatement("$a", vec![]),
        Item::CallStatement("$b", vec![]),
    ])];
    let source = "{ a(); z(); b(); }";
    let tree = unit(
        source,
        &[Item::Block(vec![
            Item::CallStatement("a", vec![]),
            Item::CallStatement("z", vec![]),
            Item::CallStatement("b", vec![]),
        ])],
    );

    let loose = pattern(query, &items, false);
    let found = loose.matches(&tree, source.as_bytes());
    assert_eq!(ranges(&found), vec![(0, source.len())]);
    assert_eq!(
        bindings(&found[0]),
        vec![("a".to_string(), 2, 3, "a".to_string()), ("b".to_string(), 7, 8, "z".to_string())]
    );

    let strict = pattern(query, &items, true);
    assert!(strict.matches(&tree, source.as_bytes()).is_empty());
}

#[test]
fn a_loose_block_keeps_the_order_of_its_statements() {
    let query = "{ first(); second(); }";
    let items = [Item::Block(vec![
        Item::CallStatement("first", vec![]),
        Item::CallStatement("second", vec![]),
    ])];
    let compiled = pattern(query, &items, false);

    let ordered = "{ x(); first(); y(); second(); z(); }";
    let tree = unit(
        ordered,
        &[Item::Block(vec![
            Item::CallStatement("x", vec![]),
            Item::CallStatement("first", vec![]),
            Item::CallStatement("y", vec![]),
            Item::CallStatement("second", vec![]),
            Item::CallStatement("z", vec![]),
        ])],
    );
    assert_eq!(ranges(&compiled.matches(&tree, ordered.as_bytes())), vec![(0, ordered.len())]);

    let swapped = "{ second(); first(); }";
    let tree = unit(
        swapped,
        &[Item::Block(vec![
            Item::CallStatement("second", vec![]),
            Item::CallStatement("first", vec![]),
        ])],
    );
    assert!(compiled.matches(&tree, swapped.as_bytes()).is_empty());
}

#[test]
fn a_loose_block_goes_back_to_find_a_later_place() {
    let query = "{ $f(a); $f(b); }";
    let items = [Item::Block(vec![
        Item::CallStatement("$f", vec!["a"]),
        Item::CallStatement("$f", vec!["b"]),
    ])];
    let compiled = pattern(query, &items, false);
    let source = "{ g(a); h(a); h(b); }";
    let tree = unit(
        source,
        &[Item::Block(vec![
            Item::CallStatement("g", vec!["a"]),
            Item::CallStatement("h", vec!["a"]),
            Item::CallStatement("h", vec!["b"]),
        ])],
    );
    let found = compiled.matches(&tree, source.as_bytes());
    assert_eq!(ranges(&found), vec![(0, source.len())]);
    assert_eq!(bindings(&found[0]), vec![("f".to_string(), 8, 9, "h".to_string())]);
}

#[test]
fn an_ellipsis_stands_for_any_number_of_arguments() {
    let query = "f($a, ...)";
    let compiled = pattern(query, &[Item::Call("f", vec!["$a", "..."])], false);

    for (source, args) in
        [("f(1)", vec!["1"]), ("f(1,2)", vec!["1", "2"]), ("f(1,2,3)", vec!["1", "2", "3"])]
    {
        let tree = unit(source, &[Item::Call("f", args)]);
        let found = compiled.matches(&tree, source.as_bytes());
        assert_eq!(ranges(&found), vec![(0, source.len())]);
        assert_eq!(bindings(&found[0]), vec![("a".to_string(), 2, 3, "1".to_string())]);
    }

    let source = "f()";
    let tree = unit(source, &[Item::Call("f", vec![])]);
    assert!(compiled.matches(&tree, source.as_bytes()).is_empty());
}

#[test]
fn arguments_line_up_one_to_one_without_an_ellipsis() {
    let query = "f($a)";
    let compiled = pattern(query, &[Item::Call("f", vec!["$a"])], false);
    let source = "f(1,2)";
    let tree = unit(source, &[Item::Call("f", vec!["1", "2"])]);
    assert!(compiled.matches(&tree, source.as_bytes()).is_empty());
}

#[test]
fn an_ellipsis_in_front_takes_as_little_as_it_can() {
    let query = "f(..., $a, $a, ...)";
    let compiled = pattern(query, &[Item::Call("f", vec!["...", "$a", "$a", "..."])], false);
    let source = "f(1,2,3,3,4,4)";
    let tree = unit(source, &[Item::Call("f", vec!["1", "2", "3", "3", "4", "4"])]);
    let found = compiled.matches(&tree, source.as_bytes());
    assert_eq!(ranges(&found), vec![(0, source.len())]);
    assert_eq!(bindings(&found[0]), vec![("a".to_string(), 6, 7, "3".to_string())]);
}

#[test]
fn each_match_has_bindings_of_its_own() {
    let query = "strcpy($s, $s);";
    let compiled = pattern(query, &[Item::CallStatement("strcpy", vec!["$s", "$s"])], false);
    let source = "{ strcpy(a,b); strcpy(c,c); }";
    let tree = unit(
        source,
        &[Item::Block(vec![
            Item::CallStatement("strcpy", vec!["a", "b"]),
            Item::CallStatement("strcpy", vec!["c", "c"]),
        ])],
    );
    let found = compiled.matches(&tree, source.as_bytes());
    assert_eq!(ranges(&found), vec![(15, 27)]);
    assert_eq!(bindings(&found[0]), vec![("s".to_string(), 22, 23, "c".to_string())]);
}

#[test]
fn matches_come_in_preorder() {
    let query = "$f($x);";
    let compiled = pattern(query, &[Item::CallStatement("$f", vec!["$x"])], false);
    let source = "a(1); { b(2); { c(3); } d(4); }";
    let tree = unit(
        source,
        &[
            Item::CallStatement("a", vec!["1"]),
            Item::Block(vec![
                Item::CallStatement("b", vec!["2"]),
                Item::Block(vec![Item::CallStatement("c", vec!["3"])]),
                Item::CallStatement("d", vec!["4"]),
            ]),
        ],
    );
    let found = compiled.matches(&tree, source.as_bytes());
    assert_eq!(ranges(&found), vec![(0, 5), (8, 13), (16, 21), (24, 29)]);
    let names: Vec<_> = found.iter().map(|m| bindings(m)[0].3.clone()).collect();
    assert_eq!(names, vec!["a", "b", "c", "d"]);
}

#[test]
fn matching_twice_gives_the_same_matches() {
    let query = "$f($x);";
    let compiled = pattern(query, &[Item::CallStatement("$f", vec!["$x"])], false);
    let source = "{ a(1); b(2); }";
    let tree = unit(
        source,
        &[Item::Block(vec![
            Item::CallStatement("a", vec!["1"]),
            Item::CallStatement("b", vec!["2"]),
        ])],
    );
    let first = compiled.matches(&tree, source.as_bytes());
    let second = compiled.matches(&tree, source.as_bytes());
    assert_eq!(ranges(&first), vec![(2, 7), (8, 13)]);
    assert_eq!(ranges(&first), ranges(&second));
    for (one, two) in first.iter().zip(second.iter()) {
        assert_eq!(bindings(one), bindings(two));
    }
}

#[test]
fn whitespace_does_not_tell_two_bindings_apart() {
    let query = "f($a, $a)";
    let compiled = pattern(query, &[Item::Call("f", vec!["$a", "$a"])], false);
    let source = "f(p -> q, p->q)";
    let first = SyntaxNode::branch(
        FIELD,
        2,
        8,
        vec![
            SyntaxNode::leaf(IDENT, 2, 3),
            SyntaxNode::leaf(ARROW, 4, 6),
            SyntaxNode::leaf(IDENT, 7, 8),
        ],
    );
    let second = SyntaxNode::branch(
        FIELD,
        10,
        14,
        vec![
            SyntaxNode::leaf(IDENT, 10, 11),
            SyntaxNode::leaf(ARROW, 11, 13),
            SyntaxNode::leaf(IDENT, 13, 14),
        ],
    );
    let call = SyntaxNode::branch(
        CALL,
        0,
        15,
        vec![SyntaxNode::leaf(IDENT, 0, 1), SyntaxNode::branch(ARGS, 1, 15, vec![first, second])],
    );
    let tree = SyntaxNode::branch(UNIT, 0, 15, vec![call]);
    let found = compiled.matches(&tree, source.as_bytes());
    assert_eq!(ranges(&found), vec![(0, 15)]);
    assert_eq!(bindings(&found[0]), vec![("a".to_string(), 2, 8, "p->q".to_string())]);
}

#[test]
fn a_wildcard_matches_anything_and_binds_nothing() {
    let query = "f(_, $a)";
    let compiled = pattern(query, &[Item::Call("f", vec!["_", "$a"])], false);
    let source = "f(1, x)";
    let tree = unit(source, &[Item::Call("f", vec!["1", "x"])]);
    let found = compiled.matches(&tree, source.as_bytes());
    assert_eq!(ranges(&found), vec![(0, 7)]);
    assert_eq!(bindings(&found[0]), vec![("a".to_string(), 5, 6, "x".to_string())]);
}

#[test]
fn an_error_node_matches_only_a_wildcard_or_a_variable() {
    let source = "f(1); @@ g(2);";
    let tree = unit(
        source,
        &[
            Item::CallStatement("f", vec!["1"]),
            Item::Garbage("@@"),
            Item::CallStatement("g", vec!["2"]),
        ],
    );

    let calls = pattern("$f($x);", &[Item::CallStatement("$f", vec!["$x"])], false);
    assert_eq!(ranges(&calls.matches(&tree, source.as_bytes())), vec![(0, 5), (9, 14)]);

    let kind_of_error = tree.children[1].kind;
    let token = PatternTree::new(
        PatternNode::Token { kind: kind_of_error, text: b"@@".to_vec() },
        Vec::new(),
        grammar(),
    )
    .unwrap();
    assert!(token.matches(&tree, source.as_bytes()).is_empty());

    let any = PatternTree::new(PatternNode::Wildcard, Vec::new(), grammar()).unwrap();
    assert_eq!(any.matches(&tree, source.as_bytes()).len(), 12);

    let named = PatternTree::new(
        PatternNode::Tree {
            kind: KindTag::Rule(UNIT),
            mode: Mode::Strict,
            children: vec![PatternNode::Wildcard, PatternNode::Variable(0), PatternNode::Wildcard],
        },
        vec![b"bad".to_vec()],
        grammar(),
    )
    .unwrap();
    let found = named.matches(&tree, source.as_bytes());
    assert_eq!(ranges(&found), vec![(0, 14)]);
    assert_eq!(bindings(&found[0]), vec![("bad".to_string(), 6, 8, "@@".to_string())]);
}

#[test]
fn the_children_of_an_error_node_are_candidates_too() {
    let source = "?? f(1);";
    let mut cursor = Cursor { text: source, at: 2 };
    let inner = cursor.item(&Item::CallStatement("f", vec!["1"]));
    let tree =
        SyntaxNode::branch(UNIT, 0, 8, vec![SyntaxNode::failed(0, 8, vec![inner])]);
    let calls = pattern("f($x);", &[Item::CallStatement("f", vec!["$x"])], false);
    assert_eq!(ranges(&calls.matches(&tree, source.as_bytes())), vec![(3, 8)]);

    let below = PatternTree::new(
        PatternNode::Tree {
            kind: KindTag::Any,
            mode: Mode::Strict,
            children: vec![PatternNode::Tree {
                kind: KindTag::Rule(CALL),
                mode: Mode::Strict,
                children: vec![PatternNode::Wildcard, PatternNode::Wildcard],
            }],
        },
        Vec::new(),
        grammar(),
    )
    .unwrap();
    assert_eq!(ranges(&below.matches(&tree, source.as_bytes())), vec![(3, 8)]);
}

#[test]
fn a_wildcard_with_children_asks_for_the_structure_below() {
    let source = "f(1); x = 2;";
    let tree =
        unit(source, &[Item::CallStatement("f", vec!["1"]), Item::Assign("x", "=", "2")]);
    let three = PatternTree::new(
        PatternNode::Tree {
            kind: KindTag::Any,
            mode: Mode::Strict,
            children: vec![PatternNode::Variable(0), PatternNode::Wildcard, PatternNode::Wildcard],
        },
        vec![b"left".to_vec()],
        grammar(),
    )
    .unwrap();
    let found = three.matches(&tree, source.as_bytes());
    assert_eq!(ranges(&found), vec![(6, 11)]);
    assert_eq!(bindings(&found[0]), vec![("left".to_string(), 6, 7, "x".to_string())]);
}

#[test]
fn kinds_of_one_class_stand_for_one_another() {
    let source = "p->q";
    let tree = SyntaxNode::branch(
        UNIT,
        0,
        4,
        vec![SyntaxNode::branch(
            FIELD,
            0,
            4,
            vec![
                SyntaxNode::leaf(IDENT, 0, 1),
                SyntaxNode::leaf(ARROW, 1, 3),
                SyntaxNode::leaf(IDENT, 3, 4),
            ],
        )],
    );
    let shape = || PatternNode::Tree {
        kind: KindTag::Rule(ASSIGN),
        mode: Mode::Strict,
        children: vec![PatternNode::Wildcard, PatternNode::Wildcard, PatternNode::Wildcard],
    };
    let plain = PatternTree::new(shape(), Vec::new(), grammar()).unwrap();
    assert!(plain.matches(&tree, source.as_bytes()).is_empty());

    let classes = Grammar {
        dialect: Dialect::Cpp,
        blocks: vec![BLOCK],
        classes: vec![(ASSIGN, 100), (CALL, 200), (FIELD, 100)],
    };
    let classed = PatternTree::new(shape(), Vec::new(), classes).unwrap();
    assert_eq!(ranges(&classed.matches(&tree, source.as_bytes())), vec![(0, 4)]);
    assert_eq!(classed.dialect(), Dialect::Cpp);

    let apart = Grammar {
        dialect: Dialect::C,
        blocks: vec![BLOCK],
        classes: vec![(ASSIGN, 100), (FIELD, 300)],
    };
    let apart = PatternTree::new(shape(), Vec::new(), apart).unwrap();
    assert!(apart.matches(&tree, source.as_bytes()).is_empty());
}

#[test]
fn a_range_outside_the_text_reads_as_nothing() {
    let source = "ab";
    let tree = SyntaxNode::branch(
        UNIT,
        0,
        2,
        vec![SyntaxNode::leaf(IDENT, 0, 2), SyntaxNode::leaf(IDENT, 5, 9)],
    );
    let twice = PatternTree::new(
        PatternNode::Tree {
            kind: KindTag::Rule(UNIT),
            mode: Mode::Strict,
            children: vec![PatternNode::Variable(0), PatternNode::Variable(0)],
        },
        vec![b"v".to_vec()],
        grammar(),
    )
    .unwrap();
    assert!(twice.matches(&tree, source.as_bytes()).is_empty());

    let empty = PatternTree::new(
        PatternNode::Token { kind: IDENT, text: Vec::new() },
        Vec::new(),
        grammar(),
    )
    .unwrap();
    assert_eq!(ranges(&empty.matches(&tree, source.as_bytes())), vec![(5, 9)]);
}

#[test]
fn a_failed_unification_leaves_the_table_as_it_was() {
    let source = "f(a, b)";
    let tree = unit(source, &[Item::Call("f", vec!["a", "b"])]);
    let call = &tree.children[0];
    let slots = vec![PatternNode::Variable(0), PatternNode::Variable(0)];
    let classes = Vec::new();
    let mut table = vec![Bound { variable: 7, start: 0, end: 1 }];
    let ok = align(
        &slots,
        0,
        &call.children[1].children,
        0,
        false,
        false,
        source.as_bytes(),
        &classes,
        &mut table,
    );
    assert!(!ok);
    assert_eq!(table, vec![Bound { variable: 7, start: 0, end: 1 }]);

    let ok = unify(
        &PatternNode::Variable(0),
        &call.children[0],
        source.as_bytes(),
        &classes,
        &mut table,
    );
    assert!(ok);
    assert_eq!(
        table,
        vec![Bound { variable: 7, start: 0, end: 1 }, Bound { variable: 0, start: 0, end: 1 }]
    );
}

#[test]
fn a_pattern_tree_needs_a_name_for_each_variable() {
    let missing = PatternTree::new(
        PatternNode::Tree {
            kind: KindTag::Any,
            mode: Mode::Loose,
            children: vec![PatternNode::Variable(0), PatternNode::Variable(1)],
        },
        vec![b"only".to_vec()],
        grammar(),
    );
    assert!(missing.is_none());
    assert!(PatternTree::new(PatternNode::Ellipsis, Vec::new(), grammar()).is_none());
    assert!(PatternTree::new(PatternNode::Wildcard, Vec::new(), grammar()).is_some());
}

#[test]
fn going_back_does_not_try_the_same_places_again() {
    let query = "{ a(); b(); c(); d(); e(); f(); g(); }";
    let wanted = ["a", "b", "c", "d", "e", "f", "g"];
    let items = [Item::Block(wanted.iter().map(|w| Item::CallStatement(w, vec![])).collect())];
    let compiled = pattern(query, &items, false);

    let mut source = String::from("{");
    let mut calls = Vec::new();
    for name in &wanted[..6] {
        for _ in 0..60 {
            source.push_str(&format!(" {}();", name));
            calls.push(Item::CallStatement(name, vec![]));
        }
    }
    source.push_str(" }");
    let tree = unit(&source, &[Item::Block(calls)]);
    assert!(compiled.matches(&tree, source.as_bytes()).is_empty());

    let mut source = String::from("{");
    let mut calls = Vec::new();
    for name in &wanted {
        for _ in 0..60 {
            source.push_str(&format!(" {}();", name));
            calls.push(Item::CallStatement(name, vec![]));
        }
    }
    source.push_str(" }");
    let tree = unit(&source, &[Item::Block(calls)]);
    assert_eq!(ranges(&compiled.matches(&tree, source.as_bytes())), vec![(0, source.len())]);
}

#[test]
fn what_was_found_out_with_other_bindings_is_not_held_against_a_slot() {
    let query = "{ $f(1); $f(2); done(); }";
    let items = [Item::Block(vec![
        Item::CallStatement("$f", vec!["1"]),
        Item::CallStatement("$f", vec!["2"]),
        Item::CallStatement("done", vec![]),
    ])];
    let compiled = pattern(query, &items, false);
    let source = "{ a(1); b(1); a(2); c(1); b(2); c(2); done(); }";
    let tree = unit(
        source,
        &[Item::Block(vec![
            Item::CallStatement("a", vec!["1"]),
            Item::CallStatement("b", vec!["1"]),
            Item::CallStatement("a", vec!["2"]),
            Item::CallStatement("c", vec!["1"]),
            Item::CallStatement("b", vec!["2"]),
            Item::CallStatement("c", vec!["2"]),
            Item::CallStatement("done", vec![]),
        ])],
    );
    let found = compiled.matches(&tree, source.as_bytes());
    assert_eq!(ranges(&found), vec![(0, source.len())]);
    assert_eq!(bindings(&found[0]), vec![("f".to_string(), 2, 3, "a".to_string())]);

    let source = "{ a(1); b(1); c(1); b(2); done(); }";
    let tree = unit(
        source,
        &[Item::Block(vec![
            Item::CallStatement("a", vec!["1"]),
            Item::CallStatement("b", vec!["1"]),
            Item::CallStatement("c", vec!["1"]),
            Item::CallStatement("b", vec!["2"]),
            Item::CallStatement("done", vec![]),
        ])],
    );
    let found = compiled.matches(&tree, source.as_bytes());
    assert_eq!(ranges(&found), vec![(0, source.len())]);
    assert_eq!(bindings(&found[0]), vec![("f".to_string(), 8, 9, "b".to_string())]);
}

#[test]
fn a_fragment_with_an_ellipsis_matches_itself() {
    let text = "f(..., $a, ...)";
    let items = [Item::Call("f", vec!["...", "$a", "..."])];
    let tree = unit(text, &items);
    let compiled = compile(text.as_bytes(), &tree, grammar(), false, None).unwrap();
    let found = compiled.matches(&tree, text.as_bytes());
    assert_eq!(ranges(&found), vec![(0, text.len())]);
    assert_eq!(bindings(&found[0]), vec![("a".to_string(), 2, 5, "...".to_string())]);

    let text = "f($a, ..., $a)";
    let items = [Item::Call("f", vec!["$a", "...", "$a"])];
    let tree = unit(text, &items);
    let compiled = compile(text.as_bytes(), &tree, grammar(), false, None).unwrap();
    let found = compiled.matches(&tree, text.as_bytes());
    assert_eq!(ranges(&found), vec![(0, text.len())]);
    assert_eq!(bindings(&found[0]), vec![("a".to_string(), 2, 4, "$a".to_string())]);
}

fn nested(text_len: usize, words: [(u16, usize, usize); 4], inner_end: usize) -> SyntaxNode {
    let inner = SyntaxNode::branch(
        CALL,
        2,
        inner_end,
        vec![
            SyntaxNode::leaf(IDENT, 2, 3),
            SyntaxNode::branch(
                ARGS,
                3,
                inner_end,
                words[..3].iter().map(|w| SyntaxNode::leaf(w.0, w.1, w.2)).collect(),
            ),
        ],
    );
    let last = SyntaxNode::leaf(words[3].0, words[3].1, words[3].2);
    let outer = SyntaxNode::branch(
        CALL,
        0,
        text_len,
        vec![SyntaxNode::leaf(IDENT, 0, 1), SyntaxNode::branch(ARGS, 1, text_len, vec![inner, last])],
    );
    SyntaxNode::branch(UNIT, 0, text_len, vec![outer])
}

#[test]
fn a_later_variable_sends_the_search_back_into_an_earlier_node() {
    let text = "g(f(..., $a, ...), $a)";
    let tree = nested(22, [(DOTS, 4, 7), (IDENT, 9, 11), (DOTS, 13, 16), (IDENT, 19, 21)], 17);
    let compiled = compile(text.as_bytes(), &tree, grammar(), false, None).unwrap();
    let found = compiled.matches(&tree, text.as_bytes());
    assert_eq!(ranges(&found), vec![(0, 22)]);
    assert_eq!(bindings(&found[0]), vec![("a".to_string(), 9, 11, "$a".to_string())]);

    let source = "g(f(x, x, y), x)";
    let tree = nested(16, [(IDENT, 4, 5), (IDENT, 7, 8), (IDENT, 10, 11), (IDENT, 14, 15)], 12);
    let found = compiled.matches(&tree, source.as_bytes());
    assert_eq!(ranges(&found), vec![(0, 16)]);
    assert_eq!(bindings(&found[0]), vec![("a".to_string(), 4, 5, "x".to_string())]);

    let source = "g(f(1, 2, 3), 2)";
    let tree = nested(16, [(NUMBER, 4, 5), (NUMBER, 7, 8), (NUMBER, 10, 11), (NUMBER, 14, 15)], 12);
    let found = compiled.matches(&tree, source.as_bytes());
    assert_eq!(ranges(&found), vec![(0, 16)]);
    assert_eq!(bindings(&found[0]), vec![("a".to_string(), 7, 8, "2".to_string())]);

    let source = "g(f(1, 2, 3), 4)";
    let tree = nested(16, [(NUMBER, 4, 5), (NUMBER, 7, 8), (NUMBER, 10, 11), (NUMBER, 14, 15)], 12);
    assert!(compiled.matches(&tree, source.as_bytes()).is_empty());
}

#[test]
fn a_later_statement_sends_the_search_back_into_an_earlier_block() {
    let query = "{ { $f(1); } $f(2); }";
    let items = [Item::Block(vec![
        Item::Block(vec![Item::CallStatement("$f", vec!["1"])]),
        Item::CallStatement("$f", vec!["2"]),
    ])];
    let compiled = pattern(query, &items, false);
    let source = "{ { a(1); b(1); } b(2); }";
    let tree = unit(
        source,
        &[Item::Block(vec![
            Item::Block(vec![
                Item::CallStatement("a", vec!["1"]),
                Item::CallStatement("b", vec!["1"]),
            ]),
            Item::CallStatement("b", vec!["2"]),
        ])],
    );
    let found = compiled.matches(&tree, source.as_bytes());
    assert_eq!(ranges(&found), vec![(0, source.len())]);
    assert_eq!(bindings(&found[0]), vec![("f".to_string(), 10, 11, "b".to_string())]);
}

#[test]
fn the_shape_is_looked_at_before_the_variables() {
    let source = "f(a, b)";
    let tree = unit(source, &[Item::Call("f", vec!["a", "b"])]);
    let call = &tree.children[0];
    let classes = Vec::new();
    let twice = PatternNode::Tree {
        kind: KindTag::Rule(ARGS),
        mode: Mode::Strict,
        children: vec![PatternNode::Variable(0), PatternNode::Variable(0)],
    };
    assert!(shape_fits(&twice, &call.children[1], source.as_bytes(), &classes));
    let mut table = Vec::new();
    assert!(!unify(&twice, &call.children[1], source.as_bytes(), &classes, &mut table));
    assert!(table.is_empty());

    let slots = vec![
        PatternNode::Ellipsis,
        PatternNode::Token { kind: IDENT, text: b"b".to_vec() },
    ];
    let nodes = &call.children[1].children;
    assert!(shape_lines_up(&slots, nodes, false, source.as_bytes(), &classes));
    let slots = vec![
        PatternNode::Token { kind: IDENT, text: b"b".to_vec() },
        PatternNode::Ellipsis,
    ];
    assert!(!shape_lines_up(&slots, nodes, false, source.as_bytes(), &classes));
    assert!(shape_lines_up(&slots, nodes, true, source.as_bytes(), &classes));
    assert!(!shape_fits(
        &PatternNode::Token { kind: IDENT, text: b"g".to_vec() },
        &call.children[0],
        source.as_bytes(),
        &classes
    ));
}
