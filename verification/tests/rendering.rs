use weggli::compile::compile;
use weggli::grammar::{Dialect, Grammar};
use weggli::result::{Binding, MatchResult};
use weggli::syntax::SyntaxNode;

const IDENT: u16 = 1;
const ARGS: u16 = 5;
const CALL: u16 = 6;
const UNIT: u16 = 10;

const SOURCE: &str = "one\ntwo\nthree\n  copy(dst, src);\nfive\nsix\nseven";

fn call_at(start: usize) -> SyntaxNode {
    SyntaxNode::branch(
        CALL,
        start,
        start + 14,
        vec![
            SyntaxNode::leaf(IDENT, start, start + 4),
            SyntaxNode::branch(
                ARGS,
                start + 4,
                start + 14,
                vec![
                    SyntaxNode::leaf(IDENT, start + 5, start + 8),
                    SyntaxNode::leaf(IDENT, start + 10, start + 13),
                ],
            ),
        ],
    )
}

fn found_in(tree: &SyntaxNode) -> Vec<MatchResult<'_>> {
    let query = "copy($to, $from)";
    let parsed = SyntaxNode::branch(UNIT, 0, 16, vec![call_at(0)]);
    let grammar = Grammar { dialect: Dialect::C, blocks: Vec::new(), classes: Vec::new() };
    let pattern = compile(query.as_bytes(), &parsed, grammar, false, None).unwrap();
    pattern.matches(tree, SOURCE.as_bytes())
}

fn show(out: Vec<u8>) -> String {
    String::from_utf8(out).unwrap()
}

const PAINTED: &str =
    "\x1b[31mcopy(\x1b[0m\x1b[32mdst\x1b[0m\x1b[31m, \x1b[0m\x1b[32msrc\x1b[0m\x1b[31m)\x1b[0m";

#[test]
fn a_match_is_shown_with_the_lines_around_it() {
    let tree = SyntaxNode::branch(UNIT, 0, SOURCE.len(), vec![call_at(16)]);
    let found = found_in(&tree);
    assert_eq!(found.len(), 1);
    let m = &found[0];
    assert!(m.within(SOURCE.as_bytes()));
    assert_eq!(show(m.render_with(SOURCE.as_bytes(), 0, 0, false)), "  copy(dst, src);");
    assert_eq!(
        show(m.render_with(SOURCE.as_bytes(), 1, 2, false)),
        "three\n  copy(dst, src);\nfive\nsix"
    );
    assert_eq!(show(m.render_with(SOURCE.as_bytes(), 10, 10, false)), SOURCE);
    assert_eq!(show(m.render_with(SOURCE.as_bytes(), 3, 0, false)), &SOURCE[..31]);
    assert_eq!(show(m.render_with(SOURCE.as_bytes(), 0, 3, false)), &SOURCE[14..]);
}

#[test]
fn the_match_is_red_and_its_variables_are_green() {
    let tree = SyntaxNode::branch(UNIT, 0, SOURCE.len(), vec![call_at(16)]);
    let found = found_in(&tree);
    let m = &found[0];
    assert_eq!(
        show(m.render_with(SOURCE.as_bytes(), 0, 0, true)),
        format!("  {};", PAINTED)
    );
    assert_eq!(
        show(m.render_with(SOURCE.as_bytes(), 1, 1, true)),
        format!("three\n  {};\nfive", PAINTED)
    );
}

#[test]
fn the_caller_says_whether_there_is_colour() {
    let tree = SyntaxNode::branch(UNIT, 0, SOURCE.len(), vec![call_at(16)]);
    let found = found_in(&tree);
    let m = &found[0];
    let plain = "  copy(dst, src);".to_string();
    let colourful = format!("  {};", PAINTED);
    assert_eq!(show(m.render(SOURCE.as_bytes(), 0, 0, Some(false))), plain);
    assert_eq!(show(m.render(SOURCE.as_bytes(), 0, 0, Some(true))), colourful);
    let left_open = show(m.render(SOURCE.as_bytes(), 0, 0, None));
    assert!(left_open == plain || left_open == colourful);
}

#[test]
fn bindings_may_lie_anywhere() {
    let root = SyntaxNode::leaf(IDENT, 4, 13);
    let binding = |start: usize, end: usize| Binding {
        name: b"v".to_vec(),
        start,
        end,
        text: Vec::new(),
    };
    let m = MatchResult {
        root: &root,
        bindings: vec![binding(9, 11), binding(0, 6), binding(5, 7), binding(12, 40), binding(8, 8)],
    };
    assert_eq!(
        show(m.render_with(SOURCE.as_bytes(), 0, 0, true)),
        "\x1b[32mtwo\x1b[0m\x1b[31m\nt\x1b[0m\x1b[32mhr\x1b[0m\x1b[31me\x1b[0m\x1b[32me\x1b[0m"
    );
    assert_eq!(show(m.render_with(SOURCE.as_bytes(), 0, 0, false)), "two\nthree");
    assert_eq!(show(m.render_with(SOURCE.as_bytes(), 1, 0, false)), "one\ntwo\nthree");
}

#[test]
fn an_empty_match_shows_its_line() {
    let root = SyntaxNode::leaf(IDENT, 5, 5);
    let m = MatchResult { root: &root, bindings: Vec::new() };
    assert_eq!(show(m.render_with(SOURCE.as_bytes(), 0, 0, true)), "two");
    assert_eq!(show(m.render_with(SOURCE.as_bytes(), 1, 1, true)), "one\ntwo\nthree");
    let at_end = SyntaxNode::leaf(IDENT, SOURCE.len(), SOURCE.len());
    let m = MatchResult { root: &at_end, bindings: Vec::new() };
    assert_eq!(show(m.render_with(SOURCE.as_bytes(), 0, 5, false)), "seven");
    let nowhere = SyntaxNode::leaf(IDENT, 0, 0);
    let m = MatchResult { root: &nowhere, bindings: Vec::new() };
    assert!(m.within(b""));
    assert_eq!(show(m.render_with(b"", 2, 2, true)), "");
}

#[test]
fn a_match_that_ends_with_its_line_shows_no_more() {
    let root = SyntaxNode::leaf(IDENT, 4, 8);
    let m = MatchResult { root: &root, bindings: Vec::new() };
    assert_eq!(show(m.render_with(SOURCE.as_bytes(), 0, 0, false)), "two\nthree");
    let root = SyntaxNode::leaf(IDENT, 4, 7);
    let m = MatchResult { root: &root, bindings: Vec::new() };
    assert_eq!(show(m.render_with(SOURCE.as_bytes(), 0, 0, false)), "two");
    assert_eq!(show(m.render_with(SOURCE.as_bytes(), 0, 1, false)), "two\nthree");
}

#[test]
fn a_range_outside_the_text_is_not_within_it() {
    let root = SyntaxNode::leaf(IDENT, 4, SOURCE.len() + 1);
    let m = MatchResult { root: &root, bindings: Vec::new() };
    assert!(!m.within(SOURCE.as_bytes()));
    let root = SyntaxNode::leaf(IDENT, 9, 4);
    let m = MatchResult { root: &root, bindings: Vec::new() };
    assert!(!m.within(SOURCE.as_bytes()));
    let root = SyntaxNode::leaf(IDENT, 0, SOURCE.len());
    let m = MatchResult { root: &root, bindings: Vec::new() };
    assert!(m.within(SOURCE.as_bytes()));
}
