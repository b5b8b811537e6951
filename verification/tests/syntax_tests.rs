use editor_input::comment_host::comment_syntax;
use editor_input::folds::{all_fold_ranges, fold_ranges, tree_checks, FoldRange};
use editor_input::indent::newline_indent;
use editor_input::syntax::{matching_brackets, SyntaxNode, SyntaxTree};
use ropey::Rope;
use tree_sitter::{Node, Parser};

fn add(node: Node, parent: Option<usize>, nodes: &mut Vec<SyntaxNode>) -> usize {
    let ix = nodes.len();
    nodes.push(SyntaxNode {
        kind: node.kind().to_string(),
        start_byte: node.start_byte(),
        end_byte: node.end_byte(),
        parent,
        first_child: None,
        next_sibling: None,
        is_named: node.is_named(),
        is_missing: node.is_missing(),
        has_error: node.has_error(),
    });
    let mut previous: Option<usize> = None;
    let mut cursor = node.walk();
    let children: Vec<Node> = node.children(&mut cursor).collect();
    for child in children {
        let child_ix = add(child, Some(ix), nodes);
        match previous {
            None => nodes[ix].first_child = Some(child_ix),
            Some(p) => nodes[p].next_sibling = Some(child_ix),
        }
        previous = Some(child_ix);
    }
    ix
}

fn parse_with(language: tree_sitter::Language, source: &str) -> (SyntaxTree, Rope) {
    let mut parser = Parser::new();
    parser.set_language(&language).unwrap();
    let tree = parser.parse(source, None).unwrap();
    let mut nodes = Vec::new();
    add(tree.root_node(), None, &mut nodes);
    (SyntaxTree { nodes, has_changes: tree.root_node().has_changes() }, Rope::from(source))
}

fn parse(source: &str) -> (SyntaxTree, Rope) {
    parse_with(tree_sitter_rust::LANGUAGE.into(), source)
}

fn parse_tsx(source: &str) -> (SyntaxTree, Rope) {
    parse_with(tree_sitter_typescript::LANGUAGE_TSX.into(), source)
}

#[test]
fn nesting_right_precedence_and_invalid_caret_offsets() {
    let source = "fn f() { call([one, (two)]); }";
    let (tree, text) = parse(source);
    let start = source.find("[one").unwrap();
    let end = source.find(']').unwrap();
    assert_eq!(
        matching_brackets("rust", Some(&tree), &text, start),
        Some((start..start + 1, end..end + 1))
    );
    // The right bracket owns this caret even when that bracket has no pair.
    let source = "fn f() { call(alpha)[";
    let (tree, text) = parse(source);
    assert!(matching_brackets("rust", Some(&tree), &text, source.len() - 1).is_none());
    let (tree, text) = parse("// 🦀\nfn f() {}");
    for caret in [4, 5, 6, text.len_bytes() + 1, usize::MAX] {
        assert!(matching_brackets("rust", Some(&tree), &text, caret).is_none());
    }
}

#[test]
fn broad_deep_and_wide_owners_exhaust_budgets_without_matching() {
    for (source, caret) in [
        {
            let prefix = "fn f() {}\n".repeat(5_000);
            (format!("{prefix}fn main() {{value();}}"), prefix.len() + 10)
        },
        {
            let prefix = format!("fn f() {{{}", "if true {".repeat(300));
            (format!("{prefix}call(alpha);{}}}", "}".repeat(300)), prefix.len() + 4)
        },
        (format!("fn f() {{ call({}); }}", "one,".repeat(5_000)), 13),
    ] {
        let (tree, text) = parse(&source);
        assert!(matching_brackets("rust", Some(&tree), &text, caret).is_none());
    }
}

#[test]
fn broad_and_deep_syntax_exhausts_lookup_budget_conservatively() {
    for source in [
        format!("{}fn main() {{", "fn f() {}\n".repeat(5_000)),
        format!("fn f() {{\n{}", "if true {\n".repeat(300)),
    ] {
        let (tree, text) = parse(&source);
        let len = text.len_bytes();
        assert!(newline_indent("rust", Some(&tree), &text, len..len, "  ").is_none());
    }
}

#[test]
fn brackets_match_around_the_caret() {
    let source = "fn f() { call(alpha); }";
    let (tree, text) = parse(source);
    assert_eq!(matching_brackets("rust", Some(&tree), &text, 13), Some((13..14, 19..20)));
    assert_eq!(matching_brackets("rust", Some(&tree), &text, 20), Some((13..14, 19..20)));
    assert!(matching_brackets("text", Some(&tree), &text, 13).is_none());
    assert!(matching_brackets("rust", None, &text, 13).is_none());
}

#[test]
fn brackets_inside_strings_do_not_match() {
    let source = "fn f() { let s = \"(\"; }";
    let (tree, text) = parse(source);
    let open = source.find("\"(").unwrap() + 1;
    assert!(matching_brackets("rust", Some(&tree), &text, open).is_none());
}

#[test]
fn stale_tree_gives_no_brackets_and_no_indent() {
    let source = "fn f() { call(alpha); }";
    let (mut tree, text) = parse(source);
    tree.has_changes = true;
    assert!(matching_brackets("rust", Some(&tree), &text, 13).is_none());
    assert!(newline_indent("rust", Some(&tree), &text, 8..8, "    ").is_none());
}

#[test]
fn enter_after_an_opening_brace_indents_one_unit() {
    let source = "fn f() {\n}";
    let (tree, text) = parse(source);
    let plan = newline_indent("rust", Some(&tree), &text, 8..8, "    ").unwrap();
    assert_eq!(plan.indent, "    ");
    assert!(plan.closing_indent.is_none());
}

#[test]
fn enter_between_braces_moves_the_closer_to_its_own_line() {
    let source = "    fn f() {}";
    let (tree, text) = parse(source);
    let plan = newline_indent("rust", Some(&tree), &text, 12..12, "    ").unwrap();
    assert_eq!(plan.indent, "        ");
    assert_eq!(plan.closing_indent.as_deref(), Some("    "));
}

#[test]
fn enter_after_a_trailing_line_comment_still_sees_the_brace() {
    let source = "fn f() { // note\n}";
    let (tree, text) = parse(source);
    let plan = newline_indent("rust", Some(&tree), &text, 16..16, "  ").unwrap();
    assert_eq!(plan.indent, "  ");
}

#[test]
fn enter_in_an_unknown_language_or_inside_a_string_inherits() {
    let source = "fn f() {\n}";
    let (tree, text) = parse(source);
    assert!(newline_indent("lua", Some(&tree), &text, 8..8, "    ").is_none());
    let source = "fn f() { let s = \"{\"; }";
    let (tree, text) = parse(source);
    let inside = source.find("{\"").unwrap() + 1;
    assert!(newline_indent("rust", Some(&tree), &text, inside..inside, "    ").is_none());
}

#[test]
fn enter_after_a_closing_line_returns_to_the_opener_indentation() {
    let source = "fn f() {\n    if x {\n        y();\n        }\n}";
    let (tree, text) = parse(source);
    let caret = source.find("        }").unwrap() + 9;
    let plan = newline_indent("rust", Some(&tree), &text, caret..caret, "    ").unwrap();
    assert_eq!(plan.indent, "    ");
    assert!(plan.closing_indent.is_none());
}

#[test]
fn enter_inside_an_element_closes_its_tag_on_a_later_line() {
    let source = "const a = <div></div>;";
    let (tree, text) = parse_tsx(source);
    let plan = newline_indent("tsx", Some(&tree), &text, 15..15, "  ").unwrap();
    assert_eq!(plan.indent, "  ");
    assert_eq!(plan.closing_indent.as_deref(), Some(""));
}

#[test]
fn pending_syntax_does_not_guess_a_comment_kind() {
    let source = "const value = 1;";
    let (tree, text) = parse_tsx(source);
    assert!(comment_syntax("tsx", Some(&tree), &text, true, 0..source.len()).is_some());
    assert!(comment_syntax("tsx", Some(&tree), &text, false, 0..source.len()).is_none());
    assert!(comment_syntax("tsx", None, &text, true, 0..0).is_none());
}

#[test]
fn traversal_budget_exhaustion_leaves_the_target_unchanged() {
    let source = "const value = 1;\n".repeat(5_000);
    let (tree, text) = parse_tsx(&source);
    assert!(comment_syntax("tsx", Some(&tree), &text, true, 0..source.len()).is_none());
    assert!(comment_syntax("tsx", Some(&tree), &text, true, source.len() - 17..source.len()).is_none());
}

#[test]
fn comment_syntax_by_language() {
    let text = Rope::from("a");
    let rust = comment_syntax("rust", None, &text, false, 0..1).unwrap();
    assert_eq!(rust.prefix, "//");
    assert!(rust.suffix.is_none());
    let css = comment_syntax("css", None, &text, false, 0..1).unwrap();
    assert_eq!(css.prefix, "/*");
    assert_eq!(css.suffix.as_deref(), Some("*/"));
    let toml = comment_syntax("toml", None, &text, false, 0..1).unwrap();
    assert_eq!(toml.prefix, "#");
    assert!(comment_syntax("lua", None, &text, true, 0..1).is_none());
    assert!(comment_syntax("html", None, &text, true, 0..1).is_none());
}

#[test]
fn jsx_ranges_take_no_line_comments() {
    let source = "const a = <div>text</div>;";
    let (tree, text) = parse_tsx(source);
    let inside = source.find("text").unwrap();
    assert!(comment_syntax("tsx", Some(&tree), &text, true, inside..inside + 4).is_none());
    assert!(comment_syntax("tsx", Some(&tree), &text, true, 0..5).is_some());
}

#[test]
fn nested_blocks_offer_one_fold_per_starting_row() {
    let source = "fn a() {\n    if x {\n        y();\n    }\n}\nfn b() {}\n";
    let (tree, text) = parse(source);
    assert_eq!(all_fold_ranges(&tree, &text), vec![FoldRange::new(0, 4), FoldRange::new(1, 3)]);
    assert!(fold_ranges(&tree, &text, 40..46).is_empty());
}

#[test]
fn a_parsed_tree_passes_the_checks_and_a_stale_or_broken_one_does_not() {
    let (tree, text) = parse("fn main() { let x = (1, 2); }");
    assert!(tree_checks(&tree, &text));
    // The same tree over a shorter text reaches past its end.
    assert!(!tree_checks(&tree, &Rope::from("fn main() {}")));
    // A node that ends inside a multi-byte character.
    let (mut tree, text) = parse("fn é() {}");
    let last = tree.nodes.len() - 1;
    tree.nodes[last].end_byte = 4;
    tree.nodes[last].start_byte = 4;
    assert!(!tree_checks(&tree, &text));
    // A sibling link that points back.
    let (mut tree, text) = parse("fn main() {}");
    let last = tree.nodes.len() - 1;
    tree.nodes[last].next_sibling = Some(0);
    assert!(!tree_checks(&tree, &text));
    let empty = SyntaxTree { nodes: Vec::new(), has_changes: false };
    assert!(!tree_checks(&empty, &text));
}

#[test]
fn every_highlighted_pair_is_an_opener_and_its_later_closer() {
    let source = "fn f(a: [u8; 2]) -> u8 { if a[0] > 1 { (a[1]) } else { {0} } }";
    let (tree, text) = parse(source);
    let bytes = source.as_bytes();
    let mut found = 0;
    for caret in 0..=source.len() {
        if let Some((a, b)) = matching_brackets("rust", Some(&tree), &text, caret) {
            found += 1;
            assert!(a.start < b.start);
            let pair = (bytes[a.start], bytes[b.start]);
            assert!(matches!(pair, (b'(', b')') | (b'[', b']') | (b'{', b'}')), "{pair:?} at {caret}");
        }
    }
    assert!(found > 0);
}
