use cst_view::config::DisplayConfig;
use cst_view::depth::DepthRange;
use cst_view::render::{render_tree, should_print, write_tree};
use cst_view::tokens::{render_tokens, write_tokens};
use cst_view::tree::{SyntaxNode, SyntaxTree};

fn node(kind: &str, range_text: &str, text: &str, children: Vec<usize>) -> SyntaxNode {
    SyntaxNode {
        kind: kind.to_string(),
        range_text: range_text.to_string(),
        text: text.to_string(),
        children,
    }
}

fn plain_config() -> DisplayConfig {
    DisplayConfig {
        show_range: false,
        show_all_text: false,
        show_node_text: false,
        show_token_text: false,
        show_node_type: false,
        show_sql_separator: false,
        show_sql: false,
    }
}

#[test]
fn root_leaf_single_line_no_indent() {
    let tree = SyntaxTree { nodes: vec![node("stmt", "(1,1)-(1,5)", "select", vec![])] };
    assert!(tree.check_well_formed());
    let out = render_tree(&tree, 0, &None, &plain_config());
    assert_eq!(out, "stmt\n");
}

#[test]
fn root_leaf_with_optional_fields() {
    let tree = SyntaxTree { nodes: vec![node("stmt", "(1,1)-(1,5)", "select", vec![])] };
    let config = DisplayConfig {
        show_range: true,
        show_all_text: false,
        show_node_text: false,
        show_token_text: true,
        show_node_type: true,
        show_sql_separator: false,
        show_sql: false,
    };
    let out = render_tree(&tree, 0, &None, &config);
    assert_eq!(out, "stmt (Token) (1,1)-(1,5) \"select\"\n");
}

#[test]
fn range_hides_ancestors_but_not_descendants() {
    let tree = SyntaxTree {
        nodes: vec![
            node("root", "r0", "", vec![1]),
            node("mid", "r1", "", vec![2]),
            node("leaf", "r2", "x", vec![]),
        ],
    };
    assert!(tree.check_well_formed());
    let range = DepthRange::from_str("2").unwrap();
    let out = render_tree(&tree, 0, &Some(range), &plain_config());
    assert_eq!(out, "leaf\n");
    assert!(!out.contains("root"));
    assert!(!out.contains("mid"));
}

#[test]
fn plain_render_one_line_per_node() {
    let tree = SyntaxTree {
        nodes: vec![
            node("a", "", "", vec![1, 3]),
            node("b", "", "", vec![2]),
            node("c", "", "", vec![]),
            node("d", "", "", vec![]),
        ],
    };
    assert!(tree.check_well_formed());
    let out = render_tree(&tree, 0, &None, &plain_config());
    assert_eq!(out, "a\n-+b\n---+c\n-+d\n");
    assert_eq!(out.lines().count(), tree.nodes.len());
}

#[test]
fn range_relative_indentation() {
    let tree = SyntaxTree {
        nodes: vec![
            node("a", "", "", vec![1]),
            node("b", "", "", vec![2]),
            node("c", "", "", vec![3]),
            node("d", "", "", vec![]),
        ],
    };
    let range = DepthRange::from_str("1..").unwrap();
    let out = render_tree(&tree, 0, &Some(range), &plain_config());
    // depth 1 sits at the range's floor: no indent; deeper levels step in
    assert_eq!(out, "b\n-+c\n---+d\n");
}

#[test]
fn node_text_flags() {
    let tree = SyntaxTree {
        nodes: vec![node("kw", "", "sel", vec![1]), node("tok", "", "ect", vec![])],
    };
    let mut config = plain_config();
    config.show_node_text = true;
    let out = render_tree(&tree, 0, &None, &config);
    assert_eq!(out, "kw \"sel\"\n-+tok\n");
    config.show_node_text = false;
    config.show_token_text = true;
    let out = render_tree(&tree, 0, &None, &config);
    assert_eq!(out, "kw\n-+tok \"ect\"\n");
    assert!(config.should_show_text(true));
    assert!(!config.should_show_text(false));
    config.show_all_text = true;
    assert!(config.should_show_text(false));
}

#[test]
fn escaped_text_in_tree_line() {
    let tree = SyntaxTree { nodes: vec![node("t", "", "a\nb\"c\\d\te", vec![])] };
    let mut config = plain_config();
    config.show_token_text = true;
    let out = render_tree(&tree, 0, &None, &config);
    assert_eq!(out, "t \"a\\nb\\\"c\\\\d\\te\"\n");
}

#[test]
fn write_tree_appends_to_buffer() {
    let tree = SyntaxTree { nodes: vec![node("only", "", "", vec![])] };
    let mut out = String::from("before\n");
    write_tree(&tree, 0, 0, &None, &plain_config(), &mut out);
    assert_eq!(out, "before\nonly\n");
}

#[test]
fn should_print_without_range_prints_all() {
    assert!(should_print(0, &None));
    assert!(should_print(usize::MAX, &None));
    let range = DepthRange::from_str("1..3").unwrap();
    assert!(!should_print(0, &Some(range.clone())));
    assert!(should_print(1, &Some(range.clone())));
    assert!(!should_print(3, &Some(range)));
}

#[test]
fn tokens_one_line_per_leaf_in_order() {
    let tree = SyntaxTree {
        nodes: vec![
            node("root", "r0", "", vec![1, 2]),
            node("first", "r1", "x", vec![]),
            node("mid", "r2", "", vec![3, 4]),
            node("second", "r3", "y", vec![]),
            node("third", "r4", "z", vec![]),
        ],
    };
    assert!(tree.check_well_formed());
    let out = render_tokens(&tree, false, false);
    assert_eq!(out, "first@r1\nsecond@r3\nthird@r4\n");
    assert_eq!(out.lines().count(), 3);
    assert!(!out.contains("root"));
    assert!(!out.contains("mid"));
}

#[test]
fn tokens_hide_range_and_show_text() {
    let tree = SyntaxTree {
        nodes: vec![node("root", "r0", "", vec![1]), node("tok", "r1", "a\nb", vec![])],
    };
    let out = render_tokens(&tree, true, false);
    assert_eq!(out, "tok\n");
    let out = render_tokens(&tree, true, true);
    assert_eq!(out, "tok \"a\\nb\"\n");
    let out = render_tokens(&tree, false, true);
    assert_eq!(out, "tok@r1 \"a\\nb\"\n");
}

#[test]
fn write_tokens_appends_to_buffer() {
    let tree = SyntaxTree { nodes: vec![node("only", "r", "", vec![])] };
    let mut out = String::from("x");
    write_tokens(&tree, true, false, &mut out);
    assert_eq!(out, "xonly\n");
}

#[test]
fn tokens_single_root_leaf() {
    let tree = SyntaxTree { nodes: vec![node("lone", "0..4", "text", vec![])] };
    let out = render_tokens(&tree, false, true);
    assert_eq!(out, "lone@0..4 \"text\"\n");
}

#[test]
fn check_well_formed_rejects_bad_shapes() {
    let empty = SyntaxTree { nodes: vec![] };
    assert!(!empty.check_well_formed());
    let backward = SyntaxTree {
        nodes: vec![node("a", "", "", vec![1]), node("b", "", "", vec![0])],
    };
    assert!(!backward.check_well_formed());
    let out_of_bounds = SyntaxTree { nodes: vec![node("a", "", "", vec![5])] };
    assert!(!out_of_bounds.check_well_formed());
    let self_loop = SyntaxTree { nodes: vec![node("a", "", "", vec![0])] };
    assert!(!self_loop.check_well_formed());
}

#[test]
fn from_flags_negates_hide_switches() {
    let config = DisplayConfig::from_flags(true, true, false, true, true, false, true);
    assert!(!config.show_range);
    assert!(config.show_all_text);
    assert!(!config.show_node_text);
    assert!(!config.show_token_text);
    assert!(config.show_node_type);
    assert!(!config.show_sql_separator);
    assert!(config.show_sql);
}

#[test]
fn deep_tree_tokens_iterative() {
    // a long chain ending in one leaf, then a sibling leaf at the top
    let mut nodes = Vec::new();
    for i in 0..50 {
        nodes.push(node(&format!("n{}", i), "", "", vec![i + 1]));
    }
    nodes.push(node("deep", "", "", vec![]));
    nodes[0].children.push(51);
    nodes.push(node("top", "", "", vec![]));
    let tree = SyntaxTree { nodes };
    assert!(tree.check_well_formed());
    let out = render_tokens(&tree, true, false);
    assert_eq!(out, "deep\ntop\n");
}

#[test]
fn escaped_quote_and_control_characters() {
    let tree = SyntaxTree { nodes: vec![node("t", "", "it's\u{7}\u{1b}ok", vec![])] };
    let mut config = plain_config();
    config.show_token_text = true;
    let out = render_tree(&tree, 0, &None, &config);
    assert_eq!(out, "t \"it\\'s\\u{7}\\u{1b}ok\"\n");
}

#[test]
fn escaped_nul_and_del_in_tokens() {
    let tree = SyntaxTree { nodes: vec![node("t", "r", "a\u{0}b\u{7f}c\u{9f}", vec![])] };
    let out = render_tokens(&tree, true, true);
    assert_eq!(out, "t \"a\\u{0}b\\u{7f}c\\u{9f}\"\n");
}
