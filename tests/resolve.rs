use difft_features::hunk_to_tree::{
    get_novel_nodes, get_novels_from_hunk, is_inside_node_span, is_inside_span, is_the_same_position,
    matched_pos_to_syntax, matched_pos_to_tree_node, syntax_to_tree_node,
};
use difft_features::position::{Hunk, LineNumber, MatchKind, MatchedPos, SingleLineSpan};
use difft_features::syntax::Syntax;
use difft_features::tree::{ConcreteTree, Point};

fn pt(row: usize, column: usize) -> Point {
    Point { row, column }
}

fn span(line: u32, start_col: u32, end_col: u32) -> SingleLineSpan {
    SingleLineSpan { line: LineNumber(line), start_col, end_col }
}

fn novel(line: u32, start_col: u32, end_col: u32) -> MatchedPos {
    MatchedPos { kind: MatchKind::Novel, pos: span(line, start_col, end_col) }
}

struct Ids {
    ident: usize,
    block: usize,
    literal: usize,
    inner: usize,
    content: usize,
}

/// fn f() {
///     "a
/// b"
///     x
/// }
fn function_tree() -> (ConcreteTree, Ids) {
    let mut t = ConcreteTree::new("source_file".to_string(), 0, 30, pt(0, 0), pt(4, 1));
    let func = t.add_child(0, "function_item".to_string(), 0, 30, pt(0, 0), pt(4, 1));
    t.add_child(func, "fn".to_string(), 0, 2, pt(0, 0), pt(0, 2));
    let ident = t.add_child(func, "identifier".to_string(), 3, 4, pt(0, 3), pt(0, 4));
    let block = t.add_child(func, "block".to_string(), 7, 30, pt(0, 7), pt(4, 1));
    let literal = t.add_child(block, "string_literal".to_string(), 13, 18, pt(1, 4), pt(2, 2));
    t.add_child(literal, "\"".to_string(), 13, 14, pt(1, 4), pt(1, 5));
    let content = t.add_child(literal, "string_content".to_string(), 14, 17, pt(1, 5), pt(2, 1));
    t.add_child(literal, "\"".to_string(), 17, 18, pt(2, 1), pt(2, 2));
    let inner = t.add_child(block, "identifier".to_string(), 23, 24, pt(3, 4), pt(3, 5));
    (t, Ids { ident, block, literal, inner, content })
}

#[test]
fn single_line_span_must_equal_the_only_span() {
    assert!(is_inside_span(span(2, 1, 4), &vec![span(2, 1, 4)]));
    assert!(!is_inside_span(span(2, 1, 3), &vec![span(2, 1, 4)]));
    assert!(!is_inside_span(span(2, 1, 4), &vec![]));
}

#[test]
fn multi_line_span_must_equal_one_line_span() {
    let spans = vec![span(1, 4, 10), span(2, 0, 3), span(3, 0, 1)];
    assert!(is_inside_span(span(2, 0, 3), &spans));
    assert!(!is_inside_span(span(2, 0, 2), &spans));
}

#[test]
fn node_span_containment_by_row() {
    let (t, ids) = function_tree();
    let lit = &t.nodes[ids.literal];
    // First row: only the start column bounds it.
    assert!(is_inside_node_span(span(1, 4, 99), lit));
    assert!(!is_inside_node_span(span(1, 3, 5), lit));
    // Last row: only the end column bounds it.
    assert!(is_inside_node_span(span(2, 0, 2), lit));
    assert!(!is_inside_node_span(span(2, 0, 3), lit));
    // Outside the rows.
    assert!(!is_inside_node_span(span(3, 0, 1), lit));
    let block = &t.nodes[ids.block];
    // Interior rows always contain.
    assert!(is_inside_node_span(span(2, 0, 500), block));
    // A node on one row bounds both columns.
    let ident = &t.nodes[ids.ident];
    assert!(is_inside_node_span(span(0, 3, 4), ident));
    assert!(!is_inside_node_span(span(0, 2, 4), ident));
    assert!(!is_inside_node_span(span(0, 3, 5), ident));
}

#[test]
fn position_resolves_to_the_leaf_that_holds_it() {
    let (t, ids) = function_tree();
    assert_eq!(matched_pos_to_tree_node(&novel(0, 3, 4), &t, 0), Some(ids.ident));
    assert_eq!(matched_pos_to_tree_node(&novel(3, 4, 5), &t, 0), Some(ids.inner));
}

#[test]
fn position_inside_a_literal_resolves_to_the_literal() {
    let (t, ids) = function_tree();
    assert_eq!(matched_pos_to_tree_node(&novel(1, 5, 6), &t, 0), Some(ids.literal));
    // Searching from inside the literal finds the leaf.
    assert_eq!(matched_pos_to_tree_node(&novel(2, 0, 1), &t, ids.content), Some(ids.content));
}

#[test]
fn position_outside_the_tree_resolves_to_nothing() {
    let (t, _) = function_tree();
    assert_eq!(matched_pos_to_tree_node(&novel(7, 0, 1), &t, 0), None);
}

#[test]
fn resolving_twice_gives_the_same_node() {
    let (t, _) = function_tree();
    let p = novel(3, 4, 5);
    let first = matched_pos_to_tree_node(&p, &t, 0);
    let second = matched_pos_to_tree_node(&p, &t, 0);
    assert_eq!(first, second);
}

#[test]
fn atom_finds_the_concrete_node_with_its_extent() {
    let (t, ids) = function_tree();
    let atom = Syntax::Atom { content: "f".to_string(), position: vec![span(0, 3, 4)] };
    assert_eq!(syntax_to_tree_node(&atom, &t, 0), Some(ids.ident));
    let multi = Syntax::Atom { content: "\"a\nb\"".to_string(), position: vec![span(1, 4, 6), span(2, 0, 2)] };
    assert_eq!(syntax_to_tree_node(&multi, &t, 0), Some(ids.literal));
    let nowhere = Syntax::Atom { content: "z".to_string(), position: vec![span(9, 0, 1)] };
    assert_eq!(syntax_to_tree_node(&nowhere, &t, 0), None);
    let list = Syntax::List { children: vec![], position: vec![span(0, 3, 4)] };
    assert_eq!(syntax_to_tree_node(&list, &t, 0), None);
}

#[test]
fn same_position_needs_both_ends() {
    let (t, ids) = function_tree();
    let node = &t.nodes[ids.literal];
    let atom = Syntax::Atom { content: String::new(), position: vec![span(1, 4, 6), span(2, 0, 2)] };
    assert!(is_the_same_position(node, &atom));
    let shorter = Syntax::Atom { content: String::new(), position: vec![span(1, 4, 6), span(2, 0, 1)] };
    assert!(!is_the_same_position(node, &shorter));
    let empty = Syntax::Atom { content: String::new(), position: vec![] };
    assert!(!is_the_same_position(node, &empty));
}

fn atom_content(s: &Syntax) -> &str {
    match s {
        Syntax::Atom { content, .. } => content,
        Syntax::List { .. } => "",
    }
}

#[test]
fn first_atom_in_pre_order_is_found() {
    let tree = vec![
        Syntax::Atom { content: "fn".to_string(), position: vec![span(0, 0, 2)] },
        Syntax::List {
            children: vec![
                Syntax::Atom { content: "x".to_string(), position: vec![span(3, 4, 5)] },
                Syntax::Atom { content: "x again".to_string(), position: vec![span(3, 4, 5)] },
            ],
            position: vec![span(3, 0, 9)],
        },
        Syntax::Atom { content: "y".to_string(), position: vec![span(3, 4, 5), span(4, 0, 1)] },
    ];
    let found = matched_pos_to_syntax(&novel(3, 4, 5), &tree).unwrap();
    assert_eq!(atom_content(found), "x");
    let later = matched_pos_to_syntax(&novel(4, 0, 1), &tree).unwrap();
    assert_eq!(atom_content(later), "y");
    // A list's own span is not searched.
    assert!(matched_pos_to_syntax(&novel(3, 0, 9), &tree).is_none());
    assert!(matched_pos_to_syntax(&novel(8, 0, 1), &tree).is_none());
}

#[test]
fn novel_positions_are_grouped_by_line() {
    let unchanged = MatchedPos {
        kind: MatchKind::Unchanged { opposite_pos: span(0, 3, 4) },
        pos: span(0, 3, 4),
    };
    let lhs = vec![novel(0, 0, 2), unchanged, novel(1, 0, 1), novel(0, 5, 6)];
    let rhs = vec![novel(2, 1, 2)];
    assert_eq!(get_novel_nodes(&lhs, LineNumber(0)), vec![novel(0, 0, 2), novel(0, 5, 6)]);
    let hunk = Hunk { novel_lhs: vec![LineNumber(0), LineNumber(1)], novel_rhs: vec![LineNumber(2), LineNumber(3)] };
    let (l, r) = get_novels_from_hunk(&lhs, &rhs, &hunk);
    assert_eq!(l.len(), 2);
    assert_eq!(l.get(&LineNumber(0)), Some(&vec![novel(0, 0, 2), novel(0, 5, 6)]));
    assert_eq!(l.get(&LineNumber(1)), Some(&vec![novel(1, 0, 1)]));
    assert_eq!(r.len(), 2);
    assert_eq!(r.get(&LineNumber(2)), Some(&vec![novel(2, 1, 2)]));
    assert_eq!(r.get(&LineNumber(3)), Some(&vec![]));
}
