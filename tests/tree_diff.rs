use difft_features::tree::{ConcreteTree, Point};
use difft_features::tree_diff::{
    is_same_label, is_same_tree, tree_to_edit_action, tree_to_edit_action_with_policy, LeafMismatch,
};

fn pt(row: usize, column: usize) -> Point {
    Point { row, column }
}

fn root(kind: &str, start: usize, end: usize) -> ConcreteTree {
    ConcreteTree::new(kind.to_string(), start, end, pt(0, start), pt(0, end))
}

fn child(t: &mut ConcreteTree, parent: usize, kind: &str, start: usize, end: usize) -> usize {
    t.add_child(parent, kind.to_string(), start, end, pt(0, start), pt(0, end))
}

/// `a+b`-shaped expression over `src`: returns the tree.
fn binary(src_len: usize) -> ConcreteTree {
    let mut t = root("binary_expression", 0, src_len);
    child(&mut t, 0, "identifier", 0, 1);
    child(&mut t, 0, "+", 1, 2);
    child(&mut t, 0, "identifier", 2, 3);
    t
}

#[test]
fn leaves_with_same_text_are_not_updated() {
    let lhs = root("identifier", 0, 3);
    let rhs = root("identifier", 3, 6);
    let (added, deleted, updated) = tree_to_edit_action(&lhs, 0, "foo", &rhs, 0, "barfoo");
    assert!(added.is_empty());
    assert!(deleted.is_empty());
    assert!(updated.is_empty());
}

#[test]
fn leaves_with_different_text_are_updated() {
    let lhs = root("identifier", 0, 3);
    let rhs = root("identifier", 0, 3);
    let (added, deleted, updated) = tree_to_edit_action(&lhs, 0, "foo", &rhs, 0, "bar");
    assert!(added.is_empty());
    assert!(deleted.is_empty());
    assert_eq!(updated, vec![(0, 0)]);
}

#[test]
fn changed_operand_is_the_only_update() {
    let lhs = binary(3);
    let rhs = binary(3);
    let (added, deleted, updated) = tree_to_edit_action(&lhs, 0, "a+b", &rhs, 0, "a+c");
    assert!(added.is_empty());
    assert!(deleted.is_empty());
    assert_eq!(updated, vec![(3, 3)]);
}

#[test]
fn diffing_a_tree_against_itself_finds_nothing() {
    let t = binary(3);
    let (added, deleted, updated) = tree_to_edit_action(&t, 0, "a+b", &t, 0, "a+b");
    assert!(added.is_empty() && deleted.is_empty() && updated.is_empty());
}

#[test]
fn leaf_against_subtree_replaces_the_subtree_only() {
    let lhs = root("identifier", 0, 1);
    let rhs = binary(3);
    let (added, deleted, updated) = tree_to_edit_action(&lhs, 0, "x", &rhs, 0, "a+b");
    assert_eq!(added, vec![0]);
    assert!(deleted.is_empty());
    assert!(updated.is_empty());
    let (added, deleted, updated) = tree_to_edit_action(&rhs, 0, "a+b", &lhs, 0, "x");
    assert!(added.is_empty());
    assert_eq!(deleted, vec![0]);
    assert!(updated.is_empty());
}

#[test]
fn leaf_against_subtree_can_report_both_sides() {
    let lhs = root("identifier", 0, 1);
    let rhs = binary(3);
    let (added, deleted, updated) =
        tree_to_edit_action_with_policy(&lhs, 0, "x", &rhs, 0, "a+b", LeafMismatch::ReplaceBoth);
    assert_eq!(added, vec![0]);
    assert_eq!(deleted, vec![0]);
    assert!(updated.is_empty());
}

#[test]
fn string_literals_are_compared_as_text() {
    let mut lhs = root("block", 0, 5);
    let l = child(&mut lhs, 0, "string_literal", 0, 5);
    child(&mut lhs, l, "\"", 0, 1);
    child(&mut lhs, l, "string_content", 1, 4);
    child(&mut lhs, l, "\"", 4, 5);
    let mut rhs = root("block", 0, 5);
    let r = child(&mut rhs, 0, "string_literal", 0, 5);
    child(&mut rhs, r, "\"", 0, 1);
    child(&mut rhs, r, "string_content", 1, 4);
    child(&mut rhs, r, "\"", 4, 5);
    let (added, deleted, updated) = tree_to_edit_action(&lhs, 0, "\"abc\"", &rhs, 0, "\"abd\"");
    assert!(added.is_empty());
    assert!(deleted.is_empty());
    assert_eq!(updated, vec![(l, r)]);
}

#[test]
fn children_of_other_kinds_are_added_and_deleted() {
    let mut lhs = root("list", 0, 2);
    let a1 = child(&mut lhs, 0, "A", 0, 1);
    let b = child(&mut lhs, 0, "B", 1, 2);
    let mut rhs = root("list", 0, 2);
    let a2 = child(&mut rhs, 0, "A", 0, 1);
    let c = child(&mut rhs, 0, "C", 1, 2);
    let (added, deleted, updated) = tree_to_edit_action(&lhs, 0, "xy", &rhs, 0, "zy");
    assert_eq!(added, vec![c]);
    assert_eq!(deleted, vec![b]);
    assert_eq!(updated, vec![(a1, a2)]);
}

#[test]
fn same_tree_compares_shape_not_text() {
    let lhs = binary(3);
    let rhs = binary(3);
    assert!(is_same_tree(&lhs, 0, &rhs, 0));
    let mut other = root("binary_expression", 0, 3);
    child(&mut other, 0, "identifier", 0, 1);
    child(&mut other, 0, "+", 1, 2);
    assert!(!is_same_tree(&lhs, 0, &other, 0));
    let mut deeper = binary(3);
    child(&mut deeper, 3, "identifier", 2, 3);
    assert!(!is_same_tree(&lhs, 0, &deeper, 0));
}

#[test]
fn same_label_looks_at_kinds_of_children() {
    let lhs = binary(3);
    let mut rhs = root("binary_expression", 0, 3);
    child(&mut rhs, 0, "identifier", 0, 1);
    child(&mut rhs, 0, "-", 1, 2);
    child(&mut rhs, 0, "identifier", 2, 3);
    assert!(is_same_label(&lhs, 0, &lhs, 0));
    assert!(!is_same_label(&lhs, 0, &rhs, 0));
    let mut b1 = root("block", 0, 3);
    child(&mut b1, 0, "identifier", 0, 1);
    let b2 = root("block", 0, 3);
    assert!(is_same_label(&b1, 0, &b2, 0));
}

#[test]
fn tree_fits_only_text_that_covers_every_node() {
    let t = binary(3);
    assert!(t.fits_source("a+b"));
    assert!(t.fits_source("a+b;"));
    assert!(!t.fits_source("a+"));
}

#[test]
fn builder_links_children_and_parents() {
    let t = binary(3);
    assert_eq!(t.nodes.len(), 4);
    assert_eq!(t.nodes[0].children, vec![1, 2, 3]);
    assert_eq!(t.nodes[0].parent, None);
    for id in 1..4 {
        assert_eq!(t.nodes[id].parent, Some(0));
    }
    assert_eq!(t.nodes[2].kind, "+");
}
