use difft_features::alignment::ChangeType;
use difft_features::classify::{
    classify_hunk, feature_record, feature_records, get_grandparent_kind, get_parent_kind,
    tag_change_type, FeatureError, NodeRef, Side,
};
use difft_features::position::{Hunk, LineNumber, MatchKind, MatchedPos, SingleLineSpan};
use difft_features::tree::{ConcreteTree, Point};

fn pt(row: usize, column: usize) -> Point {
    Point { row, column }
}

fn novel(line: u32, start_col: u32, end_col: u32) -> MatchedPos {
    MatchedPos {
        kind: MatchKind::Novel,
        pos: SingleLineSpan { line: LineNumber(line), start_col, end_col },
    }
}

/// source_file > let_declaration > (let, <value kind>, ;) on row 0.
fn declaration(value_kind: &str) -> (ConcreteTree, usize, usize) {
    let mut t = ConcreteTree::new("source_file".to_string(), 0, 10, pt(0, 0), pt(0, 10));
    let decl = t.add_child(0, "let_declaration".to_string(), 0, 10, pt(0, 0), pt(0, 10));
    t.add_child(decl, "let".to_string(), 0, 3, pt(0, 0), pt(0, 3));
    let value = t.add_child(decl, value_kind.to_string(), 4, 9, pt(0, 4), pt(0, 9));
    t.add_child(decl, ";".to_string(), 9, 10, pt(0, 9), pt(0, 10));
    (t, decl, value)
}

fn lhs(id: usize) -> NodeRef {
    NodeRef { side: Side::Lhs, id }
}

fn rhs(id: usize) -> NodeRef {
    NodeRef { side: Side::Rhs, id }
}

#[test]
fn left_nodes_are_deleted_and_right_nodes_added() {
    let tagged = tag_change_type(&vec![3, 5, 3], &vec![3, 7]);
    assert_eq!(
        tagged,
        vec![
            (lhs(3), ChangeType::Deleted),
            (lhs(5), ChangeType::Deleted),
            (rhs(3), ChangeType::Added),
            (rhs(7), ChangeType::Added),
        ]
    );
}

#[test]
fn no_nodes_give_no_tags() {
    assert!(tag_change_type(&vec![], &vec![]).is_empty());
}

#[test]
fn one_novel_leaf_per_side_gives_one_deleted_and_one_added_record() {
    let (lt, _, lv) = declaration("identifier");
    let (rt, _, rv) = declaration("integer_literal");
    let hunk = Hunk { novel_lhs: vec![LineNumber(0)], novel_rhs: vec![LineNumber(0)] };
    let tagged = classify_hunk(&vec![novel(0, 4, 9)], &vec![novel(0, 4, 9)], &hunk, &lt, &rt).unwrap();
    assert_eq!(tagged, vec![(lhs(lv), ChangeType::Deleted), (rhs(rv), ChangeType::Added)]);
    let records = feature_records("repo", "abc123", &lt, &rt, &tagged).unwrap();
    assert_eq!(records.len(), 2);
    assert_eq!(records[0].change.label(), "Deleted");
    assert_eq!(records[1].change.label(), "Added");
    for r in &records {
        assert_eq!(r.repo_id, "repo");
        assert_eq!(r.revision_id, "abc123");
        assert_eq!(r.parent_kind, "let_declaration");
        assert_eq!(r.grandparent_kind, "source_file");
    }
}

#[test]
fn unresolved_position_is_reported() {
    let (lt, _, _) = declaration("identifier");
    let (rt, _, _) = declaration("identifier");
    let hunk = Hunk { novel_lhs: vec![], novel_rhs: vec![LineNumber(5)] };
    let r = classify_hunk(&vec![], &vec![novel(5, 0, 1)], &hunk, &lt, &rt);
    assert_eq!(
        r,
        Err(FeatureError::PositionNotFound { side: Side::Rhs, pos: novel(5, 0, 1).pos })
    );
}

#[test]
fn positions_on_lines_outside_the_hunk_are_ignored() {
    let (lt, _, lv) = declaration("identifier");
    let (rt, _, _) = declaration("identifier");
    let hunk = Hunk { novel_lhs: vec![LineNumber(0)], novel_rhs: vec![] };
    let tagged = classify_hunk(&vec![novel(0, 4, 9), novel(6, 0, 1)], &vec![novel(0, 4, 9)], &hunk, &lt, &rt)
        .unwrap();
    assert_eq!(tagged, vec![(lhs(lv), ChangeType::Deleted)]);
}

#[test]
fn context_of_a_deep_node() {
    let (t, decl, value) = declaration("identifier");
    assert_eq!(get_parent_kind(&t, value), "let_declaration");
    assert_eq!(get_grandparent_kind(&t, value), "source_file");
    assert_eq!(get_parent_kind(&t, decl), "source_file");
    let r = feature_record("repo", "rev", &t, value, ChangeType::MaybeUpdated);
    assert_eq!(r.parent_kind, "let_declaration");
    assert_eq!(r.grandparent_kind, "source_file");
    assert_eq!(r.change, ChangeType::MaybeUpdated);
}

#[test]
fn node_next_to_the_root_has_no_record() {
    let (t, decl, value) = declaration("identifier");
    let tagged = vec![(lhs(value), ChangeType::Deleted), (lhs(decl), ChangeType::Deleted)];
    let r = feature_records("repo", "rev", &t, &t, &tagged);
    assert_eq!(r.unwrap_err(), FeatureError::AncestorAbsent { node: lhs(decl) });
}
