use difft_features::alignment::{calculate_edit_action, edit_tables, get_node_change_type, ChangeType};
use difft_features::tree::{ConcreteTree, Point};

fn pt(row: usize, column: usize) -> Point {
    Point { row, column }
}

/// A root whose children carry the given kinds; returns the tree and the
/// children's ids.
fn siblings(kinds: &[&str]) -> (ConcreteTree, Vec<usize>) {
    let mut t = ConcreteTree::new("root".to_string(), 0, 0, pt(0, 0), pt(0, 0));
    let mut ids = Vec::new();
    for k in kinds {
        ids.push(t.add_child(0, k.to_string(), 0, 0, pt(0, 0), pt(0, 0)));
    }
    (t, ids)
}

fn align(a: &[&str], b: &[&str]) -> (Vec<Vec<ChangeType>>, (Vec<usize>, Vec<usize>, Vec<(usize, usize)>), Vec<usize>, Vec<usize>) {
    let (ta, ia) = siblings(a);
    let (tb, ib) = siblings(b);
    let path = calculate_edit_action(&ta, &ia, &tb, &ib);
    let script = get_node_change_type(&ia, &ib, &path);
    (path, script, ia, ib)
}

#[test]
fn middle_sibling_of_other_kind_is_deleted_then_added() {
    let (path, (added, deleted, matched), ia, ib) = align(&["A", "B", "C"], &["A", "X", "C"]);
    assert_eq!(path[2][2], ChangeType::DeletedThenAdded);
    assert_eq!(added, vec![ib[1]]);
    assert_eq!(deleted, vec![ia[1]]);
    assert_eq!(matched, vec![(ia[2], ib[2]), (ia[0], ib[0])]);
}

#[test]
fn identical_kinds_align_as_matches_only() {
    let (_, (added, deleted, matched), ia, ib) = align(&["A", "B", "B", "C"], &["A", "B", "B", "C"]);
    assert!(added.is_empty());
    assert!(deleted.is_empty());
    assert_eq!(matched, vec![(ia[3], ib[3]), (ia[2], ib[2]), (ia[1], ib[1]), (ia[0], ib[0])]);
}

#[test]
fn empty_left_side_adds_everything() {
    let (path, (added, deleted, matched), _, ib) = align(&[], &["A", "B", "C"]);
    assert_eq!(path.len(), 1);
    assert_eq!(path[0], vec![ChangeType::Deleted, ChangeType::Added, ChangeType::Added, ChangeType::Added]);
    assert_eq!(added, vec![ib[2], ib[1], ib[0]]);
    assert!(deleted.is_empty());
    assert!(matched.is_empty());
}

#[test]
fn empty_right_side_deletes_everything() {
    let (_, (added, deleted, matched), ia, _) = align(&["A", "B"], &[]);
    assert!(added.is_empty());
    assert_eq!(deleted, vec![ia[1], ia[0]]);
    assert!(matched.is_empty());
}

#[test]
fn both_sides_empty_give_empty_script() {
    let (path, (added, deleted, matched), _, _) = align(&[], &[]);
    assert_eq!(path, vec![vec![ChangeType::Deleted]]);
    assert!(added.is_empty() && deleted.is_empty() && matched.is_empty());
}

#[test]
fn tie_between_add_and_pair_prefers_add() {
    // cell (1, 2): adding costs 2, deleting 3, a delete-then-add pair 2.
    let (path, _, _, _) = align(&["A"], &["B", "C"]);
    assert_eq!(path[1][1], ChangeType::DeletedThenAdded);
    assert_eq!(path[1][2], ChangeType::Added);
}

#[test]
fn tie_between_delete_and_pair_prefers_delete() {
    // cell (2, 1): adding costs 3, deleting 2, a delete-then-add pair 2.
    let (path, (added, deleted, matched), ia, ib) = align(&["A", "B"], &["C"]);
    assert_eq!(path[2][1], ChangeType::Deleted);
    assert_eq!(added, vec![ib[0]]);
    assert_eq!(deleted, vec![ia[1], ia[0]]);
    assert!(matched.is_empty());
}

#[test]
fn every_index_is_consumed_once() {
    let a = ["A", "B", "C", "D", "B"];
    let b = ["B", "E", "C", "A", "D", "F"];
    let (_, (added, deleted, matched), ia, ib) = align(&a, &b);
    assert_eq!(added.len() + deleted.len(), a.len() + b.len() - 2 * matched.len());
    for id in &ia {
        let uses = deleted.iter().filter(|d| *d == id).count()
            + matched.iter().filter(|m| m.0 == *id).count();
        assert_eq!(uses, 1);
    }
    for id in &ib {
        let uses = added.iter().filter(|d| *d == id).count()
            + matched.iter().filter(|m| m.1 == *id).count();
        assert_eq!(uses, 1);
    }
}

#[test]
fn table_has_one_row_per_left_node_and_one_column_per_right_node() {
    let (path, _, _, _) = align(&["A", "B", "C"], &["D", "E"]);
    assert_eq!(path.len(), 4);
    for row in &path {
        assert_eq!(row.len(), 3);
    }
    assert_eq!(path[1][0], ChangeType::Deleted);
    assert_eq!(path[0][2], ChangeType::Added);
}

#[test]
fn labels_of_change_types() {
    assert_eq!(ChangeType::Added.label(), "Added");
    assert_eq!(ChangeType::Deleted.label(), "Deleted");
    assert_eq!(ChangeType::MaybeUpdated.label(), "MaybeUpdated");
    assert_eq!(ChangeType::DeletedThenAdded.label(), "DeltedThenAdded");
}

#[test]
fn cost_table_counts_adds_and_deletes() {
    let (ta, ia) = siblings(&["A", "B", "C"]);
    let (tb, ib) = siblings(&["A", "X", "C"]);
    let (path, cost) = edit_tables(&ta, &ia, &tb, &ib);
    assert_eq!(path, calculate_edit_action(&ta, &ia, &tb, &ib));
    assert_eq!(cost[0], vec![0, 1, 2, 3]);
    assert_eq!(cost.iter().map(|row| row[0]).collect::<Vec<_>>(), vec![0, 1, 2, 3]);
    assert_eq!(cost[1], vec![1, 0, 1, 2]);
    assert_eq!(cost[2], vec![2, 1, 1, 2]);
    assert_eq!(cost[3], vec![3, 2, 2, 1]);
}
