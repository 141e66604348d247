//! The change classifier, the context extractor and the feature records.
use vstd::prelude::*;
use crate::alignment::ChangeType;
use crate::tree::ConcreteTree;
use crate::position::{SingleLineSpan, MatchedPos, LineNumber, Hunk};
use crate::hunk_to_tree::{novel_positions, resolve_node, get_novel_nodes, matched_pos_to_tree_node};

verus! {

/// The side of the comparison a node belongs to.
#[derive(Clone, Copy, Debug, PartialEq, Eq, Structural, Hash)]
pub enum Side {
    Lhs,
    Rhs,
}

/// A node of the left or of the right concrete tree.
#[derive(Clone, Copy, Debug, PartialEq, Eq, Structural, Hash)]
pub struct NodeRef {
    pub side: Side,
    pub id: usize,
}

/// Some entry of `entries` has key `key`.
pub open spec fn has_key(entries: Seq<(NodeRef, ChangeType)>, key: NodeRef) -> bool {
    exists|k: int| 0 <= k < entries.len() && (#[trigger] entries[k]).0 == key
}

/// The entries after inserting each key in turn with `change`, where a key
/// already present keeps its entry.
pub open spec fn insert_all(
    entries: Seq<(NodeRef, ChangeType)>,
    keys: Seq<NodeRef>,
    change: ChangeType,
) -> Seq<(NodeRef, ChangeType)>
    decreases keys.len(),
{
    if keys.len() == 0 {
        entries
    } else {
        let before = insert_all(entries, keys.drop_last(), change);
        if has_key(before, keys.last()) {
            before
        } else {
            before.push((keys.last(), change))
        }
    }
}

/// No two entries share a node.
pub open spec fn keys_unique(entries: Seq<(NodeRef, ChangeType)>) -> bool {
    forall|i: int, j: int|
        0 <= i < j < entries.len() ==> (#[trigger] entries[i]).0 != (#[trigger] entries[j]).0
}

pub open spec fn refs(side: Side, ids: Seq<usize>) -> Seq<NodeRef> {
    ids.map_values(|id: usize| NodeRef { side, id })
}

/// The classification of a hunk's novel nodes: left nodes first, each as
/// deleted, then right nodes, each as added, every node once.
pub open spec fn tags(lhs_nodes: Seq<usize>, rhs_nodes: Seq<usize>) -> Seq<(NodeRef, ChangeType)> {
    insert_all(
        insert_all(Seq::empty(), refs(Side::Lhs, lhs_nodes), ChangeType::Deleted),
        refs(Side::Rhs, rhs_nodes),
        ChangeType::Added,
    )
}

/// The category the classifier gives a node of each side.
pub open spec fn side_change(side: Side) -> ChangeType {
    match side {
        Side::Lhs => ChangeType::Deleted,
        Side::Rhs => ChangeType::Added,
    }
}

fn contains_key(entries: &Vec<(NodeRef, ChangeType)>, key: NodeRef) -> (r: bool)
    ensures
        r == has_key(entries@, key),
{
    let mut i: usize = 0;
    while i < entries.len()
        invariant
            i <= entries@.len(),
            forall|k: int| 0 <= k < i ==> (#[trigger] entries@[k]).0 != key,
        decreases entries@.len() - i,
    {
        if entries[i].0 == key {
            return true;
        }
        i = i + 1;
    }
    false
}

fn insert_side(entries: &mut Vec<(NodeRef, ChangeType)>, side: Side, ids: &Vec<usize>)
    requires
        forall|k: int| 0 <= k < old(entries)@.len() ==> (#[trigger] old(entries)@[k]).1 == side_change(
            old(entries)@[k].0.side,
        ),
        keys_unique(old(entries)@),
    ensures
        keys_unique(final(entries)@),
        final(entries)@ == insert_all(old(entries)@, refs(side, ids@), side_change(side)),
        forall|k: int| 0 <= k < final(entries)@.len() ==> (#[trigger] final(entries)@[k]).1 == side_change(
            final(entries)@[k].0.side,
        ),
{
    let ghost start = entries@;
    let change = match side {
        Side::Lhs => ChangeType::Deleted,
        Side::Rhs => ChangeType::Added,
    };
    let mut i: usize = 0;
    while i < ids.len()
        invariant
            i <= ids@.len(),
            change == side_change(side),
            entries@ == insert_all(start, refs(side, ids@.subrange(0, i as int)), change),
            keys_unique(entries@),
            forall|k: int| 0 <= k < entries@.len() ==> (#[trigger] entries@[k]).1 == side_change(
                entries@[k].0.side,
            ),
        decreases ids@.len() - i,
    {
        let key = NodeRef { side, id: ids[i] };
        proof {
            let next = refs(side, ids@.subrange(0, i + 1));
            assert(next.drop_last() =~= refs(side, ids@.subrange(0, i as int)));
            assert(next.last() == key);
        }
        if !contains_key(entries, key) {
            entries.push((key, change));
        }
        i = i + 1;
    }
    assert(ids@.subrange(0, ids@.len() as int) =~= ids@);
}

/// Classifies a hunk's novel nodes without aligning them: each left node is
/// deleted and each right node added, every node listed once in the order it
/// first appears, left nodes first.
pub fn tag_change_type(lhs_nodes: &Vec<usize>, rhs_nodes: &Vec<usize>) -> (r: Vec<(NodeRef, ChangeType)>)
    ensures
        r@ == tags(lhs_nodes@, rhs_nodes@),
        keys_unique(r@),
        forall|k: int| 0 <= k < r@.len() ==> (#[trigger] r@[k]).1 == side_change(r@[k].0.side),
{
    let mut change_type_map: Vec<(NodeRef, ChangeType)> = Vec::new();
    insert_side(&mut change_type_map, Side::Lhs, lhs_nodes);
    insert_side(&mut change_type_map, Side::Rhs, rhs_nodes);
    change_type_map
}

/// The node has a parent and a grandparent.
pub open spec fn has_grandparent(t: ConcreteTree, n: int) -> bool {
    &&& t.parent_of(n) is Some
    &&& t.parent_of(t.parent_of(n)->0 as int) is Some
}

/// The number of steps from the node up to the root.
pub open spec fn depth(t: ConcreteTree, n: int) -> nat
    decreases n,
{
    match t.parent_of(n) {
        // A parent comes before its child in a well-formed arena.
        Some(p) => if 0 <= p < n {
            1 + depth(t, p as int)
        } else {
            0
        },
        None => 0,
    }
}

/// The kind of the node's parent. The node must not be the root.
pub fn get_parent_kind<'a>(tree: &'a ConcreteTree, node: usize) -> (r: &'a str)
    requires
        tree.wf(),
        node < tree.len(),
        tree.parent_of(node as int) is Some,
    ensures
        r@ == tree.kind_of(tree.parent_of(node as int)->0 as int),
{
    let parent = tree.nodes[node].parent.unwrap();
    assert(parent < node);
    tree.nodes[parent].kind.as_str()
}

/// The kind of the node's grandparent. The node must be neither the root nor
/// a child of the root.
pub fn get_grandparent_kind<'a>(tree: &'a ConcreteTree, node: usize) -> (r: &'a str)
    requires
        tree.wf(),
        node < tree.len(),
        has_grandparent(*tree, node as int),
    ensures
        r@ == tree.kind_of(tree.parent_of(tree.parent_of(node as int)->0 as int)->0 as int),
{
    let parent = tree.nodes[node].parent.unwrap();
    assert(parent < node);
    let grandparent = tree.nodes[parent].parent.unwrap();
    assert(grandparent < parent);
    tree.nodes[grandparent].kind.as_str()
}

/// A node at depth two or more has a parent and a grandparent, and both
/// kinds are non-empty names.
pub proof fn lemma_context_of_deep_node(t: ConcreteTree, n: int)
    requires
        t.wf(),
        0 <= n < t.len(),
        depth(t, n) >= 2,
    ensures
        has_grandparent(t, n),
        t.kind_of(t.parent_of(n)->0 as int).len() > 0,
        t.kind_of(t.parent_of(t.parent_of(n)->0 as int)->0 as int).len() > 0,
{
    let p = t.parent_of(n)->0 as int;
    assert(0 <= p < n);
    assert(depth(t, p) >= 1);
    assert(t.parent_of(p) is Some);
    let g = t.parent_of(p)->0 as int;
    assert(0 <= g < p);
}

/// One feature row: where the change was seen, its category, and the kinds of
/// the node's parent and grandparent.
#[derive(Debug)]
pub struct FeatureRecord {
    pub repo_id: String,
    pub revision_id: String,
    pub change: ChangeType,
    pub parent_kind: String,
    pub grandparent_kind: String,
}

/// Builds the feature record of a classified node.
pub fn feature_record(
    repo_id: &str,
    revision_id: &str,
    tree: &ConcreteTree,
    node: usize,
    change: ChangeType,
) -> (r: FeatureRecord)
    requires
        tree.wf(),
        node < tree.len(),
        has_grandparent(*tree, node as int),
    ensures
        r.repo_id@ == repo_id@,
        r.revision_id@ == revision_id@,
        r.change == change,
        r.parent_kind@ == tree.kind_of(tree.parent_of(node as int)->0 as int),
        r.grandparent_kind@ == tree.kind_of(
            tree.parent_of(tree.parent_of(node as int)->0 as int)->0 as int,
        ),
{
    FeatureRecord {
        repo_id: repo_id.to_owned(),
        revision_id: revision_id.to_owned(),
        change,
        parent_kind: get_parent_kind(tree, node).to_owned(),
        grandparent_kind: get_grandparent_kind(tree, node).to_owned(),
    }
}

/// Why a hunk yields no feature records.
#[derive(Clone, Copy, Debug, PartialEq, Eq, Structural)]
pub enum FeatureError {
    /// A novel position resolves to no node of its side's tree.
    PositionNotFound { side: Side, pos: SingleLineSpan },
    /// A classified node lacks a parent or a grandparent.
    AncestorAbsent { node: NodeRef },
}

/// The novel positions of the given lines, line after line.
pub open spec fn line_positions(positions: Seq<MatchedPos>, lines: Seq<LineNumber>) -> Seq<MatchedPos>
    decreases lines.len(),
{
    if lines.len() == 0 {
        Seq::empty()
    } else {
        line_positions(positions, lines.drop_last()) + novel_positions(positions, lines.last())
    }
}

/// Every position resolves to a node of `t`, searching from the root.
pub open spec fn all_resolve(t: ConcreteTree, ps: Seq<MatchedPos>) -> bool {
    forall|k: int| 0 <= k < ps.len() ==> (#[trigger] resolve_node(t, ps[k].pos, 0)) is Some
}

/// The nodes the positions resolve to, in order.
pub open spec fn resolved(t: ConcreteTree, ps: Seq<MatchedPos>) -> Seq<usize> {
    ps.map_values(|p: MatchedPos| resolve_node(t, p.pos, 0)->0)
}

/// `pos` is the first of `ps` that resolves to no node.
pub open spec fn first_unresolved(t: ConcreteTree, ps: Seq<MatchedPos>, pos: SingleLineSpan) -> bool {
    exists|k: int|
        0 <= k < ps.len() && ps[k].pos == pos && (#[trigger] resolve_node(t, ps[k].pos, 0)) is None
            && forall|j: int| 0 <= j < k ==> (#[trigger] resolve_node(t, ps[j].pos, 0)) is Some
}

fn positions_of_lines(positions: &Vec<MatchedPos>, lines: &Vec<LineNumber>) -> (r: Vec<MatchedPos>)
    ensures
        r@ == line_positions(positions@, lines@),
{
    let mut all: Vec<MatchedPos> = Vec::new();
    let mut i: usize = 0;
    while i < lines.len()
        invariant
            i <= lines@.len(),
            all@ == line_positions(positions@, lines@.subrange(0, i as int)),
        decreases lines@.len() - i,
    {
        let mut on_line = get_novel_nodes(positions, lines[i]);
        proof {
            let next = lines@.subrange(0, i + 1);
            assert(next.drop_last() =~= lines@.subrange(0, i as int));
            assert(next.last() == lines@[i as int]);
        }
        all.append(&mut on_line);
        i = i + 1;
    }
    assert(lines@.subrange(0, lines@.len() as int) =~= lines@);
    all
}

fn resolve_all(ps: &Vec<MatchedPos>, tree: &ConcreteTree, side: Side) -> (r: Result<
    Vec<usize>,
    FeatureError,
>)
    requires
        tree.wf(),
    ensures
        match r {
            Ok(ids) => all_resolve(*tree, ps@) && ids@ == resolved(*tree, ps@),
            Err(e) => !all_resolve(*tree, ps@) && (e matches FeatureError::PositionNotFound {
                side: s,
                pos,
            } && s == side && first_unresolved(*tree, ps@, pos)),
        },
{
    let mut ids: Vec<usize> = Vec::new();
    let mut i: usize = 0;
    while i < ps.len()
        invariant
            tree.wf(),
            i <= ps@.len(),
            forall|j: int| 0 <= j < i ==> (#[trigger] resolve_node(*tree, ps@[j].pos, 0)) is Some,
            ids@ == resolved(*tree, ps@.subrange(0, i as int)),
        decreases ps@.len() - i,
    {
        match matched_pos_to_tree_node(&ps[i], tree, 0) {
            Some(id) => {
                ids.push(id);
                assert(ids@ =~= resolved(*tree, ps@.subrange(0, i + 1)));
            },
            None => {
                assert(resolve_node(*tree, ps@[i as int].pos, 0) is None);
                return Err(FeatureError::PositionNotFound { side, pos: ps[i].pos });
            },
        }
        i = i + 1;
    }
    assert(ps@.subrange(0, ps@.len() as int) =~= ps@);
    Ok(ids)
}

/// Resolves every novel position of the hunk against its side's tree and
/// classifies the nodes found. Fails on the first position, left side first,
/// that resolves to no node.
pub fn classify_hunk(
    lhs_positions: &Vec<MatchedPos>,
    rhs_positions: &Vec<MatchedPos>,
    hunk: &Hunk,
    lhs_tree: &ConcreteTree,
    rhs_tree: &ConcreteTree,
) -> (r: Result<Vec<(NodeRef, ChangeType)>, FeatureError>)
    requires
        lhs_tree.wf(),
        rhs_tree.wf(),
    ensures
        ({
            let lps = line_positions(lhs_positions@, hunk.novel_lhs@);
            let rps = line_positions(rhs_positions@, hunk.novel_rhs@);
            match r {
                Ok(tagged) => all_resolve(*lhs_tree, lps) && all_resolve(*rhs_tree, rps) && tagged@
                    == tags(resolved(*lhs_tree, lps), resolved(*rhs_tree, rps)),
                Err(e) => match e {
                    FeatureError::PositionNotFound { side: Side::Lhs, pos } => first_unresolved(
                        *lhs_tree,
                        lps,
                        pos,
                    ),
                    FeatureError::PositionNotFound { side: Side::Rhs, pos } => all_resolve(
                        *lhs_tree,
                        lps,
                    ) && first_unresolved(*rhs_tree, rps, pos),
                    FeatureError::AncestorAbsent { .. } => false,
                },
            }
        }),
{
    let lps = positions_of_lines(lhs_positions, &hunk.novel_lhs);
    let rps = positions_of_lines(rhs_positions, &hunk.novel_rhs);
    let lhs_nodes = match resolve_all(&lps, lhs_tree, Side::Lhs) {
        Ok(ids) => ids,
        Err(e) => {
            return Err(e);
        },
    };
    let rhs_nodes = match resolve_all(&rps, rhs_tree, Side::Rhs) {
        Ok(ids) => ids,
        Err(e) => {
            return Err(e);
        },
    };
    Ok(tag_change_type(&lhs_nodes, &rhs_nodes))
}

/// The tree that holds nodes of the given side.
pub open spec fn side_tree(side: Side, lhs_tree: ConcreteTree, rhs_tree: ConcreteTree) -> ConcreteTree {
    match side {
        Side::Lhs => lhs_tree,
        Side::Rhs => rhs_tree,
    }
}

/// Every node names a node of its side's tree.
pub open spec fn refs_in(
    tagged: Seq<(NodeRef, ChangeType)>,
    lhs_tree: ConcreteTree,
    rhs_tree: ConcreteTree,
) -> bool {
    forall|k: int|
        0 <= k < tagged.len() ==> (#[trigger] tagged[k]).0.id < side_tree(
            tagged[k].0.side,
            lhs_tree,
            rhs_tree,
        ).len()
}

/// The record holds the node's category and its context in its side's tree.
pub open spec fn describes(
    record: FeatureRecord,
    repo_id: Seq<char>,
    revision_id: Seq<char>,
    entry: (NodeRef, ChangeType),
    lhs_tree: ConcreteTree,
    rhs_tree: ConcreteTree,
) -> bool {
    let t = side_tree(entry.0.side, lhs_tree, rhs_tree);
    let parent = t.parent_of(entry.0.id as int)->0 as int;
    &&& record.repo_id@ == repo_id
    &&& record.revision_id@ == revision_id
    &&& record.change == entry.1
    &&& record.parent_kind@ == t.kind_of(parent)
    &&& record.grandparent_kind@ == t.kind_of(t.parent_of(parent)->0 as int)
}

/// Derives one feature record per classified node, in order. Fails, before
/// deriving any record, when some node lacks a parent or a grandparent.
pub fn feature_records(
    repo_id: &str,
    revision_id: &str,
    lhs_tree: &ConcreteTree,
    rhs_tree: &ConcreteTree,
    tagged: &Vec<(NodeRef, ChangeType)>,
) -> (r: Result<Vec<FeatureRecord>, FeatureError>)
    requires
        lhs_tree.wf(),
        rhs_tree.wf(),
        refs_in(tagged@, *lhs_tree, *rhs_tree),
    ensures
        match r {
            Ok(records) => {
                &&& records@.len() == tagged@.len()
                &&& forall|k: int|
                    0 <= k < tagged@.len() ==> has_grandparent(
                        side_tree(tagged@[k].0.side, *lhs_tree, *rhs_tree),
                        tagged@[k].0.id as int,
                    ) && describes(
                        #[trigger] records@[k],
                        repo_id@,
                        revision_id@,
                        tagged@[k],
                        *lhs_tree,
                        *rhs_tree,
                    )
            },
            Err(e) => (e matches FeatureError::AncestorAbsent { node } && exists|k: int|
                0 <= k < tagged@.len() && (#[trigger] tagged@[k]).0 == node && !has_grandparent(
                    side_tree(node.side, *lhs_tree, *rhs_tree),
                    node.id as int,
                ) && forall|j: int|
                    0 <= j < k ==> has_grandparent(
                        side_tree((#[trigger] tagged@[j]).0.side, *lhs_tree, *rhs_tree),
                        tagged@[j].0.id as int,
                    )),
        },
{
    let mut i: usize = 0;
    while i < tagged.len()
        invariant
            i <= tagged@.len(),
            lhs_tree.wf(),
            rhs_tree.wf(),
            refs_in(tagged@, *lhs_tree, *rhs_tree),
            forall|k: int|
                0 <= k < i ==> has_grandparent(
                    side_tree((#[trigger] tagged@[k]).0.side, *lhs_tree, *rhs_tree),
                    tagged@[k].0.id as int,
                ),
        decreases tagged@.len() - i,
    {
        let node = tagged[i].0;
        let tree = match node.side {
            Side::Lhs => lhs_tree,
            Side::Rhs => rhs_tree,
        };
        assert(node.id < tree.len());
        let has_ancestors = match tree.nodes[node.id].parent {
            Some(p) => {
                assert(tree.wf());
                assert(tree.parent_of(node.id as int) == Some(p));
                assert(p < node.id);
                tree.nodes[p].parent.is_some()
            },
            None => false,
        };
        if !has_ancestors {
            assert(tagged@[i as int].0 == node);
            return Err(FeatureError::AncestorAbsent { node });
        }
        i = i + 1;
    }
    let mut records: Vec<FeatureRecord> = Vec::new();
    let mut i: usize = 0;
    while i < tagged.len()
        invariant
            i <= tagged@.len(),
            lhs_tree.wf(),
            rhs_tree.wf(),
            refs_in(tagged@, *lhs_tree, *rhs_tree),
            forall|k: int|
                0 <= k < tagged@.len() ==> has_grandparent(
                    side_tree((#[trigger] tagged@[k]).0.side, *lhs_tree, *rhs_tree),
                    tagged@[k].0.id as int,
                ),
            records@.len() == i,
            forall|k: int|
                0 <= k < i ==> describes(
                    #[trigger] records@[k],
                    repo_id@,
                    revision_id@,
                    tagged@[k],
                    *lhs_tree,
                    *rhs_tree,
                ),
        decreases tagged@.len() - i,
    {
        let (node, change) = tagged[i];
        let tree = match node.side {
            Side::Lhs => lhs_tree,
            Side::Rhs => rhs_tree,
        };
        assert(node.id < tree.len());
        let record = feature_record(repo_id, revision_id, tree, node.id, change);
        records.push(record);
        i = i + 1;
    }
    Ok(records)
}

} // verus!
