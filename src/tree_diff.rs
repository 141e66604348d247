//! The tree differ: the sibling aligner applied top-down over two trees.
use vstd::prelude::*;
use crate::alignment::{
    align, kinds_of, added_nodes, deleted_nodes, matched_nodes,
    calculate_edit_action, get_node_change_type, table_view,
    lemma_backtrack_in_range, lemma_edit_table_valid, ids_in,
};
use crate::tree::{ConcreteTree, str_equal};
use vstd::string::StringSliceAdditionalSpecFns;

verus! {

/// What to report when a leaf meets a node with children.
#[derive(Clone, Copy, Debug, PartialEq, Eq, Structural)]
pub enum LeafMismatch {
    /// Only the side with children is reported, as wholly added or deleted.
    ReplaceNonLeaf,
    /// The leaf is reported too, as deleted (left) or added (right).
    ReplaceBoth,
}

/// Added nodes of the right tree, deleted nodes of the left tree and updated
/// pairs.
pub struct Edits {
    pub added: Seq<usize>,
    pub deleted: Seq<usize>,
    pub updated: Seq<(usize, usize)>,
}

pub open spec fn no_edits() -> Edits {
    Edits { added: Seq::empty(), deleted: Seq::empty(), updated: Seq::empty() }
}

pub open spec fn join(x: Edits, y: Edits) -> Edits {
    Edits { added: x.added + y.added, deleted: x.deleted + y.deleted, updated: x.updated + y.updated }
}

/// The source bytes that node `n` covers.
pub open spec fn text_of(t: ConcreteTree, src: Seq<u8>, n: int) -> Seq<u8> {
    src.subrange(t.nodes@[n].start_byte as int, t.nodes@[n].end_byte as int)
}

pub open spec fn string_literal_kind() -> Seq<char> {
    "string_literal"@
}

/// The edits between the subtree of `t1` at `r1` and the subtree of `t2` at
/// `r2`. Two leaves, or two string literals, are compared by text; a leaf
/// against a node with children replaces that node; otherwise the children
/// are aligned, their added and deleted nodes reported, and each matched pair
/// compared in turn.
pub open spec fn tree_diff(
    t1: ConcreteTree,
    s1: Seq<u8>,
    t2: ConcreteTree,
    s2: Seq<u8>,
    r1: int,
    r2: int,
    policy: LeafMismatch,
) -> Edits
    decreases t1.len() - r1 + t2.len() - r2, 1int, 0int,
{
    if t1.is_leaf(r1) && t2.is_leaf(r2) {
        if text_of(t1, s1, r1) != text_of(t2, s2, r2) {
            Edits { updated: seq![(r1 as usize, r2 as usize)], ..no_edits() }
        } else {
            no_edits()
        }
    } else if t1.is_leaf(r1) {
        if policy == LeafMismatch::ReplaceBoth {
            Edits { added: seq![r2 as usize], deleted: seq![r1 as usize], ..no_edits() }
        } else {
            Edits { added: seq![r2 as usize], ..no_edits() }
        }
    } else if t2.is_leaf(r2) {
        if policy == LeafMismatch::ReplaceBoth {
            Edits { added: seq![r2 as usize], deleted: seq![r1 as usize], ..no_edits() }
        } else {
            Edits { deleted: seq![r1 as usize], ..no_edits() }
        }
    } else if t1.kind_of(r1) == string_literal_kind() && t2.kind_of(r2) == string_literal_kind() {
        if text_of(t1, s1, r1) != text_of(t2, s2, r2) {
            Edits { updated: seq![(r1 as usize, r2 as usize)], ..no_edits() }
        } else {
            no_edits()
        }
    } else {
        let ch1 = t1.children_of(r1);
        let ch2 = t2.children_of(r2);
        let s = align(kinds_of(t1, ch1), kinds_of(t2, ch2));
        let pairs = matched_nodes(s, ch1, ch2);
        let own = Edits {
            added: added_nodes(s, ch2),
            deleted: deleted_nodes(s, ch1),
            updated: Seq::empty(),
        };
        join(own, diff_pairs(t1, s1, t2, s2, r1, r2, pairs, pairs.len() as int, policy))
    }
}

/// The edits of the first `k` matched pairs of children of `r1` and `r2`,
/// one after another.
pub open spec fn diff_pairs(
    t1: ConcreteTree,
    s1: Seq<u8>,
    t2: ConcreteTree,
    s2: Seq<u8>,
    r1: int,
    r2: int,
    pairs: Seq<(usize, usize)>,
    k: int,
    policy: LeafMismatch,
) -> Edits
    decreases t1.len() - r1 + t2.len() - r2, 0int, k,
{
    if k <= 0 {
        no_edits()
    } else {
        let before = diff_pairs(t1, s1, t2, s2, r1, r2, pairs, k - 1, policy);
        let p = pairs[k - 1];
        // Children lie after their parent in a well-formed arena.
        if r1 < p.0 < t1.len() && r2 < p.1 < t2.len() {
            join(before, tree_diff(t1, s1, t2, s2, p.0 as int, p.1 as int, policy))
        } else {
            before
        }
    }
}

/// Whether two byte ranges hold the same bytes.
fn same_bytes(a: &[u8], a_start: usize, a_end: usize, b: &[u8], b_start: usize, b_end: usize) -> (r: bool)
    requires
        a_start <= a_end <= a@.len(),
        b_start <= b_end <= b@.len(),
    ensures
        r == (a@.subrange(a_start as int, a_end as int) == b@.subrange(b_start as int, b_end as int)),
{
    if a_end - a_start != b_end - b_start {
        assert(a@.subrange(a_start as int, a_end as int).len() != b@.subrange(b_start as int, b_end as int).len());
        return false;
    }
    let len = a_end - a_start;
    let ghost sa = a@.subrange(a_start as int, a_end as int);
    let ghost sb = b@.subrange(b_start as int, b_end as int);
    let mut i: usize = 0;
    while i < len
        invariant
            len == a_end - a_start,
            len == b_end - b_start,
            a_start <= a_end <= a@.len(),
            b_start <= b_end <= b@.len(),
            i <= len,
            sa == a@.subrange(a_start as int, a_end as int),
            sb == b@.subrange(b_start as int, b_end as int),
            forall|k: int| 0 <= k < i ==> #[trigger] sa[k] == sb[k],
        decreases len - i,
    {
        if a[a_start + i] != b[b_start + i] {
            assert(sa[i as int] != sb[i as int]);
            return false;
        }
        i = i + 1;
    }
    assert(sa =~= sb);
    true
}

/// Whether nodes `n1` of `t1` and `n2` of `t2` cover different text.
fn text_differs(t1: &ConcreteTree, src1: &[u8], n1: usize, t2: &ConcreteTree, src2: &[u8], n2: usize) -> (r: bool)
    requires
        n1 < t1.len(),
        n2 < t2.len(),
        t1.fits(src1@),
        t2.fits(src2@),
    ensures
        r == (text_of(*t1, src1@, n1 as int) != text_of(*t2, src2@, n2 as int)),
{
    let a = &t1.nodes[n1];
    let b = &t2.nodes[n2];
    !same_bytes(src1, a.start_byte, a.end_byte, src2, b.start_byte, b.end_byte)
}

/// Compares the subtree of `lhs_tree` at `lhs_root` with the subtree of
/// `rhs_tree` at `rhs_root`, reporting a leaf met by a node with children as
/// `policy` says.
pub fn tree_to_edit_action_with_policy(
    lhs_tree: &ConcreteTree,
    lhs_root: usize,
    lhs_src: &str,
    rhs_tree: &ConcreteTree,
    rhs_root: usize,
    rhs_src: &str,
    policy: LeafMismatch,
) -> (r: (Vec<usize>, Vec<usize>, Vec<(usize, usize)>))
    requires
        lhs_tree.wf(),
        rhs_tree.wf(),
        lhs_tree.fits(lhs_src.spec_bytes()),
        rhs_tree.fits(rhs_src.spec_bytes()),
        lhs_root < lhs_tree.len(),
        rhs_root < rhs_tree.len(),
    ensures
        ({
            let e = tree_diff(
                *lhs_tree,
                lhs_src.spec_bytes(),
                *rhs_tree,
                rhs_src.spec_bytes(),
                lhs_root as int,
                rhs_root as int,
                policy,
            );
            &&& r.0@ == e.added
            &&& r.1@ == e.deleted
            &&& r.2@ == e.updated
        }),
    decreases lhs_tree.len() - lhs_root + rhs_tree.len() - rhs_root,
{
    let ghost s1 = lhs_src.spec_bytes();
    let ghost s2 = rhs_src.spec_bytes();
    let lhs_bytes = lhs_src.as_bytes();
    let rhs_bytes = rhs_src.as_bytes();
    let mut added: Vec<usize> = Vec::new();
    let mut deleted: Vec<usize> = Vec::new();
    let mut updated: Vec<(usize, usize)> = Vec::new();
    let lhs_child_num = lhs_tree.nodes[lhs_root].children.len();
    let rhs_child_num = rhs_tree.nodes[rhs_root].children.len();
    if lhs_child_num == 0 && rhs_child_num == 0 {
        if text_differs(lhs_tree, lhs_bytes, lhs_root, rhs_tree, rhs_bytes, rhs_root) {
            updated.push((lhs_root, rhs_root));
        }
    } else if lhs_child_num == 0 {
        added.push(rhs_root);
        if policy == LeafMismatch::ReplaceBoth {
            deleted.push(lhs_root);
        }
    } else if rhs_child_num == 0 {
        deleted.push(lhs_root);
        if policy == LeafMismatch::ReplaceBoth {
            added.push(rhs_root);
        }
    } else if str_equal(lhs_tree.nodes[lhs_root].kind.as_str(), "string_literal") && str_equal(
        rhs_tree.nodes[rhs_root].kind.as_str(),
        "string_literal",
    ) {
        if text_differs(lhs_tree, lhs_bytes, lhs_root, rhs_tree, rhs_bytes, rhs_root) {
            updated.push((lhs_root, rhs_root));
        }
    } else {
        let lhs_nodes = &lhs_tree.nodes[lhs_root].children;
        let rhs_nodes = &rhs_tree.nodes[rhs_root].children;
        let ghost ch1 = lhs_tree.children_of(lhs_root as int);
        let ghost ch2 = rhs_tree.children_of(rhs_root as int);
        let ghost sc = align(kinds_of(*lhs_tree, ch1), kinds_of(*rhs_tree, ch2));
        assert(ids_in(*lhs_tree, ch1));
        assert(ids_in(*rhs_tree, ch2));
        let path = calculate_edit_action(lhs_tree, lhs_nodes, rhs_tree, rhs_nodes);
        proof {
            lemma_edit_table_valid(kinds_of(*lhs_tree, ch1), kinds_of(*rhs_tree, ch2));
            lemma_backtrack_in_range(table_view(path), ch1.len(), ch2.len(), ch1.len(), ch2.len());
        }
        let (children_added, children_deleted, children_maybe_updated) = get_node_change_type(
            lhs_nodes,
            rhs_nodes,
            &path,
        );
        added = children_added;
        deleted = children_deleted;
        let ghost pairs = children_maybe_updated@;
        assert(pairs == matched_nodes(sc, ch1, ch2));
        assert forall|k: int| 0 <= k < pairs.len() implies lhs_root < (#[trigger] pairs[k]).0 < lhs_tree.len()
            && rhs_root < pairs[k].1 < rhs_tree.len() by {
            let ij = sc.matched[k];
            assert(pairs[k] == (ch1[ij.0], ch2[ij.1]));
            assert(lhs_tree.children_of(lhs_root as int)[ij.0] == ch1[ij.0]);
            assert(rhs_tree.children_of(rhs_root as int)[ij.1] == ch2[ij.1]);
        }
        let mut k: usize = 0;
        while k < children_maybe_updated.len()
            invariant
                lhs_tree.wf(),
                rhs_tree.wf(),
                lhs_tree.fits(s1),
                rhs_tree.fits(s2),
                s1 == lhs_src.spec_bytes(),
                s2 == rhs_src.spec_bytes(),
                lhs_root < lhs_tree.len(),
                rhs_root < rhs_tree.len(),
                pairs == children_maybe_updated@,
                k <= pairs.len(),
                forall|q: int| 0 <= q < pairs.len() ==> lhs_root < (#[trigger] pairs[q]).0 < lhs_tree.len()
                    && rhs_root < pairs[q].1 < rhs_tree.len(),
                ({
                    let e = join(
                        Edits { added: added_nodes(sc, ch2), deleted: deleted_nodes(sc, ch1), updated: Seq::empty() },
                        diff_pairs(*lhs_tree, s1, *rhs_tree, s2, lhs_root as int, rhs_root as int, pairs, k as int, policy),
                    );
                    &&& added@ == e.added
                    &&& deleted@ == e.deleted
                    &&& updated@ == e.updated
                }),
            decreases pairs.len() - k,
        {
            let (lhs_child_root, rhs_child_root) = children_maybe_updated[k];
            let (mut new_added, mut new_deleted, mut new_updated) = tree_to_edit_action_with_policy(
                lhs_tree,
                lhs_child_root,
                lhs_src,
                rhs_tree,
                rhs_child_root,
                rhs_src,
                policy,
            );
            added.append(&mut new_added);
            deleted.append(&mut new_deleted);
            updated.append(&mut new_updated);
            k = k + 1;
            proof {
                let e0 = Edits { added: added_nodes(sc, ch2), deleted: deleted_nodes(sc, ch1), updated: Seq::empty() };
                let before = diff_pairs(*lhs_tree, s1, *rhs_tree, s2, lhs_root as int, rhs_root as int, pairs, k - 1, policy);
                let d = tree_diff(*lhs_tree, s1, *rhs_tree, s2, pairs[k - 1].0 as int, pairs[k - 1].1 as int, policy);
                assert(diff_pairs(*lhs_tree, s1, *rhs_tree, s2, lhs_root as int, rhs_root as int, pairs, k as int, policy) == join(before, d));
                assert(e0.added + before.added + d.added =~= e0.added + (before.added + d.added));
                assert(e0.deleted + before.deleted + d.deleted =~= e0.deleted + (before.deleted + d.deleted));
                assert(e0.updated + before.updated + d.updated =~= e0.updated + (before.updated + d.updated));
            }
        }
        proof {
            assert(updated@ =~= diff_pairs(*lhs_tree, s1, *rhs_tree, s2, lhs_root as int, rhs_root as int, pairs, pairs.len() as int, policy).updated);
        }
    }
    (added, deleted, updated)
}

/// Compares two subtrees; a leaf met by a node with children is not reported
/// itself, the node with children is reported as wholly added or deleted.
pub fn tree_to_edit_action(
    lhs_tree: &ConcreteTree,
    lhs_root: usize,
    lhs_src: &str,
    rhs_tree: &ConcreteTree,
    rhs_root: usize,
    rhs_src: &str,
) -> (r: (Vec<usize>, Vec<usize>, Vec<(usize, usize)>))
    requires
        lhs_tree.wf(),
        rhs_tree.wf(),
        lhs_tree.fits(lhs_src.spec_bytes()),
        rhs_tree.fits(rhs_src.spec_bytes()),
        lhs_root < lhs_tree.len(),
        rhs_root < rhs_tree.len(),
    ensures
        ({
            let e = tree_diff(
                *lhs_tree,
                lhs_src.spec_bytes(),
                *rhs_tree,
                rhs_src.spec_bytes(),
                lhs_root as int,
                rhs_root as int,
                LeafMismatch::ReplaceNonLeaf,
            );
            &&& r.0@ == e.added
            &&& r.1@ == e.deleted
            &&& r.2@ == e.updated
        }),
{
    tree_to_edit_action_with_policy(
        lhs_tree,
        lhs_root,
        lhs_src,
        rhs_tree,
        rhs_root,
        rhs_src,
        LeafMismatch::ReplaceNonLeaf,
    )
}

/// The subtrees at `n1` and `n2` have the same shape: equal kinds and equal
/// numbers of children at every level, children compared in order.
pub open spec fn same_tree(t1: ConcreteTree, n1: int, t2: ConcreteTree, n2: int) -> bool
    decreases t1.len() - n1 + t2.len() - n2, 1int, 0int,
{
    &&& t1.kind_of(n1) == t2.kind_of(n2)
    &&& t1.children_of(n1).len() == t2.children_of(n2).len()
    &&& same_children(t1, n1, t2, n2, t1.children_of(n1).len() as int)
}

/// The first `k` children of `n1` and `n2` have pairwise the same shape.
pub open spec fn same_children(t1: ConcreteTree, n1: int, t2: ConcreteTree, n2: int, k: int) -> bool
    decreases t1.len() - n1 + t2.len() - n2, 0int, k,
{
    if k <= 0 {
        true
    } else {
        let c1 = t1.children_of(n1)[k - 1] as int;
        let c2 = t2.children_of(n2)[k - 1] as int;
        &&& same_children(t1, n1, t2, n2, k - 1)
        // Children lie after their parent in a well-formed arena.
        &&& n1 < c1 < t1.len()
        &&& n2 < c2 < t2.len()
        &&& same_tree(t1, c1, t2, c2)
    }
}

/// Whether the subtrees at `n1` and `n2` have the same shape.
pub fn is_same_tree(t1: &ConcreteTree, n1: usize, t2: &ConcreteTree, n2: usize) -> (r: bool)
    requires
        t1.wf(),
        t2.wf(),
        n1 < t1.len(),
        n2 < t2.len(),
    ensures
        r == same_tree(*t1, n1 as int, *t2, n2 as int),
    decreases t1.len() - n1 + t2.len() - n2,
{
    let a = &t1.nodes[n1];
    let b = &t2.nodes[n2];
    if a.kind == b.kind && a.children.len() == b.children.len() {
        let count = a.children.len();
        let mut k: usize = 0;
        while k < count
            invariant
                t1.wf(),
                t2.wf(),
                n1 < t1.len(),
                n2 < t2.len(),
                a == t1.nodes@[n1 as int],
                b == t2.nodes@[n2 as int],
                count == a.children@.len(),
                count == b.children@.len(),
                k <= count,
                same_children(*t1, n1 as int, *t2, n2 as int, k as int),
            decreases count - k,
        {
            let c1 = a.children[k];
            let c2 = b.children[k];
            assert(t1.children_of(n1 as int)[k as int] == c1);
            assert(t2.children_of(n2 as int)[k as int] == c2);
            if !is_same_tree(t1, c1, t2, c2) {
                proof {
                    if same_children(*t1, n1 as int, *t2, n2 as int, count as int) {
                        lemma_same_children_prefix(*t1, n1 as int, *t2, n2 as int, k + 1, count as int);
                    }
                }
                return false;
            }
            k = k + 1;
        }
        true
    } else {
        false
    }
}

proof fn lemma_same_children_prefix(t1: ConcreteTree, n1: int, t2: ConcreteTree, n2: int, k: int, l: int)
    requires
        0 <= k <= l,
        same_children(t1, n1, t2, n2, l),
    ensures
        same_children(t1, n1, t2, n2, k),
    decreases l - k,
{
    if k < l {
        lemma_same_children_prefix(t1, n1, t2, n2, k, l - 1);
    }
}

pub open spec fn block_kind() -> Seq<char> {
    "block"@
}

/// The nodes at `n1` and `n2` carry the same label: equal kinds, and either
/// both are blocks or their children's kinds agree one by one.
pub open spec fn same_label(t1: ConcreteTree, n1: int, t2: ConcreteTree, n2: int) -> bool {
    &&& t1.kind_of(n1) == t2.kind_of(n2)
    &&& (t1.kind_of(n1) == block_kind() || {
        &&& t1.children_of(n1).len() == t2.children_of(n2).len()
        &&& forall|k: int|
            0 <= k < t1.children_of(n1).len() ==> t1.kind_of(#[trigger] t1.children_of(n1)[k] as int)
                == t2.kind_of(t2.children_of(n2)[k] as int)
    })
}

/// Whether the nodes at `n1` and `n2` carry the same label.
pub fn is_same_label(t1: &ConcreteTree, n1: usize, t2: &ConcreteTree, n2: usize) -> (r: bool)
    requires
        t1.wf(),
        t2.wf(),
        n1 < t1.len(),
        n2 < t2.len(),
    ensures
        r == same_label(*t1, n1 as int, *t2, n2 as int),
{
    let a = &t1.nodes[n1];
    let b = &t2.nodes[n2];
    if a.kind == b.kind {
        if str_equal(a.kind.as_str(), "block") {
            return true;
        }
        if a.children.len() == b.children.len() {
            let count = a.children.len();
            let mut k: usize = 0;
            while k < count
                invariant
                    t1.wf(),
                    t2.wf(),
                    n1 < t1.len(),
                    n2 < t2.len(),
                    a == t1.nodes@[n1 as int],
                    b == t2.nodes@[n2 as int],
                    count == a.children@.len(),
                    count == b.children@.len(),
                    k <= count,
                    t1.kind_of(n1 as int) == t2.kind_of(n2 as int),
                    t1.kind_of(n1 as int) != block_kind(),
                    forall|q: int|
                        0 <= q < k ==> t1.kind_of(#[trigger] t1.children_of(n1 as int)[q] as int)
                            == t2.kind_of(t2.children_of(n2 as int)[q] as int),
                decreases count - k,
            {
                let c1 = a.children[k];
                let c2 = b.children[k];
                assert(t1.children_of(n1 as int)[k as int] == c1);
                assert(t2.children_of(n2 as int)[k as int] == c2);
                if t1.nodes[c1].kind != t2.nodes[c2].kind {
                    assert(t1.kind_of(t1.children_of(n1 as int)[k as int] as int) != t2.kind_of(
                        t2.children_of(n2 as int)[k as int] as int,
                    ));
                    return false;
                }
                k = k + 1;
            }
            return true;
        }
    }
    false
}

/// Diffing a subtree against itself, over the same text, finds no added,
/// deleted or updated node at any level.
pub proof fn lemma_diff_of_identical_trees(t: ConcreteTree, src: Seq<u8>, r: int, policy: LeafMismatch)
    ensures
        tree_diff(t, src, t, src, r, r, policy) == no_edits(),
    decreases t.len() - r + t.len() - r, 1int, 0int,
{
    if !t.is_leaf(r) && t.kind_of(r) != string_literal_kind() {
        let ch = t.children_of(r);
        let a = kinds_of(t, ch);
        let sc = align(a, a);
        crate::alignment::lemma_alignment_of_identical_kinds(a);
        let pairs = matched_nodes(sc, ch, ch);
        assert forall|q: int| 0 <= q < pairs.len() implies (#[trigger] pairs[q]).0 == pairs[q].1 by {
            assert(sc.matched[q].0 == sc.matched[q].1);
        }
        lemma_diff_pairs_of_identical_trees(t, src, r, pairs, pairs.len() as int, policy);
        let own = Edits { added: added_nodes(sc, ch), deleted: deleted_nodes(sc, ch), updated: Seq::empty() };
        let rest = diff_pairs(t, src, t, src, r, r, pairs, pairs.len() as int, policy);
        assert(join(own, rest).added =~= Seq::empty());
        assert(join(own, rest).deleted =~= Seq::empty());
        assert(join(own, rest).updated =~= Seq::empty());
    }
}

proof fn lemma_diff_pairs_of_identical_trees(
    t: ConcreteTree,
    src: Seq<u8>,
    r: int,
    pairs: Seq<(usize, usize)>,
    k: int,
    policy: LeafMismatch,
)
    requires
        k <= pairs.len(),
        forall|q: int| 0 <= q < pairs.len() ==> (#[trigger] pairs[q]).0 == pairs[q].1,
    ensures
        diff_pairs(t, src, t, src, r, r, pairs, k, policy) == no_edits(),
    decreases t.len() - r + t.len() - r, 0int, k,
{
    if k > 0 {
        lemma_diff_pairs_of_identical_trees(t, src, r, pairs, k - 1, policy);
        let p = pairs[k - 1];
        if r < p.0 < t.len() && r < p.1 < t.len() {
            lemma_diff_of_identical_trees(t, src, p.0 as int, policy);
            let j = join(no_edits(), no_edits());
            assert(j.added =~= Seq::empty());
            assert(j.deleted =~= Seq::empty());
            assert(j.updated =~= Seq::empty());
        }
    }
}

} // verus!
