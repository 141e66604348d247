//! The sibling aligner: a minimum-cost alignment of two sibling sequences.
//!
//! Two siblings of equal kind match at no cost (their contents are compared
//! later, by recursion). Otherwise the cheapest of adding the right node,
//! deleting the left node, or treating the two as an unrelated delete-then-add
//! pair is taken, each at cost one. Ties are broken in the fixed order
//! Added, Deleted, DeletedThenAdded.
use vstd::prelude::*;
use crate::tree::ConcreteTree;

verus! {

/// The change category of a node or of a pair of nodes.
#[derive(Clone, Copy, Debug, PartialEq, Eq, Structural, Hash)]
pub enum ChangeType {
    /// Present on the right side only.
    Added,
    /// Present on the left side only.
    Deleted,
    /// Matched by kind; the contents are compared by recursion.
    MaybeUpdated,
    /// No structural correspondence: an independent delete and add.
    DeletedThenAdded,
}

impl ChangeType {
    /// The label written into feature records. The spelling of the
    /// delete-then-add label is kept as existing feature files hold it.
    pub open spec fn spec_label(self) -> Seq<char> {
        match self {
            ChangeType::Added => "Added"@,
            ChangeType::Deleted => "Deleted"@,
            ChangeType::MaybeUpdated => "MaybeUpdated"@,
            ChangeType::DeletedThenAdded => "DeltedThenAdded"@,
        }
    }

    pub fn label(&self) -> (r: &'static str)
        ensures
            r@ == self.spec_label(),
    {
        match self {
            ChangeType::Added => "Added",
            ChangeType::Deleted => "Deleted",
            ChangeType::MaybeUpdated => "MaybeUpdated",
            ChangeType::DeletedThenAdded => "DeltedThenAdded",
        }
    }
}

/// The kinds of the given nodes of `t`, in order.
pub open spec fn kinds_of(t: ConcreteTree, ids: Seq<usize>) -> Seq<Seq<char>> {
    ids.map_values(|id: usize| t.kind_of(id as int))
}

/// All ids name nodes of `t`.
pub open spec fn ids_in(t: ConcreteTree, ids: Seq<usize>) -> bool {
    forall|k: int| 0 <= k < ids.len() ==> #[trigger] ids[k] < t.len()
}

/// The minimal cost of aligning the first `i` kinds of `a` with the first `j`
/// kinds of `b`: adds and deletes cost one each, a delete-then-add pair costs
/// one, and a match of equal kinds costs nothing.
pub open spec fn edit_cost(a: Seq<Seq<char>>, b: Seq<Seq<char>>, i: nat, j: nat) -> nat
    decreases i + j,
{
    if i == 0 {
        j
    } else if j == 0 {
        i
    } else if a[i - 1] == b[j - 1] {
        edit_cost(a, b, (i - 1) as nat, (j - 1) as nat)
    } else {
        let add = edit_cost(a, b, i, (j - 1) as nat);
        let del = edit_cost(a, b, (i - 1) as nat, j);
        let rep = edit_cost(a, b, (i - 1) as nat, (j - 1) as nat);
        if add <= del && add <= rep {
            add + 1
        } else if del <= add && del <= rep {
            del + 1
        } else {
            rep + 1
        }
    }
}

/// The operation stored at cell `(i, j)` of the backtrack table.
pub open spec fn edit_op(a: Seq<Seq<char>>, b: Seq<Seq<char>>, i: nat, j: nat) -> ChangeType {
    if j == 0 {
        ChangeType::Deleted
    } else if i == 0 {
        ChangeType::Added
    } else if a[i - 1] == b[j - 1] {
        ChangeType::MaybeUpdated
    } else {
        let add = edit_cost(a, b, i, (j - 1) as nat);
        let del = edit_cost(a, b, (i - 1) as nat, j);
        let rep = edit_cost(a, b, (i - 1) as nat, (j - 1) as nat);
        if add <= del && add <= rep {
            ChangeType::Added
        } else if del <= add && del <= rep {
            ChangeType::Deleted
        } else {
            ChangeType::DeletedThenAdded
        }
    }
}

/// The whole `(a.len() + 1) x (b.len() + 1)` backtrack table.
pub open spec fn edit_table(a: Seq<Seq<char>>, b: Seq<Seq<char>>) -> Seq<Seq<ChangeType>> {
    Seq::new(
        (a.len() + 1) as nat,
        |i: int| Seq::new((b.len() + 1) as nat, |j: int| edit_op(a, b, i as nat, j as nat)),
    )
}

/// The view of an executable table.
pub open spec fn table_view(path: Vec<Vec<ChangeType>>) -> Seq<Seq<ChangeType>> {
    path@.map_values(|row: Vec<ChangeType>| row@)
}

/// `path` is an `(n + 1) x (m + 1)` table whose first column (below the
/// corner) deletes and whose first row (right of the corner) adds, so that
/// backtracking from any cell reaches `(0, 0)`.
pub open spec fn valid_table(path: Seq<Seq<ChangeType>>, n: nat, m: nat) -> bool {
    &&& path.len() == n + 1
    &&& forall|i: int| 0 <= i <= n ==> (#[trigger] path[i]).len() == m + 1
    &&& forall|i: int| 0 < i <= n ==> #[trigger] path[i][0] == ChangeType::Deleted
    &&& forall|j: int| 0 < j <= m ==> #[trigger] path[0][j] == ChangeType::Added
}

/// An edit script over indices: added indices of the right sequence, deleted
/// indices of the left one, and matched pairs, each in backtracking order.
pub struct IndexScript {
    pub added: Seq<int>,
    pub deleted: Seq<int>,
    pub matched: Seq<(int, int)>,
}

pub open spec fn empty_script() -> IndexScript {
    IndexScript { added: Seq::empty(), deleted: Seq::empty(), matched: Seq::empty() }
}

/// The script read off `path` by walking back from `(i, j)` to `(0, 0)`.
pub open spec fn backtrack(path: Seq<Seq<ChangeType>>, i: nat, j: nat) -> IndexScript
    decreases i + j,
{
    if i == 0 && j == 0 {
        empty_script()
    } else {
        let op = path[i as int][j as int];
        if op == ChangeType::Added && j > 0 {
            let s = backtrack(path, i, (j - 1) as nat);
            IndexScript { added: seq![j - 1] + s.added, ..s }
        } else if op == ChangeType::Deleted && i > 0 {
            let s = backtrack(path, (i - 1) as nat, j);
            IndexScript { deleted: seq![i - 1] + s.deleted, ..s }
        } else if op == ChangeType::DeletedThenAdded && i > 0 && j > 0 {
            let s = backtrack(path, (i - 1) as nat, (j - 1) as nat);
            IndexScript { added: seq![j - 1] + s.added, deleted: seq![i - 1] + s.deleted, ..s }
        } else if op == ChangeType::MaybeUpdated && i > 0 && j > 0 {
            let s = backtrack(path, (i - 1) as nat, (j - 1) as nat);
            IndexScript { matched: seq![(i - 1, j - 1)] + s.matched, ..s }
        } else {
            empty_script()
        }
    }
}

/// The edit script of two kind sequences.
pub open spec fn align(a: Seq<Seq<char>>, b: Seq<Seq<char>>) -> IndexScript {
    backtrack(edit_table(a, b), a.len(), b.len())
}

pub open spec fn lefts(pairs: Seq<(int, int)>) -> Seq<int> {
    pairs.map_values(|p: (int, int)| p.0)
}

pub open spec fn rights(pairs: Seq<(int, int)>) -> Seq<int> {
    pairs.map_values(|p: (int, int)| p.1)
}

/// The whole `(a.len() + 1) x (b.len() + 1)` table of minimal costs.
pub open spec fn cost_table(a: Seq<Seq<char>>, b: Seq<Seq<char>>) -> Seq<Seq<nat>> {
    Seq::new(
        (a.len() + 1) as nat,
        |i: int| Seq::new((b.len() + 1) as nat, |j: int| edit_cost(a, b, i as nat, j as nat)),
    )
}

/// The view of an executable cost table.
pub open spec fn costs_view(cost: Vec<Vec<usize>>) -> Seq<Seq<nat>> {
    cost@.map_values(|row: Vec<usize>| row@.map_values(|c: usize| c as nat))
}

/// Fills the backtrack table and the minimal-cost table of two sibling
/// sequences: cell `(i, j)` holds the cost of the cheapest alignment of the
/// first `i` left nodes with the first `j` right nodes, and the operation that
/// ends it.
pub fn edit_tables(
    lhs_tree: &ConcreteTree,
    nodes_1: &Vec<usize>,
    rhs_tree: &ConcreteTree,
    nodes_2: &Vec<usize>,
) -> (r: (Vec<Vec<ChangeType>>, Vec<Vec<usize>>))
    requires
        ids_in(*lhs_tree, nodes_1@),
        ids_in(*rhs_tree, nodes_2@),
    ensures
        table_view(r.0) == edit_table(kinds_of(*lhs_tree, nodes_1@), kinds_of(*rhs_tree, nodes_2@)),
        costs_view(r.1) == cost_table(kinds_of(*lhs_tree, nodes_1@), kinds_of(*rhs_tree, nodes_2@)),
{
    let ghost a = kinds_of(*lhs_tree, nodes_1@);
    let ghost b = kinds_of(*rhs_tree, nodes_2@);
    let n = nodes_1.len();
    let m = nodes_2.len();
    let mut path: Vec<Vec<ChangeType>> = Vec::new();
    let mut cost: Vec<Vec<usize>> = Vec::new();
    let mut first_cost: Vec<usize> = Vec::new();
    let mut first: Vec<ChangeType> = Vec::new();
    first_cost.push(0);
    first.push(ChangeType::Deleted);
    let mut j: usize = 0;
    while j < m
        invariant
            j <= m,
            first_cost@.len() == j + 1,
            first@.len() == j + 1,
            forall|k: int| 0 <= k <= j ==> #[trigger] first_cost@[k] == edit_cost(a, b, 0, k as nat),
            forall|k: int| 0 <= k <= j ==> #[trigger] first@[k] == edit_op(a, b, 0, k as nat),
        decreases m - j,
    {
        first_cost.push(j + 1);
        first.push(ChangeType::Added);
        j = j + 1;
    }
    path.push(first);
    cost.push(first_cost);
    let mut i: usize = 0;
    while i < n
        invariant
            i <= n,
            n == nodes_1@.len(),
            m == nodes_2@.len(),
            a == kinds_of(*lhs_tree, nodes_1@),
            b == kinds_of(*rhs_tree, nodes_2@),
            ids_in(*lhs_tree, nodes_1@),
            ids_in(*rhs_tree, nodes_2@),
            path@.len() == i + 1,
            cost@.len() == i + 1,
            forall|r: int| 0 <= r <= i ==> (#[trigger] path@[r])@.len() == m + 1,
            forall|r: int| 0 <= r <= i ==> (#[trigger] cost@[r])@.len() == m + 1,
            forall|r: int, k: int|
                0 <= r <= i && 0 <= k <= m ==> #[trigger] path@[r]@[k] == edit_op(
                    a,
                    b,
                    r as nat,
                    k as nat,
                ),
            forall|r: int, k: int|
                0 <= r <= i && 0 <= k <= m ==> #[trigger] cost@[r]@[k] == edit_cost(
                    a,
                    b,
                    r as nat,
                    k as nat,
                ),
        decreases n - i,
    {
        let prev = &cost[i];
        let mut cur: Vec<usize> = Vec::new();
        let mut row: Vec<ChangeType> = Vec::new();
        cur.push(i + 1);
        row.push(ChangeType::Deleted);
        let mut j: usize = 0;
        while j < m
            invariant
                i < n,
                j <= m,
                n == nodes_1@.len(),
                m == nodes_2@.len(),
                a == kinds_of(*lhs_tree, nodes_1@),
                b == kinds_of(*rhs_tree, nodes_2@),
                ids_in(*lhs_tree, nodes_1@),
                ids_in(*rhs_tree, nodes_2@),
                cur@.len() == j + 1,
                row@.len() == j + 1,
                forall|k: int| 0 <= k <= j ==> #[trigger] cur@[k] == edit_cost(a, b, (i + 1) as nat, k as nat),
                forall|k: int| 0 <= k <= j ==> #[trigger] row@[k] == edit_op(a, b, (i + 1) as nat, k as nat),
                prev@.len() == m + 1,
                forall|k: int| 0 <= k <= m ==> #[trigger] prev@[k] == edit_cost(a, b, i as nat, k as nat),
            decreases m - j,
        {
            let same = lhs_tree.nodes[nodes_1[i]].kind == rhs_tree.nodes[nodes_2[j]].kind;
            assert(same == (a[i as int] == b[j as int]));
            if same {
                cur.push(prev[j]);
                row.push(ChangeType::MaybeUpdated);
            } else {
                let add = cur[j];
                let del = prev[j + 1];
                let rep = prev[j];
                proof {
                    lemma_edit_cost_bound(a, b, i as nat, j as nat);
                }
                if add <= del && add <= rep {
                    cur.push(add + 1);
                    row.push(ChangeType::Added);
                } else if del <= add && del <= rep {
                    cur.push(del + 1);
                    row.push(ChangeType::Deleted);
                } else {
                    cur.push(rep + 1);
                    row.push(ChangeType::DeletedThenAdded);
                }
            }
            j = j + 1;
        }
        path.push(row);
        cost.push(cur);
        i = i + 1;
    }
    assert(table_view(path) =~= edit_table(a, b)) by {
        assert forall|r: int| 0 <= r <= n implies #[trigger] table_view(path)[r] =~= edit_table(a, b)[r] by {
            assert(table_view(path)[r] == path@[r]@);
        }
    }
    assert(costs_view(cost) =~= cost_table(a, b)) by {
        assert forall|r: int| 0 <= r <= n implies #[trigger] costs_view(cost)[r] =~= cost_table(a, b)[r] by {
            assert(costs_view(cost)[r] == cost@[r]@.map_values(|c: usize| c as nat));
        }
    }
    (path, cost)
}

/// Fills the backtrack table of two sibling sequences: cell `(i, j)` holds
/// the operation that ends the cheapest alignment of the first `i` left nodes
/// with the first `j` right nodes.
pub fn calculate_edit_action(
    lhs_tree: &ConcreteTree,
    nodes_1: &Vec<usize>,
    rhs_tree: &ConcreteTree,
    nodes_2: &Vec<usize>,
) -> (path: Vec<Vec<ChangeType>>)
    requires
        ids_in(*lhs_tree, nodes_1@),
        ids_in(*rhs_tree, nodes_2@),
    ensures
        table_view(path) == edit_table(kinds_of(*lhs_tree, nodes_1@), kinds_of(*rhs_tree, nodes_2@)),
{
    let (path, _) = edit_tables(lhs_tree, nodes_1, rhs_tree, nodes_2);
    path
}

/// The nodes a script over indices names.
pub open spec fn added_nodes(s: IndexScript, nodes_2: Seq<usize>) -> Seq<usize> {
    s.added.map_values(|k: int| nodes_2[k])
}

pub open spec fn deleted_nodes(s: IndexScript, nodes_1: Seq<usize>) -> Seq<usize> {
    s.deleted.map_values(|k: int| nodes_1[k])
}

pub open spec fn matched_nodes(s: IndexScript, nodes_1: Seq<usize>, nodes_2: Seq<usize>) -> Seq<
    (usize, usize),
> {
    s.matched.map_values(|p: (int, int)| (nodes_1[p.0], nodes_2[p.1]))
}

/// Walks `path` back from its last cell to `(0, 0)` and returns the added,
/// deleted and maybe-updated nodes, in that walking order.
pub fn get_node_change_type(
    nodes_1: &Vec<usize>,
    nodes_2: &Vec<usize>,
    path: &Vec<Vec<ChangeType>>,
) -> (r: (Vec<usize>, Vec<usize>, Vec<(usize, usize)>))
    requires
        valid_table(table_view(*path), nodes_1@.len(), nodes_2@.len()),
    ensures
        ({
            let s = backtrack(table_view(*path), nodes_1@.len(), nodes_2@.len());
            &&& r.0@ == added_nodes(s, nodes_2@)
            &&& r.1@ == deleted_nodes(s, nodes_1@)
            &&& r.2@ == matched_nodes(s, nodes_1@, nodes_2@)
        }),
{
    let ghost t = table_view(*path);
    let ghost n = nodes_1@.len();
    let ghost m = nodes_2@.len();
    let ghost whole = backtrack(t, n, m);
    let mut added: Vec<usize> = Vec::new();
    let mut deleted: Vec<usize> = Vec::new();
    let mut maybe_updated: Vec<(usize, usize)> = Vec::new();
    let mut i = nodes_1.len();
    let mut j = nodes_2.len();
    let ghost mut ga: Seq<int> = Seq::empty();
    let ghost mut gd: Seq<int> = Seq::empty();
    let ghost mut gm: Seq<(int, int)> = Seq::empty();
    proof {
        lemma_backtrack_in_range(t, n, m, n, m);
    }
    while i > 0 || j > 0
        invariant
            t == table_view(*path),
            valid_table(t, n, m),
            n == nodes_1@.len(),
            m == nodes_2@.len(),
            whole == backtrack(t, n, m),
            i <= n,
            j <= m,
            ga + backtrack(t, i as nat, j as nat).added == whole.added,
            gd + backtrack(t, i as nat, j as nat).deleted == whole.deleted,
            gm + backtrack(t, i as nat, j as nat).matched == whole.matched,
            forall|k: int| 0 <= k < whole.added.len() ==> 0 <= #[trigger] whole.added[k] < m,
            forall|k: int| 0 <= k < whole.deleted.len() ==> 0 <= #[trigger] whole.deleted[k] < n,
            forall|k: int|
                0 <= k < whole.matched.len() ==> 0 <= (#[trigger] whole.matched[k]).0 < n && 0
                    <= whole.matched[k].1 < m,
            added@ == ga.map_values(|k: int| nodes_2@[k]),
            deleted@ == gd.map_values(|k: int| nodes_1@[k]),
            maybe_updated@ == gm.map_values(|p: (int, int)| (nodes_1@[p.0], nodes_2@[p.1])),
        decreases i + j,
    {
        let ghost s = backtrack(t, i as nat, j as nat);
        assert(t[i as int] == path@[i as int]@);
        let op = path[i][j];
        match op {
            ChangeType::Added => {
                j = j - 1;
                added.push(nodes_2[j]);
                proof {
                    assert(s.added == seq![j as int] + backtrack(t, i as nat, j as nat).added);
                    assert(s.deleted == backtrack(t, i as nat, j as nat).deleted);
                    assert(s.matched == backtrack(t, i as nat, j as nat).matched);
                    ga = ga.push(j as int);
                }
            },
            ChangeType::Deleted => {
                i = i - 1;
                deleted.push(nodes_1[i]);
                proof {
                    gd = gd.push(i as int);
                }
            },
            ChangeType::DeletedThenAdded => {
                j = j - 1;
                added.push(nodes_2[j]);
                i = i - 1;
                deleted.push(nodes_1[i]);
                proof {
                    ga = ga.push(j as int);
                    gd = gd.push(i as int);
                }
            },
            ChangeType::MaybeUpdated => {
                i = i - 1;
                j = j - 1;
                maybe_updated.push((nodes_1[i], nodes_2[j]));
                proof {
                    gm = gm.push((i as int, j as int));
                }
            },
        }
        assert(ga + backtrack(t, i as nat, j as nat).added =~= whole.added);
        assert(gd + backtrack(t, i as nat, j as nat).deleted =~= whole.deleted);
        assert(gm + backtrack(t, i as nat, j as nat).matched =~= whole.matched);
        assert(added@ =~= ga.map_values(|k: int| nodes_2@[k]));
        assert(deleted@ =~= gd.map_values(|k: int| nodes_1@[k]));
        assert(maybe_updated@ =~= gm.map_values(|p: (int, int)| (nodes_1@[p.0], nodes_2@[p.1])));
    }
    assert(ga =~= whole.added);
    assert(gd =~= whole.deleted);
    assert(gm =~= whole.matched);
    (added, deleted, maybe_updated)
}

/// Every index in the script read off a valid table from `(i, j)` lies below
/// `i` (left) or `j` (right).
pub(crate) proof fn lemma_backtrack_in_range(path: Seq<Seq<ChangeType>>, n: nat, m: nat, i: nat, j: nat)
    requires
        valid_table(path, n, m),
        i <= n,
        j <= m,
    ensures
        ({
            let s = backtrack(path, i, j);
            &&& forall|k: int| 0 <= k < s.added.len() ==> 0 <= #[trigger] s.added[k] < j
            &&& forall|k: int| 0 <= k < s.deleted.len() ==> 0 <= #[trigger] s.deleted[k] < i
            &&& forall|k: int|
                0 <= k < s.matched.len() ==> 0 <= (#[trigger] s.matched[k]).0 < i && 0
                    <= s.matched[k].1 < j
        }),
    decreases i + j,
{
    if i > 0 || j > 0 {
        let s = backtrack(path, i, j);
        let op = path[i as int][j as int];
        if op == ChangeType::Added && j > 0 {
            lemma_backtrack_in_range(path, n, m, i, (j - 1) as nat);
            let r = backtrack(path, i, (j - 1) as nat);
            assert forall|k: int| 0 <= k < s.added.len() implies 0 <= #[trigger] s.added[k] < j by {
                if k > 0 {
                    assert(s.added[k] == r.added[k - 1]);
                }
            }
        } else if op == ChangeType::Deleted && i > 0 {
            lemma_backtrack_in_range(path, n, m, (i - 1) as nat, j);
            let r = backtrack(path, (i - 1) as nat, j);
            assert forall|k: int| 0 <= k < s.deleted.len() implies 0 <= #[trigger] s.deleted[k]
                < i by {
                if k > 0 {
                    assert(s.deleted[k] == r.deleted[k - 1]);
                }
            }
        } else if op == ChangeType::DeletedThenAdded && i > 0 && j > 0 {
            lemma_backtrack_in_range(path, n, m, (i - 1) as nat, (j - 1) as nat);
            let r = backtrack(path, (i - 1) as nat, (j - 1) as nat);
            assert forall|k: int| 0 <= k < s.added.len() implies 0 <= #[trigger] s.added[k] < j by {
                if k > 0 {
                    assert(s.added[k] == r.added[k - 1]);
                }
            }
            assert forall|k: int| 0 <= k < s.deleted.len() implies 0 <= #[trigger] s.deleted[k]
                < i by {
                if k > 0 {
                    assert(s.deleted[k] == r.deleted[k - 1]);
                }
            }
        } else if op == ChangeType::MaybeUpdated && i > 0 && j > 0 {
            lemma_backtrack_in_range(path, n, m, (i - 1) as nat, (j - 1) as nat);
            let r = backtrack(path, (i - 1) as nat, (j - 1) as nat);
            assert forall|k: int| 0 <= k < s.matched.len() implies 0 <= (
            #[trigger] s.matched[k]).0 < i && 0 <= s.matched[k].1 < j by {
                if k > 0 {
                    assert(s.matched[k] == r.matched[k - 1]);
                }
            }
        }
    }
}

proof fn lemma_prepend_contains<T>(x: T, t: Seq<T>, k: T)
    ensures
        (seq![x] + t).contains(k) <==> (x == k || t.contains(k)),
{
    let u = seq![x] + t;
    if t.contains(k) {
        let p = choose|p: int| 0 <= p < t.len() && t[p] == k;
        assert(u[p + 1] == k);
    }
    if u.contains(k) {
        let p = choose|p: int| 0 <= p < u.len() && u[p] == k;
        if p > 0 {
            assert(t[p - 1] == k);
        }
    }
    if x == k {
        assert(u[0] == k);
    }
}

proof fn lemma_prepend_no_duplicates<T>(x: T, t: Seq<T>)
    requires
        t.no_duplicates(),
        !t.contains(x),
    ensures
        (seq![x] + t).no_duplicates(),
{
    let u = seq![x] + t;
    assert forall|p: int, q: int| 0 <= p < u.len() && 0 <= q < u.len() && p != q implies u[p]
        != u[q] by {
        if p == 0 {
            assert(t[q - 1] == u[q]);
        } else if q == 0 {
            assert(t[p - 1] == u[p]);
        } else {
            assert(u[p] == t[p - 1] && u[q] == t[q - 1]);
        }
    }
}

/// The indices below `bound` are each consumed exactly once by `own` (the
/// indices used alone) and `paired` (the indices used in matched pairs).
pub open spec fn consumed_once(own: Seq<int>, paired: Seq<int>, bound: int) -> bool {
    &&& forall|k: int| 0 <= k < bound <==> (own.contains(k) || paired.contains(k))
    &&& own.no_duplicates()
    &&& paired.no_duplicates()
    &&& forall|k: int| !(own.contains(k) && paired.contains(k))
}

proof fn lemma_consumed_once_step(own: Seq<int>, paired: Seq<int>, bound: int, extend_own: bool)
    requires
        consumed_once(own, paired, bound),
        bound >= 0,
    ensures
        extend_own ==> consumed_once(seq![bound] + own, paired, bound + 1),
        !extend_own ==> consumed_once(own, seq![bound] + paired, bound + 1),
{
    assert(!own.contains(bound) && !paired.contains(bound));
    if extend_own {
        let o2 = seq![bound] + own;
        lemma_prepend_no_duplicates(bound, own);
        assert forall|k: int| 0 <= k < bound + 1 <==> (o2.contains(k) || paired.contains(k)) by {
            lemma_prepend_contains(bound, own, k);
        }
        assert forall|k: int| !(o2.contains(k) && paired.contains(k)) by {
            lemma_prepend_contains(bound, own, k);
        }
    } else {
        let p2 = seq![bound] + paired;
        lemma_prepend_no_duplicates(bound, paired);
        assert forall|k: int| 0 <= k < bound + 1 <==> (own.contains(k) || p2.contains(k)) by {
            lemma_prepend_contains(bound, paired, k);
        }
        assert forall|k: int| !(own.contains(k) && p2.contains(k)) by {
            lemma_prepend_contains(bound, paired, k);
        }
    }
}

proof fn lemma_backtrack_partition(path: Seq<Seq<ChangeType>>, n: nat, m: nat, i: nat, j: nat)
    requires
        valid_table(path, n, m),
        i <= n,
        j <= m,
    ensures
        ({
            let s = backtrack(path, i, j);
            &&& s.added.len() + s.deleted.len() + 2 * s.matched.len() == i + j
            &&& consumed_once(s.deleted, lefts(s.matched), i as int)
            &&& consumed_once(s.added, rights(s.matched), j as int)
        }),
    decreases i + j,
{
    let s = backtrack(path, i, j);
    if i == 0 && j == 0 {
        assert(lefts(s.matched) =~= Seq::empty());
        assert(rights(s.matched) =~= Seq::empty());
    } else {
        let op = path[i as int][j as int];
        if op == ChangeType::Added && j > 0 {
            lemma_backtrack_partition(path, n, m, i, (j - 1) as nat);
            let r = backtrack(path, i, (j - 1) as nat);
            lemma_consumed_once_step(r.added, rights(r.matched), j - 1, true);
        } else if op == ChangeType::Deleted && i > 0 {
            lemma_backtrack_partition(path, n, m, (i - 1) as nat, j);
            let r = backtrack(path, (i - 1) as nat, j);
            lemma_consumed_once_step(r.deleted, lefts(r.matched), i - 1, true);
        } else if op == ChangeType::DeletedThenAdded && i > 0 && j > 0 {
            lemma_backtrack_partition(path, n, m, (i - 1) as nat, (j - 1) as nat);
            let r = backtrack(path, (i - 1) as nat, (j - 1) as nat);
            lemma_consumed_once_step(r.added, rights(r.matched), j - 1, true);
            lemma_consumed_once_step(r.deleted, lefts(r.matched), i - 1, true);
        } else if op == ChangeType::MaybeUpdated && i > 0 && j > 0 {
            lemma_backtrack_partition(path, n, m, (i - 1) as nat, (j - 1) as nat);
            let r = backtrack(path, (i - 1) as nat, (j - 1) as nat);
            lemma_consumed_once_step(r.added, rights(r.matched), j - 1, false);
            lemma_consumed_once_step(r.deleted, lefts(r.matched), i - 1, false);
            assert(lefts(s.matched) =~= seq![i - 1] + lefts(r.matched));
            assert(rights(s.matched) =~= seq![j - 1] + rights(r.matched));
        } else {
            if i > 0 && j == 0 {
                assert(op == ChangeType::Deleted);
            } else if i == 0 {
                assert(op == ChangeType::Added);
            }
        }
    }
}

pub(crate) proof fn lemma_edit_table_valid(a: Seq<Seq<char>>, b: Seq<Seq<char>>)
    ensures
        valid_table(edit_table(a, b), a.len(), b.len()),
{
}

/// Alignment is total: every left index is deleted or matched, every right
/// index is added or matched, each exactly once; so the number of adds and
/// deletes is the two lengths together less two for each matched pair.
pub proof fn lemma_alignment_consumes_each_index_once(a: Seq<Seq<char>>, b: Seq<Seq<char>>)
    ensures
        ({
            let s = align(a, b);
            &&& s.added.len() + s.deleted.len() == a.len() + b.len() - 2 * s.matched.len()
            &&& consumed_once(s.deleted, lefts(s.matched), a.len() as int)
            &&& consumed_once(s.added, rights(s.matched), b.len() as int)
        }),
{
    lemma_edit_table_valid(a, b);
    lemma_backtrack_partition(edit_table(a, b), a.len(), b.len(), a.len(), b.len());
}

/// Two sequences of identical kinds align as matched pairs only, position
/// by position, with nothing added or deleted.
pub proof fn lemma_alignment_of_identical_kinds(a: Seq<Seq<char>>)
    ensures
        align(a, a).added.len() == 0,
        align(a, a).deleted.len() == 0,
        align(a, a).matched == Seq::new(a.len(), |k: int| (a.len() - 1 - k, a.len() - 1 - k)),
{
    lemma_identical_prefix(a, a.len());
}

proof fn lemma_identical_prefix(a: Seq<Seq<char>>, i: nat)
    requires
        i <= a.len(),
    ensures
        ({
            let s = backtrack(edit_table(a, a), i, i);
            &&& s.added.len() == 0
            &&& s.deleted.len() == 0
            &&& s.matched == Seq::new(i, |k: int| (i - 1 - k, i - 1 - k))
        }),
    decreases i,
{
    let s = backtrack(edit_table(a, a), i, i);
    if i == 0 {
        assert(s.matched =~= Seq::new(i, |k: int| (i - 1 - k, i - 1 - k)));
    } else {
        lemma_identical_prefix(a, (i - 1) as nat);
        assert(edit_table(a, a)[i as int][i as int] == ChangeType::MaybeUpdated);
        assert(s.matched =~= Seq::new(i, |k: int| (i - 1 - k, i - 1 - k)));
    }
}

/// With an empty left sequence every right node is added; with an empty
/// right sequence every left node is deleted.
pub proof fn lemma_alignment_with_empty_side(a: Seq<Seq<char>>, b: Seq<Seq<char>>)
    ensures
        a.len() == 0 ==> align(a, b).added == Seq::new(b.len(), |k: int| b.len() - 1 - k)
            && align(a, b).deleted.len() == 0 && align(a, b).matched.len() == 0,
        b.len() == 0 ==> align(a, b).deleted == Seq::new(a.len(), |k: int| a.len() - 1 - k)
            && align(a, b).added.len() == 0 && align(a, b).matched.len() == 0,
{
    if a.len() == 0 {
        lemma_empty_left(a, b, b.len());
    }
    if b.len() == 0 {
        lemma_empty_right(a, b, a.len());
    }
}

proof fn lemma_empty_left(a: Seq<Seq<char>>, b: Seq<Seq<char>>, j: nat)
    requires
        a.len() == 0,
        j <= b.len(),
    ensures
        ({
            let s = backtrack(edit_table(a, b), 0, j);
            &&& s.added == Seq::new(j, |k: int| j - 1 - k)
            &&& s.deleted.len() == 0
            &&& s.matched.len() == 0
        }),
    decreases j,
{
    let s = backtrack(edit_table(a, b), 0, j);
    if j == 0 {
        assert(s.added =~= Seq::new(j, |k: int| j - 1 - k));
    } else {
        lemma_empty_left(a, b, (j - 1) as nat);
        assert(edit_table(a, b)[0][j as int] == ChangeType::Added);
        assert(s.added =~= Seq::new(j, |k: int| j - 1 - k));
    }
}

proof fn lemma_empty_right(a: Seq<Seq<char>>, b: Seq<Seq<char>>, i: nat)
    requires
        b.len() == 0,
        i <= a.len(),
    ensures
        ({
            let s = backtrack(edit_table(a, b), i, 0);
            &&& s.deleted == Seq::new(i, |k: int| i - 1 - k)
            &&& s.added.len() == 0
            &&& s.matched.len() == 0
        }),
    decreases i,
{
    let s = backtrack(edit_table(a, b), i, 0);
    if i == 0 {
        assert(s.deleted =~= Seq::new(i, |k: int| i - 1 - k));
    } else {
        lemma_empty_right(a, b, (i - 1) as nat);
        assert(edit_table(a, b)[i as int][0] == ChangeType::Deleted);
        assert(s.deleted =~= Seq::new(i, |k: int| i - 1 - k));
    }
}

proof fn lemma_edit_cost_bound(a: Seq<Seq<char>>, b: Seq<Seq<char>>, i: nat, j: nat)
    ensures
        edit_cost(a, b, i, j) <= if i > j { i } else { j },
    decreases i + j,
{
    if i > 0 && j > 0 {
        lemma_edit_cost_bound(a, b, (i - 1) as nat, (j - 1) as nat);
        if a[i - 1] != b[j - 1] {
            lemma_edit_cost_bound(a, b, i, (j - 1) as nat);
            lemma_edit_cost_bound(a, b, (i - 1) as nat, j);
        }
    }
}

} // verus!
