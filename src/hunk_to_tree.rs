//! The position resolver: from single-line positions to nodes of the
//! abstract syntax tree or of the concrete parse tree.
use vstd::prelude::*;
use crate::position::{SingleLineSpan, MatchedPos, MatchKind, LineNumber, Hunk};
use rustc_hash::{FxHashMap, FxHasher};
use std::hash::BuildHasherDefault;
use crate::syntax::Syntax;
use crate::tree::{ConcreteTree, TreeNode, contains_seq, str_contains};

verus! {

/// A single-line span lies inside a node's spans when it equals one of them
/// (for a node on one line: when it equals that line's span).
pub open spec fn inside_span(single_span: SingleLineSpan, spans: Seq<SingleLineSpan>) -> bool {
    spans.contains(single_span)
}

/// Whether `single_span` lies inside `spans`.
pub fn is_inside_span(single_span: SingleLineSpan, spans: &Vec<SingleLineSpan>) -> (r: bool)
    ensures
        r == inside_span(single_span, spans@),
{
    if spans.len() == 1 {
        assert(spans@.contains(spans@[0]));
        return single_span == spans[0];
    }
    let mut i: usize = 0;
    while i < spans.len()
        invariant
            i <= spans@.len(),
            forall|k: int| 0 <= k < i ==> spans@[k] != single_span,
        decreases spans@.len() - i,
    {
        if single_span == spans[i] {
            return true;
        }
        i = i + 1;
    }
    false
}

/// A single-line span lies inside a concrete node when its line is within
/// the node's rows; on the node's first row the start column bounds it, on the
/// last row the end column, and a node on one row bounds it on both sides.
pub open spec fn inside_node_span(single_span: SingleLineSpan, node: TreeNode) -> bool {
    let line = single_span.line.0 as int;
    let start = node.start_position;
    let end = node.end_position;
    if start.row <= line <= end.row {
        if start.row == end.row {
            start.column <= single_span.start_col && end.column >= single_span.end_col
        } else if start.row == line {
            start.column <= single_span.start_col
        } else if end.row == line {
            end.column >= single_span.end_col
        } else {
            true
        }
    } else {
        false
    }
}

/// Whether `single_span` lies inside `node`.
pub fn is_inside_node_span(single_span: SingleLineSpan, node: &TreeNode) -> (r: bool)
    ensures
        r == inside_node_span(single_span, *node),
{
    let line = single_span.line.0 as usize;
    let start = node.start_position;
    let end = node.end_position;
    if start.row <= line && end.row >= line {
        if start.row == end.row {
            return start.column <= single_span.start_col as usize && end.column
                >= single_span.end_col as usize;
        }
        if start.row == line {
            return start.column <= single_span.start_col as usize;
        }
        if end.row == line {
            return end.column >= single_span.end_col as usize;
        }
        return true;
    }
    false
}

/// A concrete node and an abstract atom denote the same text when the node
/// starts where the atom's first span starts and ends where its last span
/// ends.
pub open spec fn same_position(node: TreeNode, syntax: Syntax) -> bool {
    match syntax {
        Syntax::Atom { position, .. } => {
            let spans = position@;
            &&& spans.len() > 0
            &&& node.start_position.row == spans[0].line.0 as int
            &&& node.start_position.column == spans[0].start_col as int
            &&& node.end_position.row == spans.last().line.0 as int
            &&& node.end_position.column == spans.last().end_col as int
        },
        Syntax::List { .. } => false,
    }
}

/// Whether `node` and `syntax` denote the same text.
pub fn is_the_same_position(node: &TreeNode, syntax: &Syntax) -> (r: bool)
    ensures
        r == same_position(*node, *syntax),
{
    match syntax {
        Syntax::Atom { position, .. } => {
            if position.len() == 0 {
                return false;
            }
            let first = position[0];
            let last = position[position.len() - 1];
            node.start_position.row == first.line.0 as usize && node.start_position.column
                == first.start_col as usize && node.end_position.row == last.line.0 as usize
                && node.end_position.column == last.end_col as usize
        },
        Syntax::List { .. } => false,
    }
}

/// The first atom, in pre-order from left to right, whose spans contain `pos`.
pub open spec fn find_atom(nodes: Seq<Syntax>, pos: SingleLineSpan) -> Option<Syntax>
    decreases nodes,
{
    if nodes.len() == 0 {
        None
    } else {
        let head = match nodes[0] {
            Syntax::List { children, .. } => find_atom(children@, pos),
            Syntax::Atom { position, .. } => if inside_span(pos, position@) {
                Some(nodes[0])
            } else {
                None
            },
        };
        if head is Some {
            head
        } else {
            find_atom(nodes.drop_first(), pos)
        }
    }
}

/// Finds, in pre-order from left to right, the first atom whose spans contain
/// the position; `None` when no atom does.
pub fn matched_pos_to_syntax<'a>(matched_pos: &MatchedPos, syntax_vec: &'a Vec<Syntax>) -> (r:
    Option<&'a Syntax>)
    ensures
        match r {
            Some(s) => find_atom(syntax_vec@, matched_pos.pos) == Some(*s),
            None => find_atom(syntax_vec@, matched_pos.pos) is None,
        },
    decreases syntax_vec@,
{
    let ghost pos = matched_pos.pos;
    let mut i: usize = 0;
    assert(syntax_vec@.subrange(0, syntax_vec@.len() as int) =~= syntax_vec@);
    while i < syntax_vec.len()
        invariant
            i <= syntax_vec@.len(),
            pos == matched_pos.pos,
            find_atom(syntax_vec@, pos) == find_atom(
                syntax_vec@.subrange(i as int, syntax_vec@.len() as int),
                pos,
            ),
        decreases syntax_vec@.len() - i,
    {
        let ghost rest = syntax_vec@.subrange(i as int, syntax_vec@.len() as int);
        assert(rest[0] == syntax_vec@[i as int]);
        assert(rest.drop_first() =~= syntax_vec@.subrange(i + 1, syntax_vec@.len() as int));
        match &syntax_vec[i] {
            Syntax::List { children, .. } => {
                assert(decreases_to!(syntax_vec@ => syntax_vec@[i as int]));
                assert(decreases_to!(syntax_vec@[i as int] => children));
                assert(decreases_to!(children => children@));
                match matched_pos_to_syntax(matched_pos, children) {
                    Some(s) => {
                        return Some(s);
                    },
                    None => {},
                }
            },
            Syntax::Atom { position, .. } => {
                if is_inside_span(matched_pos.pos, position) {
                    return Some(&syntax_vec[i]);
                }
            },
        }
        i = i + 1;
    }
    assert(syntax_vec@.subrange(i as int, syntax_vec@.len() as int).len() == 0);
    None
}

pub open spec fn literal_kind() -> Seq<char> {
    "literal"@
}

/// The node of the subtree at `n` that `pos` resolves to: a node whose kind
/// names a literal and which contains `pos` is taken at once (a literal may
/// hold nested grammar that would shadow it); a leaf is taken when it contains
/// `pos`; otherwise the children are searched in order.
pub open spec fn resolve_node(t: ConcreteTree, pos: SingleLineSpan, n: int) -> Option<usize>
    decreases t.len() - n, 1int, 0int,
{
    let inside = inside_node_span(pos, t.nodes@[n]);
    if contains_seq(t.kind_of(n), literal_kind()) && inside {
        Some(n as usize)
    } else if t.is_leaf(n) {
        if inside {
            Some(n as usize)
        } else {
            None
        }
    } else {
        resolve_children(t, pos, n, 0)
    }
}

/// The first resolution found among the children of `n` from the `k`-th on.
pub open spec fn resolve_children(t: ConcreteTree, pos: SingleLineSpan, n: int, k: int) -> Option<
    usize,
>
    decreases t.len() - n, 0int, t.children_of(n).len() - k,
{
    if k < 0 || k >= t.children_of(n).len() {
        None
    } else {
        let c = t.children_of(n)[k] as int;
        // Children lie after their parent in a well-formed arena.
        let found = if n < c < t.len() {
            resolve_node(t, pos, c)
        } else {
            None
        };
        if found is Some {
            found
        } else {
            resolve_children(t, pos, n, k + 1)
        }
    }
}

/// Resolves a match position against the subtree of `tree` at `node`. The
/// node found, if any, contains the position; `None` says that no node does
/// and leaves the choice of failing to the caller.
pub fn matched_pos_to_tree_node(matched_pos: &MatchedPos, tree: &ConcreteTree, node: usize) -> (r:
    Option<usize>)
    requires
        tree.wf(),
        node < tree.len(),
    ensures
        r == resolve_node(*tree, matched_pos.pos, node as int),
        r matches Some(k) ==> k < tree.len() && inside_node_span(matched_pos.pos, tree.nodes@[k as int]),
    decreases tree.len() - node,
{
    let n = &tree.nodes[node];
    let inside = is_inside_node_span(matched_pos.pos, n);
    if str_contains(n.kind.as_str(), "literal") && inside {
        return Some(node);
    }
    if n.children.len() == 0 {
        if inside {
            return Some(node);
        } else {
            return None;
        }
    }
    let mut k: usize = 0;
    while k < n.children.len()
        invariant
            tree.wf(),
            node < tree.len(),
            n == tree.nodes@[node as int],
            k <= n.children@.len(),
            resolve_node(*tree, matched_pos.pos, node as int) == resolve_children(
                *tree,
                matched_pos.pos,
                node as int,
                k as int,
            ),
        decreases n.children@.len() - k,
    {
        let c = n.children[k];
        assert(tree.children_of(node as int)[k as int] == c);
        match matched_pos_to_tree_node(matched_pos, tree, c) {
            Some(found) => {
                return Some(found);
            },
            None => {},
        }
        k = k + 1;
    }
    None
}

/// The first node, in pre-order over the subtree at `n`, that denotes the
/// same text as the atom `syntax`; a list has no such node.
pub open spec fn find_same_position(t: ConcreteTree, syntax: Syntax, n: int) -> Option<usize>
    decreases t.len() - n, 1int, 0int,
{
    if syntax is List {
        None
    } else if same_position(t.nodes@[n], syntax) {
        Some(n as usize)
    } else {
        find_same_position_children(t, syntax, n, 0)
    }
}

/// The first match among the subtrees of the children of `n` from the
/// `k`-th on.
pub open spec fn find_same_position_children(t: ConcreteTree, syntax: Syntax, n: int, k: int) -> Option<
    usize,
>
    decreases t.len() - n, 0int, t.children_of(n).len() - k,
{
    if k < 0 || k >= t.children_of(n).len() {
        None
    } else {
        let c = t.children_of(n)[k] as int;
        // Children lie after their parent in a well-formed arena.
        let found = if n < c < t.len() {
            find_same_position(t, syntax, c)
        } else {
            None
        };
        if found is Some {
            found
        } else {
            find_same_position_children(t, syntax, n, k + 1)
        }
    }
}

/// Finds the concrete node, in the subtree of `tree` at `node`, that denotes
/// the same text as the atom `syntax`.
pub fn syntax_to_tree_node(syntax: &Syntax, tree: &ConcreteTree, node: usize) -> (r: Option<usize>)
    requires
        tree.wf(),
        node < tree.len(),
    ensures
        r == find_same_position(*tree, *syntax, node as int),
        r matches Some(k) ==> k < tree.len() && same_position(tree.nodes@[k as int], *syntax),
    decreases tree.len() - node,
{
    match syntax {
        Syntax::Atom { .. } => {
            let n = &tree.nodes[node];
            if is_the_same_position(n, syntax) {
                return Some(node);
            }
            let mut k: usize = 0;
            while k < n.children.len()
                invariant
                    tree.wf(),
                    node < tree.len(),
                    n == tree.nodes@[node as int],
                    syntax is Atom,
                    k <= n.children@.len(),
                    find_same_position(*tree, *syntax, node as int) == find_same_position_children(
                        *tree,
                        *syntax,
                        node as int,
                        k as int,
                    ),
                decreases n.children@.len() - k,
            {
                let c = n.children[k];
                assert(tree.children_of(node as int)[k as int] == c);
                match syntax_to_tree_node(syntax, tree, c) {
                    Some(found) => {
                        return Some(found);
                    },
                    None => {},
                }
                k = k + 1;
            }
            None
        },
        Syntax::List { .. } => None,
    }
}

/// Resolution reads its inputs only: resolving one position against one
/// tree again, in the abstract or in the concrete tree, gives the same node.
pub proof fn lemma_resolution_is_deterministic(
    syntax_vec: Seq<Syntax>,
    syntax_vec_again: Seq<Syntax>,
    tree: ConcreteTree,
    tree_again: ConcreteTree,
    root: int,
    pos: SingleLineSpan,
    pos_again: SingleLineSpan,
)
    requires
        syntax_vec_again == syntax_vec,
        tree_again == tree,
        pos_again == pos,
    ensures
        find_atom(syntax_vec_again, pos_again) == find_atom(syntax_vec, pos),
        resolve_node(tree_again, pos_again, root) == resolve_node(tree, pos, root),
{
}

/// rustc_hash's hasher, carried opaquely as part of the `FxHashMap` type.
#[verifier::external_type_specification]
#[verifier::external_body]
pub struct ExFxHasher(FxHasher);

/// std's hasher builder that `FxHashMap` names, carried opaquely.
#[verifier::external_type_specification]
#[verifier::external_body]
#[verifier::reject_recursive_types(H)]
pub struct ExBuildHasherDefault<H>(BuildHasherDefault<H>);

/// Relies on `HashMap::insert` of std in rustc_hash's `FxHashMap`, whose
/// `FxHasher` starts every hash from zero with no random seed, over the `Eq`
/// and `Hash` that `LineNumber` derives from its one integer: afterwards
/// `line` is bound to `positions` and every other key keeps its value.
#[verifier::external_body]
fn insert_line(
    map: &mut FxHashMap<LineNumber, Vec<MatchedPos>>,
    line: LineNumber,
    positions: Vec<MatchedPos>,
)
    ensures
        final(map)@ == old(map)@.insert(line, positions),
{
    map.insert(line, positions);
}

/// The novel positions on `line`, in their order.
pub open spec fn novel_positions(positions: Seq<MatchedPos>, line: LineNumber) -> Seq<MatchedPos>
    decreases positions.len(),
{
    if positions.len() == 0 {
        Seq::empty()
    } else {
        let before = novel_positions(positions.drop_last(), line);
        let p = positions.last();
        if p.kind == MatchKind::Novel && p.pos.line == line {
            before.push(p)
        } else {
            before
        }
    }
}

/// Collects the novel positions that lie on `line`.
pub fn get_novel_nodes(positions: &Vec<MatchedPos>, line: LineNumber) -> (r: Vec<MatchedPos>)
    ensures
        r@ == novel_positions(positions@, line),
{
    let mut found: Vec<MatchedPos> = Vec::new();
    let mut i: usize = 0;
    while i < positions.len()
        invariant
            i <= positions@.len(),
            found@ == novel_positions(positions@.subrange(0, i as int), line),
        decreases positions@.len() - i,
    {
        let p = positions[i];
        proof {
            let next = positions@.subrange(0, i + 1);
            assert(next.drop_last() =~= positions@.subrange(0, i as int));
            assert(next.last() == p);
        }
        if p.kind == MatchKind::Novel && p.pos.line == line {
            found.push(p);
        }
        i = i + 1;
    }
    assert(positions@.subrange(0, positions@.len() as int) =~= positions@);
    found
}

/// The map holds exactly the given lines, each bound to its novel positions.
pub open spec fn novels_by_line(
    map: Map<LineNumber, Vec<MatchedPos>>,
    lines: Seq<LineNumber>,
    positions: Seq<MatchedPos>,
) -> bool {
    &&& forall|l: LineNumber| map.contains_key(l) <==> lines.contains(l)
    &&& forall|l: LineNumber| #[trigger] map.contains_key(l) ==> map[l]@ == novel_positions(positions, l)
}

fn novels_of_lines(positions: &Vec<MatchedPos>, lines: &Vec<LineNumber>) -> (r: FxHashMap<
    LineNumber,
    Vec<MatchedPos>,
>)
    ensures
        novels_by_line(r@, lines@, positions@),
{
    let mut novels: FxHashMap<LineNumber, Vec<MatchedPos>> = FxHashMap::default();
    let mut i: usize = 0;
    while i < lines.len()
        invariant
            i <= lines@.len(),
            novels_by_line(novels@, lines@.subrange(0, i as int), positions@),
        decreases lines@.len() - i,
    {
        let line = lines[i];
        let line_nodes = get_novel_nodes(positions, line);
        insert_line(&mut novels, line, line_nodes);
        proof {
            let before = lines@.subrange(0, i as int);
            let after = lines@.subrange(0, i + 1);
            assert(after =~= before.push(line));
            assert forall|l: LineNumber| after.contains(l) <==> (before.contains(l) || l == line) by {
                if after.contains(l) && l != line {
                    let k = choose|k: int| 0 <= k < after.len() && after[k] == l;
                    assert(before[k] == l);
                }
                if before.contains(l) {
                    let k = choose|k: int| 0 <= k < before.len() && before[k] == l;
                    assert(after[k] == l);
                }
                if l == line {
                    assert(after[i as int] == l);
                }
            }
        }
        i = i + 1;
    }
    assert(lines@.subrange(0, lines@.len() as int) =~= lines@);
    novels
}

/// For each side of the hunk, maps every novel line to the novel positions
/// that lie on it.
pub fn get_novels_from_hunk(
    lhs_positions: &Vec<MatchedPos>,
    rhs_positions: &Vec<MatchedPos>,
    hunk: &Hunk,
) -> (r: (FxHashMap<LineNumber, Vec<MatchedPos>>, FxHashMap<LineNumber, Vec<MatchedPos>>))
    ensures
        novels_by_line(r.0@, hunk.novel_lhs@, lhs_positions@),
        novels_by_line(r.1@, hunk.novel_rhs@, rhs_positions@),
{
    let lhs_novels = novels_of_lines(lhs_positions, &hunk.novel_lhs);
    let rhs_novels = novels_of_lines(rhs_positions, &hunk.novel_rhs);
    (lhs_novels, rhs_novels)
}

} // verus!
