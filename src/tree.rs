//! The concrete parse tree, held as an index arena.
//!
//! Every node stores the index of its parent and the indices of its children,
//! so that walking up to an ancestor or exploring several branches needs no
//! cursor state. Children always come after their parent in the arena, which
//! gives every traversal a decreasing measure.
use vstd::prelude::*;
use vstd::string::StringSliceAdditionalSpecFns;

verus! {

/// A row and column in the source text, both zero-based.
#[derive(Clone, Copy, Debug, PartialEq, Eq, Structural, Hash)]
pub struct Point {
    pub row: usize,
    pub column: usize,
}

/// One node of a concrete parse tree.
#[derive(Clone, Debug)]
pub struct TreeNode {
    /// The grammar category of the node.
    pub kind: String,
    pub start_byte: usize,
    pub end_byte: usize,
    pub start_position: Point,
    pub end_position: Point,
    pub parent: Option<usize>,
    pub children: Vec<usize>,
}

/// A concrete parse tree; the root is the node at index 0.
#[derive(Clone, Debug)]
pub struct ConcreteTree {
    pub nodes: Vec<TreeNode>,
}

impl ConcreteTree {
    pub open spec fn len(&self) -> int {
        self.nodes@.len() as int
    }

    pub open spec fn kind_of(&self, n: int) -> Seq<char> {
        self.nodes@[n].kind@
    }

    pub open spec fn children_of(&self, n: int) -> Seq<usize> {
        self.nodes@[n].children@
    }

    pub open spec fn parent_of(&self, n: int) -> Option<usize> {
        self.nodes@[n].parent
    }

    pub open spec fn is_leaf(&self, n: int) -> bool {
        self.children_of(n).len() == 0
    }

    /// The arena is well formed: the root comes first and has no parent, every
    /// other node has a parent before it, every child comes after its parent
    /// and points back to it, and every kind is a non-empty name.
    pub open spec fn wf(&self) -> bool {
        &&& self.len() >= 1
        &&& forall|n: int| 0 <= n < self.len() ==> (#[trigger] self.kind_of(n)).len() > 0
        &&& self.parent_of(0) is None
        &&& forall|n: int|
            #![trigger self.parent_of(n)]
            0 < n < self.len() ==> (self.parent_of(n) matches Some(p) && p < n)
        &&& forall|n: int, k: int|
            #![trigger self.children_of(n)[k]]
            0 <= n < self.len() && 0 <= k < self.children_of(n).len() ==> {
                let c = self.children_of(n)[k] as int;
                &&& n < c < self.len()
                &&& self.parent_of(c) == Some(n as usize)
            }
    }

    /// Every node's byte range lies inside `src`.
    pub open spec fn fits(&self, src: Seq<u8>) -> bool {
        forall|n: int|
            #![trigger self.nodes@[n]]
            0 <= n < self.len() ==> self.nodes@[n].start_byte <= self.nodes@[n].end_byte
                <= src.len()
    }

    /// Whether every node's byte range lies inside `src`.
    pub fn fits_source(&self, src: &str) -> (r: bool)
        ensures
            r == self.fits(src.spec_bytes()),
    {
        let len = src.as_bytes().len();
        let mut n: usize = 0;
        while n < self.nodes.len()
            invariant
                len == src.spec_bytes().len(),
                n <= self.nodes@.len(),
                forall|k: int|
                    #![trigger self.nodes@[k]]
                    0 <= k < n ==> self.nodes@[k].start_byte <= self.nodes@[k].end_byte <= len,
            decreases self.nodes@.len() - n,
        {
            let node = &self.nodes[n];
            if !(node.start_byte <= node.end_byte && node.end_byte <= len) {
                return false;
            }
            n = n + 1;
        }
        true
    }

    /// A tree that holds only its root.
    pub fn new(
        kind: String,
        start_byte: usize,
        end_byte: usize,
        start_position: Point,
        end_position: Point,
    ) -> (t: ConcreteTree)
        requires
            kind@.len() > 0,
        ensures
            t.wf(),
            t.len() == 1,
            t.nodes@[0].kind == kind,
            t.nodes@[0].start_byte == start_byte,
            t.nodes@[0].end_byte == end_byte,
            t.nodes@[0].start_position == start_position,
            t.nodes@[0].end_position == end_position,
            t.is_leaf(0),
    {
        let root = TreeNode {
            kind,
            start_byte,
            end_byte,
            start_position,
            end_position,
            parent: None,
            children: Vec::new(),
        };
        let mut nodes = Vec::new();
        nodes.push(root);
        ConcreteTree { nodes }
    }

    /// Appends a node as the last child of `parent` and returns its index.
    pub fn add_child(
        &mut self,
        parent: usize,
        kind: String,
        start_byte: usize,
        end_byte: usize,
        start_position: Point,
        end_position: Point,
    ) -> (id: usize)
        requires
            old(self).wf(),
            parent < old(self).len(),
            old(self).len() < usize::MAX,
            kind@.len() > 0,
        ensures
            final(self).wf(),
            id == old(self).len(),
            final(self).len() == old(self).len() + 1,
            final(self).nodes@[id as int] == (TreeNode {
                kind,
                start_byte,
                end_byte,
                start_position,
                end_position,
                parent: Some(parent),
                children: final(self).nodes@[id as int].children,
            }),
            final(self).is_leaf(id as int),
            final(self).children_of(parent as int) == old(self).children_of(parent as int).push(id),
            forall|n: int|
                0 <= n < old(self).len() && n != parent ==> #[trigger] final(self).nodes@[n]
                    == old(self).nodes@[n],
            forall|n: int|
                0 <= n < old(self).len() ==> #[trigger] final(self).kind_of(n) == old(self).kind_of(
                    n,
                ) && final(self).parent_of(n) == old(self).parent_of(n)
                    && final(self).nodes@[n].start_byte == old(self).nodes@[n].start_byte
                    && final(self).nodes@[n].end_byte == old(self).nodes@[n].end_byte,
    {
        let id = self.nodes.len();
        let node = TreeNode {
            kind,
            start_byte,
            end_byte,
            start_position,
            end_position,
            parent: Some(parent),
            children: Vec::new(),
        };
        self.nodes.push(node);
        self.nodes[parent].children.push(id);
        proof {
            let o = old(self);
            assert forall|n: int, k: int|
                #![trigger self.children_of(n)[k]]
                0 <= n < self.len() && 0 <= k < self.children_of(n).len() implies {
                    let c = self.children_of(n)[k] as int;
                    &&& n < c < self.len()
                    &&& self.parent_of(c) == Some(n as usize)
                } by {
                if n != parent && n < o.len() {
                    assert(self.children_of(n) == o.children_of(n));
                    assert(o.children_of(n)[k] == self.children_of(n)[k]);
                } else if n == parent && k < o.children_of(n).len() {
                    assert(o.children_of(n)[k] == self.children_of(n)[k]);
                }
            }
            assert forall|n: int| 0 <= n < self.len() implies (#[trigger] self.kind_of(n)).len() > 0 by {
                if n < o.len() {
                    assert(o.kind_of(n) == self.kind_of(n));
                }
            }
            assert forall|n: int|
                #![trigger self.parent_of(n)]
                0 < n < self.len() implies (self.parent_of(n) matches Some(p) && p < n) by {
                if n < o.len() {
                    assert(o.parent_of(n) == self.parent_of(n));
                }
            }
        }
        id
    }
}

/// `pat` occurs in `s` as a contiguous piece.
pub open spec fn contains_seq(s: Seq<char>, pat: Seq<char>) -> bool {
    exists|i: int| 0 <= i && i + pat.len() <= s.len() && #[trigger] s.subrange(i, i + pat.len()) == pat
}

/// Whether two strings hold the same characters.
pub(crate) fn str_equal(a: &str, b: &str) -> (r: bool)
    ensures
        r == (a@ == b@),
{
    let n = a.unicode_len();
    if n != b.unicode_len() {
        return false;
    }
    let mut i: usize = 0;
    while i < n
        invariant
            n == a@.len(),
            n == b@.len(),
            i <= n,
            forall|k: int| 0 <= k < i ==> a@[k] == b@[k],
        decreases n - i,
    {
        if a.get_char(i) != b.get_char(i) {
            return false;
        }
        i = i + 1;
    }
    assert(a@ =~= b@);
    true
}

/// Whether `pat` occurs in `s`.
pub(crate) fn str_contains(s: &str, pat: &str) -> (r: bool)
    ensures
        r == contains_seq(s@, pat@),
{
    let n = s.unicode_len();
    let k = pat.unicode_len();
    if k > n {
        return false;
    }
    let mut i: usize = 0;
    while i <= n - k
        invariant
            n == s@.len(),
            k == pat@.len(),
            k <= n,
            i <= n - k + 1,
            forall|i2: int| 0 <= i2 < i ==> #[trigger] s@.subrange(i2, i2 + k) != pat@,
        decreases n - k + 1 - i,
    {
        let mut j: usize = 0;
        let mut same = true;
        while j < k && same
            invariant
                n == s@.len(),
                k == pat@.len(),
                i + k <= n,
                j <= k,
                same == (forall|q: int| 0 <= q < j ==> s@[i + q] == pat@[q]),
            decreases k - j,
        {
            if s.get_char(i + j) != pat.get_char(j) {
                same = false;
            }
            j = j + 1;
        }
        if same {
            assert(s@.subrange(i as int, i + k) =~= pat@);
            return true;
        }
        let ghost q = choose|q: int| 0 <= q < j && s@[i + q] != pat@[q];
        assert(s@.subrange(i as int, i + k)[q] != pat@[q]);
        i = i + 1;
    }
    false
}

} // verus!
