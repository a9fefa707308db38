//! The library's model of one parsed syntax tree.
//!
//! A tree is a flat arena of nodes in pre-order: every child's index is
//! strictly greater than its parent's. Each node carries its kind, its span
//! in the tree's local (doubled) coordinates, and explicit parent/child
//! links. The external parsing engine produces trees; this crate only ever
//! reads them, so a validated plain arena is all the structure it needs.

use vstd::prelude::*;

use crate::coords::Point;

verus! {

/// One node of a syntax tree, in the tree's local coordinate space.
#[derive(Clone, Debug)]
pub struct TreeNode {
    pub kind_id: u16,
    pub start_byte: usize,
    pub end_byte: usize,
    pub start_point: Point,
    pub end_point: Point,
    /// Index of the parent node; the root stores its own index.
    pub parent: usize,
    /// Position of this node in its parent's `children`; 0 for the root.
    pub child_rank: usize,
    /// Indices of the children, in document order.
    pub children: Vec<usize>,
}

/// The link from node `i` to its `j`-th child is consistent: the child lies
/// further along the arena, points back at `i`, and its span is contained in
/// the parent's span.
pub open spec fn child_link_ok(nodes: Seq<TreeNode>, i: int, j: int) -> bool {
    let c = nodes[i].children[j] as int;
    &&& i < c < nodes.len()
    &&& nodes[c].parent == i
    &&& nodes[c].child_rank == j
    &&& nodes[i].start_byte <= nodes[c].start_byte
    &&& nodes[c].end_byte <= nodes[i].end_byte
}

/// Node-local well-formedness: an even, ordered span and consistent,
/// document-ordered children.
pub open spec fn node_wf(nodes: Seq<TreeNode>, i: int) -> bool {
    &&& nodes[i].start_byte <= nodes[i].end_byte
    &&& nodes[i].start_byte % 2 == 0
    &&& nodes[i].end_byte % 2 == 0
    &&& forall|j: int| 0 <= j < nodes[i].children.len() ==> #[trigger] child_link_ok(nodes, i, j)
    &&& forall|j: int|
        0 <= j && j + 1 < nodes[i].children.len() ==> #[trigger] nodes[
            nodes[i].children[j] as int
        ].end_byte <= nodes[nodes[i].children[j + 1] as int].start_byte
    &&& forall|j: int|
        0 <= j && j + 1 < nodes[i].children.len() ==> #[trigger] nodes[i].children[j] < nodes[
            i
        ].children[j + 1]
}

/// The upward link of node `i`: its parent lies earlier in the arena and
/// lists `i` at the recorded rank.
pub open spec fn parent_link_ok(nodes: Seq<TreeNode>, i: int) -> bool {
    &&& nodes[i].parent < i
    &&& nodes[i].child_rank < nodes[nodes[i].parent as int].children.len()
    &&& nodes[nodes[i].parent as int].children[nodes[i].child_rank as int] == i
}

/// Well-formedness of a whole arena.
pub open spec fn nodes_wf(nodes: Seq<TreeNode>) -> bool {
    &&& nodes.len() >= 1
    &&& nodes[0].parent == 0
    &&& nodes[0].child_rank == 0
    &&& forall|i: int| 0 <= i < nodes.len() ==> #[trigger] node_wf(nodes, i)
    &&& forall|i: int| 1 <= i < nodes.len() ==> #[trigger] parent_link_ok(nodes, i)
}

/// The first child of node `i` extending beyond byte `b`, searching from
/// child rank `j` on.
pub open spec fn spec_first_child_from(nodes: Seq<TreeNode>, i: int, b: usize, j: int) -> Option<
    usize,
>
    decreases nodes[i].children.len() - j,
{
    if j < 0 || j >= nodes[i].children.len() {
        None
    } else if nodes[nodes[i].children[j] as int].end_byte > b {
        Some(nodes[i].children[j])
    } else {
        spec_first_child_from(nodes, i, b, j + 1)
    }
}

/// The first child of node `i` that extends beyond byte offset `b`.
pub open spec fn spec_first_child_for_byte(nodes: Seq<TreeNode>, i: int, b: usize) -> Option<usize> {
    spec_first_child_from(nodes, i, b, 0)
}

/// A validated syntax tree. The constructor checks `nodes_wf`, so every
/// `SyntaxTree` in circulation satisfies it.
#[derive(Clone, Debug)]
pub struct SyntaxTree {
    nodes: Vec<TreeNode>,
}

impl View for SyntaxTree {
    type V = Seq<TreeNode>;

    closed spec fn view(&self) -> Seq<TreeNode> {
        self.nodes@
    }
}

impl SyntaxTree {
    pub open spec fn wf(&self) -> bool {
        nodes_wf(self@)
    }

    /// Validate an arena and wrap it as a tree; `None` exactly when the
    /// arena is not well-formed.
    #[verifier::rlimit(100)]
    #[verifier::spinoff_prover]
    pub fn from_nodes(nodes: Vec<TreeNode>) -> (r: Option<SyntaxTree>)
        ensures
            match r {
                Some(t) => t@ == nodes@ && t.wf(),
                None => !nodes_wf(nodes@),
            },
    {
        if nodes.len() == 0 {
            return None;
        }
        if nodes[0].parent != 0 || nodes[0].child_rank != 0 {
            return None;
        }
        let n = nodes.len();
        let mut i: usize = 0;
        while i < n
            invariant
                n == nodes@.len(),
                0 < n,
                i <= n,
                nodes@[0].parent == 0,
                nodes@[0].child_rank == 0,
                forall|k: int| 0 <= k < i ==> #[trigger] node_wf(nodes@, k),
                forall|k: int| 1 <= k < i ==> #[trigger] parent_link_ok(nodes@, k),
            decreases n - i,
        {
            let node = &nodes[i];
            if node.start_byte > node.end_byte || node.start_byte % 2 != 0 || node.end_byte % 2
                != 0 {
                proof {
                    assert(!node_wf(nodes@, i as int));
                }
                return None;
            }
            if i > 0 {
                let p = node.parent;
                let bad_parent = p >= i || node.child_rank >= nodes[p].children.len()
                    || nodes[p].children[node.child_rank] != i;
                if bad_parent {
                    proof {
                        assert(!parent_link_ok(nodes@, i as int));
                    }
                    return None;
                }
            }
            let m = nodes[i].children.len();
            let mut j: usize = 0;
            while j < m
                invariant
                    n == nodes@.len(),
                    i < n,
                    m == nodes@[i as int].children.len(),
                    j <= m,
                    nodes@[i as int].start_byte <= nodes@[i as int].end_byte,
                    nodes@[i as int].start_byte % 2 == 0,
                    nodes@[i as int].end_byte % 2 == 0,
                    forall|k: int| 0 <= k < j ==> #[trigger] child_link_ok(nodes@, i as int, k),
                    forall|k: int|
                        0 <= k && k + 1 < j ==> #[trigger] nodes@[nodes@[i as int].children[k] as int].end_byte
                            <= nodes@[nodes@[i as int].children[k + 1] as int].start_byte,
                    forall|k: int|
                        0 <= k && k + 1 < j ==> #[trigger] nodes@[i as int].children[k] < nodes@[
                            i as int
                        ].children[k + 1],
            decreases m - j,
            {
                let c = nodes[i].children[j];
                let bad_child = c <= i || c >= n || nodes[c].parent != i || nodes[c].child_rank
                    != j || nodes[c].start_byte < nodes[i].start_byte || nodes[c].end_byte
                    > nodes[i].end_byte;
                if bad_child {
                    proof {
                        assert(!child_link_ok(nodes@, i as int, j as int));
                        assert(!node_wf(nodes@, i as int));
                    }
                    return None;
                }
                if j > 0 {
                    let prev = nodes[i].children[j - 1];
                    proof {
                        assert(child_link_ok(nodes@, i as int, j - 1));
                    }
                    if nodes[prev].end_byte > nodes[c].start_byte || prev >= c {
                        proof {
                            assert(!node_wf(nodes@, i as int));
                        }
                        return None;
                    }
                }
                j = j + 1;
            }
            assert(node_wf(nodes@, i as int));
            i = i + 1;
        }
        Some(SyntaxTree { nodes })
    }

    pub fn node_count(&self) -> (r: usize)
        ensures
            r == self@.len(),
    {
        self.nodes.len()
    }

    pub fn node(&self, i: usize) -> (r: &TreeNode)
        requires
            i < self@.len(),
        ensures
            *r == self@[i as int],
    {
        &self.nodes[i]
    }

    /// Index of the first child of node `i`, if any.
    pub fn first_child(&self, i: usize) -> (r: Option<usize>)
        requires
            self.wf(),
            i < self@.len(),
        ensures
            match r {
                Some(c) => self@[i as int].children.len() > 0 && c == self@[i as int].children[0]
                    && i < c < self@.len(),
                None => self@[i as int].children.len() == 0,
            },
    {
        assert(node_wf(self@, i as int));
        if self.nodes[i].children.len() > 0 {
            let c = self.nodes[i].children[0];
            assert(child_link_ok(self@, i as int, 0));
            Some(c)
        } else {
            None
        }
    }

    /// Index of the next sibling of node `i`, if any. The root has none.
    pub fn next_sibling(&self, i: usize) -> (r: Option<usize>)
        requires
            self.wf(),
            i < self@.len(),
        ensures
            match r {
                Some(c) => {
                    &&& i != 0
                    &&& self@[i as int].child_rank + 1 < self@[self@[i as int].parent as int].children.len()
                    &&& c == self@[self@[i as int].parent as int].children[self@[i as int].child_rank + 1]
                    &&& c < self@.len()
                    &&& c != i
                },
                None => i == 0 || self@[i as int].child_rank + 1 == self@[self@[i as int].parent as int].children.len(),
            },
    {
        if i == 0 {
            return None;
        }
        assert(parent_link_ok(self@, i as int));
        let p = self.nodes[i].parent;
        let rank = self.nodes[i].child_rank;
        assert(node_wf(self@, p as int));
        if rank + 1 < self.nodes[p].children.len() {
            let c = self.nodes[p].children[rank + 1];
            assert(child_link_ok(self@, p as int, rank + 1));
            assert(child_link_ok(self@, p as int, rank as int));
            Some(c)
        } else {
            None
        }
    }

    /// Index of the previous sibling of node `i`, if any.
    pub fn prev_sibling(&self, i: usize) -> (r: Option<usize>)
        requires
            self.wf(),
            i < self@.len(),
        ensures
            match r {
                Some(c) => {
                    &&& i != 0
                    &&& self@[i as int].child_rank >= 1
                    &&& c == self@[self@[i as int].parent as int].children[self@[i as int].child_rank - 1]
                    &&& c < self@.len()
                },
                None => i == 0 || self@[i as int].child_rank == 0,
            },
    {
        if i == 0 {
            return None;
        }
        assert(parent_link_ok(self@, i as int));
        let p = self.nodes[i].parent;
        let rank = self.nodes[i].child_rank;
        assert(node_wf(self@, p as int));
        if rank >= 1 {
            let c = self.nodes[p].children[rank - 1];
            assert(child_link_ok(self@, p as int, rank - 1));
            Some(c)
        } else {
            None
        }
    }

    /// Index of the parent of node `i`; the root has none.
    pub fn parent(&self, i: usize) -> (r: Option<usize>)
        requires
            self.wf(),
            i < self@.len(),
        ensures
            match r {
                Some(p) => i != 0 && p == self@[i as int].parent && p < i,
                None => i == 0,
            },
    {
        if i == 0 {
            None
        } else {
            assert(parent_link_ok(self@, i as int));
            Some(self.nodes[i].parent)
        }
    }

    /// The first child of node `i` that extends beyond byte offset `b`
    /// (local coordinates), mirroring the byte-directed descent of a tree
    /// cursor.
    pub fn first_child_for_byte(&self, i: usize, b: usize) -> (r: Option<usize>)
        requires
            self.wf(),
            i < self@.len(),
        ensures
            r == spec_first_child_for_byte(self@, i as int, b),
            match r {
                Some(c) => {
                    &&& exists|j: int|
                        0 <= j < self@[i as int].children.len() && c == self@[i as int].children[j]
                            && self@[c as int].end_byte > b && forall|k: int|
                            0 <= k < j ==> self@[#[trigger] self@[i as int].children[k] as int].end_byte
                                <= b
                    &&& i < c < self@.len()
                    &&& self@[c as int].parent == i
                },
                None => forall|j: int|
                    0 <= j < self@[i as int].children.len() ==> self@[#[trigger] self@[i as int].children[j] as int].end_byte <= b,
            },
    {
        assert(node_wf(self@, i as int));
        let m = self.nodes[i].children.len();
        let mut j: usize = 0;
        while j < m
            invariant
                self.wf(),
                i < self@.len(),
                m == self@[i as int].children.len(),
                j <= m,
                node_wf(self@, i as int),
                spec_first_child_for_byte(self@, i as int, b) == spec_first_child_from(
                    self@,
                    i as int,
                    b,
                    j as int,
                ),
                forall|k: int|
                    0 <= k < j ==> self@[#[trigger] self@[i as int].children[k] as int].end_byte
                        <= b,
            decreases m - j,
        {
            let c = self.nodes[i].children[j];
            assert(child_link_ok(self@, i as int, j as int));
            if self.nodes[c].end_byte > b {
                return Some(c);
            }
            j = j + 1;
        }
        None
    }
}

} // verus!
