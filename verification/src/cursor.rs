//! The cross-tree cursor: walks the snapshot forest as if it were one tree,
//! entering a nested entry where the local tree has no deeper node and
//! returning to the host entry when the local tree cannot ascend.

use vstd::prelude::*;

use crate::snapshot::SyntaxSnapshot;
use crate::snapshot::SyntaxSnapshotEntry;
use crate::snapshot::SyntaxSnapshotEntryContent;
use crate::snapshot::entry_wf;
pub use crate::snapshot::entry_tree;
use crate::registry::LanguageId;
use crate::tree::SyntaxTree;
use crate::tree::TreeNode;
use crate::coords::TextRange;
use crate::coords::Point;
use crate::coords::add_point;
use crate::coords::spec_add_point;

verus! {

/// One stack frame is valid: a parsed entry and a node of its tree.
pub open spec fn frame_ok(entries: Seq<SyntaxSnapshotEntry>, frame: (usize, usize)) -> bool {
    &&& (frame.0 as int) < entries.len()
    &&& entries[frame.0 as int].content is Parsed
    &&& (frame.1 as int) < entry_tree(entries[frame.0 as int])@.len()
}

/// The first entry at the given depth whose byte range is contained in
/// `[lo, hi]`, if any: the candidate a descent crosses into.
pub open spec fn spec_candidate_entry(
    entries: Seq<SyntaxSnapshotEntry>,
    depth: int,
    lo: int,
    hi: int,
) -> Option<int>
    decreases entries.len(),
{
    if entries.len() == 0 {
        None
    } else if entries[0].depth == depth && entries[0].start_byte >= lo && entries[0].end_byte
        <= hi {
        Some(0)
    } else {
        match spec_candidate_entry(entries.skip(1), depth, lo, hi) {
            None => None,
            Some(i) => Some(i + 1),
        }
    }
}

proof fn lemma_candidate_at(entries: Seq<SyntaxSnapshotEntry>, depth: int, lo: int, hi: int, i: int)
    requires
        0 <= i < entries.len(),
        entries[i].depth == depth && entries[i].start_byte >= lo && entries[i].end_byte <= hi,
        forall|j: int|
            0 <= j < i ==> !((#[trigger] entries[j]).depth == depth && entries[j].start_byte >= lo
                && entries[j].end_byte <= hi),
    ensures
        spec_candidate_entry(entries, depth, lo, hi) == Some(i),
    decreases i,
{
    if i > 0 {
        assert(forall|j: int| 0 <= j < entries.len() - 1 ==> #[trigger] entries.skip(1)[j] == entries[j + 1]);
        lemma_candidate_at(entries.skip(1), depth, lo, hi, i - 1);
    }
}

proof fn lemma_candidate_absent(entries: Seq<SyntaxSnapshotEntry>, depth: int, lo: int, hi: int)
    requires
        forall|j: int|
            0 <= j < entries.len() ==> !((#[trigger] entries[j]).depth == depth
                && entries[j].start_byte >= lo && entries[j].end_byte <= hi),
    ensures
        spec_candidate_entry(entries, depth, lo, hi) is None,
    decreases entries.len(),
{
    if entries.len() > 0 {
        assert(forall|j: int| 0 <= j < entries.len() - 1 ==> #[trigger] entries.skip(1)[j] == entries[j + 1]);
        lemma_candidate_absent(entries.skip(1), depth, lo, hi);
    }
}

/// A found candidate has the sought depth and containment.
pub proof fn lemma_candidate_props(
    entries: Seq<SyntaxSnapshotEntry>,
    depth: int,
    lo: int,
    hi: int,
    i: int,
)
    requires
        spec_candidate_entry(entries, depth, lo, hi) == Some(i),
    ensures
        0 <= i < entries.len(),
        entries[i].depth == depth,
        entries[i].start_byte >= lo,
        entries[i].end_byte <= hi,
    decreases entries.len(),
{
    if entries.len() > 0 {
        if !(entries[0].depth == depth && entries[0].start_byte >= lo && entries[0].end_byte
            <= hi) {
            lemma_candidate_props(entries.skip(1), depth, lo, hi, i - 1);
            assert(entries.skip(1)[i - 1] == entries[i]);
        }
    }
}

/// Find the first entry at `depth` contained in `[lo, hi]`.
pub(crate) fn find_candidate_entry(snapshot: &SyntaxSnapshot, depth: usize, lo: usize, hi: usize) -> (r:
    Option<usize>)
    ensures
        match r {
            Some(i) => spec_candidate_entry(snapshot.entries@, depth as int, lo as int, hi as int)
                == Some(i as int) && (i as int) < snapshot.entries@.len(),
            None => spec_candidate_entry(snapshot.entries@, depth as int, lo as int, hi as int) is None,
        },
{
    let n = snapshot.entries.len();
    let mut i: usize = 0;
    while i < n
        invariant
            n == snapshot.entries@.len(),
            i <= n,
            forall|j: int|
                0 <= j < i ==> !((#[trigger] snapshot.entries@[j]).depth == depth
                    && snapshot.entries@[j].start_byte >= lo && snapshot.entries@[j].end_byte
                    <= hi),
        decreases n - i,
    {
        let e = &snapshot.entries[i];
        if e.depth == depth && e.start_byte >= lo && e.end_byte <= hi {
            proof {
                lemma_candidate_at(snapshot.entries@, depth as int, lo as int, hi as int, i as int);
            }
            return Some(i);
        }
        i = i + 1;
    }
    proof {
        lemma_candidate_absent(snapshot.entries@, depth as int, lo as int, hi as int);
    }
    None
}

/// A position in the forest: a stack of (entry index, node index) frames,
/// the top frame being the current node.
pub struct SyntaxSnapshotTreeCursor<'a> {
    snapshot: &'a SyntaxSnapshot,
    entry_stack: Vec<(usize, usize)>,
}

impl<'a> SyntaxSnapshotTreeCursor<'a> {
    pub closed spec fn spec_snapshot(&self) -> SyntaxSnapshot {
        *self.snapshot
    }

    pub closed spec fn stack(&self) -> Seq<(usize, usize)> {
        self.entry_stack@
    }

    pub open spec fn wf(&self) -> bool {
        &&& self.spec_snapshot().wf()
        &&& self.stack().len() >= 1
        &&& forall|i: int|
            0 <= i < self.stack().len() ==> frame_ok(
                self.spec_snapshot().entries@,
                #[trigger] self.stack()[i],
            )
    }

    /// The entry the cursor currently stands in.
    pub open spec fn cur_entry(&self) -> int {
        self.stack().last().0 as int
    }

    /// The current node's index in its entry's tree.
    pub open spec fn cur_node(&self) -> int {
        self.stack().last().1 as int
    }

    pub open spec fn cur_entry_val(&self) -> SyntaxSnapshotEntry {
        self.spec_snapshot().entries@[self.cur_entry()]
    }

    pub open spec fn cur_node_val(&self) -> TreeNode {
        entry_tree(self.cur_entry_val())@[self.cur_node()]
    }

    /// The current node's byte range in document coordinates.
    pub open spec fn spec_node_range(&self) -> (int, int) {
        (
            self.cur_entry_val().byte_offset + self.cur_node_val().start_byte,
            self.cur_entry_val().byte_offset + self.cur_node_val().end_byte,
        )
    }

    /// A cursor at the root of the snapshot's main tree.
    pub fn walk(snapshot: &'a SyntaxSnapshot) -> (r: SyntaxSnapshotTreeCursor<'a>)
        requires
            snapshot.wf(),
        ensures
            r.wf(),
            r.spec_snapshot() == *snapshot,
            r.stack() == seq![(0usize, 0usize)],
    {
        let mut entry_stack: Vec<(usize, usize)> = Vec::new();
        entry_stack.push((0, 0));
        proof {
            let t = entry_tree(snapshot.entries@[0]);
            assert(snapshot.entries@[0].content is Parsed);
            assert(t.wf());
            assert(t@.len() >= 1);
            assert(entry_stack@ =~= seq![(0usize, 0usize)]);
        }
        SyntaxSnapshotTreeCursor { snapshot, entry_stack }
    }

    /// The language of the entry the cursor stands in.
    pub fn language(&self) -> (r: LanguageId)
        requires
            self.wf(),
        ensures
            self.cur_entry_val().content matches SyntaxSnapshotEntryContent::Parsed {
                language,
                ..
            } && r == language,
    {
        proof {
            assert(frame_ok(self.spec_snapshot().entries@, self.stack().last()));
        }
        let (ei, _ni) = self.entry_stack[self.entry_stack.len() - 1];
        match &self.snapshot.entries[ei].content {
            SyntaxSnapshotEntryContent::Parsed { language, .. } => *language,
            SyntaxSnapshotEntryContent::Unparsed(_) => {
                proof {
                    assert(false);
                }
                LanguageId(0)
            },
        }
    }

    /// The current node, in its tree's local coordinates.
    pub fn node(&self) -> (r: &TreeNode)
        requires
            self.wf(),
        ensures
            *r == self.cur_node_val(),
    {
        proof {
            assert(frame_ok(self.spec_snapshot().entries@, self.stack().last()));
        }
        let (ei, ni) = self.entry_stack[self.entry_stack.len() - 1];
        match &self.snapshot.entries[ei].content {
            SyntaxSnapshotEntryContent::Parsed { tree, .. } => tree.node(ni),
            SyntaxSnapshotEntryContent::Unparsed(_) => {
                proof {
                    assert(false);
                }
                vstd::pervasive::unreached()
            },
        }
    }

    /// The current node's composite identity: (entry index, node index).
    pub fn node_id(&self) -> (r: (usize, usize))
        requires
            self.wf(),
        ensures
            r.0 == self.cur_entry() && r.1 == self.cur_node(),
    {
        self.entry_stack[self.entry_stack.len() - 1]
    }

    /// The current node's span in document coordinates.
    pub fn node_range(&self) -> (r: TextRange)
        requires
            self.wf(),
        ensures
            r.start_byte == self.spec_node_range().0,
            r.end_byte == self.spec_node_range().1,
            r.start_point == spec_add_point(
                self.cur_entry_val().point_offset,
                self.cur_node_val().start_point,
            ),
            r.end_point == spec_add_point(
                self.cur_entry_val().point_offset,
                self.cur_node_val().end_point,
            ),
    {
        proof {
            assert(frame_ok(self.spec_snapshot().entries@, self.stack().last()));
            assert(entry_wf(self.cur_entry_val()));
        }
        let (ei, ni) = self.entry_stack[self.entry_stack.len() - 1];
        let entry = &self.snapshot.entries[ei];
        match &entry.content {
            SyntaxSnapshotEntryContent::Parsed { tree, .. } => {
                let node = tree.node(ni);
                proof {
                    assert(crate::tree::node_wf(tree@, ni as int));
                    assert(entry.byte_offset + tree@[ni as int].end_byte <= usize::MAX);
                    assert(entry.point_offset.row + tree@[ni as int].start_point.row
                        <= usize::MAX);
                    assert(entry.point_offset.column + tree@[ni as int].start_point.column
                        <= usize::MAX);
                    assert(entry.point_offset.row + tree@[ni as int].end_point.row <= usize::MAX);
                    assert(entry.point_offset.column + tree@[ni as int].end_point.column
                        <= usize::MAX);
                }
                TextRange {
                    start_byte: entry.byte_offset + node.start_byte,
                    end_byte: entry.byte_offset + node.end_byte,
                    start_point: add_point(&entry.point_offset, &node.start_point),
                    end_point: add_point(&entry.point_offset, &node.end_point),
                }
            },
            SyntaxSnapshotEntryContent::Unparsed(_) => {
                proof {
                    assert(false);
                }
                vstd::pervasive::unreached()
            },
        }
    }

    /// Descend: to the local first child, or across into the first nested
    /// entry one injection depth down whose range the current node
    /// contains. Crossing fails if that entry is unparsed.
    pub fn goto_first_child(&mut self) -> (r: bool)
        requires
            old(self).wf(),
        ensures
            final(self).wf(),
            final(self).spec_snapshot() == old(self).spec_snapshot(),
            spec_goto_first_child(
                old(self).spec_snapshot(),
                old(self).stack(),
                final(self).stack(),
                r,
            ),
    {
        proof {
            assert(frame_ok(self.spec_snapshot().entries@, self.stack().last()));
            assert(entry_wf(self.cur_entry_val()));
        }
        let top = self.entry_stack.len() - 1;
        let (ei, ni) = self.entry_stack[top];
        let entry = &self.snapshot.entries[ei];
        let tree = match &entry.content {
            SyntaxSnapshotEntryContent::Parsed { tree, .. } => tree,
            SyntaxSnapshotEntryContent::Unparsed(_) => {
                proof {
                    assert(false);
                }
                vstd::pervasive::unreached()
            },
        };
        match tree.first_child(ni) {
            Some(c) => {
                let ghost old_stack = self.entry_stack@;
                self.entry_stack[top] = (ei, c);
                proof {
                    assert(self.entry_stack@ =~= old_stack.update(
                        old_stack.len() - 1,
                        (ei, c),
                    ));
                }
                true
            },
            None => {
                let node = tree.node(ni);
                proof {
                    assert(crate::tree::node_wf(tree@, ni as int));
                    assert(entry.byte_offset + tree@[ni as int].end_byte <= usize::MAX);
                }
                let lo = entry.byte_offset + node.start_byte;
                let hi = entry.byte_offset + node.end_byte;
                if entry.depth == usize::MAX {
                    return false;
                }
                match find_candidate_entry(self.snapshot, entry.depth + 1, lo, hi) {
                    Some(idx) => {
                        let is_parsed = match &self.snapshot.entries[idx].content {
                            SyntaxSnapshotEntryContent::Parsed { .. } => true,
                            SyntaxSnapshotEntryContent::Unparsed(_) => false,
                        };
                        if is_parsed {
                            let ghost old_stack = self.entry_stack@;
                            self.entry_stack.push((idx, 0));
                            proof {
                                let t = entry_tree(self.spec_snapshot().entries@[idx as int]);
                                assert(entry_wf(self.spec_snapshot().entries@[idx as int]));
                                assert(t.wf());
                                assert(t@.len() >= 1);
                            }
                            true
                        } else {
                            false
                        }
                    },
                    None => false,
                }
            },
        }
    }

    /// Move to the next sibling within the local tree; entry boundaries are
    /// never crossed sideways.
    pub fn goto_next_sibling(&mut self) -> (r: bool)
        requires
            old(self).wf(),
        ensures
            final(self).wf(),
            final(self).spec_snapshot() == old(self).spec_snapshot(),
            match spec_next_sibling_of(old(self).spec_snapshot(), old(self).stack()) {
                Some(c) => r && final(self).stack() == old(self).stack().update(
                    old(self).stack().len() - 1,
                    (old(self).stack().last().0, c),
                ),
                None => !r && final(self).stack() == old(self).stack(),
            },
    {
        proof {
            assert(frame_ok(self.spec_snapshot().entries@, self.stack().last()));
        }
        let top = self.entry_stack.len() - 1;
        let (ei, ni) = self.entry_stack[top];
        let tree = match &self.snapshot.entries[ei].content {
            SyntaxSnapshotEntryContent::Parsed { tree, .. } => tree,
            SyntaxSnapshotEntryContent::Unparsed(_) => {
                proof {
                    assert(false);
                }
                vstd::pervasive::unreached()
            },
        };
        match tree.next_sibling(ni) {
            Some(c) => {
                let ghost old_stack = self.entry_stack@;
                self.entry_stack[top] = (ei, c);
                proof {
                    assert(self.entry_stack@ =~= old_stack.update(old_stack.len() - 1, (ei, c)));
                }
                true
            },
            None => false,
        }
    }

    /// Move to the previous sibling within the local tree.
    pub fn goto_previous_sibling(&mut self) -> (r: bool)
        requires
            old(self).wf(),
        ensures
            final(self).wf(),
            final(self).spec_snapshot() == old(self).spec_snapshot(),
            match spec_prev_sibling_of(old(self).spec_snapshot(), old(self).stack()) {
                Some(c) => r && final(self).stack() == old(self).stack().update(
                    old(self).stack().len() - 1,
                    (old(self).stack().last().0, c),
                ),
                None => !r && final(self).stack() == old(self).stack(),
            },
    {
        proof {
            assert(frame_ok(self.spec_snapshot().entries@, self.stack().last()));
        }
        let top = self.entry_stack.len() - 1;
        let (ei, ni) = self.entry_stack[top];
        let tree = match &self.snapshot.entries[ei].content {
            SyntaxSnapshotEntryContent::Parsed { tree, .. } => tree,
            SyntaxSnapshotEntryContent::Unparsed(_) => {
                proof {
                    assert(false);
                }
                vstd::pervasive::unreached()
            },
        };
        match tree.prev_sibling(ni) {
            Some(c) => {
                let ghost old_stack = self.entry_stack@;
                self.entry_stack[top] = (ei, c);
                proof {
                    assert(self.entry_stack@ =~= old_stack.update(old_stack.len() - 1, (ei, c)));
                }
                true
            },
            None => false,
        }
    }

    /// Ascend: to the local parent, or — when the local tree cannot ascend
    /// and the stack holds more than one frame — back to the host entry.
    pub fn goto_parent(&mut self) -> (r: bool)
        requires
            old(self).wf(),
        ensures
            final(self).wf(),
            final(self).spec_snapshot() == old(self).spec_snapshot(),
            ({
                let old_stack = old(self).stack();
                let (ei, ni) = old_stack.last();
                let node = entry_tree(old(self).spec_snapshot().entries@[ei as int])@[ni as int];
                if ni != 0 {
                    r && final(self).stack() == old_stack.update(
                        old_stack.len() - 1,
                        (ei, node.parent),
                    )
                } else if old_stack.len() > 1 {
                    r && final(self).stack() == old_stack.drop_last()
                } else {
                    !r && final(self).stack() == old_stack
                }
            }),
    {
        proof {
            assert(frame_ok(self.spec_snapshot().entries@, self.stack().last()));
        }
        let top = self.entry_stack.len() - 1;
        let (ei, ni) = self.entry_stack[top];
        let tree = match &self.snapshot.entries[ei].content {
            SyntaxSnapshotEntryContent::Parsed { tree, .. } => tree,
            SyntaxSnapshotEntryContent::Unparsed(_) => {
                proof {
                    assert(false);
                }
                vstd::pervasive::unreached()
            },
        };
        match tree.parent(ni) {
            Some(p) => {
                let ghost old_stack = self.entry_stack@;
                self.entry_stack[top] = (ei, p);
                proof {
                    assert(self.entry_stack@ =~= old_stack.update(old_stack.len() - 1, (ei, p)));
                }
                true
            },
            None => {
                if self.entry_stack.len() > 1 {
                    let ghost old_stack = self.entry_stack@;
                    let _ = self.entry_stack.pop();
                    proof {
                        assert(self.entry_stack@ =~= old_stack.drop_last());
                    }
                    true
                } else {
                    false
                }
            },
        }
    }

    /// Byte-directed descent: like `goto_first_child`, but to the first
    /// local child extending beyond `index`; the cross-entry step happens
    /// only while `index` lies within the current entry's range. Returns
    /// the node index moved to.
    pub fn goto_first_child_for_byte(&mut self, index: usize) -> (r: Option<usize>)
        requires
            old(self).wf(),
        ensures
            final(self).wf(),
            final(self).spec_snapshot() == old(self).spec_snapshot(),
            spec_goto_first_child_for_byte(
                old(self).spec_snapshot(),
                old(self).stack(),
                final(self).stack(),
                r,
                index,
            ),
            r is Some ==> ({
                let (ei, ni) = old(self).stack().last();
                let entries = old(self).spec_snapshot().entries@;
                ||| (final(self).stack() == old(self).stack().update(
                    old(self).stack().len() - 1,
                    final(self).stack().last(),
                ) && final(self).stack().last().0 == ei && final(self).stack().last().1 > ni)
                ||| (final(self).stack() == old(self).stack().push(final(self).stack().last())
                    && final(self).stack().last().1 == 0 && entries[final(self).stack().last().0 as int].depth
                    == entries[ei as int].depth + 1)
            }),
    {
        proof {
            assert(frame_ok(self.spec_snapshot().entries@, self.stack().last()));
            assert(entry_wf(self.cur_entry_val()));
        }
        let top = self.entry_stack.len() - 1;
        let (ei, ni) = self.entry_stack[top];
        let entry = &self.snapshot.entries[ei];
        if index < entry.start_byte || index >= entry.end_byte {
            return None;
        }
        let tree = match &entry.content {
            SyntaxSnapshotEntryContent::Parsed { tree, .. } => tree,
            SyntaxSnapshotEntryContent::Unparsed(_) => {
                proof {
                    assert(false);
                }
                vstd::pervasive::unreached()
            },
        };
        let local_index = if index >= entry.byte_offset {
            index - entry.byte_offset
        } else {
            0
        };
        match tree.first_child_for_byte(ni, local_index) {
            Some(c) => {
                let ghost old_stack = self.entry_stack@;
                self.entry_stack[top] = (ei, c);
                proof {
                    assert(self.entry_stack@ =~= old_stack.update(old_stack.len() - 1, (ei, c)));
                }
                Some(c)
            },
            None => {
                let node = tree.node(ni);
                proof {
                    assert(crate::tree::node_wf(tree@, ni as int));
                    assert(entry.byte_offset + tree@[ni as int].end_byte <= usize::MAX);
                }
                let lo = entry.byte_offset + node.start_byte;
                let hi = entry.byte_offset + node.end_byte;
                if entry.depth == usize::MAX {
                    return None;
                }
                match find_candidate_entry(self.snapshot, entry.depth + 1, lo, hi) {
                    Some(idx) => {
                        let is_parsed = match &self.snapshot.entries[idx].content {
                            SyntaxSnapshotEntryContent::Parsed { .. } => true,
                            SyntaxSnapshotEntryContent::Unparsed(_) => false,
                        };
                        if is_parsed {
                            proof {
                                lemma_candidate_props(
                                    self.spec_snapshot().entries@,
                                    entry.depth + 1,
                                    lo as int,
                                    hi as int,
                                    idx as int,
                                );
                            }
                            self.entry_stack.push((idx, 0));
                            proof {
                                let t = entry_tree(self.spec_snapshot().entries@[idx as int]);
                                assert(entry_wf(self.spec_snapshot().entries@[idx as int]));
                                assert(t.wf());
                                assert(t@.len() >= 1);
                            }
                            Some(0)
                        } else {
                            None
                        }
                    },
                    None => None,
                }
            },
        }
    }
}

/// The local next sibling of the top frame, if any.
pub open spec fn spec_next_sibling_of(snapshot: SyntaxSnapshot, stack: Seq<(usize, usize)>) -> Option<
    usize,
>
    recommends
        stack.len() >= 1,
{
    let (ei, ni) = stack.last();
    let nodes = entry_tree(snapshot.entries@[ei as int])@;
    if ni == 0 {
        None
    } else {
        let p = nodes[ni as int].parent;
        let rank = nodes[ni as int].child_rank;
        if rank + 1 < nodes[p as int].children.len() {
            Some(nodes[p as int].children[rank as int + 1])
        } else {
            None
        }
    }
}

/// The local previous sibling of the top frame, if any.
pub open spec fn spec_prev_sibling_of(snapshot: SyntaxSnapshot, stack: Seq<(usize, usize)>) -> Option<
    usize,
>
    recommends
        stack.len() >= 1,
{
    let (ei, ni) = stack.last();
    let nodes = entry_tree(snapshot.entries@[ei as int])@;
    if ni == 0 {
        None
    } else {
        let p = nodes[ni as int].parent;
        let rank = nodes[ni as int].child_rank;
        if rank >= 1 {
            Some(nodes[p as int].children[rank as int - 1])
        } else {
            None
        }
    }
}

/// What `goto_first_child` does: move to the local first child, else cross
/// into the first contained entry one depth down if it is parsed, else stay.
pub open spec fn spec_goto_first_child(
    snapshot: SyntaxSnapshot,
    old_stack: Seq<(usize, usize)>,
    new_stack: Seq<(usize, usize)>,
    moved: bool,
) -> bool
    recommends
        old_stack.len() >= 1,
{
    let (ei, ni) = old_stack.last();
    let entry = snapshot.entries@[ei as int];
    let nodes = entry_tree(entry)@;
    if nodes[ni as int].children.len() > 0 {
        moved && new_stack == old_stack.update(
            old_stack.len() - 1,
            (ei, nodes[ni as int].children[0]),
        )
    } else {
        let lo = entry.byte_offset + nodes[ni as int].start_byte;
        let hi = entry.byte_offset + nodes[ni as int].end_byte;
        if entry.depth == usize::MAX {
            !moved && new_stack == old_stack
        } else {
            match spec_candidate_entry(snapshot.entries@, entry.depth + 1, lo, hi) {
                Some(idx) => {
                    if snapshot.entries@[idx].content is Parsed {
                        moved && new_stack == old_stack.push((idx as usize, 0usize))
                    } else {
                        !moved && new_stack == old_stack
                    }
                },
                None => !moved && new_stack == old_stack,
            }
        }
    }
}


/// What `goto_first_child_for_byte` does and when each outcome is owed.
/// `None` exactly when the index lies outside the current entry's range, or
/// no local child extends past it and no parsed entry one injection depth
/// down is contained in the current node's span; otherwise the stack moves
/// to the first such child, or is pushed to that entry's root.
pub open spec fn spec_goto_first_child_for_byte(
    snapshot: SyntaxSnapshot,
    old_stack: Seq<(usize, usize)>,
    new_stack: Seq<(usize, usize)>,
    r: Option<usize>,
    index: usize,
) -> bool
    recommends
        old_stack.len() >= 1,
{
    let (ei, ni) = old_stack.last();
    let entry = snapshot.entries@[ei as int];
    let nodes = entry_tree(entry)@;
    if index < entry.start_byte || index >= entry.end_byte {
        r is None && new_stack == old_stack
    } else {
        let local = if index >= entry.byte_offset {
            (index - entry.byte_offset) as usize
        } else {
            0
        };
        match crate::tree::spec_first_child_for_byte(nodes, ni as int, local) {
            Some(c) => r == Some(c) && new_stack == old_stack.update(
                old_stack.len() - 1,
                (ei, c),
            ),
            None => {
                if entry.depth == usize::MAX {
                    r is None && new_stack == old_stack
                } else {
                    let lo = entry.byte_offset + nodes[ni as int].start_byte;
                    let hi = entry.byte_offset + nodes[ni as int].end_byte;
                    match spec_candidate_entry(snapshot.entries@, entry.depth + 1, lo, hi) {
                        Some(idx) => {
                            if snapshot.entries@[idx].content is Parsed {
                                r == Some(0usize) && new_stack == old_stack.push(
                                    (idx as usize, 0usize),
                                )
                            } else {
                                r is None && new_stack == old_stack
                            }
                        },
                        None => r is None && new_stack == old_stack,
                    }
                }
            },
        }
    }
}

} // verus!
