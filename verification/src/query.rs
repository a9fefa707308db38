//! The plain model of a compiled query, as the external query engine
//! reports it: capture names, per-pattern property settings and general
//! predicates, and the matches produced by running the query over a tree.

use vstd::prelude::*;
use vstd::string::StrSliceExecFns;

use crate::coords::TextRange;
use crate::predicates::AdditionalPredicates;

verus! {

/// Holds a `bit_set::BitSet` of capture indices; the set itself is opaque
/// to the verifier and is reached only through the wrappers below.
#[verifier::external_body]
pub struct CaptureMask {
    set: bit_set::BitSet,
}

/// The elements held by a capture mask's bit set.
pub uninterp spec fn bitset_elems(s: CaptureMask) -> Set<int>;

/// Relies on bit_set::BitSet::with_capacity: a new set holds no elements.
#[verifier::external_body]
fn bitset_with_capacity(nbits: usize) -> (r: CaptureMask)
    ensures
        bitset_elems(r) == Set::<int>::empty(),
{
    CaptureMask { set: bit_set::BitSet::with_capacity(nbits) }
}

/// Relies on bit_set::BitSet::insert: adds the value to the set and reports
/// whether it was absent.
#[verifier::external_body]
fn bitset_insert(s: &mut CaptureMask, value: usize) -> (r: bool)
    ensures
        bitset_elems(*final(s)) == bitset_elems(*old(s)).insert(value as int),
        r == !bitset_elems(*old(s)).contains(value as int),
{
    s.set.insert(value)
}

/// Relies on bit_set::BitSet::contains: membership in the set.
#[verifier::external_body]
fn bitset_contains(s: &CaptureMask, value: usize) -> (r: bool)
    ensures
        r == bitset_elems(*s).contains(value as int),
{
    s.set.contains(value)
}

/// One `(#key capture? value?)` property setting of a pattern.
#[derive(Clone, Debug)]
pub struct QueryPropertyDesc {
    pub key: String,
    pub capture_id: Option<u32>,
    pub value: Option<String>,
}

/// One argument of a general predicate: a capture index or a literal.
#[derive(Clone, Debug)]
pub enum PredicateArgDesc {
    Capture(u32),
    Literal(String),
}

/// One general predicate of a pattern, e.g. `(#contains? @name "x")`.
#[derive(Clone, Debug)]
pub struct QueryPredicateDesc {
    pub operator: String,
    pub args: Vec<PredicateArgDesc>,
}

/// A compiled query's metadata. Per-pattern lists are indexed by pattern.
#[derive(Clone, Debug)]
pub struct QueryDesc {
    pub capture_names: Vec<String>,
    pub properties: Vec<Vec<QueryPropertyDesc>>,
    pub predicates: Vec<Vec<QueryPredicateDesc>>,
    /// The capture indices each pattern uses.
    pub pattern_captures: Vec<Vec<u32>>,
    /// Source byte offset where each pattern starts, for error rows.
    pub pattern_start_bytes: Vec<usize>,
}

impl QueryDesc {
    /// The per-pattern lists agree on the pattern count.
    pub open spec fn wf(&self) -> bool {
        &&& self.properties@.len() == self.pattern_start_bytes@.len()
        &&& self.predicates@.len() == self.pattern_start_bytes@.len()
        &&& self.pattern_captures@.len() == self.pattern_start_bytes@.len()
    }

    pub open spec fn spec_pattern_count(&self) -> int {
        self.pattern_start_bytes@.len() as int
    }

    pub fn pattern_count(&self) -> (r: usize)
        ensures
            r == self.spec_pattern_count(),
    {
        self.pattern_start_bytes.len()
    }
}

/// A capture is visible unless its name starts with the exclusion marker.
pub open spec fn spec_capture_visible(name: Seq<char>) -> bool {
    !(name.len() > 0 && name[0] == '_')
}

/// A compiled highlight query: the query's metadata, its predicates, and
/// the mask of visible captures.
pub struct HighlightQuery {
    pub query: QueryDesc,
    pub predicates: AdditionalPredicates,
    pub visible: CaptureMask,
}

impl HighlightQuery {
    /// The set of visible capture indices.
    pub open spec fn visible_ids(&self) -> Set<int> {
        bitset_elems(self.visible)
    }

    /// Compile the visibility mask: every capture whose name does not start
    /// with the exclusion marker is visible.
    pub fn new(query: QueryDesc, predicates: AdditionalPredicates) -> (r: HighlightQuery)
        ensures
            r.query == query,
            r.predicates == predicates,
            forall|i: int|
                0 <= i < query.capture_names@.len() ==> r.visible_ids().contains(i)
                    == spec_capture_visible((#[trigger] query.capture_names@[i])@),
            forall|i: int| r.visible_ids().contains(i) ==> 0 <= i < query.capture_names@.len(),
    {
        let n = query.capture_names.len();
        let mut mask = bitset_with_capacity(n);
        let mut i: usize = 0;
        while i < n
            invariant
                n == query.capture_names@.len(),
                i <= n,
                forall|k: int|
                    0 <= k < i ==> bitset_elems(mask).contains(k) == spec_capture_visible(
                        (#[trigger] query.capture_names@[k])@,
                    ),
                forall|k: int| bitset_elems(mask).contains(k) ==> 0 <= k < i,
            decreases n - i,
        {
            let name = query.capture_names[i].as_str();
            let hidden = name.unicode_len() > 0 && name.get_char(0) == '_';
            if !hidden {
                bitset_insert(&mut mask, i);
            }
            i = i + 1;
        }
        HighlightQuery { query, predicates, visible: mask }
    }

    /// Whether the capture with the given index is visible.
    pub fn capture_visible(&self, id: usize) -> (r: bool)
        ensures
            r == self.visible_ids().contains(id as int),
    {
        bitset_contains(&self.visible, id)
    }
}

/// One captured node of a match: the capture index, the node's index in its
/// entry's tree, and the node's span in global (document) coordinates.
#[derive(Clone, Debug)]
pub struct QueryCaptureData {
    pub capture_index: u32,
    pub node: usize,
    pub range: TextRange,
}

/// One match of a query pattern.
#[derive(Clone, Debug)]
pub struct QueryMatchData {
    pub pattern_index: usize,
    pub captures: Vec<QueryCaptureData>,
}

} // verus!
