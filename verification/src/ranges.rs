//! The range/fold engine: compiled fold and indent queries, per-match range
//! computation with inner/outer span semantics, fold combination for
//! adjacent same-pattern matches, and trailing-newline trimming.

use vstd::prelude::*;
use crate::text::str_eq;
use vstd::string::StrSliceExecFns;

use crate::coords::Point;
use crate::coords::TextRange;
use crate::predicates::spec_satisfies;
use crate::predicates::AdditionalPredicates;
use crate::query::QueryCaptureData;
use crate::query::QueryDesc;
use crate::query::QueryMatchData;
use crate::query::QueryPropertyDesc;
use crate::registry::LanguageId;
use crate::registry::LanguageRegistry;
use crate::tree::SyntaxTree;
use crate::tree::TreeNode;

verus! {

broadcast use vstd::string::group_string_axioms;

/// Why a fold or indent query failed to compile.
#[derive(Clone, Copy, Debug, PartialEq, Eq, Structural)]
pub enum RangesQueryError {
    /// The main capture is missing.
    NoRequiredCaptures,
    /// The main, `start` or `end` capture occurs twice.
    DuplicateCapture,
}

/// A compiled fold or indent query: the main capture gives the spanned
/// nodes; optional `start` / `end` captures override the edges.
pub struct RangesQuery {
    pub query: QueryDesc,
    pub predicates: AdditionalPredicates,
    pub main_capture_id: u32,
    pub start_capture_id: Option<u32>,
    pub end_capture_id: Option<u32>,
}

/// The scan of a query's capture names for the main, `start` and `end`
/// captures, failing on a duplicate of any of the three.
pub open spec fn spec_scan_range_captures(names: Seq<String>, main: Seq<char>) -> Result<
    (Option<u32>, Option<u32>, Option<u32>),
    RangesQueryError,
>
    decreases names.len(),
{
    if names.len() == 0 {
        Ok((None, None, None))
    } else {
        match spec_scan_range_captures(names.drop_last(), main) {
            Err(e) => Err(e),
            Ok((m, s, e)) => {
                let name = names.last()@;
                let idx = (names.len() - 1) as u32;
                if name == main {
                    if m is Some {
                        Err(RangesQueryError::DuplicateCapture)
                    } else {
                        Ok((Some(idx), s, e))
                    }
                } else if name == "start"@ {
                    if s is Some {
                        Err(RangesQueryError::DuplicateCapture)
                    } else {
                        Ok((m, Some(idx), e))
                    }
                } else if name == "end"@ {
                    if e is Some {
                        Err(RangesQueryError::DuplicateCapture)
                    } else {
                        Ok((m, s, Some(idx)))
                    }
                } else {
                    Ok((m, s, e))
                }
            },
        }
    }
}

proof fn lemma_scan_range_err_propagates(
    names: Seq<String>,
    main: Seq<char>,
    j: int,
    e: RangesQueryError,
)
    requires
        0 < j <= names.len(),
        spec_scan_range_captures(names.take(j), main) == Err::<
            (Option<u32>, Option<u32>, Option<u32>),
            RangesQueryError,
        >(e),
    ensures
        spec_scan_range_captures(names, main) == Err::<
            (Option<u32>, Option<u32>, Option<u32>),
            RangesQueryError,
        >(e),
    decreases names.len() - j,
{
    if j == names.len() {
        assert(names.take(j) =~= names);
    } else {
        assert(names.take(j + 1).drop_last() =~= names.take(j));
        lemma_scan_range_err_propagates(names, main, j + 1, e);
    }
}

impl RangesQuery {
    /// Compile a fold or indent query: find the main capture (required,
    /// unique) and the optional unique `start` / `end` captures.
    pub fn new(
        query: QueryDesc,
        predicates: AdditionalPredicates,
        main_capture_name: &str,
    ) -> (r: Result<RangesQuery, RangesQueryError>)
        requires
            query.capture_names@.len() <= u32::MAX,
        ensures
            match r {
                Ok(rq) => {
                    &&& spec_scan_range_captures(query.capture_names@, main_capture_name@) == Ok::<
                        (Option<u32>, Option<u32>, Option<u32>),
                        RangesQueryError,
                    >((Some(rq.main_capture_id), rq.start_capture_id, rq.end_capture_id))
                    &&& rq.query == query
                    &&& rq.predicates == predicates
                },
                Err(e) => match spec_scan_range_captures(
                    query.capture_names@,
                    main_capture_name@,
                ) {
                    Err(e2) => e == e2,
                    Ok(t) => t.0 is None && e == RangesQueryError::NoRequiredCaptures,
                },
            },
    {
        let mut main_id: Option<u32> = None;
        let mut start_id: Option<u32> = None;
        let mut end_id: Option<u32> = None;
        let n = query.capture_names.len();
        let mut i: usize = 0;
        proof {
            assert(query.capture_names@.take(0) =~= Seq::<String>::empty());
        }
        while i < n
            invariant
                n == query.capture_names@.len() <= u32::MAX,
                i <= n,
                spec_scan_range_captures(query.capture_names@.take(i as int), main_capture_name@)
                    == Ok::<(Option<u32>, Option<u32>, Option<u32>), RangesQueryError>(
                    (main_id, start_id, end_id),
                ),
            decreases n - i,
        {
            let ghost prefix = query.capture_names@.take(i as int);
            let name = query.capture_names[i].as_str();
            proof {
                assert(query.capture_names@.take(i + 1).drop_last() =~= prefix);
                assert(query.capture_names@.take(i + 1).last() == query.capture_names@[i as int]);
            }
            if str_eq(name, main_capture_name) {
                if main_id.is_some() {
                    proof {
                        lemma_scan_range_err_propagates(
                            query.capture_names@,
                            main_capture_name@,
                            i + 1,
                            RangesQueryError::DuplicateCapture,
                        );
                    }
                    return Err(RangesQueryError::DuplicateCapture);
                }
                main_id = Some(i as u32);
            } else if str_eq(name, "start") {
                if start_id.is_some() {
                    proof {
                        lemma_scan_range_err_propagates(
                            query.capture_names@,
                            main_capture_name@,
                            i + 1,
                            RangesQueryError::DuplicateCapture,
                        );
                    }
                    return Err(RangesQueryError::DuplicateCapture);
                }
                start_id = Some(i as u32);
            } else if str_eq(name, "end") {
                if end_id.is_some() {
                    proof {
                        lemma_scan_range_err_propagates(
                            query.capture_names@,
                            main_capture_name@,
                            i + 1,
                            RangesQueryError::DuplicateCapture,
                        );
                    }
                    return Err(RangesQueryError::DuplicateCapture);
                }
                end_id = Some(i as u32);
            }
            i = i + 1;
        }
        proof {
            assert(query.capture_names@.take(n as int) =~= query.capture_names@);
        }
        match main_id {
            None => Err(RangesQueryError::NoRequiredCaptures),
            Some(m) => Ok(
                RangesQuery {
                    query,
                    predicates,
                    main_capture_id: m,
                    start_capture_id: start_id,
                    end_capture_id: end_id,
                },
            ),
        }
    }
}

/// One collected range: the pattern that produced it, the spanned range,
/// and the byte just past the spanned node (the anchor fold combination
/// uses).
#[derive(Clone, Copy, Debug, PartialEq, Eq, Structural)]
pub struct RangeResult {
    pub language: LanguageId,
    pub pattern_id: usize,
    pub range: TextRange,
    pub next_byte: usize,
}

/// The running extremes while folding a match's main-capture nodes.
pub ghost struct RangeAcc {
    pub start_byte: Option<usize>,
    pub end_byte: Option<usize>,
    pub next_byte: Option<usize>,
    pub start_point: Option<Point>,
    pub end_point: Option<Point>,
}

/// The local next sibling of node `i`, by the tree's links.
pub open spec fn spec_next_sib(nodes: Seq<TreeNode>, i: int) -> Option<int> {
    if i == 0 {
        None
    } else {
        let p = nodes[i].parent;
        let rank = nodes[i].child_rank;
        if rank + 1 < nodes[p as int].children.len() {
            Some(nodes[p as int].children[rank as int + 1] as int)
        } else {
            None
        }
    }
}

/// One main-capture node folded into the extremes: the earliest start, the
/// latest end, and the furthest following-sibling start (or the node's own
/// end where it has no following sibling).
pub open spec fn spec_main_step(
    acc: RangeAcc,
    cap: QueryCaptureData,
    nodes: Seq<TreeNode>,
    byte_offset: usize,
) -> RangeAcc {
    let acc1 = if acc.start_byte is None || cap.range.start_byte < acc.start_byte->Some_0 {
        RangeAcc {
            start_byte: Some(cap.range.start_byte),
            start_point: Some(cap.range.start_point),
            ..acc
        }
    } else {
        acc
    };
    let acc2 = if acc1.end_byte is None || cap.range.end_byte > acc1.end_byte->Some_0 {
        RangeAcc { end_byte: Some(cap.range.end_byte), end_point: Some(cap.range.end_point), ..acc1 }
    } else {
        acc1
    };
    match spec_next_sib(nodes, cap.node as int) {
        Some(s) => {
            let sib_start = (byte_offset + nodes[s].start_byte) as usize;
            if acc2.next_byte is None || sib_start > acc2.next_byte->Some_0 {
                RangeAcc { next_byte: Some(sib_start), ..acc2 }
            } else {
                acc2
            }
        },
        None => RangeAcc { next_byte: Some(cap.range.end_byte), ..acc2 },
    }
}

/// The extremes of a match's main-capture nodes, folded in capture order.
pub open spec fn spec_main_fold(
    caps: Seq<QueryCaptureData>,
    main_id: u32,
    nodes: Seq<TreeNode>,
    byte_offset: usize,
) -> RangeAcc
    decreases caps.len(),
{
    if caps.len() == 0 {
        RangeAcc {
            start_byte: None,
            end_byte: None,
            next_byte: None,
            start_point: None,
            end_point: None,
        }
    } else {
        let prefix = spec_main_fold(caps.drop_last(), main_id, nodes, byte_offset);
        if caps.last().capture_index == main_id {
            spec_main_step(prefix, caps.last(), nodes, byte_offset)
        } else {
            prefix
        }
    }
}

/// An explicit `start` or `end` capture overriding the edges: the outer
/// edge of the delimiter normally, its inner edge in inner mode. An inner
/// `end` also anchors combination at the delimiter's start.
pub open spec fn spec_edge_step(
    acc: RangeAcc,
    cap: QueryCaptureData,
    start_id: Option<u32>,
    end_id: Option<u32>,
    use_inner: bool,
    nodes: Seq<TreeNode>,
    byte_offset: usize,
) -> RangeAcc {
    if start_id == Some(cap.capture_index) {
        if use_inner {
            RangeAcc {
                start_byte: Some(cap.range.end_byte),
                start_point: Some(cap.range.end_point),
                ..acc
            }
        } else {
            RangeAcc {
                start_byte: Some(cap.range.start_byte),
                start_point: Some(cap.range.start_point),
                ..acc
            }
        }
    } else if end_id == Some(cap.capture_index) {
        if use_inner {
            RangeAcc {
                end_byte: Some(cap.range.start_byte),
                end_point: Some(cap.range.start_point),
                next_byte: Some(cap.range.start_byte),
                ..acc
            }
        } else {
            let nb = match spec_next_sib(nodes, cap.node as int) {
                Some(s) => Some((byte_offset + nodes[s].start_byte) as usize),
                None => Some(cap.range.end_byte),
            };
            RangeAcc {
                end_byte: Some(cap.range.end_byte),
                end_point: Some(cap.range.end_point),
                next_byte: nb,
                ..acc
            }
        }
    } else {
        acc
    }
}

pub open spec fn spec_edge_fold(
    acc: RangeAcc,
    caps: Seq<QueryCaptureData>,
    start_id: Option<u32>,
    end_id: Option<u32>,
    use_inner: bool,
    nodes: Seq<TreeNode>,
    byte_offset: usize,
) -> RangeAcc
    decreases caps.len(),
{
    if caps.len() == 0 {
        acc
    } else {
        spec_edge_step(
            spec_edge_fold(acc, caps.drop_last(), start_id, end_id, use_inner, nodes, byte_offset),
            caps.last(),
            start_id,
            end_id,
            use_inner,
            nodes,
            byte_offset,
        )
    }
}

/// Whether a pattern requests inner-span semantics via `range.inner`.
pub open spec fn spec_pattern_inner(props: Seq<QueryPropertyDesc>) -> bool {
    exists|i: int| 0 <= i < props.len() && (#[trigger] props[i]).key@ == "range.inner"@
}

/// The range one accepted match produces, if all five pieces resolved.
pub open spec fn spec_match_range(
    q: RangesQuery,
    language: LanguageId,
    m: QueryMatchData,
    use_inner_req: bool,
    nodes: Seq<TreeNode>,
    byte_offset: usize,
) -> Option<RangeResult>
    recommends
        m.pattern_index < q.query.properties@.len(),
{
    let use_inner = use_inner_req || spec_pattern_inner(q.query.properties@[m.pattern_index as int]@);
    let acc0 = spec_main_fold(m.captures@, q.main_capture_id, nodes, byte_offset);
    let acc = spec_edge_fold(
        acc0,
        m.captures@,
        q.start_capture_id,
        q.end_capture_id,
        use_inner,
        nodes,
        byte_offset,
    );
    if acc.start_byte is Some && acc.end_byte is Some && acc.next_byte is Some && acc.start_point
        is Some && acc.end_point is Some {
        Some(
            RangeResult {
                language,
                pattern_id: m.pattern_index,
                range: TextRange {
                    start_byte: acc.start_byte->Some_0,
                    end_byte: acc.end_byte->Some_0,
                    start_point: acc.start_point->Some_0,
                    end_point: acc.end_point->Some_0,
                },
                next_byte: acc.next_byte->Some_0,
            },
        )
    } else {
        None
    }
}

/// The ranges of an entry's matches, in order, predicates applied.
pub open spec fn spec_collect_ranges(
    q: RangesQuery,
    language: LanguageId,
    text: Seq<u16>,
    ms: Seq<QueryMatchData>,
    use_inner_req: bool,
    nodes: Seq<TreeNode>,
    byte_offset: usize,
) -> Seq<RangeResult>
    decreases ms.len(),
{
    if ms.len() == 0 {
        Seq::empty()
    } else {
        let prefix = spec_collect_ranges(
            q,
            language,
            text,
            ms.drop_last(),
            use_inner_req,
            nodes,
            byte_offset,
        );
        let m = ms.last();
        if spec_satisfies(q.predicates@, text, m) {
            match spec_match_range(q, language, m, use_inner_req, nodes, byte_offset) {
                Some(r) => prefix.push(r),
                None => prefix,
            }
        } else {
            prefix
        }
    }
}

impl RangesQuery {
    /// Compute one match's range, as `spec_match_range` says: the main
    /// capture's union of node spans, edges overridden by explicit `start` /
    /// `end` captures, inner edges in inner mode, and the next-byte anchor
    /// alongside.
    #[verifier::loop_isolation(false)]
    #[verifier::rlimit(100)]
    fn match_range(
        &self,
        language: LanguageId,
        m: &QueryMatchData,
        use_inner_req: bool,
        tree: &SyntaxTree,
        byte_offset: usize,
    ) -> (r: Option<RangeResult>)
        requires
            tree.wf(),
            m.pattern_index < self.query.properties@.len(),
            forall|i: int|
                0 <= i < m.captures@.len() ==> (#[trigger] m.captures@[i]).node < tree@.len(),
            forall|i: int|
                0 <= i < tree@.len() ==> byte_offset + (#[trigger] tree@[i]).end_byte
                    <= usize::MAX,
        ensures
            r == spec_match_range(*self, language, *m, use_inner_req, tree@, byte_offset),
    {
        let props = &self.query.properties[m.pattern_index];
        let mut use_inner = use_inner_req;
        let np = props.len();
        let mut pi: usize = 0;
        while pi < np && !use_inner
            invariant
                pi <= np,
                !use_inner_req ==> (use_inner == exists|i: int|
                    0 <= i < pi && (#[trigger] props@[i]).key@ == "range.inner"@),
                use_inner_req ==> use_inner,
            decreases np - pi,
        {
            if str_eq(props[pi].key.as_str(), "range.inner") {
                use_inner = true;
            }
            pi = pi + 1;
        }
        proof {
            if !use_inner_req {
                if use_inner {
                    assert(spec_pattern_inner(props@));
                } else {
                    assert(pi == np);
                    assert(!spec_pattern_inner(props@));
                }
            }
            assert(use_inner == (use_inner_req || spec_pattern_inner(
                self.query.properties@[m.pattern_index as int]@,
            )));
        }
        let caps = &m.captures;
        let n = caps.len();
        let mut acc_sb: Option<usize> = None;
        let mut acc_eb: Option<usize> = None;
        let mut acc_nb: Option<usize> = None;
        let mut acc_sp: Option<Point> = None;
        let mut acc_ep: Option<Point> = None;
        let ghost acc_of = |sb: Option<usize>, eb: Option<usize>, nb: Option<usize>, sp: Option<
            Point,
        >, ep: Option<Point>|
            RangeAcc {
                start_byte: sb,
                end_byte: eb,
                next_byte: nb,
                start_point: sp,
                end_point: ep,
            };
        let mut k: usize = 0;
        proof {
            assert(caps@.take(0) =~= Seq::<QueryCaptureData>::empty());
        }
        while k < n
            invariant
                k <= n,
                acc_of(acc_sb, acc_eb, acc_nb, acc_sp, acc_ep) == spec_main_fold(
                    caps@.take(k as int),
                    self.main_capture_id,
                    tree@,
                    byte_offset,
                ),
            decreases n - k,
        {
            let ghost prefix = caps@.take(k as int);
            let cap = &caps[k];
            proof {
                assert(caps@.take(k + 1).drop_last() =~= prefix);
                assert(caps@.take(k + 1).last() == caps@[k as int]);
            }
            if cap.capture_index == self.main_capture_id {
                let better_start = match &acc_sb {
                    Option::None => true,
                    Option::Some(b) => cap.range.start_byte < *b,
                };
                if better_start {
                    acc_sb = Some(cap.range.start_byte);
                    acc_sp = Some(cap.range.start_point);
                }
                let better_end = match &acc_eb {
                    Option::None => true,
                    Option::Some(b) => cap.range.end_byte > *b,
                };
                if better_end {
                    acc_eb = Some(cap.range.end_byte);
                    acc_ep = Some(cap.range.end_point);
                }
                match tree.next_sibling(cap.node) {
                    Some(s) => {
                        proof {
                            assert(crate::tree::node_wf(tree@, s as int));
                        }
                        let sib_start = byte_offset + tree.node(s).start_byte;
                        let better_next = match &acc_nb {
                            Option::None => true,
                            Option::Some(b) => sib_start > *b,
                        };
                        if better_next {
                            acc_nb = Some(sib_start);
                        }
                    },
                    None => {
                        acc_nb = Some(cap.range.end_byte);
                    },
                }
            }
            k = k + 1;
        }
        proof {
            assert(caps@.take(n as int) =~= caps@);
        }
        let mut k2: usize = 0;
        proof {
            assert(caps@.take(0) =~= Seq::<QueryCaptureData>::empty());
        }
        while k2 < n
            invariant
                k2 <= n,
                acc_of(acc_sb, acc_eb, acc_nb, acc_sp, acc_ep) == spec_edge_fold(
                    spec_main_fold(caps@, self.main_capture_id, tree@, byte_offset),
                    caps@.take(k2 as int),
                    self.start_capture_id,
                    self.end_capture_id,
                    use_inner,
                    tree@,
                    byte_offset,
                ),
            decreases n - k2,
        {
            let ghost prefix = caps@.take(k2 as int);
            let cap = &caps[k2];
            proof {
                assert(caps@.take(k2 + 1).drop_last() =~= prefix);
                assert(caps@.take(k2 + 1).last() == caps@[k2 as int]);
            }
            let is_start = match &self.start_capture_id {
                Option::Some(id) => *id == cap.capture_index,
                Option::None => false,
            };
            let is_end = match &self.end_capture_id {
                Option::Some(id) => *id == cap.capture_index,
                Option::None => false,
            };
            if is_start {
                if use_inner {
                    acc_sb = Some(cap.range.end_byte);
                    acc_sp = Some(cap.range.end_point);
                } else {
                    acc_sb = Some(cap.range.start_byte);
                    acc_sp = Some(cap.range.start_point);
                }
            } else if is_end {
                if use_inner {
                    acc_eb = Some(cap.range.start_byte);
                    acc_ep = Some(cap.range.start_point);
                    acc_nb = Some(cap.range.start_byte);
                } else {
                    acc_eb = Some(cap.range.end_byte);
                    acc_ep = Some(cap.range.end_point);
                    match tree.next_sibling(cap.node) {
                        Some(s) => {
                            proof {
                                assert(crate::tree::node_wf(tree@, s as int));
                            }
                            acc_nb = Some(byte_offset + tree.node(s).start_byte);
                        },
                        None => {
                            acc_nb = Some(cap.range.end_byte);
                        },
                    }
                }
            }
            k2 = k2 + 1;
        }
        proof {
            assert(caps@.take(n as int) =~= caps@);
        }
        match (acc_sb, acc_eb, acc_nb, acc_sp, acc_ep) {
            (Some(sb), Some(eb), Some(nb), Some(sp), Some(ep)) => Some(
                RangeResult {
                    language,
                    pattern_id: m.pattern_index,
                    range: TextRange {
                        start_byte: sb,
                        end_byte: eb,
                        start_point: sp,
                        end_point: ep,
                    },
                    next_byte: nb,
                },
            ),
            _ => None,
        }
    }

    /// Collect the ranges of one entry's matches, filtering by the query's
    /// predicates.
    pub fn collect_ranges_for_entry(
        &self,
        language: LanguageId,
        text: &[u16],
        matches: &Vec<QueryMatchData>,
        use_inner: bool,
        tree: &SyntaxTree,
        byte_offset: usize,
        out: &mut Vec<RangeResult>,
    )
        requires
            tree.wf(),
            forall|i: int|
                0 <= i < matches@.len() ==> (#[trigger] matches@[i]).pattern_index
                    < self.query.properties@.len(),
            forall|i: int, j: int|
                0 <= i < matches@.len() && 0 <= j < (#[trigger] matches@[i]).captures@.len()
                    ==> (#[trigger] matches@[i].captures@[j]).node < tree@.len(),
            forall|i: int|
                0 <= i < tree@.len() ==> byte_offset + (#[trigger] tree@[i]).end_byte
                    <= usize::MAX,
        ensures
            final(out)@ == old(out)@ + spec_collect_ranges(
                *self,
                language,
                text@,
                matches@,
                use_inner,
                tree@,
                byte_offset,
            ),
    {
        let n = matches.len();
        let mut mi: usize = 0;
        proof {
            assert(matches@.take(0) =~= Seq::<QueryMatchData>::empty());
            assert(out@ =~= old(out)@ + spec_collect_ranges(
                *self,
                language,
                text@,
                matches@.take(0),
                use_inner,
                tree@,
                byte_offset,
            ));
        }
        while mi < n
            invariant
                n == matches@.len(),
                tree.wf(),
                forall|i: int|
                    0 <= i < matches@.len() ==> (#[trigger] matches@[i]).pattern_index
                        < self.query.properties@.len(),
                forall|i: int, j: int|
                    0 <= i < matches@.len() && 0 <= j < (#[trigger] matches@[i]).captures@.len()
                        ==> (#[trigger] matches@[i].captures@[j]).node < tree@.len(),
                forall|i: int|
                    0 <= i < tree@.len() ==> byte_offset + (#[trigger] tree@[i]).end_byte
                        <= usize::MAX,
                mi <= n,
                out@ == old(out)@ + spec_collect_ranges(
                    *self,
                    language,
                    text@,
                    matches@.take(mi as int),
                    use_inner,
                    tree@,
                    byte_offset,
                ),
            decreases n - mi,
        {
            let ghost prefix = matches@.take(mi as int);
            let m = &matches[mi];
            proof {
                assert(matches@.take(mi + 1).drop_last() =~= prefix);
                assert(matches@.take(mi + 1).last() == matches@[mi as int]);
            }
            if self.predicates.satisfies_predicates(text, m) {
                match self.match_range(language, m, use_inner, tree, byte_offset) {
                    Some(r) => {
                        out.push(r);
                    },
                    None => {},
                }
            }
            mi = mi + 1;
        }
        proof {
            assert(matches@.take(n as int) =~= matches@);
        }
    }
}

/// Two adjacent same-pattern fold results combine when the earlier one's
/// next-byte anchor meets the later one's start, their start columns match,
/// and their rows are equal or adjacent.
pub open spec fn spec_combinable(a: RangeResult, b: RangeResult) -> bool {
    &&& a.next_byte == b.range.start_byte
    &&& a.range.start_point.column == b.range.start_point.column
    &&& (a.range.end_point.row + 1 == b.range.start_point.row || a.range.end_point.row
        == b.range.start_point.row)
}

/// The combination: the earlier range extended to the later one's end, the
/// anchor taken from the later one.
pub open spec fn spec_merge_fold(a: RangeResult, b: RangeResult) -> RangeResult {
    RangeResult {
        language: a.language,
        pattern_id: a.pattern_id,
        range: TextRange {
            start_byte: a.range.start_byte,
            end_byte: b.range.end_byte,
            start_point: a.range.start_point,
            end_point: b.range.end_point,
        },
        next_byte: b.next_byte,
    }
}

/// Combine two fold results, as `spec_merge_fold` says.
pub fn merge_fold(a: &RangeResult, b: &RangeResult) -> (r: RangeResult)
    ensures
        r == spec_merge_fold(*a, *b),
{
    RangeResult {
        language: a.language,
        pattern_id: a.pattern_id,
        range: TextRange {
            start_byte: a.range.start_byte,
            end_byte: b.range.end_byte,
            start_point: a.range.start_point,
            end_point: b.range.end_point,
        },
        next_byte: b.next_byte,
    }
}

/// Fold combination is associative over a run of three adjacent
/// same-pattern matches: combining pairwise left-to-right yields the same
/// range as combining right-to-left, and combinability itself carries over
/// to the partial combinations.
pub proof fn lemma_fold_combination_associative(a: RangeResult, b: RangeResult, c: RangeResult)
    requires
        spec_combinable(a, b),
        spec_combinable(b, c),
    ensures
        spec_combinable(spec_merge_fold(a, b), c),
        spec_combinable(a, spec_merge_fold(b, c)),
        spec_merge_fold(spec_merge_fold(a, b), c) == spec_merge_fold(a, spec_merge_fold(b, c)),
{
}

/// The fold-specific settings a pattern's properties carry.
#[derive(Clone, Debug)]
pub struct FoldSettings {
    pub collapsed_text: Option<String>,
    pub collapsed_by_default: bool,
    pub combined_lines: bool,
}

/// The fold settings read off a pattern's properties: the last `fold.text`
/// value wins; `fold.collapsed` and `fold.combined-lines` are flags.
pub open spec fn spec_fold_settings(props: Seq<QueryPropertyDesc>) -> (Option<String>, bool, bool)
    decreases props.len(),
{
    if props.len() == 0 {
        (None, false, false)
    } else {
        let prev = spec_fold_settings(props.drop_last());
        let p = props.last();
        if p.key@ == "fold.text"@ {
            if p.value is Some {
                (Some(p.value->Some_0), prev.1, prev.2)
            } else {
                prev
            }
        } else if p.key@ == "fold.collapsed"@ {
            (prev.0, true, prev.2)
        } else if p.key@ == "fold.combined-lines"@ {
            (prev.0, prev.1, true)
        } else {
            prev
        }
    }
}

/// Read a pattern's fold settings from its query.
pub fn fold_settings(query: &RangesQuery, pattern: usize) -> (r: FoldSettings)
    requires
        pattern < query.query.properties@.len(),
    ensures
        ({
            let (text, collapsed, combined) = spec_fold_settings(
                query.query.properties@[pattern as int]@,
            );
            &&& r.collapsed_text == text
            &&& r.collapsed_by_default == collapsed
            &&& r.combined_lines == combined
        }),
{
    let props = &query.query.properties[pattern];
    let n = props.len();
    let mut text: Option<String> = None;
    let mut collapsed = false;
    let mut combined = false;
    let mut i: usize = 0;
    proof {
        assert(props@.take(0) =~= Seq::<QueryPropertyDesc>::empty());
    }
    while i < n
        invariant
            n == props@.len(),
            i <= n,
            spec_fold_settings(props@.take(i as int)).0 == text,
            spec_fold_settings(props@.take(i as int)).1 == collapsed,
            spec_fold_settings(props@.take(i as int)).2 == combined,
        decreases n - i,
    {
        let ghost prefix = props@.take(i as int);
        let p = &props[i];
        proof {
            assert(props@.take(i + 1).drop_last() =~= prefix);
            assert(props@.take(i + 1).last() == props@[i as int]);
        }
        if str_eq(p.key.as_str(), "fold.text") {
            match &p.value {
                Option::Some(v) => {
                    text = Some(v.clone());
                },
                Option::None => {},
            }
        } else if str_eq(p.key.as_str(), "fold.collapsed") {
            collapsed = true;
        } else if str_eq(p.key.as_str(), "fold.combined-lines") {
            combined = true;
        }
        i = i + 1;
    }
    proof {
        assert(props@.take(n as int) =~= props@);
    }
    FoldSettings { collapsed_text: text, collapsed_by_default: collapsed, combined_lines: combined }
}

/// One fold range ready for the editor.
#[derive(Clone, Debug)]
pub struct FoldRange {
    pub pattern_id: usize,
    pub range: TextRange,
    pub collapsed_by_default: bool,
    pub collapsed_text: Option<String>,
    pub next_byte: usize,
}

/// The position remembered per pattern for combination, read as a map.
pub open spec fn idx_map(s: Seq<(usize, usize)>) -> Map<usize, usize>
    decreases s.len(),
{
    if s.len() == 0 {
        Map::empty()
    } else {
        idx_map(s.drop_last()).insert(s.last().0, s.last().1)
    }
}

fn idx_get(v: &Vec<(usize, usize)>, k: usize) -> (r: Option<usize>)
    ensures
        match r {
            Some(c) => idx_map(v@).contains_key(k) && idx_map(v@)[k] == c,
            None => !idx_map(v@).contains_key(k),
        },
{
    let n = v.len();
    let mut i: usize = n;
    while i > 0
        invariant
            i <= n == v@.len(),
            forall|j: int| i <= j < n ==> (#[trigger] v@[j]).0 != k,
        decreases i,
    {
        i = i - 1;
        if v[i].0 == k {
            proof {
                lemma_idx_map_found(v@, k, i as int);
            }
            return Some(v[i].1);
        }
    }
    proof {
        lemma_idx_map_absent(v@, k);
    }
    None
}

proof fn lemma_idx_map_found(s: Seq<(usize, usize)>, k: usize, i: int)
    requires
        0 <= i < s.len(),
        s[i].0 == k,
        forall|j: int| i < j < s.len() ==> (#[trigger] s[j]).0 != k,
    ensures
        idx_map(s).contains_key(k),
        idx_map(s)[k] == s[i].1,
    decreases s.len(),
{
    if i < s.len() - 1 {
        lemma_idx_map_found(s.drop_last(), k, i);
    }
}

proof fn lemma_idx_map_absent(s: Seq<(usize, usize)>, k: usize)
    requires
        forall|j: int| 0 <= j < s.len() ==> (#[trigger] s[j]).0 != k,
    ensures
        !idx_map(s).contains_key(k),
    decreases s.len(),
{
    if s.len() > 0 {
        lemma_idx_map_absent(s.drop_last(), k);
    }
}

/// The fold range a result starts when nothing merges with it: its own
/// span and anchor, carrying its pattern's collapsed flag and label.
pub open spec fn spec_new_fold(r: RangeResult, s: FoldSettings) -> FoldRange {
    FoldRange {
        pattern_id: r.pattern_id,
        range: r.range,
        collapsed_by_default: s.collapsed_by_default,
        collapsed_text: s.collapsed_text,
        next_byte: r.next_byte,
    }
}

/// An accumulated fold range read back as a result, for the adjacency test
/// against an incoming result of the same pattern.
pub open spec fn spec_prev_result(prev: FoldRange, language: LanguageId) -> RangeResult {
    RangeResult {
        language,
        pattern_id: prev.pattern_id,
        range: prev.range,
        next_byte: prev.next_byte,
    }
}

/// The combination state: the ranges so far, and per pattern the position
/// of its last combined range.
pub ghost struct CombineState {
    pub out: Seq<FoldRange>,
    pub last: Map<usize, usize>,
}

/// One result folded into the state. A result of a `fold.combined-lines`
/// pattern merges into that pattern's remembered range exactly when
/// `spec_combinable` accepts the pair: the remembered range keeps its
/// start, collapsed flag and label, and takes the incoming end and anchor
/// (`spec_merge_fold`). Otherwise — and always for patterns without the
/// property — the result is appended as `spec_new_fold`; a combining
/// pattern then remembers the appended position.
pub open spec fn spec_combine_step(st: CombineState, r: RangeResult, s: FoldSettings) -> CombineState {
    if s.combined_lines {
        if st.last.contains_key(r.pattern_id) && st.last[r.pattern_id] < st.out.len()
            && spec_combinable(
            spec_prev_result(st.out[st.last[r.pattern_id] as int], r.language),
            r,
        ) {
            let i = st.last[r.pattern_id] as int;
            let prev = st.out[i];
            let merged = spec_merge_fold(spec_prev_result(prev, r.language), r);
            CombineState {
                out: st.out.update(
                    i,
                    FoldRange {
                        pattern_id: prev.pattern_id,
                        range: merged.range,
                        collapsed_by_default: prev.collapsed_by_default,
                        collapsed_text: prev.collapsed_text,
                        next_byte: merged.next_byte,
                    },
                ),
                last: st.last,
            }
        } else {
            CombineState {
                out: st.out.push(spec_new_fold(r, s)),
                last: st.last.insert(r.pattern_id, st.out.len() as usize),
            }
        }
    } else {
        CombineState { out: st.out.push(spec_new_fold(r, s)), last: st.last }
    }
}

/// The whole combination: the results folded in order.
pub open spec fn spec_combine_fold(
    results: Seq<RangeResult>,
    settings: Seq<FoldSettings>,
) -> CombineState
    recommends
        results.len() == settings.len(),
    decreases results.len(),
{
    if results.len() == 0 {
        CombineState { out: Seq::empty(), last: Map::empty() }
    } else {
        spec_combine_step(
            spec_combine_fold(results.drop_last(), settings.drop_last()),
            results.last(),
            settings.last(),
        )
    }
}

/// Combine a stream of fold results, as `spec_combine_fold` says: a result
/// of a `fold.combined-lines` pattern merges into that pattern's last
/// combined range when adjacent (`spec_combinable`); otherwise it starts a
/// new range carrying its setting's collapsed flag and label. Results of
/// other patterns pass through unchanged. Runs of adjacent same-pattern
/// single-line matches thus collapse into one range; by
/// `lemma_fold_combination_associative` the grouping order cannot change
/// the outcome.
pub fn combine_fold_ranges(results: &Vec<RangeResult>, settings: &Vec<FoldSettings>) -> (r: Vec<
    FoldRange,
>)
    requires
        settings@.len() == results@.len(),
    ensures
        r@ == spec_combine_fold(results@, settings@).out,
{
    let n = results.len();
    let mut out: Vec<FoldRange> = Vec::new();
    let mut last_combined: Vec<(usize, usize)> = Vec::new();
    let mut i: usize = 0;
    proof {
        assert(results@.take(0) =~= Seq::<RangeResult>::empty());
        assert(settings@.take(0) =~= Seq::<FoldSettings>::empty());
        assert(idx_map(last_combined@) =~= Map::<usize, usize>::empty());
        assert(out@ =~= spec_combine_fold(results@.take(0), settings@.take(0)).out);
    }
    while i < n
        invariant
            n == results@.len(),
            settings@.len() == results@.len(),
            i <= n,
            out@ == spec_combine_fold(results@.take(i as int), settings@.take(i as int)).out,
            idx_map(last_combined@) == spec_combine_fold(
                results@.take(i as int),
                settings@.take(i as int),
            ).last,
            forall|k: usize|
                #[trigger] idx_map(last_combined@).contains_key(k) ==> idx_map(last_combined@)[k]
                    < out@.len(),
        decreases n - i,
    {
        let ghost st = spec_combine_fold(results@.take(i as int), settings@.take(i as int));
        let result = &results[i];
        let setting = &settings[i];
        proof {
            assert(results@.take(i + 1).drop_last() =~= results@.take(i as int));
            assert(settings@.take(i + 1).drop_last() =~= settings@.take(i as int));
            assert(results@.take(i + 1).last() == results@[i as int]);
            assert(settings@.take(i + 1).last() == settings@[i as int]);
        }
        let mut merged = false;
        if setting.combined_lines {
            match idx_get(&last_combined, result.pattern_id) {
                Some(idx) => {
                    let prev = &out[idx];
                    let prev_result = RangeResult {
                        language: result.language,
                        pattern_id: prev.pattern_id,
                        range: prev.range,
                        next_byte: prev.next_byte,
                    };
                    let can = prev.next_byte == result.range.start_byte
                        && prev.range.start_point.column == result.range.start_point.column && (
                    prev.range.end_point.row == result.range.start_point.row || (
                    result.range.start_point.row > 0 && prev.range.end_point.row
                        == result.range.start_point.row - 1));
                    proof {
                        assert(can == spec_combinable(prev_result, results@[i as int]));
                    }
                    if can {
                        let merged_result = merge_fold(&prev_result, result);
                        let new_range = FoldRange {
                            pattern_id: prev.pattern_id,
                            range: merged_result.range,
                            collapsed_by_default: prev.collapsed_by_default,
                            collapsed_text: match &prev.collapsed_text {
                                Option::Some(t) => Some(t.clone()),
                                Option::None => None,
                            },
                            next_byte: merged_result.next_byte,
                        };
                        out[idx] = new_range;
                        merged = true;
                    }
                },
                None => {},
            }
            if !merged {
                let ghost before = last_combined@;
                last_combined.push((result.pattern_id, out.len()));
                proof {
                    assert(last_combined@.drop_last() =~= before);
                    assert(idx_map(last_combined@) == idx_map(before).insert(
                        result.pattern_id,
                        out@.len() as usize,
                    ));
                }
            }
        }
        if !merged {
            out.push(
                FoldRange {
                    pattern_id: result.pattern_id,
                    range: result.range,
                    collapsed_by_default: setting.collapsed_by_default,
                    collapsed_text: match &setting.collapsed_text {
                        Option::Some(t) => Some(t.clone()),
                        Option::None => None,
                    },
                    next_byte: result.next_byte,
                },
            );
        }
        proof {
            assert(out@ =~= spec_combine_fold(results@.take(i + 1), settings@.take(i + 1)).out);
            assert(idx_map(last_combined@) =~= spec_combine_fold(
                results@.take(i + 1),
                settings@.take(i + 1),
            ).last);
        }
        i = i + 1;
    }
    proof {
        assert(results@.take(n as int) =~= results@);
        assert(settings@.take(n as int) =~= settings@);
    }
    out
}

/// The range results of every entry intersecting the requested byte range,
/// for the fold queries (or, with `use_folds` false, the indent queries) of
/// the entries' languages, given the matches the engine reported per entry.
pub open spec fn spec_collect_entry_results(
    snapshot: crate::snapshot::SyntaxSnapshot,
    registry: LanguageRegistry,
    text: Seq<u16>,
    range_start: usize,
    range_end: usize,
    use_inner: bool,
    use_folds: bool,
    entry_matches: Seq<(usize, Vec<QueryMatchData>)>,
) -> Seq<RangeResult>
    decreases entry_matches.len(),
{
    if entry_matches.len() == 0 {
        Seq::empty()
    } else {
        let acc = spec_collect_entry_results(
            snapshot,
            registry,
            text,
            range_start,
            range_end,
            use_inner,
            use_folds,
            entry_matches.drop_last(),
        );
        let (entry_idx, matches) = entry_matches.last();
        if entry_idx < snapshot.entries@.len() && range_start < snapshot.entries@[
            entry_idx as int
        ].end_byte && range_end > snapshot.entries@[entry_idx as int].start_byte {
            let e = snapshot.entries@[entry_idx as int];
            match e.content {
                crate::snapshot::SyntaxSnapshotEntryContent::Parsed { language, tree } => {
                    match crate::registry::spec_index_by_id(registry.languages@, language) {
                        Some(li) => {
                            let q = if use_folds {
                                registry.languages@[li].parser_info.folds_query
                            } else {
                                registry.languages@[li].parser_info.indents_query
                            };
                            match q {
                                Some(rq) => {
                                    if spec_entry_results_ok(rq, tree, e.byte_offset, matches@) {
                                        acc + spec_collect_ranges(
                                            rq,
                                            language,
                                            text,
                                            matches@,
                                            use_inner,
                                            tree@,
                                            e.byte_offset,
                                        )
                                    } else {
                                        acc
                                    }
                                },
                                None => acc,
                            }
                        },
                        None => acc,
                    }
                },
                crate::snapshot::SyntaxSnapshotEntryContent::Unparsed(_) => acc,
            }
        } else {
            acc
        }
    }
}

/// The data of one entry's matches is consistent with its tree and query:
/// pattern indices and node indices in range, document offsets in bounds.
/// Matches violating it are skipped whole.
pub open spec fn spec_entry_results_ok(
    rq: RangesQuery,
    tree: crate::tree::SyntaxTree,
    byte_offset: usize,
    ms: Seq<QueryMatchData>,
) -> bool {
    &&& forall|i: int|
        0 <= i < ms.len() ==> (#[trigger] ms[i]).pattern_index < rq.query.properties@.len()
    &&& forall|i: int, j: int|
        0 <= i < ms.len() && 0 <= j < (#[trigger] ms[i]).captures@.len() ==> (#[trigger] ms[
            i
        ].captures@[j]).node < tree@.len()
    &&& forall|i: int|
        0 <= i < tree@.len() ==> byte_offset + (#[trigger] tree@[i]).end_byte <= usize::MAX
}

/// Collect fold or indent range results over the whole forest, as
/// `spec_collect_entry_results` says.
pub fn collect_range_results(
    snapshot: &crate::snapshot::SyntaxSnapshot,
    registry: &LanguageRegistry,
    text: &[u16],
    range_start: usize,
    range_end: usize,
    use_inner: bool,
    use_folds: bool,
    entry_matches: &Vec<(usize, Vec<QueryMatchData>)>,
) -> (r: Vec<RangeResult>)
    requires
        snapshot.wf(),
    ensures
        r@ == spec_collect_entry_results(
            *snapshot,
            *registry,
            text@,
            range_start,
            range_end,
            use_inner,
            use_folds,
            entry_matches@,
        ),
{
    let n = entry_matches.len();
    let mut out: Vec<RangeResult> = Vec::new();
    let mut i: usize = 0;
    proof {
        assert(entry_matches@.take(0) =~= Seq::<(usize, Vec<QueryMatchData>)>::empty());
    }
    while i < n
        invariant
            snapshot.wf(),
            n == entry_matches@.len(),
            i <= n,
            out@ == spec_collect_entry_results(
                *snapshot,
                *registry,
                text@,
                range_start,
                range_end,
                use_inner,
                use_folds,
                entry_matches@.take(i as int),
            ),
        decreases n - i,
    {
        let ghost prefix = entry_matches@.take(i as int);
        let (entry_idx, matches) = &entry_matches[i];
        proof {
            assert(entry_matches@.take(i + 1).drop_last() =~= prefix);
            assert(entry_matches@.take(i + 1).last() == entry_matches@[i as int]);
        }
        if *entry_idx < snapshot.entries.len() {
            let entry = &snapshot.entries[*entry_idx];
            if range_start < entry.end_byte && range_end > entry.start_byte {
                match &entry.content {
                    crate::snapshot::SyntaxSnapshotEntryContent::Parsed { language, tree } => {
                        match registry.language(*language) {
                            Some(lang) => {
                                let q = if use_folds {
                                    &lang.parser_info.folds_query
                                } else {
                                    &lang.parser_info.indents_query
                                };
                                match q {
                                    Some(rq) => {
                                        if entry_results_ok(rq, tree, entry.byte_offset, matches) {
                                            rq.collect_ranges_for_entry(
                                                *language,
                                                text,
                                                matches,
                                                use_inner,
                                                tree,
                                                entry.byte_offset,
                                                &mut out,
                                            );
                                        }
                                    },
                                    None => {},
                                }
                            },
                            None => {},
                        }
                    },
                    crate::snapshot::SyntaxSnapshotEntryContent::Unparsed(_) => {},
                }
            }
        }
        i = i + 1;
    }
    proof {
        assert(entry_matches@.take(n as int) =~= entry_matches@);
    }
    out
}

/// Check one entry's match data against its tree and query.
fn entry_results_ok(
    rq: &RangesQuery,
    tree: &crate::tree::SyntaxTree,
    byte_offset: usize,
    ms: &Vec<QueryMatchData>,
) -> (r: bool)
    ensures
        r == spec_entry_results_ok(*rq, *tree, byte_offset, ms@),
{
    let pattern_count = rq.query.properties.len();
    let tree_len = tree.node_count();
    let n = ms.len();
    let mut i: usize = 0;
    while i < n
        invariant
            n == ms@.len(),
            i <= n,
            pattern_count == rq.query.properties@.len(),
            tree_len == tree@.len(),
            forall|k: int|
                0 <= k < i ==> (#[trigger] ms@[k]).pattern_index < rq.query.properties@.len(),
            forall|k: int, j: int|
                0 <= k < i && 0 <= j < (#[trigger] ms@[k]).captures@.len() ==> (#[trigger] ms@[
                    k
                ].captures@[j]).node < tree@.len(),
        decreases n - i,
    {
        if ms[i].pattern_index >= pattern_count {
            return false;
        }
        let caps = &ms[i].captures;
        let m = caps.len();
        let mut j: usize = 0;
        while j < m
            invariant
                m == caps@.len(),
                caps@ == ms@[i as int].captures@,
                tree_len == tree@.len(),
                i < ms@.len(),
                j <= m,
                forall|q: int| 0 <= q < j ==> (#[trigger] caps@[q]).node < tree@.len(),
            decreases m - j,
        {
            if caps[j].node >= tree_len {
                return false;
            }
            j = j + 1;
        }
        i = i + 1;
    }
    let mut t: usize = 0;
    while t < tree_len
        invariant
            tree_len == tree@.len(),
            t <= tree_len,
            forall|k: int|
                0 <= k < t ==> byte_offset + (#[trigger] tree@[k]).end_byte <= usize::MAX,
        decreases tree_len - t,
    {
        if tree.node(t).end_byte > usize::MAX - byte_offset {
            return false;
        }
        t = t + 1;
    }
    true
}

/// The start of the line containing position `pos` (native units): the
/// position just after the previous newline, or the document start.
pub open spec fn spec_line_start(text: Seq<u16>, pos: int) -> int
    decreases pos,
{
    if pos <= 0 {
        0
    } else if text[pos - 1] == 0x0a {
        pos
    } else {
        spec_line_start(text, pos - 1)
    }
}

/// Trim a trailing newline off a fold range: if the range's last native
/// unit is a newline, shrink the range by one unit and recompute the end
/// point at the end of the previous line.
pub fn trim_trailing_newline(text: &[u16], range: &TextRange) -> (r: TextRange)
    requires
        range.end_byte % 2 == 0,
        range.end_byte <= text@.len() * 2,
    ensures
        ({
            let units = range.end_byte as int / 2;
            if units > 0 && text@[units - 1] == 0x0a {
                &&& r.start_byte == range.start_byte
                &&& r.start_point == range.start_point
                &&& r.end_byte == range.end_byte - 2
                &&& r.end_point.row == (if range.end_point.row > 0 {
                    range.end_point.row - 1
                } else {
                    0
                })
                &&& r.end_point.column == 2 * (units - 1 - spec_line_start(text@, units - 1))
            } else {
                r == *range
            }
        }),
{
    let units = range.end_byte / 2;
    if units == 0 || text[units - 1] != 0x0a {
        return *range;
    }
    let new_units = units - 1;
    let mut ls: usize = new_units;
    while ls > 0 && text[ls - 1] != 0x0a
        invariant
            ls <= new_units,
            new_units < text@.len(),
            spec_line_start(text@, new_units as int) == spec_line_start(text@, ls as int),
        decreases ls,
    {
        ls = ls - 1;
    }
    proof {
        assert(spec_line_start(text@, ls as int) == ls as int);
    }
    TextRange {
        start_byte: range.start_byte,
        end_byte: range.end_byte - 2,
        start_point: range.start_point,
        end_point: Point {
            row: if range.end_point.row > 0 {
                range.end_point.row - 1
            } else {
                0
            },
            column: (new_units - ls) * 2,
        },
    }
}

} // verus!
