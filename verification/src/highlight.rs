//! The highlight engine: collects visible capture matches into spans keyed
//! by exact byte range, then walks the forest to emit the minimal sequence
//! of non-overlapping, gap-free tokens covering a requested range.

use vstd::prelude::*;

use crate::cursor::entry_tree;
use crate::cursor::frame_ok;
use crate::cursor::find_candidate_entry;
use crate::cursor::lemma_candidate_props;
use crate::predicates::spec_satisfies;
use crate::query::HighlightQuery;
use crate::query::QueryMatchData;
use crate::registry::LanguageId;
use crate::registry::LanguageRegistry;
use crate::registry::spec_index_by_id;
use crate::snapshot::SyntaxSnapshot;
use crate::snapshot::SyntaxSnapshotEntry;
use crate::snapshot::SyntaxSnapshotEntryContent;
use crate::snapshot::entry_wf;
use crate::tree::SyntaxTree;

verus! {

/// The sentinel for "no capture" / "no node kind".
pub const NONE_ID: u16 = 0xffff;

/// One emitted token: a run of text under one language, with the node kind
/// it came from (or the sentinel for gap-fill tokens) and the active
/// capture (or the sentinel for unhighlighted text). The length is in
/// native units; a token sequence is a partition of the covered range.
#[derive(Clone, Copy, Debug, PartialEq, Eq, Structural)]
pub struct HighlightToken {
    pub language_id: LanguageId,
    pub kind_id: u16,
    pub capture_id: u16,
    pub length: u32,
}

/// One highlighted span: an exact byte range with the language, capture and
/// pattern that claimed it.
#[derive(Clone, Copy, Debug, PartialEq, Eq, Structural)]
pub struct HighlightSpan {
    pub start_byte: usize,
    pub end_byte: usize,
    pub language: LanguageId,
    pub capture_id: u16,
    pub pattern_index: usize,
}

/// The position of the span with the given byte range, if any.
pub open spec fn find_span(s: Seq<HighlightSpan>, start: usize, end: usize) -> Option<int>
    decreases s.len(),
{
    if s.len() == 0 {
        None
    } else if s[0].start_byte == start && s[0].end_byte == end {
        Some(0)
    } else {
        match find_span(s.skip(1), start, end) {
            None => None,
            Some(i) => Some(i + 1),
        }
    }
}

proof fn lemma_find_span_at(s: Seq<HighlightSpan>, start: usize, end: usize, i: int)
    requires
        0 <= i < s.len(),
        s[i].start_byte == start && s[i].end_byte == end,
        forall|j: int|
            0 <= j < i ==> !((#[trigger] s[j]).start_byte == start && s[j].end_byte == end),
    ensures
        find_span(s, start, end) == Some(i),
    decreases i,
{
    if i > 0 {
        assert(forall|j: int| 0 <= j < s.len() - 1 ==> #[trigger] s.skip(1)[j] == s[j + 1]);
        lemma_find_span_at(s.skip(1), start, end, i - 1);
    }
}

proof fn lemma_find_span_absent(s: Seq<HighlightSpan>, start: usize, end: usize)
    requires
        forall|j: int|
            0 <= j < s.len() ==> !((#[trigger] s[j]).start_byte == start && s[j].end_byte == end),
    ensures
        find_span(s, start, end) is None,
    decreases s.len(),
{
    if s.len() > 0 {
        assert(forall|j: int| 0 <= j < s.len() - 1 ==> #[trigger] s.skip(1)[j] == s[j + 1]);
        lemma_find_span_absent(s.skip(1), start, end);
    }
}

/// Merge one candidate span into the accumulated spans: an absent range is
/// appended; for a present range, a span of the same language is replaced
/// only by a lower pattern index (lower wins), and a span of another
/// language is replaced outright.
pub open spec fn spec_merge_span(acc: Seq<HighlightSpan>, x: HighlightSpan) -> Seq<HighlightSpan> {
    match find_span(acc, x.start_byte, x.end_byte) {
        None => acc.push(x),
        Some(i) => {
            if acc[i].language == x.language {
                if x.pattern_index < acc[i].pattern_index {
                    acc.update(i, x)
                } else {
                    acc
                }
            } else {
                acc.update(i, x)
            }
        },
    }
}

/// The spans one match contributes: its visible captures, in order, subject
/// to the match passing the query's predicates.
pub open spec fn spec_match_spans(
    q: HighlightQuery,
    language: LanguageId,
    text: Seq<u16>,
    m: QueryMatchData,
    acc: Seq<HighlightSpan>,
) -> Seq<HighlightSpan>
    decreases m.captures@.len(),
{
    if !spec_satisfies(q.predicates@, text, m) {
        acc
    } else {
        spec_match_captures(q, language, m.pattern_index, m.captures@, acc)
    }
}

/// Fold the captures of one accepted match into the accumulated spans.
pub open spec fn spec_match_captures(
    q: HighlightQuery,
    language: LanguageId,
    pattern_index: usize,
    caps: Seq<crate::query::QueryCaptureData>,
    acc: Seq<HighlightSpan>,
) -> Seq<HighlightSpan>
    decreases caps.len(),
{
    if caps.len() == 0 {
        acc
    } else {
        let prefix = spec_match_captures(q, language, pattern_index, caps.drop_last(), acc);
        let c = caps.last();
        if q.visible_ids().contains(c.capture_index as int) && c.capture_index <= 0xffff {
            spec_merge_span(
                prefix,
                HighlightSpan {
                    start_byte: c.range.start_byte,
                    end_byte: c.range.end_byte,
                    language,
                    capture_id: c.capture_index as u16,
                    pattern_index,
                },
            )
        } else {
            prefix
        }
    }
}

/// Fold a list of matches of one entry's language.
pub open spec fn spec_entry_spans(
    q: HighlightQuery,
    language: LanguageId,
    text: Seq<u16>,
    ms: Seq<QueryMatchData>,
    acc: Seq<HighlightSpan>,
) -> Seq<HighlightSpan>
    decreases ms.len(),
{
    if ms.len() == 0 {
        acc
    } else {
        spec_match_spans(q, language, text, ms.last(), spec_entry_spans(
            q,
            language,
            text,
            ms.drop_last(),
            acc,
        ))
    }
}

impl HighlightQuery {
    /// Fold one entry's matches into the accumulated spans: matches failing
    /// the predicates are dropped, invisible captures are dropped, and
    /// duplicate ranges resolve as `spec_merge_span` says.
    pub fn collect_entry_spans(
        &self,
        language: LanguageId,
        text: &[u16],
        matches: &Vec<QueryMatchData>,
        out: &mut Vec<HighlightSpan>,
    )
        ensures
            final(out)@ == spec_entry_spans(*self, language, text@, matches@, old(out)@),
    {
        let n = matches.len();
        let mut mi: usize = 0;
        proof {
            assert(matches@.take(0) =~= Seq::<QueryMatchData>::empty());
        }
        while mi < n
            invariant
                n == matches@.len(),
                mi <= n,
                out@ == spec_entry_spans(*self, language, text@, matches@.take(mi as int), old(
                    out,
                )@),
            decreases n - mi,
        {
            let ghost prefix = matches@.take(mi as int);
            let m = &matches[mi];
            proof {
                assert(matches@.take(mi + 1).drop_last() =~= prefix);
                assert(matches@.take(mi + 1).last() == matches@[mi as int]);
            }
            if self.predicates.satisfies_predicates(text, m) {
                let caps = &m.captures;
                let k_total = caps.len();
                let mut k: usize = 0;
                let ghost acc0 = out@;
                proof {
                    assert(caps@.take(0) =~= Seq::<crate::query::QueryCaptureData>::empty());
                }
                while k < k_total
                    invariant
                        k_total == caps@.len(),
                        k <= k_total,
                        caps@ == m.captures@,
                        out@ == spec_match_captures(
                            *self,
                            language,
                            m.pattern_index,
                            caps@.take(k as int),
                            acc0,
                        ),
                    decreases k_total - k,
                {
                    let ghost cprefix = caps@.take(k as int);
                    let cap = &caps[k];
                    proof {
                        assert(caps@.take(k + 1).drop_last() =~= cprefix);
                        assert(caps@.take(k + 1).last() == caps@[k as int]);
                    }
                    let visible = self.capture_visible(
                        if cap.capture_index <= 0xffff {
                            cap.capture_index as usize
                        } else {
                            0xffff_usize
                        },
                    );
                    if cap.capture_index <= 0xffff && visible {
                        let x = HighlightSpan {
                            start_byte: cap.range.start_byte,
                            end_byte: cap.range.end_byte,
                            language,
                            capture_id: cap.capture_index as u16,
                            pattern_index: m.pattern_index,
                        };
                        merge_span(out, x);
                    }
                    k = k + 1;
                }
                proof {
                    assert(caps@.take(k_total as int) =~= caps@);
                }
            }
            mi = mi + 1;
        }
        proof {
            assert(matches@.take(n as int) =~= matches@);
        }
    }
}

/// Merge one span into the accumulated spans, as `spec_merge_span` says.
fn merge_span(out: &mut Vec<HighlightSpan>, x: HighlightSpan)
    ensures
        final(out)@ == spec_merge_span(old(out)@, x),
{
    let n = out.len();
    let mut i: usize = 0;
    while i < n
        invariant
            n == out@.len(),
            i <= n,
            out@ == old(out)@,
            forall|j: int|
                0 <= j < i ==> !((#[trigger] out@[j]).start_byte == x.start_byte && out@[j].end_byte
                    == x.end_byte),
        decreases n - i,
    {
        if out[i].start_byte == x.start_byte && out[i].end_byte == x.end_byte {
            proof {
                lemma_find_span_at(out@, x.start_byte, x.end_byte, i as int);
            }
            let same_language = out[i].language.0 == x.language.0;
            if same_language {
                if x.pattern_index < out[i].pattern_index {
                    out[i] = x;
                }
            } else {
                out[i] = x;
            }
            return ;
        }
        i = i + 1;
    }
    proof {
        lemma_find_span_absent(out@, x.start_byte, x.end_byte);
    }
    out.push(x);
}

/// Collect the highlight spans of every entry intersecting the requested
/// byte range, given the matches the external engine reported per entry.
/// Entries that are unparsed, outside the range, or whose language has no
/// highlight query contribute nothing.
pub fn collect_highlights_for_range(
    snapshot: &SyntaxSnapshot,
    registry: &LanguageRegistry,
    text: &[u16],
    range_start: usize,
    range_end: usize,
    entry_matches: &Vec<(usize, Vec<QueryMatchData>)>,
) -> (r: Vec<HighlightSpan>)
    requires
        snapshot.wf(),
    ensures
        r@ == spec_collect_highlights(
            *snapshot,
            *registry,
            text@,
            range_start,
            range_end,
            entry_matches@,
        ),
{
    let n = entry_matches.len();
    let mut out: Vec<HighlightSpan> = Vec::new();
    let mut i: usize = 0;
    proof {
        assert(entry_matches@.take(0) =~= Seq::<(usize, Vec<QueryMatchData>)>::empty());
    }
    while i < n
        invariant
            snapshot.wf(),
            n == entry_matches@.len(),
            i <= n,
            out@ == spec_collect_highlights(
                *snapshot,
                *registry,
                text@,
                range_start,
                range_end,
                entry_matches@.take(i as int),
            ),
        decreases n - i,
    {
        let ghost prefix = entry_matches@.take(i as int);
        let (entry_idx, matches) = &entry_matches[i];
        proof {
            assert(entry_matches@.take(i + 1).drop_last() =~= prefix);
            assert(entry_matches@.take(i + 1).last() == entry_matches@[i as int]);
        }
        if *entry_idx < snapshot.entries.len() {
            let entry = &snapshot.entries[*entry_idx];
            if entry.start_byte <= range_end && entry.end_byte >= range_start {
                match &entry.content {
                    SyntaxSnapshotEntryContent::Parsed { language, .. } => {
                        match registry.language(*language) {
                            Some(lang) => {
                                match &lang.parser_info.highlights_query {
                                    Some(q) => {
                                        q.collect_entry_spans(*language, text, matches, &mut out);
                                    },
                                    None => {},
                                }
                            },
                            None => {},
                        }
                    },
                    SyntaxSnapshotEntryContent::Unparsed(_) => {},
                }
            }
        }
        i = i + 1;
    }
    proof {
        assert(entry_matches@.take(n as int) =~= entry_matches@);
    }
    out
}

/// The spans collected over a list of per-entry match lists.
pub open spec fn spec_collect_highlights(
    snapshot: SyntaxSnapshot,
    registry: LanguageRegistry,
    text: Seq<u16>,
    range_start: usize,
    range_end: usize,
    entry_matches: Seq<(usize, Vec<QueryMatchData>)>,
) -> Seq<HighlightSpan>
    decreases entry_matches.len(),
{
    if entry_matches.len() == 0 {
        Seq::empty()
    } else {
        let acc = spec_collect_highlights(
            snapshot,
            registry,
            text,
            range_start,
            range_end,
            entry_matches.drop_last(),
        );
        let (entry_idx, matches) = entry_matches.last();
        if entry_idx < snapshot.entries@.len() && snapshot.entries@[entry_idx as int].start_byte
            <= range_end && snapshot.entries@[entry_idx as int].end_byte >= range_start {
            match snapshot.entries@[entry_idx as int].content {
                SyntaxSnapshotEntryContent::Parsed { language, .. } => {
                    match spec_index_by_id(registry.languages@, language) {
                        Some(li) => match registry.languages@[li].parser_info.highlights_query {
                            Some(q) => spec_entry_spans(q, language, text, matches@, acc),
                            None => acc,
                        },
                        None => acc,
                    }
                },
                SyntaxSnapshotEntryContent::Unparsed(_) => acc,
            }
        } else {
            acc
        }
    }
}

/// The sum of a token run's lengths, in native units.
pub open spec fn tokens_len_sum(s: Seq<HighlightToken>) -> int
    decreases s.len(),
{
    if s.len() == 0 {
        0
    } else {
        tokens_len_sum(s.drop_last()) + s.last().length
    }
}

/// The deepest injection depth among the entries.
pub open spec fn max_entry_depth(entries: Seq<SyntaxSnapshotEntry>) -> int
    decreases entries.len(),
{
    if entries.len() == 0 {
        0
    } else {
        let m = max_entry_depth(entries.drop_last());
        if entries.last().depth > m {
            entries.last().depth as int
        } else {
            m
        }
    }
}

proof fn lemma_depth_le_max(entries: Seq<SyntaxSnapshotEntry>, i: int)
    requires
        0 <= i < entries.len(),
    ensures
        entries[i].depth <= max_entry_depth(entries),
    decreases entries.len(),
{
    if i < entries.len() - 1 {
        lemma_depth_le_max(entries.drop_last(), i);
    }
}

/// Every parsed node's document end stays within `limit`; token lengths
/// then fit the token type.
pub open spec fn entry_bounded(e: SyntaxSnapshotEntry, limit: int) -> bool {
    match e.content {
        SyntaxSnapshotEntryContent::Parsed { tree, .. } => forall|i: int|
            0 <= i < tree@.len() ==> e.byte_offset + (#[trigger] tree@[i]).end_byte <= limit,
        SyntaxSnapshotEntryContent::Unparsed(_) => true,
    }
}

pub open spec fn snapshot_bounded(entries: Seq<SyntaxSnapshotEntry>, limit: int) -> bool {
    forall|e: int| 0 <= e < entries.len() ==> entry_bounded(#[trigger] entries[e], limit)
}

/// A node's span in document coordinates.
pub open spec fn spec_global_start(snapshot: SyntaxSnapshot, ei: int, ni: int) -> int {
    snapshot.entries@[ei].byte_offset + entry_tree(snapshot.entries@[ei])@[ni].start_byte
}

pub open spec fn spec_global_end(snapshot: SyntaxSnapshot, ei: int, ni: int) -> int {
    snapshot.entries@[ei].byte_offset + entry_tree(snapshot.entries@[ei])@[ni].end_byte
}

/// One frame of the highlight context stack.
#[derive(Clone, Copy, Debug, PartialEq, Eq, Structural)]
pub struct HlFrame {
    pub language: LanguageId,
    pub entry: usize,
    pub node: usize,
    pub capture_id: u16,
}

/// Appending a well-formed token keeps a run well-formed.
proof fn lemma_tokens_push_ok(
    snapshot: SyntaxSnapshot,
    highlights: Seq<HighlightSpan>,
    before: Seq<HighlightToken>,
    t: HighlightToken,
)
    requires
        token_capture_ok(highlights, t),
        token_kind_ok(snapshot, t),
    ensures
        all_tokens_ok(snapshot, highlights, before) ==> all_tokens_ok(
            snapshot,
            highlights,
            before.push(t),
        ),
{
    if all_tokens_ok(snapshot, highlights, before) {
        assert forall|q: int| 0 <= q < before.push(t).len() implies token_capture_ok(
            highlights,
            #[trigger] before.push(t)[q],
        ) && token_kind_ok(snapshot, before.push(t)[q]) by {
            if q < before.len() {
                assert(before.push(t)[q] == before[q]);
            } else {
                assert(before.push(t)[q] == t);
            }
        }
    }
}

/// A token whose capture the stack dictates for its own language is
/// well-capture-formed.
proof fn lemma_capture_from_stack(
    highlights: Seq<HighlightSpan>,
    stack: Seq<HlFrame>,
    language: LanguageId,
    t: HighlightToken,
)
    requires
        stack_from_spans(highlights, stack),
        t.capture_id == spec_top_capture(stack, language),
        t.language_id == language,
    ensures
        token_capture_ok(highlights, t),
{
    if t.capture_id != NONE_ID {
        assert(stack.len() > 0);
        assert(stack[stack.len() - 1] == stack.last());
    }
}

/// The active capture a stack dictates for tokens of `language`: the top
/// frame's capture when it belongs to the same language, else the sentinel.
pub open spec fn spec_top_capture(stack: Seq<HlFrame>, language: LanguageId) -> u16 {
    if stack.len() == 0 {
        NONE_ID
    } else if stack.last().language == language {
        stack.last().capture_id
    } else {
        NONE_ID
    }
}

/// Every context frame records the language and capture of some highlighted
/// span.
pub open spec fn stack_from_spans(highlights: Seq<HighlightSpan>, stack: Seq<HlFrame>) -> bool {
    forall|i: int|
        0 <= i < stack.len() ==> exists|k: int|
            0 <= k < highlights.len() && (#[trigger] stack[i]).language == (
            #[trigger] highlights[k]).language && stack[i].capture_id == highlights[k].capture_id
}

/// A token's capture is the sentinel, or the capture of some highlighted
/// span of the token's own language.
pub open spec fn token_capture_ok(highlights: Seq<HighlightSpan>, t: HighlightToken) -> bool {
    t.capture_id == NONE_ID || exists|k: int|
        0 <= k < highlights.len() && (#[trigger] highlights[k]).language == t.language_id
            && highlights[k].capture_id == t.capture_id
}

/// A token's kind is the gap-fill sentinel, or the kind of some parsed
/// node whose span the token does not exceed.
pub open spec fn token_kind_ok(snapshot: SyntaxSnapshot, t: HighlightToken) -> bool {
    t.kind_id == NONE_ID || exists|e: int, n: int|
        {
            &&& 0 <= e < snapshot.entries@.len()
            &&& snapshot.entries@[e].content is Parsed
            &&& 0 <= n < entry_tree(snapshot.entries@[e])@.len()
            &&& (#[trigger] entry_tree(snapshot.entries@[e])@[n]).kind_id == t.kind_id
            &&& 2 * t.length <= entry_tree(snapshot.entries@[e])@[n].end_byte - entry_tree(
                snapshot.entries@[e],
            )@[n].start_byte
        }
}

/// Every token of a run is well-formed as above.
pub open spec fn all_tokens_ok(
    snapshot: SyntaxSnapshot,
    highlights: Seq<HighlightSpan>,
    toks: Seq<HighlightToken>,
) -> bool {
    forall|q: int|
        0 <= q < toks.len() ==> token_capture_ok(highlights, #[trigger] toks[q]) && token_kind_ok(
            snapshot,
            toks[q],
        )
}

/// The active capture for tokens of `language`: the stack top's capture
/// when it belongs to the same language, the sentinel otherwise.
fn top_capture(hl_stack: &Vec<HlFrame>, language: LanguageId) -> (r: u16)
    ensures
        r == spec_top_capture(hl_stack@, language),
{
    if hl_stack.len() == 0 {
        NONE_ID
    } else {
        let top = &hl_stack[hl_stack.len() - 1];
        if top.language.0 == language.0 {
            top.capture_id
        } else {
            NONE_ID
        }
    }
}

/// Pop the context stack when its top belongs to the given node.
fn pop_if_top(
    hl_stack: &mut Vec<HlFrame>,
    highlights: &Vec<HighlightSpan>,
    language: LanguageId,
    ei: usize,
    ni: usize,
)
    ensures
        final(hl_stack)@ == (if old(hl_stack)@.len() > 0 && old(hl_stack)@.last().language
            == language && old(hl_stack)@.last().entry == ei && old(hl_stack)@.last().node == ni {
            old(hl_stack)@.drop_last()
        } else {
            old(hl_stack)@
        }),
        stack_from_spans(highlights@, old(hl_stack)@) ==> stack_from_spans(
            highlights@,
            final(hl_stack)@,
        ),
{
    if hl_stack.len() > 0 {
        let top = &hl_stack[hl_stack.len() - 1];
        if top.language.0 == language.0 && top.entry == ei && top.node == ni {
            let ghost before = hl_stack@;
            let _ = hl_stack.pop();
            proof {
                if stack_from_spans(highlights@, before) {
                    assert forall|q: int| 0 <= q < hl_stack@.len() implies exists|k: int|
                        0 <= k < highlights@.len() && (#[trigger] hl_stack@[q]).language
                            == highlights@[k].language && hl_stack@[q].capture_id == highlights@[
                        k
                    ].capture_id by {
                        assert(hl_stack@[q] == before[q]);
                    }
                }
            }
        }
    }
}

/// Push the context stack if the exact range `[start, end)` is highlighted
/// in the given language.
fn push_if_highlighted(
    hl_stack: &mut Vec<HlFrame>,
    highlights: &Vec<HighlightSpan>,
    language: LanguageId,
    ei: usize,
    ni: usize,
    start: usize,
    end: usize,
)
    ensures
        final(hl_stack)@ == (match find_span(highlights@, start, end) {
            Some(k) => {
                if highlights@[k].language == language {
                    old(hl_stack)@.push(
                        HlFrame { language, entry: ei, node: ni, capture_id: highlights@[k].capture_id },
                    )
                } else {
                    old(hl_stack)@
                }
            },
            None => old(hl_stack)@,
        }),
        stack_from_spans(highlights@, old(hl_stack)@) ==> stack_from_spans(
            highlights@,
            final(hl_stack)@,
        ),
{
    let n = highlights.len();
    let mut i: usize = 0;
    while i < n
        invariant
            n == highlights@.len(),
            i <= n,
            hl_stack@ == old(hl_stack)@,
            forall|j: int|
                0 <= j < i ==> !((#[trigger] highlights@[j]).start_byte == start
                    && highlights@[j].end_byte == end),
        decreases n - i,
    {
        if highlights[i].start_byte == start && highlights[i].end_byte == end {
            proof {
                lemma_find_span_at(highlights@, start, end, i as int);
            }
            if highlights[i].language.0 == language.0 {
                let ghost before = hl_stack@;
                hl_stack.push(
                    HlFrame { language, entry: ei, node: ni, capture_id: highlights[i].capture_id },
                );
                proof {
                    if stack_from_spans(highlights@, before) {
                        assert forall|q: int| 0 <= q < hl_stack@.len() implies exists|k: int|
                            0 <= k < highlights@.len() && (#[trigger] hl_stack@[q]).language == (
                            #[trigger] highlights@[k]).language && hl_stack@[q].capture_id
                                == highlights@[k].capture_id by {
                            if q < before.len() {
                                assert(hl_stack@[q] == before[q]);
                            } else {
                                assert(hl_stack@[q].language == highlights@[i as int].language);
                                assert(hl_stack@[q].capture_id == highlights@[
                                    i as int
                                ].capture_id);
                            }
                        }
                    }
                }
            }
            return ;
        }
        i = i + 1;
    }
    proof {
        lemma_find_span_absent(highlights@, start, end);
    }
}

/// Append one token covering `[from, to)`.
fn push_token(
    tokens: &mut Vec<HighlightToken>,
    language: LanguageId,
    kind_id: u16,
    capture_id: u16,
    from: usize,
    to: usize,
)
    requires
        from <= to,
        to - from <= u32::MAX,
        (to - from) % 2 == 0,
    ensures
        final(tokens)@ == old(tokens)@.push(
            HighlightToken {
                language_id: language,
                kind_id,
                capture_id,
                length: (((to - from) as usize) / 2) as u32,
            },
        ),
        tokens_len_sum(final(tokens)@) == tokens_len_sum(old(tokens)@) + (to - from) / 2,
{
    let length = ((to - from) / 2) as u32;
    tokens.push(HighlightToken { language_id: language, kind_id, capture_id, length });
    proof {
        assert(tokens@.drop_last() =~= old(tokens)@);
    }
}

/// Consecutive frames of a walk path are parent and child: within one
/// entry, a real parent link; across entries, the child entry's root with
/// its range contained in the host node's span.
pub open spec fn path_link(snapshot: SyntaxSnapshot, a: (usize, usize), b: (usize, usize)) -> bool {
    if a.0 == b.0 {
        &&& b.1 != 0
        &&& entry_tree(snapshot.entries@[a.0 as int])@[b.1 as int].parent == a.1
    } else {
        &&& b.1 == 0
        &&& snapshot.entries@[b.0 as int].start_byte >= spec_global_start(
            snapshot,
            a.0 as int,
            a.1 as int,
        )
        &&& snapshot.entries@[b.0 as int].end_byte <= spec_global_end(
            snapshot,
            a.0 as int,
            a.1 as int,
        )
    }
}

pub open spec fn path_chain(snapshot: SyntaxSnapshot, frames: Seq<(usize, usize)>) -> bool {
    forall|k: int|
        0 <= k < frames.len() - 1 ==> path_link(snapshot, #[trigger] frames[k], frames[k + 1])
}

/// The language of a parsed entry.
pub open spec fn entry_language(snapshot: SyntaxSnapshot, e: int) -> LanguageId
    recommends
        snapshot.entries@[e].content is Parsed,
{
    snapshot.entries@[e].content->Parsed_language
}

/// The walk's entry protocol for a node: when the node's exact document
/// range is a highlighted span of its entry's language, the mover pushed
/// that span's frame for the node before descending into it.
pub open spec fn entered_ok(
    highlights: Seq<HighlightSpan>,
    stack: Seq<HlFrame>,
    language: LanguageId,
    ei: usize,
    ni: usize,
    g_start: usize,
    g_end: usize,
) -> bool {
    match find_span(highlights, g_start, g_end) {
        Some(k) => highlights[k].language == language ==> stack.len() > 0 && stack.last() == (
        HlFrame { language, entry: ei, node: ni, capture_id: highlights[k].capture_id }),
        None => true,
    }
}

/// Emit tokens for the subtree of node `(ei, ni)`, resuming at position
/// `cur0` and stopping once `byte_end` is reached: children are visited in
/// order with gap-fill tokens between them, childless nodes descend into a
/// contained entry one injection depth down where one exists, and leaves
/// emit one token each. The emitted lengths tile `[cur0, r)` exactly.
#[verifier::loop_isolation(false)]
#[verifier::rlimit(100)]
#[verifier::spinoff_prover]
fn emit_subtree(
    snapshot: &SyntaxSnapshot,
    highlights: &Vec<HighlightSpan>,
    ei: usize,
    ni: usize,
    cur0: usize,
    byte_end: usize,
    hl_stack: &mut Vec<HlFrame>,
    tokens: &mut Vec<HighlightToken>,
) -> (r: usize)
    requires
        snapshot.wf(),
        snapshot_bounded(snapshot.entries@, u32::MAX as int),
        frame_ok(snapshot.entries@, (ei, ni)),
        cur0 % 2 == 0,
        byte_end % 2 == 0,
        cur0 <= byte_end,
        byte_end <= u32::MAX,
        stack_from_spans(highlights@, old(hl_stack)@),
        entered_ok(
            highlights@,
            old(hl_stack)@,
            entry_language(*snapshot, ei as int),
            ei,
            ni,
            spec_global_start(*snapshot, ei as int, ni as int) as usize,
            spec_global_end(*snapshot, ei as int, ni as int) as usize,
        ),
    ensures
        r % 2 == 0,
        cur0 <= r,
        r <= byte_end,
        r >= byte_end || r >= spec_global_end(*snapshot, ei as int, ni as int),
        r <= spec_global_end(*snapshot, ei as int, ni as int) || r == cur0,
        2 * (tokens_len_sum(final(tokens)@) - tokens_len_sum(old(tokens)@)) == r - cur0,
        stack_from_spans(highlights@, final(hl_stack)@),
        all_tokens_ok(*snapshot, highlights@, old(tokens)@) ==> all_tokens_ok(
            *snapshot,
            highlights@,
            final(tokens)@,
        ),
    decreases
            max_entry_depth(snapshot.entries@) + 1 - snapshot.entries@[ei as int].depth,
            entry_tree(snapshot.entries@[ei as int])@.len() - ni,
            1int,
{
    proof {
        lemma_depth_le_max(snapshot.entries@, ei as int);
        assert(entry_wf(snapshot.entries@[ei as int]));
        assert(entry_bounded(snapshot.entries@[ei as int], u32::MAX as int));
    }
    let entry = &snapshot.entries[ei];
    let (language, tree) = match &entry.content {
        SyntaxSnapshotEntryContent::Parsed { language, tree } => (*language, tree),
        SyntaxSnapshotEntryContent::Unparsed(_) => {
            proof {
                assert(false);
            }
            vstd::pervasive::unreached()
        },
    };
    proof {
        assert(crate::tree::node_wf(tree@, ni as int));
        assert(entry.byte_offset + tree@[ni as int].end_byte <= u32::MAX);
    }
    let g_end = entry.byte_offset + tree.node(ni).end_byte;
    if cur0 >= byte_end || cur0 >= g_end {
        return cur0;
    }
    let m = tree.node(ni).children.len();
    if m > 0 {
        emit_children(snapshot, highlights, ei, ni, cur0, byte_end, hl_stack, tokens)
    } else {
        emit_childless(snapshot, highlights, ei, ni, cur0, byte_end, hl_stack, tokens)
    }
}

/// Emit the children of a node in order, gap-filling between them, then the
/// gap to the node's end.
#[verifier::loop_isolation(false)]
#[verifier::rlimit(100)]
#[verifier::spinoff_prover]
fn emit_children(
    snapshot: &SyntaxSnapshot,
    highlights: &Vec<HighlightSpan>,
    ei: usize,
    ni: usize,
    cur0: usize,
    byte_end: usize,
    hl_stack: &mut Vec<HlFrame>,
    tokens: &mut Vec<HighlightToken>,
) -> (r: usize)
    requires
        snapshot.wf(),
        snapshot_bounded(snapshot.entries@, u32::MAX as int),
        frame_ok(snapshot.entries@, (ei, ni)),
        cur0 % 2 == 0,
        byte_end % 2 == 0,
        cur0 <= byte_end,
        cur0 < byte_end,
        cur0 < spec_global_end(*snapshot, ei as int, ni as int),
        byte_end <= u32::MAX,
        stack_from_spans(highlights@, old(hl_stack)@),
    ensures
        r % 2 == 0,
        cur0 <= r,
        r <= byte_end,
        r >= byte_end || r >= spec_global_end(*snapshot, ei as int, ni as int),
        r <= spec_global_end(*snapshot, ei as int, ni as int) || r == cur0,
        2 * (tokens_len_sum(final(tokens)@) - tokens_len_sum(old(tokens)@)) == r - cur0,
        stack_from_spans(highlights@, final(hl_stack)@),
        all_tokens_ok(*snapshot, highlights@, old(tokens)@) ==> all_tokens_ok(
            *snapshot,
            highlights@,
            final(tokens)@,
        ),
    decreases
            max_entry_depth(snapshot.entries@) + 1 - snapshot.entries@[ei as int].depth,
            entry_tree(snapshot.entries@[ei as int])@.len() - ni,
            0int,
{
    proof {
        assert(entry_wf(snapshot.entries@[ei as int]));
        assert(entry_bounded(snapshot.entries@[ei as int], u32::MAX as int));
    }
    let entry = &snapshot.entries[ei];
    let (language, tree) = match &entry.content {
        SyntaxSnapshotEntryContent::Parsed { language, tree } => (*language, tree),
        SyntaxSnapshotEntryContent::Unparsed(_) => {
            proof {
                assert(false);
            }
            vstd::pervasive::unreached()
        },
    };
    proof {
        assert(crate::tree::node_wf(tree@, ni as int));
        assert(entry.byte_offset + tree@[ni as int].end_byte <= u32::MAX);
    }
    let g_end = entry.byte_offset + tree.node(ni).end_byte;
    let m = tree.node(ni).children.len();
    let ghost sum0 = tokens_len_sum(tokens@);
    let mut cur = cur0;
    let mut j: usize = 0;
    while j < m && cur < byte_end
        invariant
            j <= m,
            cur % 2 == 0,
            cur0 <= cur,
            cur <= byte_end,
            cur <= g_end || cur == cur0,
            2 * (tokens_len_sum(tokens@) - sum0) == cur - cur0,
            stack_from_spans(highlights@, hl_stack@),
            all_tokens_ok(*snapshot, highlights@, old(tokens)@) ==> all_tokens_ok(
                *snapshot,
                highlights@,
                tokens@,
            ),
        decreases m - j,
    {
        let c = tree.node(ni).children[j];
        proof {
            assert(crate::tree::child_link_ok(tree@, ni as int, j as int));
            assert(crate::tree::node_wf(tree@, c as int));
            assert(entry.byte_offset + tree@[c as int].end_byte <= u32::MAX);
        }
        let cs = entry.byte_offset + tree.node(c).start_byte;
        let ce = entry.byte_offset + tree.node(c).end_byte;
        proof {
            assert(cs <= ce);
            assert(ce <= g_end);
        }
        let cs_c = if cs <= byte_end {
            cs
        } else {
            byte_end
        };
        if cs_c > cur {
            let cap = top_capture(hl_stack, language);
            let ghost before = tokens@;
            push_token(tokens, language, NONE_ID, cap, cur, cs_c);
            proof {
                lemma_capture_from_stack(highlights@, hl_stack@, language, tokens@.last());
                lemma_tokens_push_ok(*snapshot, highlights@, before, tokens@.last());
            }
            cur = cs_c;
        }
        push_if_highlighted(hl_stack, highlights, language, ei, c, cs, ce);
        if cur < byte_end {
            proof {
                assert(spec_global_start(*snapshot, ei as int, c as int) == cs);
                assert(spec_global_end(*snapshot, ei as int, c as int) == ce);
                assert(entered_ok(
                    highlights@,
                    hl_stack@,
                    entry_language(*snapshot, ei as int),
                    ei,
                    c,
                    cs,
                    ce,
                ));
            }
            let ghost cur_before = cur;
            cur = emit_subtree(snapshot, highlights, ei, c, cur, byte_end, hl_stack, tokens);
            proof {
                assert(cur <= ce || cur == cur_before);
            }
            pop_if_top(hl_stack, highlights, language, ei, c);
        }
        j = j + 1;
    }
    let ge_c = if g_end <= byte_end {
        g_end
    } else {
        byte_end
    };
    if cur < ge_c {
        let cap = top_capture(hl_stack, language);
        let ghost before = tokens@;
        push_token(tokens, language, NONE_ID, cap, cur, ge_c);
        proof {
            lemma_capture_from_stack(highlights@, hl_stack@, language, tokens@.last());
            lemma_tokens_push_ok(*snapshot, highlights@, before, tokens@.last());
        }
        cur = ge_c;
    }
    cur
}

/// A childless node: descend into the first contained entry one injection
/// depth down if a parsed one exists, else emit the node as a leaf.
#[verifier::loop_isolation(false)]
#[verifier::rlimit(100)]
#[verifier::spinoff_prover]
fn emit_childless(
    snapshot: &SyntaxSnapshot,
    highlights: &Vec<HighlightSpan>,
    ei: usize,
    ni: usize,
    cur0: usize,
    byte_end: usize,
    hl_stack: &mut Vec<HlFrame>,
    tokens: &mut Vec<HighlightToken>,
) -> (r: usize)
    requires
        snapshot.wf(),
        snapshot_bounded(snapshot.entries@, u32::MAX as int),
        frame_ok(snapshot.entries@, (ei, ni)),
        cur0 % 2 == 0,
        byte_end % 2 == 0,
        cur0 < byte_end,
        cur0 < spec_global_end(*snapshot, ei as int, ni as int),
        byte_end <= u32::MAX,
        stack_from_spans(highlights@, old(hl_stack)@),
        entered_ok(
            highlights@,
            old(hl_stack)@,
            entry_language(*snapshot, ei as int),
            ei,
            ni,
            spec_global_start(*snapshot, ei as int, ni as int) as usize,
            spec_global_end(*snapshot, ei as int, ni as int) as usize,
        ),
    ensures
        r % 2 == 0,
        cur0 <= r,
        r <= byte_end,
        r >= byte_end || r >= spec_global_end(*snapshot, ei as int, ni as int),
        r <= spec_global_end(*snapshot, ei as int, ni as int) || r == cur0,
        2 * (tokens_len_sum(final(tokens)@) - tokens_len_sum(old(tokens)@)) == r - cur0,
        stack_from_spans(highlights@, final(hl_stack)@),
        all_tokens_ok(*snapshot, highlights@, old(tokens)@) ==> all_tokens_ok(
            *snapshot,
            highlights@,
            final(tokens)@,
        ),
    decreases
            max_entry_depth(snapshot.entries@) + 1 - snapshot.entries@[ei as int].depth,
            entry_tree(snapshot.entries@[ei as int])@.len() - ni,
            0int,
{
    proof {
        assert(entry_wf(snapshot.entries@[ei as int]));
        assert(entry_bounded(snapshot.entries@[ei as int], u32::MAX as int));
    }
    let entry = &snapshot.entries[ei];
    let (language, tree) = match &entry.content {
        SyntaxSnapshotEntryContent::Parsed { language, tree } => (*language, tree),
        SyntaxSnapshotEntryContent::Unparsed(_) => {
            proof {
                assert(false);
            }
            vstd::pervasive::unreached()
        },
    };
    proof {
        assert(crate::tree::node_wf(tree@, ni as int));
        assert(entry.byte_offset + tree@[ni as int].end_byte <= u32::MAX);
    }
    let g_start = entry.byte_offset + tree.node(ni).start_byte;
    let g_end = entry.byte_offset + tree.node(ni).end_byte;
    proof {
        assert(hl_stack@ == old(hl_stack)@);
        assert(g_start == spec_global_start(*snapshot, ei as int, ni as int) as usize);
        assert(g_end == spec_global_end(*snapshot, ei as int, ni as int) as usize);
    }
    if entry.depth == usize::MAX {
        return emit_leaf(snapshot, highlights, ei, ni, cur0, byte_end, hl_stack, tokens);
    }
    match find_candidate_entry(snapshot, entry.depth + 1, g_start, g_end) {
        Some(idx) => {
            proof {
                lemma_candidate_props(
                    snapshot.entries@,
                    entry.depth as int + 1,
                    g_start as int,
                    g_end as int,
                    idx as int,
                );
                lemma_depth_le_max(snapshot.entries@, idx as int);
            }
            let child_parsed = match &snapshot.entries[idx].content {
                SyntaxSnapshotEntryContent::Parsed { .. } => true,
                SyntaxSnapshotEntryContent::Unparsed(_) => false,
            };
            if !child_parsed {
                return emit_leaf(snapshot, highlights, ei, ni, cur0, byte_end, hl_stack, tokens);
            }
            proof {
                assert(entry_wf(snapshot.entries@[idx as int]));
                assert(entry_bounded(snapshot.entries@[idx as int], u32::MAX as int));
                let ct = entry_tree(snapshot.entries@[idx as int]);
                assert(ct.wf());
                assert(ct@.len() >= 1);
                assert(crate::tree::node_wf(ct@, 0));
            }
            let child_entry = &snapshot.entries[idx];
            let (child_language, child_tree) = match &child_entry.content {
                SyntaxSnapshotEntryContent::Parsed { language, tree } => (*language, tree),
                SyntaxSnapshotEntryContent::Unparsed(_) => {
                    proof {
                        assert(false);
                    }
                    vstd::pervasive::unreached()
                },
            };
            let rs = child_entry.byte_offset + child_tree.node(0).start_byte;
            let re = child_entry.byte_offset + child_tree.node(0).end_byte;
            proof {
                assert(re <= child_entry.end_byte);
                assert(re <= g_end);
                assert(rs <= re);
            }
            let rs_c = if rs <= byte_end {
                rs
            } else {
                byte_end
            };
            let mut cur = cur0;
            if rs_c > cur {
                let cap = top_capture(hl_stack, child_language);
                let ghost before = tokens@;
                push_token(tokens, child_language, NONE_ID, cap, cur, rs_c);
                proof {
                    lemma_capture_from_stack(highlights@, hl_stack@, child_language, tokens@.last());
                    lemma_tokens_push_ok(*snapshot, highlights@, before, tokens@.last());
                }
                cur = rs_c;
            }
            push_if_highlighted(hl_stack, highlights, child_language, idx, 0, rs, re);
            if cur < byte_end {
                proof {
                    assert(spec_global_start(*snapshot, idx as int, 0) == rs);
                    assert(spec_global_end(*snapshot, idx as int, 0) == re);
                    assert(entered_ok(
                        highlights@,
                        hl_stack@,
                        entry_language(*snapshot, idx as int),
                        idx,
                        0,
                        rs,
                        re,
                    ));
                }
                let ghost cur_before = cur;
                cur = emit_subtree(snapshot, highlights, idx, 0, cur, byte_end, hl_stack, tokens);
                proof {
                    assert(cur <= re || cur == cur_before);
                }
                pop_if_top(hl_stack, highlights, child_language, idx, 0);
            }
            let ge_c = if g_end <= byte_end {
                g_end
            } else {
                byte_end
            };
            if cur < ge_c {
                let cap = top_capture(hl_stack, language);
                let ghost before = tokens@;
                push_token(tokens, language, NONE_ID, cap, cur, ge_c);
                proof {
                    lemma_capture_from_stack(highlights@, hl_stack@, language, tokens@.last());
                    lemma_tokens_push_ok(*snapshot, highlights@, before, tokens@.last());
                }
                cur = ge_c;
            }
            cur
        },
        None => emit_leaf(snapshot, highlights, ei, ni, cur0, byte_end, hl_stack, tokens),
    }
}

/// Emit the gap before and the single token of a leaf node, clamped at
/// `byte_end`: the token covers `[max(cur0, gap end), min(node end,
/// byte_end))`, carries the node's kind, and carries the node's own
/// highlighted span's capture when its exact range is one of its language —
/// otherwise whatever capture the context stack dictates.
#[verifier::rlimit(100)]
#[verifier::spinoff_prover]
fn emit_leaf(
    snapshot: &SyntaxSnapshot,
    highlights: &Vec<HighlightSpan>,
    ei: usize,
    ni: usize,
    cur0: usize,
    byte_end: usize,
    hl_stack: &Vec<HlFrame>,
    tokens: &mut Vec<HighlightToken>,
) -> (r: usize)
    requires
        snapshot.wf(),
        snapshot_bounded(snapshot.entries@, u32::MAX as int),
        frame_ok(snapshot.entries@, (ei, ni)),
        cur0 % 2 == 0,
        byte_end % 2 == 0,
        byte_end <= u32::MAX,
        cur0 < byte_end,
        cur0 < spec_global_end(*snapshot, ei as int, ni as int),
        stack_from_spans(highlights@, hl_stack@),
        entered_ok(
            highlights@,
            hl_stack@,
            entry_language(*snapshot, ei as int),
            ei,
            ni,
            spec_global_start(*snapshot, ei as int, ni as int) as usize,
            spec_global_end(*snapshot, ei as int, ni as int) as usize,
        ),
    ensures
        r % 2 == 0,
        cur0 <= r,
        r == (if spec_global_end(*snapshot, ei as int, ni as int) <= byte_end {
            spec_global_end(*snapshot, ei as int, ni as int)
        } else {
            byte_end as int
        }),
        2 * (tokens_len_sum(final(tokens)@) - tokens_len_sum(old(tokens)@)) == r - cur0,
        all_tokens_ok(*snapshot, highlights@, old(tokens)@) ==> all_tokens_ok(
            *snapshot,
            highlights@,
            final(tokens)@,
        ),
        final(tokens)@.len() > old(tokens)@.len(),
        ({
            let t = final(tokens)@.last();
            let gs = spec_global_start(*snapshot, ei as int, ni as int) as usize;
            let ge = spec_global_end(*snapshot, ei as int, ni as int) as usize;
            let language = entry_language(*snapshot, ei as int);
            &&& t.language_id == language
            &&& t.kind_id == entry_tree(snapshot.entries@[ei as int])@[ni as int].kind_id
            &&& 2 * t.length == r - (if gs <= byte_end {
                if cur0 >= gs {
                    cur0 as int
                } else {
                    gs as int
                }
            } else {
                byte_end as int
            })
            &&& (match find_span(highlights@, gs, ge) {
                Some(k) => highlights@[k].language == language ==> t.capture_id == highlights@[
                    k
                ].capture_id,
                None => t.capture_id == spec_top_capture(hl_stack@, language),
            })
        }),
{
    proof {
        assert(entry_wf(snapshot.entries@[ei as int]));
        assert(entry_bounded(snapshot.entries@[ei as int], u32::MAX as int));
    }
    let entry = &snapshot.entries[ei];
    let (language, tree) = match &entry.content {
        SyntaxSnapshotEntryContent::Parsed { language, tree } => (*language, tree),
        SyntaxSnapshotEntryContent::Unparsed(_) => {
            proof {
                assert(false);
            }
            vstd::pervasive::unreached()
        },
    };
    proof {
        assert(crate::tree::node_wf(tree@, ni as int));
        assert(entry.byte_offset + tree@[ni as int].end_byte <= u32::MAX);
    }
    let node = tree.node(ni);
    let g_start = entry.byte_offset + node.start_byte;
    let g_end = entry.byte_offset + node.end_byte;
    let gs_c = if g_start <= byte_end {
        g_start
    } else {
        byte_end
    };
    let ge_c = if g_end <= byte_end {
        g_end
    } else {
        byte_end
    };
    let mut cur = cur0;
    if cur < gs_c {
        let cap = top_capture(hl_stack, language);
        let ghost before = tokens@;
        push_token(tokens, language, NONE_ID, cap, cur, gs_c);
        proof {
            let t = tokens@.last();
            lemma_capture_from_stack(highlights@, hl_stack@, language, t);
            lemma_tokens_push_ok(*snapshot, highlights@, before, t);
        }
        cur = gs_c;
    }
    let cap = top_capture(hl_stack, language);
    let ghost before = tokens@;
    push_token(tokens, language, node.kind_id, cap, cur, ge_c);
    proof {
        let t = tokens@.last();
        lemma_capture_from_stack(highlights@, hl_stack@, language, t);
        assert(token_kind_ok(*snapshot, t)) by {
            assert((#[trigger] entry_tree(snapshot.entries@[ei as int])@[ni as int]).kind_id
                == t.kind_id);
            assert(2 * t.length <= entry_tree(snapshot.entries@[ei as int])@[ni as int].end_byte
                - entry_tree(snapshot.entries@[ei as int])@[ni as int].start_byte);
        }
        lemma_tokens_push_ok(*snapshot, highlights@, before, t);
        match find_span(highlights@, g_start, g_end) {
            Some(k) => {
                if highlights@[k].language == language {
                    assert(hl_stack@.last() == (HlFrame {
                        language,
                        entry: ei,
                        node: ni,
                        capture_id: highlights@[k].capture_id,
                    }));
                    assert(t.capture_id == highlights@[k].capture_id);
                }
            },
            None => {},
        }
    }
    ge_c
}

/// Emit the right siblings of node `(cei, cni)` — the child frame of host
/// node `(ei, ni)` — gap-filling between them. An entry root reached by
/// crossing has no siblings.
#[verifier::loop_isolation(false)]
#[verifier::rlimit(100)]
#[verifier::spinoff_prover]
fn emit_right_siblings(
    snapshot: &SyntaxSnapshot,
    highlights: &Vec<HighlightSpan>,
    ei: usize,
    ni: usize,
    cei: usize,
    cni: usize,
    cur0: usize,
    byte_end: usize,
    hl_stack: &mut Vec<HlFrame>,
    tokens: &mut Vec<HighlightToken>,
) -> (r: usize)
    requires
        snapshot.wf(),
        snapshot_bounded(snapshot.entries@, u32::MAX as int),
        frame_ok(snapshot.entries@, (ei, ni)),
        frame_ok(snapshot.entries@, (cei, cni)),
        cei == ei ==> cni != 0 && entry_tree(snapshot.entries@[cei as int])@[cni as int].parent
            == ni,
        cei != ei ==> cni == 0,
        cur0 % 2 == 0,
        byte_end % 2 == 0,
        cur0 <= byte_end,
        byte_end <= u32::MAX,
        stack_from_spans(highlights@, old(hl_stack)@),
    ensures
        r % 2 == 0,
        cur0 <= r,
        r <= byte_end,
        r <= spec_global_end(*snapshot, ei as int, ni as int) || r == cur0,
        2 * (tokens_len_sum(final(tokens)@) - tokens_len_sum(old(tokens)@)) == r - cur0,
        stack_from_spans(highlights@, final(hl_stack)@),
        all_tokens_ok(*snapshot, highlights@, old(tokens)@) ==> all_tokens_ok(
            *snapshot,
            highlights@,
            final(tokens)@,
        ),
{
    proof {
        assert(entry_wf(snapshot.entries@[cei as int]));
        assert(entry_bounded(snapshot.entries@[cei as int], u32::MAX as int));
        assert(entry_wf(snapshot.entries@[ei as int]));
    }
    let child_entry = &snapshot.entries[cei];
    let (child_language, child_tree) = match &child_entry.content {
        SyntaxSnapshotEntryContent::Parsed { language, tree } => (*language, tree),
        SyntaxSnapshotEntryContent::Unparsed(_) => {
            proof {
                assert(false);
            }
            vstd::pervasive::unreached()
        },
    };
    let ghost sum0 = tokens_len_sum(tokens@);
    let mut cur = cur0;
    let mut s = cni;
    let mut next_opt = child_tree.next_sibling(s);
    while next_opt.is_some() && cur < byte_end
        invariant
            frame_ok(snapshot.entries@, (cei, s)),
            cur % 2 == 0,
            cur0 <= cur,
            cur <= byte_end,
            cur <= spec_global_end(*snapshot, ei as int, ni as int) || cur == cur0,
            cei == ei ==> s != 0 && child_tree@[s as int].parent == ni,
            cei != ei ==> next_opt is None,
            match next_opt {
                Some(c) => s != 0 && child_tree@[s as int].child_rank + 1 < child_tree@[
                    child_tree@[s as int].parent as int
                ].children.len() && c == child_tree@[
                    child_tree@[s as int].parent as int
                ].children[child_tree@[s as int].child_rank as int + 1] && (c as int)
                    < child_tree@.len(),
                None => true,
            },
            2 * (tokens_len_sum(tokens@) - sum0) == cur - cur0,
            stack_from_spans(highlights@, hl_stack@),
            all_tokens_ok(*snapshot, highlights@, old(tokens)@) ==> all_tokens_ok(
                *snapshot,
                highlights@,
                tokens@,
            ),
        decreases entry_tree(snapshot.entries@[cei as int])@.len() - s,
    {
        let nx = match next_opt {
            Some(nx) => nx,
            None => {
                proof {
                    assert(false);
                }
                vstd::pervasive::unreached()
            },
        };
        proof {
            assert(crate::tree::parent_link_ok(child_tree@, s as int));
            assert(crate::tree::node_wf(child_tree@, child_tree@[s as int].parent as int));
            assert(crate::tree::child_link_ok(
                child_tree@,
                child_tree@[s as int].parent as int,
                child_tree@[s as int].child_rank as int + 1,
            ));
            assert(crate::tree::node_wf(child_tree@, nx as int));
            assert(child_entry.byte_offset + child_tree@[nx as int].end_byte <= u32::MAX);
        }
        let ns = child_entry.byte_offset + child_tree.node(nx).start_byte;
        let ne = child_entry.byte_offset + child_tree.node(nx).end_byte;
        proof {
            assert(child_tree@[nx as int].parent == ni);
            assert(crate::tree::child_link_ok(
                child_tree@,
                ni as int,
                child_tree@[nx as int].child_rank as int,
            ));
            assert(ns <= ne);
            assert(ne <= spec_global_end(*snapshot, ei as int, ni as int));
        }
        let ns_c = if ns <= byte_end {
            ns
        } else {
            byte_end
        };
        if ns_c > cur {
            let cap = top_capture(hl_stack, child_language);
            let ghost before = tokens@;
            push_token(tokens, child_language, NONE_ID, cap, cur, ns_c);
            proof {
                lemma_capture_from_stack(highlights@, hl_stack@, child_language, tokens@.last());
                lemma_tokens_push_ok(*snapshot, highlights@, before, tokens@.last());
            }
            cur = ns_c;
        }
        push_if_highlighted(hl_stack, highlights, child_language, cei, nx, ns, ne);
        if cur < byte_end {
            proof {
                assert(spec_global_start(*snapshot, cei as int, nx as int) == ns);
                assert(spec_global_end(*snapshot, cei as int, nx as int) == ne);
                assert(entered_ok(
                    highlights@,
                    hl_stack@,
                    entry_language(*snapshot, cei as int),
                    cei,
                    nx,
                    ns,
                    ne,
                ));
            }
            let ghost cur_before = cur;
            cur = emit_subtree(snapshot, highlights, cei, nx, cur, byte_end, hl_stack, tokens);
            proof {
                assert(cur <= ne || cur == cur_before);
            }
            pop_if_top(hl_stack, highlights, child_language, cei, nx);
        }
        s = nx;
        next_opt = child_tree.next_sibling(s);
    }
    cur
}

/// Emit tokens from a cover path: the subtree of the path's last node
/// first, then, ascending frame by frame, each node's remaining right
/// siblings and the gap to the node's end.
#[verifier::loop_isolation(false)]
#[verifier::rlimit(100)]
#[verifier::spinoff_prover]
fn emit_path(
    snapshot: &SyntaxSnapshot,
    highlights: &Vec<HighlightSpan>,
    frames: &Vec<(usize, usize)>,
    pos: usize,
    cur0: usize,
    byte_end: usize,
    hl_stack: &mut Vec<HlFrame>,
    tokens: &mut Vec<HighlightToken>,
) -> (r: usize)
    requires
        snapshot.wf(),
        snapshot_bounded(snapshot.entries@, u32::MAX as int),
        forall|k: int|
            0 <= k < frames@.len() ==> frame_ok(snapshot.entries@, #[trigger] frames@[k]),
        path_chain(*snapshot, frames@),
        (pos as int) < frames@.len(),
        cur0 % 2 == 0,
        byte_end % 2 == 0,
        cur0 <= byte_end,
        byte_end <= u32::MAX,
        stack_from_spans(highlights@, old(hl_stack)@),
        entered_ok(
            highlights@,
            old(hl_stack)@,
            entry_language(*snapshot, frames@.last().0 as int),
            frames@.last().0,
            frames@.last().1,
            spec_global_start(*snapshot, frames@.last().0 as int, frames@.last().1 as int) as usize,
            spec_global_end(*snapshot, frames@.last().0 as int, frames@.last().1 as int) as usize,
        ),
    ensures
        r % 2 == 0,
        cur0 <= r,
        r <= byte_end,
        r >= byte_end || r >= spec_global_end(
            *snapshot,
            frames@[pos as int].0 as int,
            frames@[pos as int].1 as int,
        ),
        r <= spec_global_end(
            *snapshot,
            frames@[pos as int].0 as int,
            frames@[pos as int].1 as int,
        ) || r == cur0,
        2 * (tokens_len_sum(final(tokens)@) - tokens_len_sum(old(tokens)@)) == r - cur0,
        stack_from_spans(highlights@, final(hl_stack)@),
        all_tokens_ok(*snapshot, highlights@, old(tokens)@) ==> all_tokens_ok(
            *snapshot,
            highlights@,
            final(tokens)@,
        ),
    decreases frames@.len() - pos,
{
    let (ei, ni) = frames[pos];
    proof {
        assert(frame_ok(snapshot.entries@, frames@[pos as int]));
        assert(entry_wf(snapshot.entries@[ei as int]));
        assert(entry_bounded(snapshot.entries@[ei as int], u32::MAX as int));
    }
    let entry = &snapshot.entries[ei];
    let (language, tree) = match &entry.content {
        SyntaxSnapshotEntryContent::Parsed { language, tree } => (*language, tree),
        SyntaxSnapshotEntryContent::Unparsed(_) => {
            proof {
                assert(false);
            }
            vstd::pervasive::unreached()
        },
    };
    proof {
        assert(crate::tree::node_wf(tree@, ni as int));
        assert(entry.byte_offset + tree@[ni as int].end_byte <= u32::MAX);
    }
    let g_end = entry.byte_offset + tree.node(ni).end_byte;
    let flen = frames.len();
    if flen - pos == 1 {
        let mut cur = cur0;
        if cur < byte_end {
            proof {
                assert(frames@.last() == frames@[pos as int]);
            }
            cur = emit_subtree(snapshot, highlights, ei, ni, cur, byte_end, hl_stack, tokens);
            pop_if_top(hl_stack, highlights, language, ei, ni);
        }
        cur
    } else {
        let ghost sum0 = tokens_len_sum(tokens@);
        let mut cur = emit_path(
            snapshot,
            highlights,
            frames,
            pos + 1,
            cur0,
            byte_end,
            hl_stack,
            tokens,
        );
        let (cei, cni) = frames[pos + 1];
        proof {
            assert(frame_ok(snapshot.entries@, frames@[pos as int + 1]));
            assert(path_link(*snapshot, frames@[pos as int], frames@[pos as int + 1]));
            assert(entry_wf(snapshot.entries@[cei as int]));
            if cei == ei {
                let ct = entry_tree(snapshot.entries@[cei as int]);
                assert(crate::tree::parent_link_ok(ct@, cni as int));
                assert(crate::tree::node_wf(ct@, ni as int));
                assert(crate::tree::child_link_ok(
                    ct@,
                    ni as int,
                    ct@[cni as int].child_rank as int,
                ));
                assert(spec_global_end(*snapshot, cei as int, cni as int) <= spec_global_end(
                    *snapshot,
                    ei as int,
                    ni as int,
                ));
            } else {
                assert(spec_global_end(*snapshot, cei as int, cni as int) <= snapshot.entries@[
                    cei as int
                ].end_byte);
                assert(spec_global_end(*snapshot, cei as int, cni as int) <= spec_global_end(
                    *snapshot,
                    ei as int,
                    ni as int,
                ));
            }
        }
        let child_language = match &snapshot.entries[cei].content {
            SyntaxSnapshotEntryContent::Parsed { language, .. } => *language,
            SyntaxSnapshotEntryContent::Unparsed(_) => {
                proof {
                    assert(false);
                }
                vstd::pervasive::unreached()
            },
        };
        if cur < byte_end {
            pop_if_top(hl_stack, highlights, child_language, cei, cni);
        }
        cur = emit_right_siblings(
            snapshot,
            highlights,
            ei,
            ni,
            cei,
            cni,
            cur,
            byte_end,
            hl_stack,
            tokens,
        );
        let ge_c = if g_end <= byte_end {
            g_end
        } else {
            byte_end
        };
        if cur < ge_c {
            let cap = top_capture(hl_stack, language);
            let ghost before = tokens@;
            push_token(tokens, language, NONE_ID, cap, cur, ge_c);
            proof {
                lemma_capture_from_stack(highlights@, hl_stack@, language, tokens@.last());
                lemma_tokens_push_ok(*snapshot, highlights@, before, tokens@.last());
            }
            cur = ge_c;
        }
        if cur < byte_end {
            pop_if_top(hl_stack, highlights, language, ei, ni);
        }
        cur
    }
}

/// Descend from the path's last frame to the deepest node containing
/// `byte_start`, crossing into contained parsed entries where the local
/// tree has no child extending past it.
#[verifier::loop_isolation(false)]
#[verifier::rlimit(100)]
#[verifier::spinoff_prover]
fn descend_to_byte(snapshot: &SyntaxSnapshot, byte_start: usize, frames: &mut Vec<(usize, usize)>)
    requires
        snapshot.wf(),
        old(frames)@.len() >= 1,
        old(frames)@[0] == (0usize, 0usize),
        forall|k: int|
            0 <= k < old(frames)@.len() ==> frame_ok(snapshot.entries@, #[trigger] old(frames)@[k]),
        path_chain(*snapshot, old(frames)@),
    ensures
        final(frames)@.len() >= 1,
        final(frames)@[0] == (0usize, 0usize),
        forall|k: int|
            0 <= k < final(frames)@.len() ==> frame_ok(
                snapshot.entries@,
                #[trigger] final(frames)@[k],
            ),
        path_chain(*snapshot, final(frames)@),
{
    loop
        invariant
            frames@.len() >= 1,
            frames@[0] == (0usize, 0usize),
            forall|k: int| 0 <= k < frames@.len() ==> frame_ok(snapshot.entries@, #[trigger] frames@[k]),
            path_chain(*snapshot, frames@),
        decreases
                max_entry_depth(snapshot.entries@) + 1 - snapshot.entries@[frames@.last().0 as int].depth,
                entry_tree(snapshot.entries@[frames@.last().0 as int])@.len() - frames@.last().1,
    {
        let (ei, ni) = frames[frames.len() - 1];
        proof {
            assert(frame_ok(snapshot.entries@, frames@[frames@.len() - 1]));
            assert(entry_wf(snapshot.entries@[ei as int]));
            lemma_depth_le_max(snapshot.entries@, ei as int);
        }
        let entry = &snapshot.entries[ei];
        let tree = match &entry.content {
            SyntaxSnapshotEntryContent::Parsed { tree, .. } => tree,
            SyntaxSnapshotEntryContent::Unparsed(_) => {
                proof {
                    assert(false);
                }
                vstd::pervasive::unreached()
            },
        };
        if byte_start < entry.start_byte || byte_start >= entry.end_byte {
            break ;
        }
        let local_index = if byte_start >= entry.byte_offset {
            byte_start - entry.byte_offset
        } else {
            0
        };
        proof {
            assert(crate::tree::node_wf(tree@, ni as int));
        }
        match tree.first_child_for_byte(ni, local_index) {
            Some(c) => {
                let ghost before = frames@;
                frames.push((ei, c));
                proof {
                    assert(frames@.drop_last() =~= before);
                    assert(crate::tree::parent_link_ok(tree@, c as int) || tree@[
                        c as int
                    ].parent == ni);
                    assert(path_link(*snapshot, (ei, ni), (ei, c)));
                    assert(forall|k: int|
                        0 <= k < before.len() ==> #[trigger] frames@[k] == before[k]);
                }
            },
            None => {
                proof {
                    assert(entry.byte_offset + tree@[ni as int].end_byte <= usize::MAX);
                }
                let lo = entry.byte_offset + tree.node(ni).start_byte;
                let hi = entry.byte_offset + tree.node(ni).end_byte;
                if entry.depth == usize::MAX {
                    break ;
                }
                match find_candidate_entry(snapshot, entry.depth + 1, lo, hi) {
                    Some(idx) => {
                        proof {
                            lemma_candidate_props(
                                snapshot.entries@,
                                entry.depth as int + 1,
                                lo as int,
                                hi as int,
                                idx as int,
                            );
                            lemma_depth_le_max(snapshot.entries@, idx as int);
                        }
                        let child_parsed = match &snapshot.entries[idx].content {
                            SyntaxSnapshotEntryContent::Parsed { .. } => true,
                            SyntaxSnapshotEntryContent::Unparsed(_) => false,
                        };
                        if !child_parsed {
                            break ;
                        }
                        proof {
                            assert(entry_wf(snapshot.entries@[idx as int]));
                            let ct = entry_tree(snapshot.entries@[idx as int]);
                            assert(ct.wf());
                            assert(ct@.len() >= 1);
                        }
                        let ghost before = frames@;
                        frames.push((idx, 0));
                        proof {
                            assert(frames@.drop_last() =~= before);
                            assert(path_link(*snapshot, (ei, ni), (idx, 0usize)));
                            assert(forall|k: int|
                                0 <= k < before.len() ==> #[trigger] frames@[k] == before[k]);
                        }
                    },
                    None => {
                        break ;
                    },
                }
            },
        }
    }
}

/// The document start position of the path's last node, which is even.
#[verifier::rlimit(100)]
fn top_global_start(snapshot: &SyntaxSnapshot, frames: &Vec<(usize, usize)>) -> (r: usize)
    requires
        snapshot.wf(),
        frames@.len() >= 1,
        forall|k: int|
            0 <= k < frames@.len() ==> frame_ok(snapshot.entries@, #[trigger] frames@[k]),
    ensures
        r % 2 == 0,
        r == spec_global_start(
            *snapshot,
            frames@.last().0 as int,
            frames@.last().1 as int,
        ),
{
    let (ei0, ni0) = frames[frames.len() - 1];
    proof {
        assert(frame_ok(snapshot.entries@, frames@[frames@.len() - 1]));
        assert(entry_wf(snapshot.entries@[ei0 as int]));
        assert(crate::tree::node_wf(entry_tree(snapshot.entries@[ei0 as int])@, ni0 as int));
    }
    let entry0 = &snapshot.entries[ei0];
    let tree0 = match &entry0.content {
        SyntaxSnapshotEntryContent::Parsed { tree, .. } => tree,
        SyntaxSnapshotEntryContent::Unparsed(_) => {
            proof {
                assert(false);
            }
            vstd::pervasive::unreached()
        },
    };
    entry0.byte_offset + tree0.node(ni0).start_byte
}

proof fn lemma_chain_after_update(
    snapshot: SyntaxSnapshot,
    before: Seq<(usize, usize)>,
    nf: (usize, usize),
)
    requires
        path_chain(snapshot, before),
        before.len() >= 1,
        before.len() >= 2 ==> path_link(snapshot, before[before.len() - 2], nf),
    ensures
        path_chain(snapshot, before.update(before.len() - 1, nf)),
{
    let after = before.update(before.len() - 1, nf);
    assert forall|k: int| 0 <= k < after.len() - 1 implies path_link(
        snapshot,
        #[trigger] after[k],
        after[k + 1],
    ) by {
        if k < after.len() - 2 {
            assert(after[k] == before[k]);
            assert(after[k + 1] == before[k + 1]);
            assert(path_link(snapshot, before[k], before[k + 1]));
        } else {
            assert(after[k] == before[k]);
            assert(after[k + 1] == nf);
        }
    }
}

proof fn lemma_chain_after_pop(snapshot: SyntaxSnapshot, before: Seq<(usize, usize)>)
    requires
        path_chain(snapshot, before),
        before.len() >= 2,
    ensures
        path_chain(snapshot, before.drop_last()),
{
    let after = before.drop_last();
    assert forall|k: int| 0 <= k < after.len() - 1 implies path_link(
        snapshot,
        #[trigger] after[k],
        after[k + 1],
    ) by {
        assert(after[k] == before[k]);
        assert(after[k + 1] == before[k + 1]);
        assert(path_link(snapshot, before[k], before[k + 1]));
    }
}

/// One left-extension step: move to the previous sibling (cover becomes its
/// end), or pop to the parent (cover becomes its start), or report the
/// document start.
#[verifier::rlimit(100)]
#[verifier::spinoff_prover]
fn cover_step(snapshot: &SyntaxSnapshot, frames: &mut Vec<(usize, usize)>) -> (r: (usize, bool))
    requires
        snapshot.wf(),
        old(frames)@.len() >= 1,
        old(frames)@[0] == (0usize, 0usize),
        forall|k: int|
            0 <= k < old(frames)@.len() ==> frame_ok(snapshot.entries@, #[trigger] old(frames)@[k]),
        path_chain(*snapshot, old(frames)@),
    ensures
        final(frames)@.len() >= 1,
        final(frames)@[0] == (0usize, 0usize),
        forall|k: int|
            0 <= k < final(frames)@.len() ==> frame_ok(
                snapshot.entries@,
                #[trigger] final(frames)@[k],
            ),
        path_chain(*snapshot, final(frames)@),
        r.0 % 2 == 0,
        r.1 ==> r.0 == 0 && final(frames)@ == old(frames)@,
        !r.1 ==> final(frames)@.len() < old(frames)@.len() || (final(frames)@.len() == old(
            frames,
        )@.len() && final(frames)@.last().1 < old(frames)@.last().1),
        !r.1 ==> r.0 == spec_global_start(
            *snapshot,
            final(frames)@.last().0 as int,
            final(frames)@.last().1 as int,
        ) || r.0 == spec_global_end(
            *snapshot,
            final(frames)@.last().0 as int,
            final(frames)@.last().1 as int,
        ),
{
    let (ei, ni) = frames[frames.len() - 1];
    proof {
        assert(frame_ok(snapshot.entries@, frames@[frames@.len() - 1]));
        assert(entry_wf(snapshot.entries@[ei as int]));
    }
    let entry = &snapshot.entries[ei];
    let tree = match &entry.content {
        SyntaxSnapshotEntryContent::Parsed { tree, .. } => tree,
        SyntaxSnapshotEntryContent::Unparsed(_) => {
            proof {
                assert(false);
            }
            vstd::pervasive::unreached()
        },
    };
    proof {
        assert(crate::tree::node_wf(tree@, ni as int));
    }
    match tree.prev_sibling(ni) {
        Some(c) => {
            proof {
                assert(crate::tree::parent_link_ok(tree@, ni as int));
                assert(crate::tree::node_wf(tree@, tree@[ni as int].parent as int));
                assert(crate::tree::child_link_ok(
                    tree@,
                    tree@[ni as int].parent as int,
                    tree@[ni as int].child_rank - 1,
                ));
                assert(crate::tree::child_link_ok(
                    tree@,
                    tree@[ni as int].parent as int,
                    tree@[ni as int].child_rank as int,
                ));
                assert(c < ni);
                assert(crate::tree::node_wf(tree@, c as int));
                assert(entry.byte_offset + tree@[c as int].end_byte <= usize::MAX);
            }
            let top = frames.len() - 1;
            let ghost before = frames@;
            frames[top] = (ei, c);
            proof {
                assert(frames@ =~= before.update(before.len() - 1, (ei, c)));
                if before.len() >= 2 {
                    assert(path_link(*snapshot, before[before.len() - 2], before[
                        before.len() - 1
                    ]));
                    assert(path_link(*snapshot, before[before.len() - 2], (ei, c)));
                }
                lemma_chain_after_update(*snapshot, before, (ei, c));
                assert(forall|k: int|
                    0 <= k < frames@.len() - 1 ==> #[trigger] frames@[k] == before[k]);
            }
            (entry.byte_offset + tree.node(c).end_byte, false)
        },
        None => {
            if frames.len() > 1 {
                let ghost before = frames@;
                let _ = frames.pop();
                proof {
                    assert(frames@ =~= before.drop_last());
                    lemma_chain_after_pop(*snapshot, before);
                    assert(forall|k: int|
                        0 <= k < frames@.len() ==> #[trigger] frames@[k] == before[k]);
                    assert(frame_ok(snapshot.entries@, frames@[frames@.len() - 1]));
                    assert(entry_wf(snapshot.entries@[frames@[frames@.len() - 1].0 as int]));
                    assert(crate::tree::node_wf(
                        entry_tree(snapshot.entries@[frames@[frames@.len() - 1].0 as int])@,
                        frames@[frames@.len() - 1].1 as int,
                    ));
                }
                let (pe, pn) = frames[frames.len() - 1];
                let pentry = &snapshot.entries[pe];
                let ptree = match &pentry.content {
                    SyntaxSnapshotEntryContent::Parsed { tree, .. } => tree,
                    SyntaxSnapshotEntryContent::Unparsed(_) => {
                        proof {
                            assert(false);
                        }
                        vstd::pervasive::unreached()
                    },
                };
                proof {
                    assert(pentry.byte_offset + ptree@[pn as int].end_byte <= usize::MAX);
                    assert(crate::tree::node_wf(ptree@, pn as int));
                }
                (pentry.byte_offset + ptree.node(pn).start_byte, false)
            } else {
                (0, true)
            }
        },
    }
}

/// Step to the previous sibling or the parent until the cover start falls
/// strictly before `byte_start`, or the walk reaches the document start.
#[verifier::rlimit(100)]
#[verifier::spinoff_prover]
fn extend_cover_left(
    snapshot: &SyntaxSnapshot,
    byte_start: usize,
    frames: &mut Vec<(usize, usize)>,
) -> (r: usize)
    requires
        snapshot.wf(),
        old(frames)@.len() >= 1,
        old(frames)@[0] == (0usize, 0usize),
        forall|k: int|
            0 <= k < old(frames)@.len() ==> frame_ok(snapshot.entries@, #[trigger] old(frames)@[k]),
        path_chain(*snapshot, old(frames)@),
    ensures
        r <= byte_start,
        r % 2 == 0,
        final(frames)@.len() >= 1,
        final(frames)@[0] == (0usize, 0usize),
        forall|k: int|
            0 <= k < final(frames)@.len() ==> frame_ok(
                snapshot.entries@,
                #[trigger] final(frames)@[k],
            ),
        path_chain(*snapshot, final(frames)@),
        r == 0 || r == spec_global_start(
            *snapshot,
            final(frames)@.last().0 as int,
            final(frames)@.last().1 as int,
        ) || r == spec_global_end(
            *snapshot,
            final(frames)@.last().0 as int,
            final(frames)@.last().1 as int,
        ),
{
    let mut cover: usize = top_global_start(snapshot, frames);
    let mut at_document_start = false;
    while !at_document_start && cover >= byte_start
        invariant
            snapshot.wf(),
            frames@.len() >= 1,
            frames@[0] == (0usize, 0usize),
            forall|k: int| 0 <= k < frames@.len() ==> frame_ok(snapshot.entries@, #[trigger] frames@[k]),
            path_chain(*snapshot, frames@),
            cover % 2 == 0,
            at_document_start ==> cover == 0,
            !at_document_start ==> cover == spec_global_start(
                *snapshot,
                frames@.last().0 as int,
                frames@.last().1 as int,
            ) || cover == spec_global_end(
                *snapshot,
                frames@.last().0 as int,
                frames@.last().1 as int,
            ),
        decreases frames@.len(), frames@.last().1, (if at_document_start {
            0int
        } else {
            1int
        }),
    {
        let step = cover_step(snapshot, frames);
        if step.1 {
            cover = 0;
            at_document_start = true;
        } else {
            cover = step.0;
        }
    }
    proof {
        assert(cover < byte_start || cover == 0);
    }
    cover
}

/// Walk down to the deepest node containing `byte_start`, then left and up
/// until the cover start falls before `byte_start` or the document start is
/// reached. The cover start is 0 or a document-coordinate boundary (start
/// or end) of the final node; the returned frames are the root-to-node path
/// of the final position.
fn find_cover_start(snapshot: &SyntaxSnapshot, byte_start: usize) -> (r: (usize, Vec<(usize, usize)>))
    requires
        snapshot.wf(),
    ensures
        r.0 <= byte_start,
        r.0 % 2 == 0,
        r.0 == 0 || r.0 == spec_global_start(
            *snapshot,
            r.1@.last().0 as int,
            r.1@.last().1 as int,
        ) || r.0 == spec_global_end(*snapshot, r.1@.last().0 as int, r.1@.last().1 as int),
        r.1@.len() >= 1,
        r.1@[0] == (0usize, 0usize),
        forall|k: int| 0 <= k < r.1@.len() ==> frame_ok(snapshot.entries@, #[trigger] r.1@[k]),
        path_chain(*snapshot, r.1@),
        byte_start == 0 ==> r.0 == 0 && r.1@ == seq![(0usize, 0usize)],
{
    let mut frames: Vec<(usize, usize)> = Vec::new();
    frames.push((0, 0));
    proof {
        let t = entry_tree(snapshot.entries@[0]);
        assert(snapshot.entries@[0].content is Parsed);
        assert(entry_wf(snapshot.entries@[0]));
        assert(t.wf());
        assert(t@.len() >= 1);
        assert(frames@ =~= seq![(0usize, 0usize)]);
    }
    if byte_start == 0 {
        return (0, frames);
    }
    descend_to_byte(snapshot, byte_start, &mut frames);
    let cover = extend_cover_left(snapshot, byte_start, &mut frames);
    (cover, frames)
}

/// Compute the minimal token cover of the requested native-unit range
/// `[start, end)`: the cover start (in native units, at or before `start`)
/// and the gap-free token run from there. Given the per-entry matches of
/// the external engine, each token carries the active visible capture.
///
/// Whenever the requested end lies within the root node, the run tiles
/// `[cover, end)` exactly — ordered, contiguous, without overlaps or gaps,
/// the final token clamped at the requested end; a request past the root
/// node is covered up to the root node's end.
pub fn highlight_tokens_cover(
    snapshot: &SyntaxSnapshot,
    registry: &LanguageRegistry,
    text: &[u16],
    start: usize,
    end: usize,
    entry_matches: &Vec<(usize, Vec<QueryMatchData>)>,
) -> (r: (usize, Vec<HighlightToken>))
    requires
        snapshot.wf(),
        snapshot_bounded(snapshot.entries@, u32::MAX as int),
        start <= end,
        end <= u32::MAX / 2,
    ensures
        r.0 <= start,
        2 * r.0 + 2 * tokens_len_sum(r.1@) <= 2 * end,
        2 * r.0 + 2 * tokens_len_sum(r.1@) >= if 2 * end <= spec_global_end(*snapshot, 0, 0) {
            2 * end as int
        } else {
            spec_global_end(*snapshot, 0, 0)
        },
        2 * end <= spec_global_end(*snapshot, 0, 0) ==> 2 * r.0 + 2 * tokens_len_sum(r.1@) == 2
            * end,
        (start == 0 && 2 * end == spec_global_end(*snapshot, 0, 0)) ==> (r.0 == 0
            && tokens_len_sum(r.1@) == end),
        r.0 == 0 || exists|e: int, n: int|
            #![trigger spec_global_end(*snapshot, e, n)]
            #![trigger spec_global_start(*snapshot, e, n)]
            {
                &&& frame_ok(snapshot.entries@, (e as usize, n as usize))
                &&& 0 <= e && 0 <= n
                &&& (2 * r.0 == spec_global_start(*snapshot, e, n) || 2 * r.0 == spec_global_end(
                    *snapshot,
                    e,
                    n,
                ))
            },
        all_tokens_ok(
            *snapshot,
            spec_collect_highlights(
                *snapshot,
                *registry,
                text@,
                (2 * r.0) as usize,
                (2 * end) as usize,
                entry_matches@,
            ),
            r.1@,
        ),
{
    let byte_start = start * 2;
    let byte_end = end * 2;
    let (cover, frames) = find_cover_start(snapshot, byte_start);
    let highlights = collect_highlights_for_range(
        snapshot,
        registry,
        text,
        cover,
        byte_end,
        entry_matches,
    );
    let mut hl_stack: Vec<HlFrame> = Vec::new();
    // Seed the context stack with the highlighted ancestors on the path.
    let mut k: usize = 0;
    let flen = frames.len();
    while k < flen
        invariant
            flen == frames@.len(),
            k <= flen,
            snapshot.wf(),
            stack_from_spans(highlights@, hl_stack@),
            forall|q: int|
                0 <= q < frames@.len() ==> frame_ok(snapshot.entries@, #[trigger] frames@[q]),
            k >= 1 ==> entered_ok(
                highlights@,
                hl_stack@,
                entry_language(*snapshot, frames@[k - 1].0 as int),
                frames@[k - 1].0,
                frames@[k - 1].1,
                spec_global_start(*snapshot, frames@[k - 1].0 as int, frames@[k - 1].1 as int) as usize,
                spec_global_end(*snapshot, frames@[k - 1].0 as int, frames@[k - 1].1 as int) as usize,
            ),
        decreases flen - k,
    {
        let (fe, fn_idx) = frames[k];
        proof {
            assert(frame_ok(snapshot.entries@, frames@[k as int]));
            assert(entry_wf(snapshot.entries@[fe as int]));
            assert(crate::tree::node_wf(entry_tree(snapshot.entries@[fe as int])@, fn_idx as int));
        }
        let fentry = &snapshot.entries[fe];
        let (flanguage, ftree) = match &fentry.content {
            SyntaxSnapshotEntryContent::Parsed { language, tree } => (*language, tree),
            SyntaxSnapshotEntryContent::Unparsed(_) => {
                proof {
                    assert(false);
                }
                vstd::pervasive::unreached()
            },
        };
        let fs = fentry.byte_offset + ftree.node(fn_idx).start_byte;
        let fe_b = fentry.byte_offset + ftree.node(fn_idx).end_byte;
        push_if_highlighted(&mut hl_stack, &highlights, flanguage, fe, fn_idx, fs, fe_b);
        proof {
            assert(fs == spec_global_start(*snapshot, fe as int, fn_idx as int) as usize);
            assert(fe_b == spec_global_end(*snapshot, fe as int, fn_idx as int) as usize);
            assert(entered_ok(highlights@, hl_stack@, flanguage, fe, fn_idx, fs, fe_b));
        }
        k = k + 1;
    }
    let mut tokens: Vec<HighlightToken> = Vec::new();
    let ghost cover0 = cover as int;
    proof {
        assert(frames@.last() == frames@[flen - 1]);
    }
    let reached = if cover <= byte_end {
        emit_path(snapshot, &highlights, &frames, 0, cover, byte_end, &mut hl_stack, &mut tokens)
    } else {
        cover
    };
    proof {
        if cover <= byte_end {
            assert(2 * tokens_len_sum(tokens@) == reached - cover);
        } else {
            assert(byte_start <= byte_end);
            assert(cover <= byte_start);
            assert(false);
        }
    }
    (cover / 2, tokens)
}

} // verus!
