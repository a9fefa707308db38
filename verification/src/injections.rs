//! The injection query: compiled injection pattern definitions, and the
//! collection of injection matches from the matches the external query
//! engine reports.
//!
//! A grammar's injection query names regions of a tree that are re-parsed
//! under another language. Exactly one `injection.content` capture must
//! exist across the query; `injection.language` / `injection.mimetype`
//! captures or a per-pattern `injection.language` property name the target
//! language; `offset!` predicates shift captured spans to exclude
//! delimiters; matches sharing an enclosing range merge, last write wins.

use vstd::prelude::*;
use crate::text::str_eq;
use vstd::string::StrSliceExecFns;
use vstd::string::StringSliceAdditionalSpecFns;
use vstd::utf8::encode_utf8;

use crate::coords::CaptureOffset;
use crate::coords::TextRange;
use crate::predicates::spec_satisfies;
use crate::predicates::AdditionalPredicates;
use crate::query::PredicateArgDesc;
use crate::query::QueryDesc;
use crate::query::QueryMatchData;
use crate::query::QueryCaptureData;
use crate::query::QueryPredicateDesc;
use crate::query::QueryPropertyDesc;
use crate::registry::UnknownLanguage;
use crate::registry::UnknownLanguageV;
use crate::text::parse_i32;
use crate::text::recoded_utf8;
use crate::text::spec_parse_i32;

verus! {

/// Relies on String::from_utf16_lossy: decodes UTF-16 code units with
/// unpaired surrogates replaced by U+FFFD, so the result's UTF-8 bytes are
/// exactly the recoding of the units.
#[verifier::external_body]
fn string_from_utf16(text: &[u16], start: usize, end: usize) -> (r: String)
    requires
        start <= end <= text@.len(),
    ensures
        encode_utf8(r@) == recoded_utf8(text@.subrange(start as int, end as int)),
{
    String::from_utf16_lossy(&text[start..end])
}

/// The language an injection pattern statically targets, if any.
#[derive(Clone, Debug, PartialEq, Eq)]
pub enum InjectionLanguage {
    NotSpecified,
    Static(UnknownLanguage),
}

impl View for InjectionLanguage {
    type V = Option<UnknownLanguageV>;

    open spec fn view(&self) -> Option<UnknownLanguageV> {
        match self {
            InjectionLanguage::NotSpecified => None,
            InjectionLanguage::Static(l) => Some(l@),
        }
    }
}

/// One injection found in a tree: the pattern, the target language, the
/// enclosing byte range and the included sub-ranges.
#[derive(Clone, Debug)]
pub struct InjectionMatch {
    pub id: usize,
    pub language: UnknownLanguage,
    pub enclosing_start_byte: usize,
    pub enclosing_end_byte: usize,
    pub included_ranges: Vec<TextRange>,
    pub combined: bool,
    pub include_children: bool,
}

pub ghost struct InjectionMatchV {
    pub id: usize,
    pub language: UnknownLanguageV,
    pub enclosing_start_byte: usize,
    pub enclosing_end_byte: usize,
    pub included_ranges: Seq<TextRange>,
    pub combined: bool,
    pub include_children: bool,
}

impl View for InjectionMatch {
    type V = InjectionMatchV;

    open spec fn view(&self) -> InjectionMatchV {
        InjectionMatchV {
            id: self.id,
            language: self.language@,
            enclosing_start_byte: self.enclosing_start_byte,
            enclosing_end_byte: self.enclosing_end_byte,
            included_ranges: self.included_ranges@,
            combined: self.combined,
            include_children: self.include_children,
        }
    }
}

/// Per-pattern compiled settings.
#[derive(Clone, Debug)]
pub struct InjectionInfo {
    pub language: InjectionLanguage,
    pub offsets: Vec<(u32, CaptureOffset)>,
    pub combined: bool,
    pub include_children: bool,
}

pub ghost struct InjectionInfoV {
    pub language: Option<UnknownLanguageV>,
    pub offsets: Map<u32, CaptureOffset>,
    pub combined: bool,
    pub include_children: bool,
}

/// The association list of `offset!` adjustments read as a map; a later
/// entry for the same capture overrides an earlier one.
pub open spec fn offsets_map(s: Seq<(u32, CaptureOffset)>) -> Map<u32, CaptureOffset>
    decreases s.len(),
{
    if s.len() == 0 {
        Map::empty()
    } else {
        offsets_map(s.drop_last()).insert(s.last().0, s.last().1)
    }
}

impl View for InjectionInfo {
    type V = InjectionInfoV;

    open spec fn view(&self) -> InjectionInfoV {
        InjectionInfoV {
            language: self.language@,
            offsets: offsets_map(self.offsets@),
            combined: self.combined,
            include_children: self.include_children,
        }
    }
}

/// Look an `offset!` adjustment up, honouring last-write-wins.
fn offsets_get(v: &Vec<(u32, CaptureOffset)>, k: u32) -> (r: Option<CaptureOffset>)
    ensures
        match r {
            Some(c) => offsets_map(v@).contains_key(k) && offsets_map(v@)[k] == c,
            None => !offsets_map(v@).contains_key(k),
        },
{
    let n = v.len();
    let mut i: usize = n;
    while i > 0
        invariant
            i <= n == v@.len(),
            forall|j: int| i <= j < n ==> (#[trigger] v@[j]).0 != k,
        decreases i,
    {
        i = i - 1;
        if v[i].0 == k {
            proof {
                lemma_offsets_map_found(v@, k, i as int);
            }
            return Some(v[i].1);
        }
    }
    proof {
        lemma_offsets_map_absent(v@, k);
    }
    None
}

proof fn lemma_offsets_map_found(s: Seq<(u32, CaptureOffset)>, k: u32, i: int)
    requires
        0 <= i < s.len(),
        s[i].0 == k,
        forall|j: int| i < j < s.len() ==> (#[trigger] s[j]).0 != k,
    ensures
        offsets_map(s).contains_key(k),
        offsets_map(s)[k] == s[i].1,
    decreases s.len(),
{
    if i == s.len() - 1 {
    } else {
        lemma_offsets_map_found(s.drop_last(), k, i);
    }
}

proof fn lemma_offsets_map_absent(s: Seq<(u32, CaptureOffset)>, k: u32)
    requires
        forall|j: int| 0 <= j < s.len() ==> (#[trigger] s[j]).0 != k,
    ensures
        !offsets_map(s).contains_key(k),
    decreases s.len(),
{
    if s.len() > 0 {
        lemma_offsets_map_absent(s.drop_last(), k);
    }
}

/// A coordinate shifted by an offset, clamped to machine bounds.
pub open spec fn sat_shift(v: usize, off: int) -> usize {
    if v + off < 0 {
        0
    } else if v + off > usize::MAX {
        usize::MAX
    } else {
        (v + off) as usize
    }
}

/// An `offset!` adjustment applied to a captured span, coordinates clamped
/// to machine bounds. Rows are unaffected.
pub open spec fn sat_apply_offset(off: CaptureOffset, r: TextRange) -> TextRange {
    TextRange {
        start_byte: sat_shift(r.start_byte, off.start_offset as int),
        end_byte: sat_shift(r.end_byte, off.end_offset as int),
        start_point: crate::coords::Point {
            row: r.start_point.row,
            column: sat_shift(r.start_point.column, off.start_offset as int),
        },
        end_point: crate::coords::Point {
            row: r.end_point.row,
            column: sat_shift(r.end_point.column, off.end_offset as int),
        },
    }
}

fn sat_shift_exec(v: usize, off: i32) -> (r: usize)
    ensures
        r == sat_shift(v, off as int),
{
    if off >= 0 {
        if v <= usize::MAX - (off as usize) {
            v + (off as usize)
        } else {
            usize::MAX
        }
    } else {
        let magnitude: usize = (-(off as i64)) as usize;
        if v >= magnitude {
            v - magnitude
        } else {
            0
        }
    }
}

fn sat_apply_offset_exec(off: &CaptureOffset, r: &TextRange) -> (res: TextRange)
    ensures
        res == sat_apply_offset(*off, *r),
{
    TextRange {
        start_byte: sat_shift_exec(r.start_byte, off.start_offset),
        end_byte: sat_shift_exec(r.end_byte, off.end_offset),
        start_point: crate::coords::Point {
            row: r.start_point.row,
            column: sat_shift_exec(r.start_point.column, off.start_offset),
        },
        end_point: crate::coords::Point {
            row: r.end_point.row,
            column: sat_shift_exec(r.end_point.column, off.end_offset),
        },
    }
}

/// Why an injection query failed to compile.
#[derive(Clone, Debug, PartialEq, Eq)]
pub enum InjectionQueryError {
    /// No `injection.content` capture exists.
    NoRequiredCaptures,
    /// A required capture name occurs twice.
    DuplicateCapture,
    /// A recognized property key with the wrong shape, for a pattern.
    InvalidPatternProperty(usize, String),
    /// A pattern sets its language twice.
    LanguageConflict(usize, InjectionLanguage, InjectionLanguage),
    /// A malformed `offset!` predicate, for a pattern.
    InvalidPredicate(usize, String),
}

pub ghost enum InjectionQueryErrorV {
    NoRequiredCaptures,
    DuplicateCapture,
    InvalidPatternProperty(usize, Seq<char>),
    LanguageConflict(usize, Option<UnknownLanguageV>, Option<UnknownLanguageV>),
    InvalidPredicate(usize, Seq<char>),
}

impl View for InjectionQueryError {
    type V = InjectionQueryErrorV;

    open spec fn view(&self) -> InjectionQueryErrorV {
        match self {
            InjectionQueryError::NoRequiredCaptures => InjectionQueryErrorV::NoRequiredCaptures,
            InjectionQueryError::DuplicateCapture => InjectionQueryErrorV::DuplicateCapture,
            InjectionQueryError::InvalidPatternProperty(pi, key) => (
            InjectionQueryErrorV::InvalidPatternProperty(*pi, key@)),
            InjectionQueryError::LanguageConflict(pi, a, b) => (
            InjectionQueryErrorV::LanguageConflict(*pi, a@, b@)),
            InjectionQueryError::InvalidPredicate(pi, op) => (
            InjectionQueryErrorV::InvalidPredicate(*pi, op@)),
        }
    }
}

/// The scan of a query's capture names for the three special names,
/// failing on a duplicate.
pub open spec fn spec_scan_captures(names: Seq<String>) -> Result<
    (Option<u32>, Option<u32>, Option<u32>),
    InjectionQueryErrorV,
>
    decreases names.len(),
{
    if names.len() == 0 {
        Ok((None, None, None))
    } else {
        match spec_scan_captures(names.drop_last()) {
            Err(e) => Err(e),
            Ok((c, l, m)) => {
                let name = names.last()@;
                let idx = (names.len() - 1) as u32;
                if name == "injection.content"@ {
                    if c is Some {
                        Err(InjectionQueryErrorV::DuplicateCapture)
                    } else {
                        Ok((Some(idx), l, m))
                    }
                } else if name == "injection.language"@ {
                    if l is Some {
                        Err(InjectionQueryErrorV::DuplicateCapture)
                    } else {
                        Ok((c, Some(idx), m))
                    }
                } else if name == "injection.mimetype"@ {
                    if m is Some {
                        Err(InjectionQueryErrorV::DuplicateCapture)
                    } else {
                        Ok((c, l, Some(idx)))
                    }
                } else {
                    Ok((c, l, m))
                }
            },
        }
    }
}

/// An empty per-pattern settings record.
pub open spec fn empty_info() -> InjectionInfoV {
    InjectionInfoV { language: None, offsets: Map::empty(), combined: false, include_children: false }
}

/// One property setting applied to a pattern's settings.
pub open spec fn spec_apply_property(
    info: InjectionInfoV,
    prop: QueryPropertyDesc,
    pi: usize,
) -> Result<InjectionInfoV, InjectionQueryErrorV> {
    if prop.key@ == "injection.language"@ {
        if !(prop.capture_id is None) || !(prop.value is Some) {
            Err(InjectionQueryErrorV::InvalidPatternProperty(pi, prop.key@))
        } else {
            let new_lang = UnknownLanguageV {
                mimetype: false,
                name: encode_utf8(prop.value->Some_0@),
            };
            if info.language is Some {
                Err(InjectionQueryErrorV::LanguageConflict(pi, info.language, Some(new_lang)))
            } else {
                Ok(InjectionInfoV { language: Some(new_lang), ..info })
            }
        }
    } else if prop.key@ == "injection.combined"@ {
        if !(prop.capture_id is None) || !(prop.value is None) {
            Err(InjectionQueryErrorV::InvalidPatternProperty(pi, prop.key@))
        } else {
            Ok(InjectionInfoV { combined: true, ..info })
        }
    } else if prop.key@ == "injection.include-children"@ {
        if !(prop.capture_id is None) || !(prop.value is None) {
            Err(InjectionQueryErrorV::InvalidPatternProperty(pi, prop.key@))
        } else {
            Ok(InjectionInfoV { include_children: true, ..info })
        }
    } else {
        Ok(info)
    }
}

/// Whether a parsed `offset!` argument can be carried in doubled units.
pub open spec fn offset_arg_ok(a: Option<i32>) -> bool {
    a is Some && -0x4000_0000 <= a->Some_0 <= 0x3fff_ffff
}

/// One general predicate applied to a pattern's settings: `offset!` records
/// a doubled adjustment for its capture; other operators are ignored here.
pub open spec fn spec_apply_offset_pred(
    info: InjectionInfoV,
    pred: QueryPredicateDesc,
    pi: usize,
) -> Result<InjectionInfoV, InjectionQueryErrorV> {
    if pred.operator@ == "offset!"@ {
        if pred.args@.len() == 3 && pred.args@[0] is Capture && pred.args@[1] is Literal
            && pred.args@[2] is Literal {
            let a1 = spec_parse_i32(encode_utf8(pred.args@[1]->Literal_0@));
            let a2 = spec_parse_i32(encode_utf8(pred.args@[2]->Literal_0@));
            if offset_arg_ok(a1) && offset_arg_ok(a2) {
                Ok(
                    InjectionInfoV {
                        offsets: info.offsets.insert(
                            pred.args@[0]->Capture_0,
                            CaptureOffset {
                                start_offset: (a1->Some_0 * 2) as i32,
                                end_offset: (a2->Some_0 * 2) as i32,
                            },
                        ),
                        ..info
                    },
                )
            } else {
                Err(InjectionQueryErrorV::InvalidPredicate(pi, pred.operator@))
            }
        } else {
            Err(InjectionQueryErrorV::InvalidPredicate(pi, pred.operator@))
        }
    } else {
        Ok(info)
    }
}

pub open spec fn spec_fold_props(props: Seq<QueryPropertyDesc>, pi: usize) -> Result<
    InjectionInfoV,
    InjectionQueryErrorV,
>
    decreases props.len(),
{
    if props.len() == 0 {
        Ok(empty_info())
    } else {
        match spec_fold_props(props.drop_last(), pi) {
            Err(e) => Err(e),
            Ok(st) => spec_apply_property(st, props.last(), pi),
        }
    }
}

pub open spec fn spec_fold_preds(
    start: Result<InjectionInfoV, InjectionQueryErrorV>,
    preds: Seq<QueryPredicateDesc>,
    pi: usize,
) -> Result<InjectionInfoV, InjectionQueryErrorV>
    decreases preds.len(),
{
    if preds.len() == 0 {
        start
    } else {
        match spec_fold_preds(start, preds.drop_last(), pi) {
            Err(e) => Err(e),
            Ok(st) => spec_apply_offset_pred(st, preds.last(), pi),
        }
    }
}

/// The compiled settings of pattern `pi`: the property fold, then the
/// `offset!` fold.
pub open spec fn spec_pattern_info(
    props: Seq<QueryPropertyDesc>,
    preds: Seq<QueryPredicateDesc>,
    pi: usize,
) -> Result<InjectionInfoV, InjectionQueryErrorV> {
    spec_fold_preds(spec_fold_props(props, pi), preds, pi)
}

/// A pattern uses the capture with the given index.
pub open spec fn spec_pattern_uses(caps: Seq<u32>, id: Option<u32>) -> bool {
    id is Some && caps.contains(id->Some_0)
}

/// A pattern's compiled settings conflict with its inline captures: it sets
/// a static `injection.language` and also captures an inline language or
/// mimetype.
pub open spec fn spec_inline_conflict(
    info: InjectionInfoV,
    caps: Seq<u32>,
    lang_id: Option<u32>,
    mime_id: Option<u32>,
) -> bool {
    info.language is Some && (spec_pattern_uses(caps, lang_id) || spec_pattern_uses(caps, mime_id))
}

/// The first compile error among the settings of patterns `0..k`, if any:
/// a malformed setting, or a static language conflicting with the pattern's
/// inline language or mimetype captures.
pub open spec fn spec_infos_err(
    query: QueryDesc,
    lang_id: Option<u32>,
    mime_id: Option<u32>,
    k: int,
) -> Option<InjectionQueryErrorV>
    recommends
        query.wf(),
        0 <= k <= query.spec_pattern_count(),
    decreases k,
{
    if k <= 0 {
        None
    } else {
        match spec_infos_err(query, lang_id, mime_id, k - 1) {
            Some(e) => Some(e),
            None => match spec_pattern_info(
                query.properties@[k - 1]@,
                query.predicates@[k - 1]@,
                (k - 1) as usize,
            ) {
                Err(e) => Some(e),
                Ok(info) => {
                    if spec_inline_conflict(
                        info,
                        query.pattern_captures@[k - 1]@,
                        lang_id,
                        mime_id,
                    ) {
                        Some(
                            InjectionQueryErrorV::LanguageConflict(
                                (k - 1) as usize,
                                info.language,
                                None,
                            ),
                        )
                    } else {
                        None
                    }
                },
            },
        }
    }
}

/// The outcome of compiling a query's injection settings: the three special
/// capture indices, or the first error.
pub open spec fn spec_compile_outcome(query: QueryDesc) -> Result<
    (u32, Option<u32>, Option<u32>),
    InjectionQueryErrorV,
> {
    match spec_scan_captures(query.capture_names@) {
        Err(e) => Err(e),
        Ok((c, l, m)) => match c {
            None => Err(InjectionQueryErrorV::NoRequiredCaptures),
            Some(content) => match spec_infos_err(query, l, m, query.spec_pattern_count()) {
                Some(e) => Err(e),
                None => Ok((content, l, m)),
            },
        },
    }
}

/// A compiled injection query.
#[derive(Clone, Debug)]
pub struct InjectionQuery {
    pub query: QueryDesc,
    pub predicates: AdditionalPredicates,
    pub injection_content_capture_id: u32,
    pub injection_language_capture_id: Option<u32>,
    pub injection_mimetype_capture_id: Option<u32>,
    pub injections: Vec<InjectionInfo>,
}

impl InjectionQuery {
    pub open spec fn wf(&self) -> bool {
        &&& self.query.wf()
        &&& self.injections@.len() == self.query.spec_pattern_count()
    }
}

proof fn lemma_scan_err_propagates(names: Seq<String>, j: int, e: InjectionQueryErrorV)
    requires
        0 < j <= names.len(),
        spec_scan_captures(names.take(j)) == Err::<
            (Option<u32>, Option<u32>, Option<u32>),
            InjectionQueryErrorV,
        >(e),
    ensures
        spec_scan_captures(names) == Err::<
            (Option<u32>, Option<u32>, Option<u32>),
            InjectionQueryErrorV,
        >(e),
    decreases names.len() - j,
{
    if j == names.len() {
        assert(names.take(j) =~= names);
    } else {
        assert(names.take(j + 1).drop_last() =~= names.take(j));
        lemma_scan_err_propagates(names, j + 1, e);
    }
}

proof fn lemma_fold_preds_err_propagates(
    start: Result<InjectionInfoV, InjectionQueryErrorV>,
    preds: Seq<QueryPredicateDesc>,
    j: int,
    pi: usize,
    e: InjectionQueryErrorV,
)
    requires
        0 <= j <= preds.len(),
        spec_fold_preds(start, preds.take(j), pi) == Err::<InjectionInfoV, InjectionQueryErrorV>(e),
    ensures
        spec_fold_preds(start, preds, pi) == Err::<InjectionInfoV, InjectionQueryErrorV>(e),
    decreases preds.len() - j,
{
    if j == preds.len() {
        assert(preds.take(j) =~= preds);
    } else {
        assert(preds.take(j + 1).drop_last() =~= preds.take(j));
        lemma_fold_preds_err_propagates(start, preds, j + 1, pi, e);
    }
}

proof fn lemma_fold_preds_start_err(
    preds: Seq<QueryPredicateDesc>,
    pi: usize,
    e: InjectionQueryErrorV,
)
    ensures
        spec_fold_preds(Err(e), preds, pi) == Err::<InjectionInfoV, InjectionQueryErrorV>(e),
    decreases preds.len(),
{
    if preds.len() > 0 {
        lemma_fold_preds_start_err(preds.drop_last(), pi, e);
    }
}

proof fn lemma_fold_props_err_propagates(
    props: Seq<QueryPropertyDesc>,
    j: int,
    pi: usize,
    e: InjectionQueryErrorV,
)
    requires
        0 < j <= props.len(),
        spec_fold_props(props.take(j), pi) == Err::<InjectionInfoV, InjectionQueryErrorV>(e),
    ensures
        spec_fold_props(props, pi) == Err::<InjectionInfoV, InjectionQueryErrorV>(e),
    decreases props.len() - j,
{
    if j == props.len() {
        assert(props.take(j) =~= props);
    } else {
        assert(props.take(j + 1).drop_last() =~= props.take(j));
        lemma_fold_props_err_propagates(props, j + 1, pi, e);
    }
}

proof fn lemma_infos_err_propagates(
    query: QueryDesc,
    lang_id: Option<u32>,
    mime_id: Option<u32>,
    k: int,
    e: InjectionQueryErrorV,
)
    requires
        query.wf(),
        0 < k <= query.spec_pattern_count(),
        spec_infos_err(query, lang_id, mime_id, k) == Some(e),
    ensures
        spec_infos_err(query, lang_id, mime_id, query.spec_pattern_count()) == Some(e),
    decreases query.spec_pattern_count() - k,
{
    if k < query.spec_pattern_count() {
        lemma_infos_err_propagates(query, lang_id, mime_id, k + 1, e);
    }
}

/// Whether a capture index list contains the given index.
fn contains_u32(v: &Vec<u32>, x: u32) -> (r: bool)
    ensures
        r == v@.contains(x),
{
    let n = v.len();
    let mut i: usize = 0;
    while i < n
        invariant
            n == v@.len(),
            i <= n,
            forall|k: int| 0 <= k < i ==> v@[k] != x,
        decreases n - i,
    {
        if v[i] == x {
            return true;
        }
        i = i + 1;
    }
    proof {
        assert(forall|k: int| 0 <= k < v@.len() ==> v@[k] != x);
    }
    false
}

impl InjectionQuery {
    /// Compile a query's injection settings. Requires exactly one
    /// `injection.content` capture; rejects duplicate special captures,
    /// malformed recognized properties, a language set twice for one
    /// pattern, a static language on a pattern that also captures an inline
    /// language or mimetype, and malformed `offset!` predicates. `offset!`
    /// arguments are doubled here like every other coordinate; one whose
    /// doubled value cannot be carried is rejected. A conflict with inline
    /// captures reports the static side; the inline side has no value at
    /// compile time.
    pub fn new(query: QueryDesc, predicates: AdditionalPredicates) -> (r: Result<
        InjectionQuery,
        InjectionQueryError,
    >)
        requires
            query.wf(),
            query.capture_names@.len() <= u32::MAX,
        ensures
            match r {
                Ok(iq) => {
                    &&& spec_compile_outcome(query) == Ok::<
                        (u32, Option<u32>, Option<u32>),
                        InjectionQueryErrorV,
                    >(
                        (
                            iq.injection_content_capture_id,
                            iq.injection_language_capture_id,
                            iq.injection_mimetype_capture_id,
                        ),
                    )
                    &&& iq.query == query
                    &&& iq.predicates == predicates
                    &&& iq.wf()
                    &&& forall|pi: int|
                        0 <= pi < query.spec_pattern_count() ==> Ok::<
                            InjectionInfoV,
                            InjectionQueryErrorV,
                        >((#[trigger] iq.injections@[pi])@) == spec_pattern_info(
                            query.properties@[pi]@,
                            query.predicates@[pi]@,
                            pi as usize,
                        )
                },
                Err(e) => spec_compile_outcome(query) == Err::<
                    (u32, Option<u32>, Option<u32>),
                    InjectionQueryErrorV,
                >(e@),
            },
    {
        let mut content: Option<u32> = None;
        let mut language: Option<u32> = None;
        let mut mimetype: Option<u32> = None;
        let names_len = query.capture_names.len();
        let mut idx: usize = 0;
        proof {
            assert(query.capture_names@.take(0) =~= Seq::<String>::empty());
        }
        while idx < names_len
            invariant
                names_len == query.capture_names@.len() <= u32::MAX,
                idx <= names_len,
                spec_scan_captures(query.capture_names@.take(idx as int)) == Ok::<
                    (Option<u32>, Option<u32>, Option<u32>),
                    InjectionQueryErrorV,
                >((content, language, mimetype)),
            decreases names_len - idx,
        {
            let ghost prefix = query.capture_names@.take(idx as int);
            let name = query.capture_names[idx].as_str();
            proof {
                assert(query.capture_names@.take(idx + 1).drop_last() =~= prefix);
                assert(query.capture_names@.take(idx + 1).last() == query.capture_names@[
                    idx as int
                ]);
            }
            if str_eq(name, "injection.content") {
                if content.is_some() {
                    proof {
                        lemma_scan_err_propagates(
                            query.capture_names@,
                            idx + 1,
                            InjectionQueryErrorV::DuplicateCapture,
                        );
                    }
                    return Err(InjectionQueryError::DuplicateCapture);
                }
                content = Some(idx as u32);
            } else if str_eq(name, "injection.language") {
                if language.is_some() {
                    proof {
                        lemma_scan_err_propagates(
                            query.capture_names@,
                            idx + 1,
                            InjectionQueryErrorV::DuplicateCapture,
                        );
                    }
                    return Err(InjectionQueryError::DuplicateCapture);
                }
                language = Some(idx as u32);
            } else if str_eq(name, "injection.mimetype") {
                if mimetype.is_some() {
                    proof {
                        lemma_scan_err_propagates(
                            query.capture_names@,
                            idx + 1,
                            InjectionQueryErrorV::DuplicateCapture,
                        );
                    }
                    return Err(InjectionQueryError::DuplicateCapture);
                }
                mimetype = Some(idx as u32);
            }
            idx = idx + 1;
        }
        proof {
            assert(query.capture_names@.take(names_len as int) =~= query.capture_names@);
        }
        let content = match content {
            Some(c) => c,
            None => {
                return Err(InjectionQueryError::NoRequiredCaptures);
            },
        };
        let n = query.pattern_count();
        let mut infos: Vec<InjectionInfo> = Vec::new();
        let mut pi: usize = 0;
        while pi < n
            invariant
                query.wf(),
                n == query.spec_pattern_count(),
                pi <= n,
                infos@.len() == pi,
                spec_scan_captures(query.capture_names@) == Ok::<
                    (Option<u32>, Option<u32>, Option<u32>),
                    InjectionQueryErrorV,
                >((Some(content), language, mimetype)),
                spec_infos_err(query, language, mimetype, pi as int) is None,
                forall|k: int|
                    0 <= k < pi ==> Ok::<InjectionInfoV, InjectionQueryErrorV>(
                        (#[trigger] infos@[k])@,
                    ) == spec_pattern_info(
                        query.properties@[k]@,
                        query.predicates@[k]@,
                        k as usize,
                    ),
            decreases n - pi,
        {
            let info = match Self::compile_pattern(&query, pi) {
                Ok(info) => info,
                Err(e) => {
                    proof {
                        lemma_infos_err_propagates(query, language, mimetype, pi + 1, e@);
                    }
                    return Err(e);
                },
            };
            // A pattern may not set its language statically and also
            // capture an inline language or mimetype.
            let has_static = match &info.language {
                InjectionLanguage::Static(_) => true,
                InjectionLanguage::NotSpecified => false,
            };
            if has_static {
                let caps = &query.pattern_captures[pi];
                let uses_lang = match &language {
                    Option::Some(id) => contains_u32(caps, *id),
                    Option::None => false,
                };
                let uses_mime = match &mimetype {
                    Option::Some(id) => contains_u32(caps, *id),
                    Option::None => false,
                };
                if uses_lang || uses_mime {
                    let e = InjectionQueryError::LanguageConflict(
                        pi,
                        info.language,
                        InjectionLanguage::NotSpecified,
                    );
                    proof {
                        assert(spec_inline_conflict(
                            info@,
                            query.pattern_captures@[pi as int]@,
                            language,
                            mimetype,
                        ));
                        assert(spec_infos_err(query, language, mimetype, pi + 1) == Some(e@));
                        lemma_infos_err_propagates(query, language, mimetype, pi + 1, e@);
                    }
                    return Err(e);
                }
            }
            proof {
                assert(!spec_inline_conflict(
                    info@,
                    query.pattern_captures@[pi as int]@,
                    language,
                    mimetype,
                ));
            }
            infos.push(info);
            pi = pi + 1;
        }
        Ok(
            InjectionQuery {
                query,
                predicates,
                injection_content_capture_id: content,
                injection_language_capture_id: language,
                injection_mimetype_capture_id: mimetype,
                injections: infos,
            },
        )
    }

    /// Compile one pattern's settings: its recognized properties, then its
    /// `offset!` predicates.
    fn compile_pattern(query: &QueryDesc, pi: usize) -> (r: Result<
        InjectionInfo,
        InjectionQueryError,
    >)
        requires
            query.wf(),
            pi < query.spec_pattern_count(),
        ensures
            match r {
                Ok(info) => Ok::<InjectionInfoV, InjectionQueryErrorV>(info@)
                    == spec_pattern_info(
                    query.properties@[pi as int]@,
                    query.predicates@[pi as int]@,
                    pi,
                ),
                Err(e) => spec_pattern_info(
                    query.properties@[pi as int]@,
                    query.predicates@[pi as int]@,
                    pi,
                ) == Err::<InjectionInfoV, InjectionQueryErrorV>(e@),
            },
    {
        let mut info = InjectionInfo {
            language: InjectionLanguage::NotSpecified,
            offsets: Vec::new(),
            combined: false,
            include_children: false,
        };
        let props = &query.properties[pi];
        let m = props.len();
        let mut j: usize = 0;
        proof {
            assert(props@.take(0) =~= Seq::<QueryPropertyDesc>::empty());
            assert(info@.offsets =~= Map::<u32, CaptureOffset>::empty());
        }
        while j < m
            invariant
                query.wf(),
                pi < query.spec_pattern_count(),
                props@ == query.properties@[pi as int]@,
                m == props@.len(),
                j <= m,
                info.offsets@.len() == 0,
                spec_fold_props(props@.take(j as int), pi) == Ok::<
                    InjectionInfoV,
                    InjectionQueryErrorV,
                >(info@),
            decreases m - j,
        {
            let ghost prefix = props@.take(j as int);
            let prop = &props[j];
            proof {
                assert(props@.take(j + 1).drop_last() =~= prefix);
                assert(props@.take(j + 1).last() == props@[j as int]);
            }
            if str_eq(prop.key.as_str(), "injection.language") {
                match (&prop.capture_id, &prop.value) {
                    (Option::None, Option::Some(v)) => {
                        let value = v.clone();
                        let old_is_static = if let InjectionLanguage::Static(_) = &info.language {
                            true
                        } else {
                            false
                        };
                        if old_is_static {
                            let old_language = info.language;
                            let e = InjectionQueryError::LanguageConflict(
                                pi,
                                old_language,
                                InjectionLanguage::Static(UnknownLanguage::LanguageName(value)),
                            );
                            proof {
                                lemma_fold_props_err_propagates(props@, j + 1, pi, e@);
                                lemma_fold_preds_start_err(query.predicates@[pi as int]@, pi, e@);
                            }
                            return Err(e);
                        }
                        info.language = InjectionLanguage::Static(
                            UnknownLanguage::LanguageName(value),
                        );
                    },
                    _ => {
                        let e = InjectionQueryError::InvalidPatternProperty(pi, prop.key.clone());
                        proof {
                            lemma_fold_props_err_propagates(props@, j + 1, pi, e@);
                            lemma_fold_preds_start_err(query.predicates@[pi as int]@, pi, e@);
                        }
                        return Err(e);
                    },
                }
            } else if str_eq(prop.key.as_str(), "injection.combined") {
                if !(prop.capture_id.is_none() && prop.value.is_none()) {
                    let e = InjectionQueryError::InvalidPatternProperty(pi, prop.key.clone());
                    proof {
                        lemma_fold_props_err_propagates(props@, j + 1, pi, e@);
                        lemma_fold_preds_start_err(query.predicates@[pi as int]@, pi, e@);
                    }
                    return Err(e);
                }
                info.combined = true;
            } else if str_eq(prop.key.as_str(), "injection.include-children") {
                if !(prop.capture_id.is_none() && prop.value.is_none()) {
                    let e = InjectionQueryError::InvalidPatternProperty(pi, prop.key.clone());
                    proof {
                        lemma_fold_props_err_propagates(props@, j + 1, pi, e@);
                        lemma_fold_preds_start_err(query.predicates@[pi as int]@, pi, e@);
                    }
                    return Err(e);
                }
                info.include_children = true;
            }
            j = j + 1;
        }
        proof {
            assert(props@.take(m as int) =~= props@);
        }
        let preds = &query.predicates[pi];
        let ghost props_result = spec_fold_props(props@, pi);
        let k_total = preds.len();
        let mut k: usize = 0;
        proof {
            assert(preds@.take(0) =~= Seq::<QueryPredicateDesc>::empty());
        }
        while k < k_total
            invariant
                query.wf(),
                pi < query.spec_pattern_count(),
                preds@ == query.predicates@[pi as int]@,
                k_total == preds@.len(),
                k <= k_total,
                props_result == spec_fold_props(query.properties@[pi as int]@, pi),
                spec_fold_preds(props_result, preds@.take(k as int), pi) == Ok::<
                    InjectionInfoV,
                    InjectionQueryErrorV,
                >(info@),
            decreases k_total - k,
        {
            let ghost prefix = preds@.take(k as int);
            let pred = &preds[k];
            proof {
                assert(preds@.take(k + 1).drop_last() =~= prefix);
                assert(preds@.take(k + 1).last() == preds@[k as int]);
            }
            if str_eq(pred.operator.as_str(), "offset!") {
                let mut bad = pred.args.len() != 3;
                let mut capture_id: u32 = 0;
                let mut off1: i32 = 0;
                let mut off2: i32 = 0;
                if !bad {
                    match &pred.args[0] {
                        PredicateArgDesc::Capture(c) => {
                            capture_id = *c;
                        },
                        PredicateArgDesc::Literal(_) => {
                            bad = true;
                        },
                    }
                }
                if !bad {
                    match &pred.args[1] {
                        PredicateArgDesc::Capture(_) => {
                            bad = true;
                        },
                        PredicateArgDesc::Literal(lit) => {
                            match parse_i32(lit.as_str().as_bytes()) {
                                Some(v) => {
                                    if -0x4000_0000 <= v && v <= 0x3fff_ffff {
                                        off1 = v * 2;
                                    } else {
                                        bad = true;
                                    }
                                },
                                None => {
                                    bad = true;
                                },
                            }
                        },
                    }
                }
                if !bad {
                    match &pred.args[2] {
                        PredicateArgDesc::Capture(_) => {
                            bad = true;
                        },
                        PredicateArgDesc::Literal(lit) => {
                            match parse_i32(lit.as_str().as_bytes()) {
                                Some(v) => {
                                    if -0x4000_0000 <= v && v <= 0x3fff_ffff {
                                        off2 = v * 2;
                                    } else {
                                        bad = true;
                                    }
                                },
                                None => {
                                    bad = true;
                                },
                            }
                        },
                    }
                }
                if bad {
                    let e = InjectionQueryError::InvalidPredicate(pi, pred.operator.clone());
                    proof {
                        lemma_fold_preds_err_propagates(props_result, preds@, k + 1, pi, e@);
                    }
                    return Err(e);
                }
                let ghost old_offsets = info.offsets@;
                info.offsets.push((capture_id, CaptureOffset { start_offset: off1, end_offset: off2 }));
                proof {
                    assert(info.offsets@.drop_last() =~= old_offsets);
                    assert(offsets_map(info.offsets@) == offsets_map(old_offsets).insert(
                        capture_id,
                        CaptureOffset { start_offset: off1, end_offset: off2 },
                    ));
                }
            }
            proof {
                assert(spec_fold_preds(props_result, preds@.take(k + 1), pi) == Ok::<
                    InjectionInfoV,
                    InjectionQueryErrorV,
                >(info@));
            }
            k = k + 1;
        }
        proof {
            assert(preds@.take(k_total as int) =~= preds@);
        }
        Ok(info)
    }
}

/// A captured span adjusted by the pattern's `offset!` setting for its
/// capture, if any.
pub open spec fn adjusted_range(offsets: Map<u32, CaptureOffset>, cap: QueryCaptureData) -> TextRange {
    if offsets.contains_key(cap.capture_index) {
        sat_apply_offset(offsets[cap.capture_index], cap.range)
    } else {
        cap.range
    }
}

/// The adjusted spans of the `injection.content` captures of a match, in
/// capture order.
pub open spec fn content_ranges(
    offsets: Map<u32, CaptureOffset>,
    caps: Seq<QueryCaptureData>,
    content_id: u32,
) -> Seq<TextRange>
    decreases caps.len(),
{
    if caps.len() == 0 {
        Seq::empty()
    } else {
        let prefix = content_ranges(offsets, caps.drop_last(), content_id);
        if caps.last().capture_index == content_id {
            prefix.push(adjusted_range(offsets, caps.last()))
        } else {
            prefix
        }
    }
}

/// The language named inline by the match's `injection.language` or
/// `injection.mimetype` captures; a later capture overrides an earlier one.
pub open spec fn inline_language(
    text: Seq<u16>,
    offsets: Map<u32, CaptureOffset>,
    caps: Seq<QueryCaptureData>,
    lang_id: Option<u32>,
    mime_id: Option<u32>,
) -> Option<UnknownLanguageV>
    decreases caps.len(),
{
    if caps.len() == 0 {
        None
    } else {
        let c = caps.last();
        let r = adjusted_range(offsets, c);
        if lang_id == Some(c.capture_index) {
            Some(UnknownLanguageV { mimetype: false, name: crate::predicates::span_text(text, r) })
        } else if mime_id == Some(c.capture_index) {
            Some(UnknownLanguageV { mimetype: true, name: crate::predicates::span_text(text, r) })
        } else {
            inline_language(text, offsets, caps.drop_last(), lang_id, mime_id)
        }
    }
}

/// What one query match contributes: `None` when its predicates fail, when
/// it has no content ranges, or when no language resolves; otherwise the
/// injection, its language taken from the inline captures first and the
/// pattern's static setting second.
pub open spec fn spec_match_injection(
    content_id: u32,
    lang_id: Option<u32>,
    mime_id: Option<u32>,
    infos: Seq<InjectionInfoV>,
    preds: Seq<Seq<crate::predicates::ContainsPredicateV>>,
    text: Seq<u16>,
    m: QueryMatchData,
) -> Option<InjectionMatchV>
    recommends
        m.pattern_index < infos.len(),
{
    if !spec_satisfies(preds, text, m) {
        None
    } else {
        let info = infos[m.pattern_index as int];
        let ranges = content_ranges(info.offsets, m.captures@, content_id);
        if ranges.len() == 0 {
            None
        } else {
            let inline = inline_language(text, info.offsets, m.captures@, lang_id, mime_id);
            let language = if inline is Some {
                inline
            } else {
                info.language
            };
            match language {
                None => None,
                Some(l) => Some(
                    InjectionMatchV {
                        id: m.pattern_index,
                        language: l,
                        enclosing_start_byte: ranges[0].start_byte,
                        enclosing_end_byte: ranges.last().end_byte,
                        included_ranges: ranges,
                        combined: info.combined,
                        include_children: info.include_children,
                    },
                ),
            }
        }
    }
}

/// The position of the accumulated injection with the given enclosing
/// range, if one exists.
pub open spec fn find_enclosing(s: Seq<InjectionMatchV>, start: usize, end: usize) -> Option<int>
    decreases s.len(),
{
    if s.len() == 0 {
        None
    } else if s[0].enclosing_start_byte == start && s[0].enclosing_end_byte == end {
        Some(0)
    } else {
        match find_enclosing(s.skip(1), start, end) {
            None => None,
            Some(i) => Some(i + 1),
        }
    }
}

/// Merge one injection into the accumulated list: one sharing its enclosing
/// range is overwritten in place (last write wins), otherwise it is
/// appended.
pub open spec fn spec_merge(acc: Seq<InjectionMatchV>, x: InjectionMatchV) -> Seq<InjectionMatchV> {
    match find_enclosing(acc, x.enclosing_start_byte, x.enclosing_end_byte) {
        Some(i) => acc.update(i, x),
        None => acc.push(x),
    }
}

/// The injections collected from a list of query matches, in order, merged
/// by enclosing range.
pub open spec fn spec_collect_injections(
    content_id: u32,
    lang_id: Option<u32>,
    mime_id: Option<u32>,
    infos: Seq<InjectionInfoV>,
    preds: Seq<Seq<crate::predicates::ContainsPredicateV>>,
    text: Seq<u16>,
    ms: Seq<QueryMatchData>,
) -> Seq<InjectionMatchV>
    decreases ms.len(),
{
    if ms.len() == 0 {
        Seq::empty()
    } else {
        let prefix = spec_collect_injections(
            content_id,
            lang_id,
            mime_id,
            infos,
            preds,
            text,
            ms.drop_last(),
        );
        match spec_match_injection(content_id, lang_id, mime_id, infos, preds, text, ms.last()) {
            None => prefix,
            Some(x) => spec_merge(prefix, x),
        }
    }
}

/// The views of a list of injection matches.
pub open spec fn injections_view(s: Seq<InjectionMatch>) -> Seq<InjectionMatchV> {
    Seq::new(s.len(), |i: int| s[i]@)
}

/// The views of a query's per-pattern settings.
pub open spec fn infos_view(s: Seq<InjectionInfo>) -> Seq<InjectionInfoV> {
    Seq::new(s.len(), |i: int| s[i]@)
}

/// The byte window the external engine is asked to match within, for one
/// changed range: the range expanded by one doubled unit on each side, to
/// catch patterns anchored just outside the edit.
pub fn injection_query_window(start: usize, end: usize) -> (r: (usize, usize))
    requires
        end <= usize::MAX - 2,
    ensures
        r.0 == if start >= 2 {
            start - 2
        } else {
            0
        },
        r.1 == end + 2,
{
    (
        if start >= 2 {
            start - 2
        } else {
            0
        },
        end + 2,
    )
}

proof fn lemma_find_enclosing_at(s: Seq<InjectionMatchV>, start: usize, end: usize, i: int)
    requires
        0 <= i < s.len(),
        s[i].enclosing_start_byte == start && s[i].enclosing_end_byte == end,
        forall|j: int|
            0 <= j < i ==> !((#[trigger] s[j]).enclosing_start_byte == start
                && s[j].enclosing_end_byte == end),
    ensures
        find_enclosing(s, start, end) == Some(i),
    decreases i,
{
    if i == 0 {
    } else {
        assert(s.skip(1)[i - 1] == s[i]);
        assert(forall|j: int| 0 <= j < i - 1 ==> #[trigger] s.skip(1)[j] == s[j + 1]);
        lemma_find_enclosing_at(s.skip(1), start, end, i - 1);
    }
}

proof fn lemma_find_enclosing_absent(s: Seq<InjectionMatchV>, start: usize, end: usize)
    requires
        forall|j: int|
            0 <= j < s.len() ==> !((#[trigger] s[j]).enclosing_start_byte == start
                && s[j].enclosing_end_byte == end),
    ensures
        find_enclosing(s, start, end) is None,
    decreases s.len(),
{
    if s.len() > 0 {
        assert(forall|j: int| 0 <= j < s.len() - 1 ==> #[trigger] s.skip(1)[j] == s[j + 1]);
        lemma_find_enclosing_absent(s.skip(1), start, end);
    }
}

impl InjectionQuery {
    /// Collect the injections named by the matches the external engine
    /// reported, filtered by this query's predicates, spans adjusted by
    /// `offset!`, languages resolved inline first and statically second,
    /// and matches sharing an enclosing range merged, last write wins.
    pub fn collect_injections(&self, text: &[u16], matches: &Vec<QueryMatchData>) -> (r: Vec<
        InjectionMatch,
    >)
        requires
            self.wf(),
            forall|i: int|
                0 <= i < matches@.len() ==> (#[trigger] matches@[i]).pattern_index
                    < self.injections@.len(),
        ensures
            injections_view(r@) == spec_collect_injections(
                self.injection_content_capture_id,
                self.injection_language_capture_id,
                self.injection_mimetype_capture_id,
                infos_view(self.injections@),
                self.predicates@,
                text@,
                matches@,
            ),
    {
        let ghost content_id = self.injection_content_capture_id;
        let ghost lang_id = self.injection_language_capture_id;
        let ghost mime_id = self.injection_mimetype_capture_id;
        let ghost ginfos = infos_view(self.injections@);
        let ghost gpreds = self.predicates@;
        let n = matches.len();
        let mut out: Vec<InjectionMatch> = Vec::new();
        let mut mi: usize = 0;
        proof {
            assert(matches@.take(0) =~= Seq::<QueryMatchData>::empty());
            assert(injections_view(out@) =~= Seq::<InjectionMatchV>::empty());
        }
        while mi < n
            invariant
                self.wf(),
                n == matches@.len(),
                mi <= n,
                content_id == self.injection_content_capture_id,
                lang_id == self.injection_language_capture_id,
                mime_id == self.injection_mimetype_capture_id,
                ginfos == infos_view(self.injections@),
                gpreds == self.predicates@,
                forall|i: int|
                    0 <= i < matches@.len() ==> (#[trigger] matches@[i]).pattern_index
                        < self.injections@.len(),
                injections_view(out@) == spec_collect_injections(
                    content_id,
                    lang_id,
                    mime_id,
                    ginfos,
                    gpreds,
                    text@,
                    matches@.take(mi as int),
                ),
            decreases n - mi,
        {
            let ghost out_prefix = injections_view(out@);
            let m = &matches[mi];
            proof {
                assert(matches@.take(mi + 1).drop_last() =~= matches@.take(mi as int));
                assert(matches@.take(mi + 1).last() == matches@[mi as int]);
            }
            let contribution = self.match_injection(text, m);
            match contribution {
                None => {},
                Some(x) => {
                    let ghost xv = x@;
                    let total = out.len();
                    let mut found = false;
                    let mut oi: usize = 0;
                    while oi < total && !found
                        invariant
                            total == out@.len(),
                            oi <= total,
                            xv == x@,
                            !found ==> forall|j: int|
                                0 <= j < oi ==> !((#[trigger] injections_view(
                                    out@,
                                )[j]).enclosing_start_byte == xv.enclosing_start_byte
                                    && injections_view(out@)[j].enclosing_end_byte
                                    == xv.enclosing_end_byte),
                            found ==> oi < total && find_enclosing(
                                injections_view(out@),
                                xv.enclosing_start_byte,
                                xv.enclosing_end_byte,
                            ) == Some(oi as int),
                        decreases total - oi, (if found {
                            0int
                        } else {
                            1int
                        }),
                    {
                        if out[oi].enclosing_start_byte == x.enclosing_start_byte && out[oi].enclosing_end_byte
                            == x.enclosing_end_byte {
                            proof {
                                assert(injections_view(out@)[oi as int] == out@[oi as int]@);
                                lemma_find_enclosing_at(
                                    injections_view(out@),
                                    xv.enclosing_start_byte,
                                    xv.enclosing_end_byte,
                                    oi as int,
                                );
                            }
                            found = true;
                        } else {
                            proof {
                                assert(injections_view(out@)[oi as int] == out@[oi as int]@);
                            }
                            oi = oi + 1;
                        }
                    }
                    if found {
                        out[oi] = x;
                        proof {
                            assert(injections_view(out@) =~= out_prefix.update(oi as int, xv));
                        }
                    } else {
                        proof {
                            lemma_find_enclosing_absent(
                                injections_view(out@),
                                xv.enclosing_start_byte,
                                xv.enclosing_end_byte,
                            );
                        }
                        out.push(x);
                        proof {
                            assert(injections_view(out@) =~= out_prefix.push(xv));
                        }
                    }
                },
            }
            mi = mi + 1;
        }
        proof {
            assert(matches@.take(n as int) =~= matches@);
        }
        out
    }

    /// What one match contributes, as `spec_match_injection` describes it.
    fn match_injection(&self, text: &[u16], m: &QueryMatchData) -> (r: Option<InjectionMatch>)
        requires
            self.wf(),
            m.pattern_index < self.injections@.len(),
        ensures
            match r {
                Some(x) => spec_match_injection(
                    self.injection_content_capture_id,
                    self.injection_language_capture_id,
                    self.injection_mimetype_capture_id,
                    infos_view(self.injections@),
                    self.predicates@,
                    text@,
                    *m,
                ) == Some(x@),
                None => spec_match_injection(
                    self.injection_content_capture_id,
                    self.injection_language_capture_id,
                    self.injection_mimetype_capture_id,
                    infos_view(self.injections@),
                    self.predicates@,
                    text@,
                    *m,
                ) is None,
            },
    {
        if !self.predicates.satisfies_predicates(text, m) {
            return None;
        }
        let info = &self.injections[m.pattern_index];
        proof {
            assert(infos_view(self.injections@)[m.pattern_index as int] == self.injections@[
                m.pattern_index as int
            ]@);
        }
        let caps = &m.captures;
        let k_total = caps.len();
        let mut ranges: Vec<TextRange> = Vec::new();
        let mut inline: Option<UnknownLanguage> = None;
        let mut k: usize = 0;
        proof {
            assert(caps@.take(0) =~= Seq::<QueryCaptureData>::empty());
            assert(ranges@ =~= content_ranges(info@.offsets, caps@.take(0), self.injection_content_capture_id));
        }
        while k < k_total
            invariant
                self.wf(),
                m.pattern_index < self.injections@.len(),
                caps@ == m.captures@,
                k_total == caps@.len(),
                k <= k_total,
                info@ == infos_view(self.injections@)[m.pattern_index as int],
                ranges@ == content_ranges(
                    info@.offsets,
                    caps@.take(k as int),
                    self.injection_content_capture_id,
                ),
                (match inline {
                    Some(l) => inline_language(
                        text@,
                        info@.offsets,
                        caps@.take(k as int),
                        self.injection_language_capture_id,
                        self.injection_mimetype_capture_id,
                    ) == Some(l@),
                    None => inline_language(
                        text@,
                        info@.offsets,
                        caps@.take(k as int),
                        self.injection_language_capture_id,
                        self.injection_mimetype_capture_id,
                    ) is None,
                }),
            decreases k_total - k,
        {
            let ghost prefix = caps@.take(k as int);
            let cap = &caps[k];
            proof {
                assert(caps@.take(k + 1).drop_last() =~= prefix);
                assert(caps@.take(k + 1).last() == caps@[k as int]);
            }
            let adj: TextRange = match offsets_get(&info.offsets, cap.capture_index) {
                Some(off) => sat_apply_offset_exec(&off, &cap.range),
                None => cap.range,
            };
            proof {
                assert(adj == adjusted_range(info@.offsets, caps@[k as int]));
            }
            if cap.capture_index == self.injection_content_capture_id {
                ranges.push(adj);
            }
            let is_lang = match &self.injection_language_capture_id {
                Some(id) => *id == cap.capture_index,
                None => false,
            };
            let is_mime = match &self.injection_mimetype_capture_id {
                Some(id) => *id == cap.capture_index,
                None => false,
            };
            if is_lang || is_mime {
                let len: usize = text.len();
                let sb = adj.start_byte / 2;
                let eb = adj.end_byte / 2;
                let s = if sb <= len {
                    sb
                } else {
                    len
                };
                let e = if eb <= len {
                    eb
                } else {
                    len
                };
                let e2 = if s <= e {
                    e
                } else {
                    s
                };
                let name = string_from_utf16(text, s, e2);
                if is_lang {
                    inline = Some(UnknownLanguage::LanguageName(name));
                } else {
                    inline = Some(UnknownLanguage::LanguageMimetype(name));
                }
            }
            k = k + 1;
        }
        proof {
            assert(caps@.take(k_total as int) =~= caps@);
        }
        if ranges.len() == 0 {
            return None;
        }
        let language: UnknownLanguage = match inline {
            Some(l) => l,
            None => {
                match &info.language {
                    InjectionLanguage::NotSpecified => {
                        return None;
                    },
                    InjectionLanguage::Static(l) => {
                        match l {
                            UnknownLanguage::LanguageName(s) => UnknownLanguage::LanguageName(
                                s.clone(),
                            ),
                            UnknownLanguage::LanguageMimetype(s) => (
                            UnknownLanguage::LanguageMimetype(s.clone())),
                        }
                    },
                }
            },
        };
        let enclosing_start_byte = ranges[0].start_byte;
        let enclosing_end_byte = ranges[ranges.len() - 1].end_byte;
        Some(
            InjectionMatch {
                id: m.pattern_index,
                language,
                enclosing_start_byte,
                enclosing_end_byte,
                included_ranges: ranges,
                combined: info.combined,
                include_children: info.include_children,
            },
        )
    }
}

} // verus!
