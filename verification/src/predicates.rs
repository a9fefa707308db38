//! The predicate engine: parsing and evaluating the `contains?` family of
//! text predicates, which the base query engine does not understand
//! natively.
//!
//! `contains?` / `not-contains?` require every instance of a capture to
//! satisfy / violate substring containment; the `any-` variants require at
//! least one. Operators outside this family are skipped here and left to
//! the base engine.

use vstd::prelude::*;
use crate::text::str_eq;
use vstd::string::StrSliceExecFns;
use vstd::string::StringSliceAdditionalSpecFns;

use crate::coords::TextRange;
use crate::query::PredicateArgDesc;
use crate::query::QueryCaptureData;
use crate::query::QueryDesc;
use crate::query::QueryMatchData;
use crate::query::QueryPredicateDesc;
use crate::text::clamp_span;
use crate::text::contains_bytes;
use crate::text::find_bytes;
use crate::text::recode_utf16;
use crate::text::recoded_utf8;

verus! {

/// Why a predicate failed to parse.
#[derive(Clone, Copy, Debug, PartialEq, Eq, Structural)]
pub enum PredicateErrorKind {
    /// The operator is not one this engine accepts.
    InvalidOperator,
    /// The predicate does not have exactly two arguments.
    WrongArgumentCount { got: usize },
    /// The first argument must name a capture.
    FirstArgNotCapture,
    /// The second argument must be a literal.
    SecondArgNotLiteral,
}

/// A parse failure, reported with the source row of the offending pattern.
#[derive(Clone, Copy, Debug, PartialEq, Eq, Structural)]
pub struct PredicateError {
    pub row: usize,
    pub kind: PredicateErrorKind,
}

pub open spec fn is_contains_operator(op: Seq<char>) -> bool {
    ||| op == "contains?"@
    ||| op == "not-contains?"@
    ||| op == "any-contains?"@
    ||| op == "any-not-contains?"@
}

/// `(is_positive, match_all)` for each operator of the family.
pub open spec fn operator_flags(op: Seq<char>) -> (bool, bool)
    recommends
        is_contains_operator(op),
{
    if op == "contains?"@ {
        (true, true)
    } else if op == "not-contains?"@ {
        (false, true)
    } else if op == "any-contains?"@ {
        (true, false)
    } else {
        (false, false)
    }
}

/// One compiled `contains?`-family predicate: all or any instance of the
/// capture must (or must not) contain the literal's UTF-8 bytes.
#[derive(Clone, Debug)]
pub struct ContainsPredicate {
    pub capture_id: u32,
    pub pattern: Vec<u8>,
    pub is_positive: bool,
    pub match_all: bool,
}

/// The mathematical content of a compiled predicate.
pub ghost struct ContainsPredicateV {
    pub capture_id: u32,
    pub pattern: Seq<u8>,
    pub is_positive: bool,
    pub match_all: bool,
}

impl View for ContainsPredicate {
    type V = ContainsPredicateV;

    open spec fn view(&self) -> ContainsPredicateV {
        ContainsPredicateV {
            capture_id: self.capture_id,
            pattern: self.pattern@,
            is_positive: self.is_positive,
            match_all: self.match_all,
        }
    }
}

/// The decision of a compiled predicate on the texts of a capture's
/// instances: all of them agree with `is_positive` when `match_all` is set,
/// or at least one does when it is not. With no instances the result is
/// `match_all` itself.
pub open spec fn spec_check_contains(
    texts: Seq<Seq<u8>>,
    pat: Seq<u8>,
    is_positive: bool,
    match_all: bool,
) -> bool {
    if match_all {
        forall|i: int| 0 <= i < texts.len() ==> contains_bytes(#[trigger] texts[i], pat) == is_positive
    } else {
        exists|i: int| 0 <= i < texts.len() && contains_bytes(#[trigger] texts[i], pat) == is_positive
    }
}

/// `contains?` and `not-contains?` decide opposite ways on a capture with
/// exactly one instance, and so do `any-contains?` and `any-not-contains?`.
/// (With several instances both of a pair can be false at once: one
/// instance containing the literal and one not refutes both `contains?`
/// and `not-contains?`.)
pub proof fn lemma_contains_negation_single(texts: Seq<Seq<u8>>, pat: Seq<u8>)
    requires
        texts.len() == 1,
    ensures
        spec_check_contains(texts, pat, true, true) == !spec_check_contains(texts, pat, false, true),
        spec_check_contains(texts, pat, true, false) == !spec_check_contains(
            texts,
            pat,
            false,
            false,
        ),
{
    assert(contains_bytes(texts[0], pat) || !contains_bytes(texts[0], pat));
    if contains_bytes(texts[0], pat) {
        assert(spec_check_contains(texts, pat, true, false));
        assert(!spec_check_contains(texts, pat, false, true));
    } else {
        assert(spec_check_contains(texts, pat, false, false));
        assert(!spec_check_contains(texts, pat, true, true));
    }
}

/// A capture with zero instances: each predicate of the family returns its
/// `match_all` flag.
pub proof fn lemma_contains_empty(pat: Seq<u8>, is_positive: bool, match_all: bool)
    ensures
        spec_check_contains(Seq::<Seq<u8>>::empty(), pat, is_positive, match_all) == match_all,
{
}

/// The views of a list of texts.
pub open spec fn texts_view(texts: Seq<Vec<u8>>) -> Seq<Seq<u8>> {
    Seq::new(texts.len(), |i: int| texts[i]@)
}

impl ContainsPredicate {
    /// Decide this predicate over the texts of the capture's instances.
    pub fn check_predicate(&self, texts: &Vec<Vec<u8>>) -> (r: bool)
        ensures
            r == spec_check_contains(
                texts_view(texts@),
                self@.pattern,
                self@.is_positive,
                self@.match_all,
            ),
    {
        let n = texts.len();
        let mut idx: usize = 0;
        while idx < n
            invariant
                n == texts@.len(),
                idx <= n,
                self@.match_all ==> forall|k: int|
                    0 <= k < idx ==> contains_bytes(#[trigger] texts_view(texts@)[k], self@.pattern)
                        == self@.is_positive,
                !self@.match_all ==> forall|k: int|
                    0 <= k < idx ==> contains_bytes(#[trigger] texts_view(texts@)[k], self@.pattern)
                        != self@.is_positive,
            decreases n - idx,
        {
            let does_match = find_bytes(&texts[idx], &self.pattern);
            proof {
                assert(texts_view(texts@)[idx as int] == texts@[idx as int]@);
            }
            if does_match != self.is_positive && self.match_all {
                return false;
            }
            if does_match == self.is_positive && !self.match_all {
                return true;
            }
            idx = idx + 1;
        }
        if self.match_all {
            true
        } else {
            proof {
                assert forall|i: int|
                    !(0 <= i < texts_view(texts@).len() && contains_bytes(
                        #[trigger] texts_view(texts@)[i],
                        self@.pattern,
                    ) == self@.is_positive) by {}
            }
            false
        }
    }
}

/// The recoded UTF-8 text of a global (doubled-unit) span of the document,
/// clamped to the document.
pub open spec fn span_text(text: Seq<u16>, range: TextRange) -> Seq<u8> {
    recoded_utf8(
        text.subrange(
            clamp_span(text.len() as int, range.start_byte as int / 2, range.end_byte as int / 2).0,
            clamp_span(text.len() as int, range.start_byte as int / 2, range.end_byte as int / 2).1,
        ),
    )
}

/// The texts of all instances of capture `id` in a match's captures, in
/// order.
pub open spec fn capture_texts(text: Seq<u16>, caps: Seq<QueryCaptureData>, id: u32) -> Seq<Seq<u8>>
    decreases caps.len(),
{
    if caps.len() == 0 {
        Seq::empty()
    } else {
        let prefix = capture_texts(text, caps.drop_last(), id);
        if caps.last().capture_index == id {
            prefix.push(span_text(text, caps.last().range))
        } else {
            prefix
        }
    }
}

/// Extract the recoded text of one clamped global span.
fn extract_span_text(text: &[u16], range: &TextRange) -> (r: Vec<u8>)
    ensures
        r@ == span_text(text@, *range),
{
    let len: usize = text.len();
    let sb = range.start_byte / 2;
    let eb = range.end_byte / 2;
    let s = if sb <= len {
        sb
    } else {
        len
    };
    let e = if eb <= len {
        eb
    } else {
        len
    };
    let e2 = if s <= e {
        e
    } else {
        s
    };
    recode_utf16(text, s, e2)
}

/// The texts of all instances of capture `id`, for predicate evaluation.
fn collect_capture_texts(text: &[u16], captures: &Vec<QueryCaptureData>, id: u32) -> (r: Vec<
    Vec<u8>,
>)
    ensures
        texts_view(r@) == capture_texts(text@, captures@, id),
{
    let n = captures.len();
    let mut out: Vec<Vec<u8>> = Vec::new();
    let mut i: usize = 0;
    while i < n
        invariant
            n == captures@.len(),
            i <= n,
            texts_view(out@) == capture_texts(text@, captures@.take(i as int), id),
        decreases n - i,
    {
        let ghost prefix = captures@.take(i as int);
        let cap = &captures[i];
        if cap.capture_index == id {
            let chunk = extract_span_text(text, &cap.range);
            out.push(chunk);
        }
        proof {
            assert(captures@.take(i + 1).drop_last() =~= prefix);
            assert(captures@.take(i + 1).last() == captures@[i as int]);
            assert(texts_view(out@) =~= capture_texts(text@, captures@.take(i + 1), id));
        }
        i = i + 1;
    }
    proof {
        assert(captures@.take(n as int) =~= captures@);
    }
    out
}

/// The parse of one predicate of the family; `row` is the pattern's source
/// row, used in errors.
pub open spec fn spec_parse_one(p: QueryPredicateDesc, row: usize) -> Result<
    ContainsPredicateV,
    PredicateError,
> {
    if !is_contains_operator(p.operator@) {
        Err(PredicateError { row, kind: PredicateErrorKind::InvalidOperator })
    } else if p.args@.len() != 2 {
        Err(
            PredicateError {
                row,
                kind: PredicateErrorKind::WrongArgumentCount { got: p.args@.len() as usize },
            },
        )
    } else if !(p.args@[0] is Capture) {
        Err(PredicateError { row, kind: PredicateErrorKind::FirstArgNotCapture })
    } else if !(p.args@[1] is Literal) {
        Err(PredicateError { row, kind: PredicateErrorKind::SecondArgNotLiteral })
    } else {
        Ok(
            ContainsPredicateV {
                capture_id: p.args@[0]->Capture_0,
                pattern: vstd::utf8::encode_utf8(p.args@[1]->Literal_0@),
                is_positive: operator_flags(p.operator@).0,
                match_all: operator_flags(p.operator@).1,
            },
        )
    }
}

/// Recognizes and parses the `contains?` family of predicates.
#[derive(Clone, Copy, Debug)]
pub struct ContainsPredicateParser;

impl ContainsPredicateParser {
    pub fn can_parse_predicate(&self, name: &str) -> (r: bool)
        ensures
            r == is_contains_operator(name@),
    {
        str_eq(name, "contains?") || str_eq(name, "not-contains?") || str_eq(
            name,
            "any-contains?",
        ) || str_eq(name, "any-not-contains?")
    }

    pub fn parse_predicate(&self, row: usize, predicate: &QueryPredicateDesc) -> (r: Result<
        ContainsPredicate,
        PredicateError,
    >)
        ensures
            match r {
                Ok(p) => spec_parse_one(*predicate, row) == Ok::<
                    ContainsPredicateV,
                    PredicateError,
                >(p@),
                Err(e) => spec_parse_one(*predicate, row) == Err::<
                    ContainsPredicateV,
                    PredicateError,
                >(e),
            },
    {
        let (is_positive, match_all) = if str_eq(predicate.operator.as_str(), "contains?") {
            (true, true)
        } else if str_eq(predicate.operator.as_str(), "not-contains?") {
            (false, true)
        } else if str_eq(predicate.operator.as_str(), "any-contains?") {
            (true, false)
        } else if str_eq(predicate.operator.as_str(), "any-not-contains?") {
            (false, false)
        } else {
            return Err(PredicateError { row, kind: PredicateErrorKind::InvalidOperator });
        };
        if predicate.args.len() != 2 {
            return Err(
                PredicateError {
                    row,
                    kind: PredicateErrorKind::WrongArgumentCount { got: predicate.args.len() },
                },
            );
        }
        let capture_id = match &predicate.args[0] {
            PredicateArgDesc::Capture(id) => *id,
            PredicateArgDesc::Literal(_) => {
                return Err(PredicateError { row, kind: PredicateErrorKind::FirstArgNotCapture });
            },
        };
        let pattern = match &predicate.args[1] {
            PredicateArgDesc::Capture(_) => {
                return Err(PredicateError { row, kind: PredicateErrorKind::SecondArgNotLiteral });
            },
            PredicateArgDesc::Literal(lit) => lit.as_str().as_bytes_vec(),
        };
        Ok(ContainsPredicate { capture_id, pattern, is_positive, match_all })
    }
}

/// Newlines in a byte sequence; rows are newline counts before a position.
pub open spec fn newline_count(s: Seq<u8>) -> nat
    decreases s.len(),
{
    if s.len() == 0 {
        0
    } else {
        newline_count(s.drop_last()) + if s.last() == 0x0a {
            1nat
        } else {
            0nat
        }
    }
}

/// The source row of byte offset `byte` in `src`.
pub open spec fn spec_row_for_byte(src: Seq<u8>, byte: usize) -> nat {
    if byte <= src.len() {
        newline_count(src.take(byte as int))
    } else {
        newline_count(src)
    }
}

proof fn lemma_newline_count_le(s: Seq<u8>)
    ensures
        newline_count(s) <= s.len(),
    decreases s.len(),
{
    if s.len() > 0 {
        lemma_newline_count_le(s.drop_last());
    }
}

/// Count the newlines before byte offset `byte` of the query source.
fn row_for_byte(src: &[u8], byte: usize) -> (r: usize)
    ensures
        r == spec_row_for_byte(src@, byte),
{
    let len: usize = src.len();
    let upto = if byte <= len {
        byte
    } else {
        len
    };
    let mut count: usize = 0;
    let mut i: usize = 0;
    while i < upto
        invariant
            upto <= src@.len(),
            i <= upto,
            count == newline_count(src@.take(i as int)),
            count <= i,
        decreases upto - i,
    {
        let ghost prefix = src@.take(i as int);
        if src[i] == 0x0a {
            count = count + 1;
        }
        proof {
            assert(src@.take(i + 1).drop_last() =~= prefix);
            assert(src@.take(i + 1).last() == src@[i as int]);
        }
        i = i + 1;
    }
    proof {
        if byte > src@.len() {
            assert(src@.take(src@.len() as int) =~= src@);
        }
    }
    count
}

/// The parse of all predicates of one pattern: predicates outside the
/// family are skipped; the first failing one aborts with its error.
pub open spec fn spec_parse_pattern_preds(preds: Seq<QueryPredicateDesc>, row: usize) -> Result<
    Seq<ContainsPredicateV>,
    PredicateError,
>
    decreases preds.len(),
{
    if preds.len() == 0 {
        Ok(Seq::empty())
    } else {
        match spec_parse_pattern_preds(preds.drop_last(), row) {
            Err(e) => Err(e),
            Ok(s) => {
                if !is_contains_operator(preds.last().operator@) {
                    Ok(s)
                } else {
                    match spec_parse_one(preds.last(), row) {
                        Err(e) => Err(e),
                        Ok(c) => Ok(s.push(c)),
                    }
                }
            },
        }
    }
}

/// The parse of a whole query's predicates, pattern by pattern.
pub open spec fn spec_parse_query_preds(
    preds: Seq<Vec<QueryPredicateDesc>>,
    starts: Seq<usize>,
    src: Seq<u8>,
) -> Result<Seq<Seq<ContainsPredicateV>>, PredicateError>
    recommends
        preds.len() == starts.len(),
    decreases preds.len(),
{
    if preds.len() == 0 {
        Ok(Seq::empty())
    } else {
        match spec_parse_query_preds(preds.drop_last(), starts.drop_last(), src) {
            Err(e) => Err(e),
            Ok(s) => {
                let row = spec_row_for_byte(src, starts.last()) as usize;
                match spec_parse_pattern_preds(preds.last()@, row) {
                    Err(e) => Err(e),
                    Ok(list) => Ok(s.push(list)),
                }
            },
        }
    }
}

/// The compiled predicates of a query, one list per pattern.
#[derive(Clone, Debug)]
pub struct AdditionalPredicates {
    predicates: Vec<Vec<ContainsPredicate>>,
}

pub open spec fn preds_view(s: Seq<ContainsPredicate>) -> Seq<ContainsPredicateV> {
    Seq::new(s.len(), |i: int| s[i]@)
}

impl View for AdditionalPredicates {
    type V = Seq<Seq<ContainsPredicateV>>;

    closed spec fn view(&self) -> Seq<Seq<ContainsPredicateV>> {
        Seq::new(self.predicates@.len(), |i: int| preds_view(self.predicates@[i]@))
    }
}

/// All predicates of the given pattern accept the match's captures.
pub open spec fn spec_satisfies_list(
    preds: Seq<ContainsPredicateV>,
    text: Seq<u16>,
    caps: Seq<QueryCaptureData>,
) -> bool {
    forall|i: int|
        0 <= i < preds.len() ==> spec_check_contains(
            capture_texts(text, caps, (#[trigger] preds[i]).capture_id),
            preds[i].pattern,
            preds[i].is_positive,
            preds[i].match_all,
        )
}

/// The decision of a whole compiled predicate set on one match: every
/// predicate of the match's pattern must accept; a pattern with no compiled
/// predicates accepts everything.
pub open spec fn spec_satisfies(
    ap: Seq<Seq<ContainsPredicateV>>,
    text: Seq<u16>,
    m: QueryMatchData,
) -> bool {
    if m.pattern_index < ap.len() {
        spec_satisfies_list(ap[m.pattern_index as int], text, m.captures@)
    } else {
        true
    }
}

impl AdditionalPredicates {
    /// A predicate set with no patterns, for queries without predicates.
    pub fn empty() -> (r: AdditionalPredicates)
        ensures
            r@ == Seq::<Seq<ContainsPredicateV>>::empty(),
    {
        let r = AdditionalPredicates { predicates: Vec::new() };
        proof {
            assert(r@ =~= Seq::<Seq<ContainsPredicateV>>::empty());
        }
        r
    }

    /// Parse the `contains?`-family predicates of every pattern of a query.
    /// Unknown operators are left for the base engine; the first malformed
    /// predicate of the family aborts with an error carrying its pattern's
    /// source row.
    pub fn parse(query: &QueryDesc, source: &str, parser: &ContainsPredicateParser) -> (r: Result<
        AdditionalPredicates,
        PredicateError,
    >)
        requires
            query.wf(),
        ensures
            match r {
                Ok(ap) => spec_parse_query_preds(
                    query.predicates@,
                    query.pattern_start_bytes@,
                    source.spec_bytes(),
                ) == Ok::<Seq<Seq<ContainsPredicateV>>, PredicateError>(ap@),
                Err(e) => spec_parse_query_preds(
                    query.predicates@,
                    query.pattern_start_bytes@,
                    source.spec_bytes(),
                ) == Err::<Seq<Seq<ContainsPredicateV>>, PredicateError>(e),
            },
    {
        let src_bytes: &[u8] = source.as_bytes();
        let n = query.pattern_count();
        let mut out: Vec<Vec<ContainsPredicate>> = Vec::new();
        let mut pi: usize = 0;
        proof {
            assert(query.predicates@.take(0) =~= Seq::<Vec<QueryPredicateDesc>>::empty());
            assert(query.pattern_start_bytes@.take(0) =~= Seq::<usize>::empty());
            assert(Seq::new(0nat, |i: int| preds_view(out@[i]@)) =~= Seq::<
                Seq<ContainsPredicateV>,
            >::empty());
        }
        while pi < n
            invariant
                query.wf(),
                n == query.pattern_start_bytes@.len(),
                src_bytes@ == source.spec_bytes(),
                pi <= n,
                out@.len() == pi,
                spec_parse_query_preds(
                    query.predicates@.take(pi as int),
                    query.pattern_start_bytes@.take(pi as int),
                    src_bytes@,
                ) == Ok::<Seq<Seq<ContainsPredicateV>>, PredicateError>(
                    Seq::new(pi as nat, |i: int| preds_view(out@[i]@)),
                ),
            decreases n - pi,
        {
            let row = row_for_byte(src_bytes, query.pattern_start_bytes[pi]);
            proof {
                lemma_newline_count_le(src_bytes@.take(
                    if query.pattern_start_bytes@[pi as int] <= src_bytes@.len() {
                        query.pattern_start_bytes@[pi as int] as int
                    } else {
                        src_bytes@.len() as int
                    },
                ));
                if query.pattern_start_bytes@[pi as int] > src_bytes@.len() {
                    assert(src_bytes@.take(src_bytes@.len() as int) =~= src_bytes@);
                }
                assert(spec_row_for_byte(src_bytes@, query.pattern_start_bytes@[pi as int])
                    <= src_bytes@.len());
            }
            let pattern_preds = &query.predicates[pi];
            let m = pattern_preds.len();
            let mut list: Vec<ContainsPredicate> = Vec::new();
            let mut j: usize = 0;
            proof {
                assert(pattern_preds@.take(0) =~= Seq::<QueryPredicateDesc>::empty());
                assert(preds_view(list@) =~= Seq::<ContainsPredicateV>::empty());
            }
            while j < m
                invariant
                    query.wf(),
                    n == query.pattern_start_bytes@.len(),
                    src_bytes@ == source.spec_bytes(),
                    pi < n,
                    out@.len() == pi,
                    spec_parse_query_preds(
                        query.predicates@.take(pi as int),
                        query.pattern_start_bytes@.take(pi as int),
                        src_bytes@,
                    ) == Ok::<Seq<Seq<ContainsPredicateV>>, PredicateError>(
                        Seq::new(pi as nat, |i: int| preds_view(out@[i]@)),
                    ),
                    spec_row_for_byte(src_bytes@, query.pattern_start_bytes@[pi as int])
                        <= src_bytes@.len(),
                    m == pattern_preds@.len(),
                    j <= m,
                    row == spec_row_for_byte(src_bytes@, query.pattern_start_bytes@[pi as int]),
                    pi < query.predicates@.len(),
                    pattern_preds@ == query.predicates@[pi as int]@,
                    spec_parse_pattern_preds(pattern_preds@.take(j as int), row) == Ok::<
                        Seq<ContainsPredicateV>,
                        PredicateError,
                    >(preds_view(list@)),
                decreases m - j,
            {
                let ghost prefix = pattern_preds@.take(j as int);
                let pred = &pattern_preds[j];
                if parser.can_parse_predicate(pred.operator.as_str()) {
                    match parser.parse_predicate(row, pred) {
                        Ok(c) => {
                            list.push(c);
                        },
                        Err(e) => {
                            proof {
                                assert(pattern_preds@.take(j + 1).drop_last() =~= prefix);
                                assert(pattern_preds@.take(j + 1).last() == pattern_preds@[
                                    j as int
                                ]);
                                assert(is_contains_operator(
                                    pattern_preds@.take(j + 1).last().operator@,
                                ));
                                assert(spec_parse_pattern_preds(pattern_preds@.take(j + 1), row)
                                    == Err::<Seq<ContainsPredicateV>, PredicateError>(e));
                                lemma_parse_pattern_preds_err(
                                    pattern_preds@,
                                    j as int + 1,
                                    row,
                                    e,
                                );
                                lemma_parse_query_preds_err(
                                    query.predicates@,
                                    query.pattern_start_bytes@,
                                    src_bytes@,
                                    pi as int,
                                    e,
                                );
                            }
                            return Err(e);
                        },
                    }
                }
                proof {
                    assert(pattern_preds@.take(j + 1).drop_last() =~= prefix);
                    assert(pattern_preds@.take(j + 1).last() == pattern_preds@[j as int]);
                    assert(preds_view(list@) =~= spec_parse_pattern_preds(
                        pattern_preds@.take(j + 1),
                        row,
                    )->Ok_0);
                }
                j = j + 1;
            }
            proof {
                assert(pattern_preds@.take(m as int) =~= pattern_preds@);
            }
            out.push(list);
            proof {
                assert(query.predicates@.take(pi + 1).drop_last() =~= query.predicates@.take(
                    pi as int,
                ));
                assert(query.pattern_start_bytes@.take(pi + 1).drop_last()
                    =~= query.pattern_start_bytes@.take(pi as int));
                assert(query.predicates@.take(pi + 1).last() == query.predicates@[pi as int]);
                assert(query.pattern_start_bytes@.take(pi + 1).last()
                    == query.pattern_start_bytes@[pi as int]);
                assert(Seq::new((pi + 1) as nat, |i: int| preds_view(out@[i]@))
                    =~= spec_parse_query_preds(
                    query.predicates@.take(pi + 1),
                    query.pattern_start_bytes@.take(pi + 1),
                    src_bytes@,
                )->Ok_0);
            }
            pi = pi + 1;
        }
        proof {
            assert(query.predicates@.take(n as int) =~= query.predicates@);
            assert(query.pattern_start_bytes@.take(n as int) =~= query.pattern_start_bytes@);
        }
        let ap = AdditionalPredicates { predicates: out };
        proof {
            assert(ap@ =~= Seq::new(n as nat, |i: int| preds_view(ap.predicates@[i]@)));
        }
        Ok(ap)
    }

    /// Decide whether a match passes every compiled predicate of its
    /// pattern, reading capture texts from the document.
    pub fn satisfies_predicates(&self, text: &[u16], query_match: &QueryMatchData) -> (r: bool)
        ensures
            r == spec_satisfies(self@, text@, *query_match),
    {
        if query_match.pattern_index >= self.predicates.len() {
            return true;
        }
        let preds = &self.predicates[query_match.pattern_index];
        let n = preds.len();
        let mut i: usize = 0;
        while i < n
            invariant
                query_match.pattern_index < self.predicates@.len(),
                preds@ == self.predicates@[query_match.pattern_index as int]@,
                n == preds@.len(),
                i <= n,
                self@[query_match.pattern_index as int] == preds_view(preds@),
                forall|k: int|
                    0 <= k < i ==> spec_check_contains(
                        capture_texts(
                            text@,
                            query_match.captures@,
                            (#[trigger] preds_view(preds@)[k]).capture_id,
                        ),
                        preds_view(preds@)[k].pattern,
                        preds_view(preds@)[k].is_positive,
                        preds_view(preds@)[k].match_all,
                    ),
            decreases n - i,
        {
            let pred = &preds[i];
            let texts = collect_capture_texts(text, &query_match.captures, pred.capture_id);
            let ok = pred.check_predicate(&texts);
            proof {
                assert(preds_view(preds@)[i as int] == preds@[i as int]@);
            }
            if !ok {
                return false;
            }
            i = i + 1;
        }
        true
    }
}

/// A failing predicate at position `j - 1` of a pattern makes the whole
/// pattern's parse fail with that error, whatever follows.
proof fn lemma_parse_pattern_preds_err(
    preds: Seq<QueryPredicateDesc>,
    j: int,
    row: usize,
    e: PredicateError,
)
    requires
        0 < j <= preds.len(),
        spec_parse_pattern_preds(preds.take(j), row) == Err::<Seq<ContainsPredicateV>, PredicateError>(e),
    ensures
        spec_parse_pattern_preds(preds, row) == Err::<Seq<ContainsPredicateV>, PredicateError>(e),
    decreases preds.len() - j,
{
    if j == preds.len() {
        assert(preds.take(j) =~= preds);
    } else {
        assert(preds.take(j + 1).drop_last() =~= preds.take(j));
        assert(preds.take(j + 1).last() == preds[j]);
        lemma_parse_pattern_preds_err(preds, j + 1, row, e);
    }
}

/// A failing pattern at position `pi` makes the whole query's parse fail
/// with that error, whatever follows.
proof fn lemma_parse_query_preds_err(
    preds: Seq<Vec<QueryPredicateDesc>>,
    starts: Seq<usize>,
    src: Seq<u8>,
    pi: int,
    e: PredicateError,
)
    requires
        preds.len() == starts.len(),
        0 <= pi < preds.len(),
        spec_parse_query_preds(preds.take(pi), starts.take(pi), src) is Ok,
        spec_parse_pattern_preds(preds[pi]@, spec_row_for_byte(src, starts[pi]) as usize) == Err::<
            Seq<ContainsPredicateV>,
            PredicateError,
        >(e),
    ensures
        spec_parse_query_preds(preds, starts, src) == Err::<
            Seq<Seq<ContainsPredicateV>>,
            PredicateError,
        >(e),
    decreases preds.len() - pi,
{
    assert(preds.take(pi + 1).drop_last() =~= preds.take(pi));
    assert(starts.take(pi + 1).drop_last() =~= starts.take(pi));
    assert(preds.take(pi + 1).last() == preds[pi]);
    assert(starts.take(pi + 1).last() == starts[pi]);
    if pi + 1 == preds.len() {
        assert(preds.take(pi + 1) =~= preds);
        assert(starts.take(pi + 1) =~= starts);
    } else {
        lemma_parse_query_preds_err_propagate(preds, starts, src, pi + 1, e);
    }
}

/// An error established on a prefix of the patterns propagates to the whole
/// query.
proof fn lemma_parse_query_preds_err_propagate(
    preds: Seq<Vec<QueryPredicateDesc>>,
    starts: Seq<usize>,
    src: Seq<u8>,
    j: int,
    e: PredicateError,
)
    requires
        preds.len() == starts.len(),
        0 < j <= preds.len(),
        spec_parse_query_preds(preds.take(j), starts.take(j), src) == Err::<
            Seq<Seq<ContainsPredicateV>>,
            PredicateError,
        >(e),
    ensures
        spec_parse_query_preds(preds, starts, src) == Err::<
            Seq<Seq<ContainsPredicateV>>,
            PredicateError,
        >(e),
    decreases preds.len() - j,
{
    if j == preds.len() {
        assert(preds.take(j) =~= preds);
        assert(starts.take(j) =~= starts);
    } else {
        assert(preds.take(j + 1).drop_last() =~= preds.take(j));
        assert(starts.take(j + 1).drop_last() =~= starts.take(j));
        lemma_parse_query_preds_err_propagate(preds, starts, src, j + 1, e);
    }
}

} // verus!
