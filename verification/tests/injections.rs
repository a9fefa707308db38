//! The injection query on concrete values: compile errors, offset
//! adjustments, language resolution and merge-by-range.

use syntax_forest::AdditionalPredicates;
use syntax_forest::InjectionQuery;
use syntax_forest::InjectionQueryError;
use syntax_forest::Point;
use syntax_forest::PredicateArgDesc;
use syntax_forest::QueryCaptureData;
use syntax_forest::QueryDesc;
use syntax_forest::QueryMatchData;
use syntax_forest::QueryPredicateDesc;
use syntax_forest::QueryPropertyDesc;
use syntax_forest::TextRange;
use syntax_forest::UnknownLanguage;
use syntax_forest::injection_query_window;

fn base_query(names: Vec<&str>, pattern_count: usize) -> QueryDesc {
    QueryDesc {
        capture_names: names.into_iter().map(|s| s.to_string()).collect(),
        properties: vec![Vec::new(); pattern_count],
        predicates: vec![Vec::new(); pattern_count],
        pattern_captures: vec![Vec::new(); pattern_count],
        pattern_start_bytes: vec![0; pattern_count],
    }
}

fn range(sb: usize, eb: usize) -> TextRange {
    TextRange {
        start_byte: sb,
        end_byte: eb,
        start_point: Point { row: 0, column: sb },
        end_point: Point { row: 0, column: eb },
    }
}

#[test]
fn compile_requires_content_capture() {
    let q = base_query(vec!["injection.language"], 1);
    let e = InjectionQuery::new(q, AdditionalPredicates::empty()).unwrap_err();
    assert_eq!(e, InjectionQueryError::NoRequiredCaptures);
}

#[test]
fn compile_rejects_duplicate_captures() {
    let q = base_query(vec!["injection.content", "injection.content"], 1);
    let e = InjectionQuery::new(q, AdditionalPredicates::empty()).unwrap_err();
    assert_eq!(e, InjectionQueryError::DuplicateCapture);
}

#[test]
fn compile_rejects_malformed_property() {
    let mut q = base_query(vec!["injection.content"], 1);
    q.properties[0].push(QueryPropertyDesc {
        key: "injection.combined".to_string(),
        capture_id: None,
        value: Some("oops".to_string()),
    });
    let e = InjectionQuery::new(q, AdditionalPredicates::empty()).unwrap_err();
    assert!(matches!(e, InjectionQueryError::InvalidPatternProperty(0, _)));
}

#[test]
fn compile_rejects_conflicting_languages() {
    let mut q = base_query(vec!["injection.content"], 1);
    for name in ["first", "second"] {
        q.properties[0].push(QueryPropertyDesc {
            key: "injection.language".to_string(),
            capture_id: None,
            value: Some(name.to_string()),
        });
    }
    let e = InjectionQuery::new(q, AdditionalPredicates::empty()).unwrap_err();
    assert!(matches!(e, InjectionQueryError::LanguageConflict(0, _, _)));
}

#[test]
fn compile_rejects_malformed_offset_predicate() {
    let mut q = base_query(vec!["injection.content"], 1);
    q.predicates[0].push(QueryPredicateDesc {
        operator: "offset!".to_string(),
        args: vec![
            PredicateArgDesc::Capture(0),
            PredicateArgDesc::Literal("nonsense".to_string()),
            PredicateArgDesc::Literal("-2".to_string()),
        ],
    });
    let e = InjectionQuery::new(q, AdditionalPredicates::empty()).unwrap_err();
    assert!(matches!(e, InjectionQueryError::InvalidPredicate(0, _)));
}

/// A query for `{{ expr }}` blocks: the content capture's span is shifted
/// by offset!(@content, 2, -2) to exclude the delimiters, and the pattern
/// statically names its language.
fn expression_query() -> InjectionQuery {
    let mut q = base_query(vec!["injection.content"], 1);
    q.properties[0].push(QueryPropertyDesc {
        key: "injection.language".to_string(),
        capture_id: None,
        value: Some("expr".to_string()),
    });
    q.predicates[0].push(QueryPredicateDesc {
        operator: "offset!".to_string(),
        args: vec![
            PredicateArgDesc::Capture(0),
            PredicateArgDesc::Literal("2".to_string()),
            PredicateArgDesc::Literal("-2".to_string()),
        ],
    });
    InjectionQuery::new(q, AdditionalPredicates::empty()).unwrap()
}

#[test]
fn offsets_exclude_delimiters_and_language_resolves_statically() {
    let iq = expression_query();
    // A block spanning doubled units [10, 30): the offsets are doubled too,
    // so the included span becomes [14, 26).
    let text: Vec<u16> = vec![0x61; 20];
    let matches = vec![QueryMatchData {
        pattern_index: 0,
        captures: vec![QueryCaptureData { capture_index: 0, node: 1, range: range(10, 30) }],
    }];
    let out = iq.collect_injections(&text, &matches);
    assert_eq!(out.len(), 1);
    assert_eq!(out[0].included_ranges.len(), 1);
    assert_eq!(out[0].included_ranges[0].start_byte, 14);
    assert_eq!(out[0].included_ranges[0].end_byte, 26);
    assert_eq!(out[0].enclosing_start_byte, 14);
    assert_eq!(out[0].enclosing_end_byte, 26);
    assert_eq!(
        out[0].language,
        UnknownLanguage::LanguageName("expr".to_string())
    );
    assert!(!out[0].combined);
}

#[test]
fn inline_language_capture_reads_document_text() {
    let mut q = base_query(vec!["injection.content", "injection.language"], 1);
    q.properties[0].push(QueryPropertyDesc {
        key: "injection.include-children".to_string(),
        capture_id: None,
        value: None,
    });
    let iq = InjectionQuery::new(q, AdditionalPredicates::empty()).unwrap();
    // The document "exprBODY": the language capture covers "expr" (doubled
    // [0, 8)), the content capture the rest.
    let text: Vec<u16> = "exprBODY".encode_utf16().collect();
    let matches = vec![QueryMatchData {
        pattern_index: 0,
        captures: vec![
            QueryCaptureData { capture_index: 1, node: 1, range: range(0, 8) },
            QueryCaptureData { capture_index: 0, node: 2, range: range(8, 16) },
        ],
    }];
    let out = iq.collect_injections(&text, &matches);
    assert_eq!(out.len(), 1);
    assert_eq!(
        out[0].language,
        UnknownLanguage::LanguageName("expr".to_string())
    );
    assert!(out[0].include_children);
}

#[test]
fn matches_sharing_enclosing_range_merge_last_wins() {
    let iq = expression_query();
    let text: Vec<u16> = vec![0x61; 40];
    // Two matches whose adjusted enclosing ranges coincide: the later one
    // overwrites the earlier one in place; a third with another range is
    // appended.
    let m = |sb: usize, eb: usize| QueryMatchData {
        pattern_index: 0,
        captures: vec![QueryCaptureData { capture_index: 0, node: 1, range: range(sb, eb) }],
    };
    let out = iq.collect_injections(&text, &vec![m(10, 30), m(10, 30), m(40, 60)]);
    assert_eq!(out.len(), 2);
    assert_eq!(out[0].enclosing_start_byte, 14);
    assert_eq!(out[1].enclosing_start_byte, 44);
}

#[test]
fn match_without_content_or_language_is_discarded() {
    // No content range at all: nothing comes out.
    let iq = expression_query();
    let text: Vec<u16> = vec![0x61; 10];
    let matches = vec![QueryMatchData { pattern_index: 0, captures: Vec::new() }];
    assert_eq!(iq.collect_injections(&text, &matches).len(), 0);
    // Content present but no resolvable language: discarded too.
    let q2 = base_query(vec!["injection.content"], 1);
    let iq2 = InjectionQuery::new(q2, AdditionalPredicates::empty()).unwrap();
    let matches2 = vec![QueryMatchData {
        pattern_index: 0,
        captures: vec![QueryCaptureData { capture_index: 0, node: 1, range: range(0, 10) }],
    }];
    assert_eq!(iq2.collect_injections(&text, &matches2).len(), 0);
}

#[test]
fn query_window_expands_changed_range_by_one_unit() {
    assert_eq!(injection_query_window(10, 20), (8, 22));
    assert_eq!(injection_query_window(1, 4), (0, 6));
}

#[test]
fn static_language_conflicts_with_inline_captures() {
    // The pattern both sets `injection.language` statically and captures an
    // inline `injection.language`: a compile error.
    let mut q = base_query(vec!["injection.content", "injection.language"], 1);
    q.pattern_captures[0] = vec![0, 1];
    q.properties[0].push(QueryPropertyDesc {
        key: "injection.language".to_string(),
        capture_id: None,
        value: Some("expr".to_string()),
    });
    let e = InjectionQuery::new(q, AdditionalPredicates::empty()).unwrap_err();
    assert!(matches!(e, InjectionQueryError::LanguageConflict(0, _, _)));
    // Without the inline capture in the pattern, the static setting passes.
    let mut q2 = base_query(vec!["injection.content", "injection.language"], 1);
    q2.pattern_captures[0] = vec![0];
    q2.properties[0].push(QueryPropertyDesc {
        key: "injection.language".to_string(),
        capture_id: None,
        value: Some("expr".to_string()),
    });
    assert!(InjectionQuery::new(q2, AdditionalPredicates::empty()).is_ok());
}
