//! The predicate engine on concrete values: the `contains?` family, its
//! parse errors, and the negation relationships between paired operators.

use syntax_forest::AdditionalPredicates;
use syntax_forest::ContainsPredicate;
use syntax_forest::ContainsPredicateParser;
use syntax_forest::PredicateArgDesc;
use syntax_forest::PredicateErrorKind;
use syntax_forest::QueryCaptureData;
use syntax_forest::QueryDesc;
use syntax_forest::QueryMatchData;
use syntax_forest::QueryPredicateDesc;
use syntax_forest::Point;
use syntax_forest::TextRange;

fn pred(op: &str, args: Vec<PredicateArgDesc>) -> QueryPredicateDesc {
    QueryPredicateDesc { operator: op.to_string(), args }
}

fn contains_pred(op: &str) -> ContainsPredicate {
    let parser = ContainsPredicateParser;
    parser
        .parse_predicate(
            0,
            &pred(
                op,
                vec![
                    PredicateArgDesc::Capture(1),
                    PredicateArgDesc::Literal("abc".to_string()),
                ],
            ),
        )
        .unwrap()
}

#[test]
fn contains_matches_substring() {
    let p = contains_pred("contains?");
    // "xxabcz" as UTF-8 bytes of the captured text.
    let texts = vec![b"xxabcz".to_vec()];
    assert!(p.check_predicate(&texts));
    let texts2 = vec![b"xxabz".to_vec()];
    assert!(!p.check_predicate(&texts2));
}

#[test]
fn contains_and_not_contains_negate_on_single_instance() {
    let pos = contains_pred("contains?");
    let neg = contains_pred("not-contains?");
    for text in [b"zzabczz".to_vec(), b"zzz".to_vec()] {
        let texts = vec![text];
        assert_eq!(pos.check_predicate(&texts), !neg.check_predicate(&texts));
    }
}

#[test]
fn any_variants_negate_on_single_instance() {
    let pos = contains_pred("any-contains?");
    let neg = contains_pred("any-not-contains?");
    for text in [b"abc".to_vec(), b"xyz".to_vec()] {
        let texts = vec![text];
        assert_eq!(pos.check_predicate(&texts), !neg.check_predicate(&texts));
    }
}

#[test]
fn zero_instances_return_match_all() {
    let texts: Vec<Vec<u8>> = Vec::new();
    assert!(contains_pred("contains?").check_predicate(&texts));
    assert!(contains_pred("not-contains?").check_predicate(&texts));
    assert!(!contains_pred("any-contains?").check_predicate(&texts));
    assert!(!contains_pred("any-not-contains?").check_predicate(&texts));
}

#[test]
fn mixed_instances_refute_both_all_variants() {
    // One instance containing the literal and one not: both `contains?` and
    // `not-contains?` reject, so they are not negations there.
    let texts = vec![b"abc".to_vec(), b"xyz".to_vec()];
    assert!(!contains_pred("contains?").check_predicate(&texts));
    assert!(!contains_pred("not-contains?").check_predicate(&texts));
}

#[test]
fn parse_errors_report_shape() {
    let parser = ContainsPredicateParser;
    let e = parser
        .parse_predicate(7, &pred("contains?", vec![PredicateArgDesc::Capture(1)]))
        .unwrap_err();
    assert_eq!(e.row, 7);
    assert_eq!(e.kind, PredicateErrorKind::WrongArgumentCount { got: 1 });

    let e2 = parser
        .parse_predicate(
            3,
            &pred(
                "contains?",
                vec![
                    PredicateArgDesc::Literal("x".to_string()),
                    PredicateArgDesc::Literal("y".to_string()),
                ],
            ),
        )
        .unwrap_err();
    assert_eq!(e2.kind, PredicateErrorKind::FirstArgNotCapture);

    let e3 = parser
        .parse_predicate(
            3,
            &pred(
                "contains?",
                vec![PredicateArgDesc::Capture(0), PredicateArgDesc::Capture(1)],
            ),
        )
        .unwrap_err();
    assert_eq!(e3.kind, PredicateErrorKind::SecondArgNotLiteral);
}

#[test]
fn unknown_operators_are_skipped_and_rows_counted() {
    // Two patterns: the first starts on row 0, the second after two
    // newlines. The second pattern's predicate is malformed, so the parse
    // fails with its row.
    let query = QueryDesc {
        capture_names: vec!["a".to_string()],
        properties: vec![Vec::new(), Vec::new()],
        predicates: vec![
            vec![pred("set!", vec![])],
            vec![pred("contains?", vec![PredicateArgDesc::Capture(0)])],
        ],
        pattern_captures: vec![vec![0], vec![0]],
        pattern_start_bytes: vec![0, 10],
    };
    let source = "line one\n\npattern two";
    let parser = ContainsPredicateParser;
    let e = AdditionalPredicates::parse(&query, source, &parser).unwrap_err();
    assert_eq!(e.row, 2);
    assert_eq!(e.kind, PredicateErrorKind::WrongArgumentCount { got: 1 });
}

#[test]
fn satisfies_reads_capture_text_from_document() {
    let query = QueryDesc {
        capture_names: vec!["name".to_string()],
        properties: vec![Vec::new()],
        predicates: vec![vec![pred(
            "contains?",
            vec![
                PredicateArgDesc::Capture(0),
                PredicateArgDesc::Literal("ell".to_string()),
            ],
        )]],
        pattern_captures: vec![vec![0]],
        pattern_start_bytes: vec![0],
    };
    let parser = ContainsPredicateParser;
    let preds = AdditionalPredicates::parse(&query, "", &parser).unwrap();
    let text: Vec<u16> = "hello world".encode_utf16().collect();
    let m = QueryMatchData {
        pattern_index: 0,
        captures: vec![QueryCaptureData {
            capture_index: 0,
            node: 0,
            // "hello": native units 0..5, doubled 0..10.
            range: TextRange {
                start_byte: 0,
                end_byte: 10,
                start_point: Point { row: 0, column: 0 },
                end_point: Point { row: 0, column: 10 },
            },
        }],
    };
    assert!(preds.satisfies_predicates(&text, &m));
    let m2 = QueryMatchData {
        pattern_index: 0,
        captures: vec![QueryCaptureData {
            capture_index: 0,
            node: 0,
            // "world": native units 6..11, doubled 12..22.
            range: TextRange {
                start_byte: 12,
                end_byte: 22,
                start_point: Point { row: 0, column: 12 },
                end_point: Point { row: 0, column: 22 },
            },
        }],
    };
    assert!(!preds.satisfies_predicates(&text, &m2));
}
