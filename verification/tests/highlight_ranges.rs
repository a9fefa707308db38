//! The highlight and range/fold engines on concrete values: token tiling,
//! the keyword scenario, fold combination and trimming.

use syntax_forest::AdditionalPredicates;
use syntax_forest::FoldSettings;
use syntax_forest::HighlightQuery;
use syntax_forest::LanguageId;
use syntax_forest::LanguageParserInfo;
use syntax_forest::LanguageRegistry;
use syntax_forest::Point;
use syntax_forest::QueryCaptureData;
use syntax_forest::QueryDesc;
use syntax_forest::QueryMatchData;
use syntax_forest::RangeResult;
use syntax_forest::RangesQuery;
use syntax_forest::SyntaxSnapshot;
use syntax_forest::SyntaxSnapshotEntry;
use syntax_forest::SyntaxSnapshotEntryContent;
use syntax_forest::SyntaxTree;
use syntax_forest::TextRange;
use syntax_forest::TreeNode;
use syntax_forest::combine_fold_ranges;
use syntax_forest::fold_settings;
use syntax_forest::highlight_tokens_cover;
use syntax_forest::merge_fold;
use syntax_forest::trim_trailing_newline;
use syntax_forest::QueryPropertyDesc;

fn node(
    kind: u16,
    sb: usize,
    eb: usize,
    parent: usize,
    rank: usize,
    children: Vec<usize>,
) -> TreeNode {
    TreeNode {
        kind_id: kind,
        start_byte: sb,
        end_byte: eb,
        start_point: Point { row: 0, column: sb },
        end_point: Point { row: 0, column: eb },
        parent,
        child_rank: rank,
        children,
    }
}

fn empty_query(capture_names: Vec<String>, pattern_count: usize) -> QueryDesc {
    QueryDesc {
        capture_names,
        properties: vec![Vec::new(); pattern_count],
        predicates: vec![Vec::new(); pattern_count],
        pattern_captures: vec![Vec::new(); pattern_count],
        pattern_start_bytes: vec![0; pattern_count],
    }
}

fn range(sb: usize, eb: usize) -> TextRange {
    TextRange {
        start_byte: sb,
        end_byte: eb,
        start_point: Point { row: 0, column: sb },
        end_point: Point { row: 0, column: eb },
    }
}

/// A 100-native-unit document with a 4-unit keyword node at offset 10
/// (doubled: [20, 28) inside [0, 200)).
fn keyword_snapshot(language: LanguageId) -> SyntaxSnapshot {
    let tree = SyntaxTree::from_nodes(vec![
        node(1, 0, 200, 0, 0, vec![1]),
        node(2, 20, 28, 0, 0, Vec::new()),
    ])
    .unwrap();
    SyntaxSnapshot {
        entries: vec![SyntaxSnapshotEntry {
            depth: 0,
            content: SyntaxSnapshotEntryContent::Parsed { language, tree },
            start_byte: 0,
            end_byte: 200,
            byte_offset: 0,
            point_offset: Point { row: 0, column: 0 },
        }],
    }
}

#[test]
fn keyword_highlight_tokens_tile_the_document() {
    let mut registry = LanguageRegistry::new();
    let hq = HighlightQuery::new(
        empty_query(vec!["keyword".to_string()], 1),
        AdditionalPredicates::empty(),
    );
    let base = registry.register(
        "lang".to_string(),
        LanguageParserInfo {
            highlights_query: Some(hq),
            folds_query: None,
            indents_query: None,
            injections_query: None,
        },
    );
    let snapshot = keyword_snapshot(base);
    let text: Vec<u16> = vec![0x61; 100];
    let matches = vec![(
        0usize,
        vec![QueryMatchData {
            pattern_index: 0,
            captures: vec![QueryCaptureData { capture_index: 0, node: 1, range: range(20, 28) }],
        }],
    )];
    let (cover, tokens) = highlight_tokens_cover(&snapshot, &registry, &text, 0, 100, &matches);
    assert_eq!(cover, 0);
    let total: u64 = tokens.iter().map(|t| t.length as u64).sum();
    assert_eq!(total, 100);
    // Exactly one token of length 4 carrying the keyword capture; the rest
    // carry the none sentinel.
    let captured: Vec<_> = tokens.iter().filter(|t| t.capture_id != 0xffff).collect();
    assert_eq!(captured.len(), 1);
    assert_eq!(captured[0].length, 4);
    assert_eq!(captured[0].capture_id, 0);
    // The captured token starts at native offset 10.
    let mut pos: u64 = 0;
    for t in &tokens {
        if t.capture_id != 0xffff {
            assert_eq!(pos, 10);
        }
        pos += t.length as u64;
    }
}

#[test]
fn hidden_captures_do_not_highlight() {
    // A capture whose name starts with the exclusion marker is invisible:
    // the visibility mask must filter it even though a match names it.
    let hq = HighlightQuery::new(
        empty_query(vec!["_hidden".to_string(), "shown".to_string()], 1),
        AdditionalPredicates::empty(),
    );
    assert!(!hq.capture_visible(0));
    assert!(hq.capture_visible(1));
}

#[test]
fn unparsed_region_yields_none_tokens() {
    // The injected region is unparsed: highlighting still tiles the whole
    // document with none-capture tokens and reports no error.
    let mut registry = LanguageRegistry::new();
    let base = registry.register("lang".to_string(), LanguageParserInfo::empty());
    let tree = SyntaxTree::from_nodes(vec![
        node(1, 0, 40, 0, 0, vec![1]),
        node(2, 8, 20, 0, 0, Vec::new()),
    ])
    .unwrap();
    let snapshot = SyntaxSnapshot {
        entries: vec![
            SyntaxSnapshotEntry {
                depth: 0,
                content: SyntaxSnapshotEntryContent::Parsed { language: base, tree },
                start_byte: 0,
                end_byte: 40,
                byte_offset: 0,
                point_offset: Point { row: 0, column: 0 },
            },
            SyntaxSnapshotEntry {
                depth: 1,
                content: SyntaxSnapshotEntryContent::Unparsed(
                    syntax_forest::UnknownLanguage::LanguageName("missing".to_string()),
                ),
                start_byte: 8,
                end_byte: 20,
                byte_offset: 8,
                point_offset: Point { row: 0, column: 8 },
            },
        ],
    };
    let text: Vec<u16> = vec![0x62; 20];
    let (cover, tokens) = highlight_tokens_cover(&snapshot, &registry, &text, 0, 20, &Vec::new());
    assert_eq!(cover, 0);
    let total: u64 = tokens.iter().map(|t| t.length as u64).sum();
    assert_eq!(total, 20);
    assert!(tokens.iter().all(|t| t.capture_id == 0xffff));
}

fn fold_result(pattern: usize, row_start: usize, row_end: usize, sb: usize, eb: usize, next: usize) -> RangeResult {
    RangeResult {
        language: LanguageId(1),
        pattern_id: pattern,
        range: TextRange {
            start_byte: sb,
            end_byte: eb,
            start_point: Point { row: row_start, column: 0 },
            end_point: Point { row: row_end, column: eb },
        },
        next_byte: next,
    }
}

#[test]
fn adjacent_single_line_folds_combine() {
    // Two adjacent single-line comment matches on rows 3 and 4 with the
    // combining property, identical start columns, contiguous anchor: one
    // combined range spanning rows 3 and 4 comes out.
    let a = fold_result(0, 3, 3, 10, 20, 22);
    let b = fold_result(0, 4, 4, 22, 30, 32);
    let settings = FoldSettings {
        collapsed_text: None,
        collapsed_by_default: false,
        combined_lines: true,
    };
    let combined = combine_fold_ranges(
        &vec![a, b],
        &vec![settings.clone(), settings],
    );
    assert_eq!(combined.len(), 1);
    assert_eq!(combined[0].range.start_point.row, 3);
    assert_eq!(combined[0].range.end_point.row, 4);
    assert_eq!(combined[0].range.start_byte, 10);
    assert_eq!(combined[0].range.end_byte, 30);
    assert_eq!(combined[0].next_byte, 32);
}

#[test]
fn fold_combination_is_associative_on_a_run_of_three() {
    let a = fold_result(0, 3, 3, 10, 20, 22);
    let b = fold_result(0, 4, 4, 22, 30, 32);
    let c = fold_result(0, 5, 5, 32, 40, 42);
    let left = merge_fold(&merge_fold(&a, &b), &c);
    let right = merge_fold(&a, &merge_fold(&b, &c));
    assert_eq!(left, right);
}

#[test]
fn different_patterns_do_not_combine() {
    let a = fold_result(0, 3, 3, 10, 20, 22);
    let b = fold_result(1, 4, 4, 22, 30, 32);
    let settings = FoldSettings {
        collapsed_text: None,
        collapsed_by_default: false,
        combined_lines: true,
    };
    let combined = combine_fold_ranges(&vec![a, b], &vec![settings.clone(), settings]);
    assert_eq!(combined.len(), 2);
}

#[test]
fn trailing_newline_is_trimmed() {
    // Native text "ab\ncd\n": a fold ending just after the second newline
    // shrinks by one native unit; its end point moves to the end of "cd".
    let text: Vec<u16> = "ab\ncd\n".encode_utf16().collect();
    let r = TextRange {
        start_byte: 0,
        end_byte: 12,
        start_point: Point { row: 0, column: 0 },
        end_point: Point { row: 2, column: 0 },
    };
    let trimmed = trim_trailing_newline(&text, &r);
    assert_eq!(trimmed.end_byte, 10);
    assert_eq!(trimmed.end_point.row, 1);
    // "cd" is two native units: the column is 4 in doubled units.
    assert_eq!(trimmed.end_point.column, 4);
    // A range not ending in a newline passes through unchanged.
    let r2 = TextRange { end_byte: 10, ..r };
    assert_eq!(trim_trailing_newline(&text, &r2), r2);
}

#[test]
fn fold_settings_read_pattern_properties() {
    let query = QueryDesc {
        capture_names: vec!["fold".to_string()],
        properties: vec![vec![
            QueryPropertyDesc {
                key: "fold.text".to_string(),
                capture_id: None,
                value: Some("...".to_string()),
            },
            QueryPropertyDesc { key: "fold.collapsed".to_string(), capture_id: None, value: None },
            QueryPropertyDesc {
                key: "fold.combined-lines".to_string(),
                capture_id: None,
                value: None,
            },
        ]],
        predicates: vec![Vec::new()],
        pattern_captures: vec![vec![0]],
        pattern_start_bytes: vec![0],
    };
    let rq = RangesQuery::new(query, AdditionalPredicates::empty(), "fold").unwrap();
    let s = fold_settings(&rq, 0);
    assert_eq!(s.collapsed_text, Some("...".to_string()));
    assert!(s.collapsed_by_default);
    assert!(s.combined_lines);
}

#[test]
fn range_collection_uses_main_and_edge_captures() {
    let query = empty_query(
        vec!["fold".to_string(), "start".to_string(), "end".to_string()],
        1,
    );
    let rq = RangesQuery::new(query, AdditionalPredicates::empty(), "fold").unwrap();
    assert_eq!(rq.main_capture_id, 0);
    assert_eq!(rq.start_capture_id, Some(1));
    assert_eq!(rq.end_capture_id, Some(2));
    let tree = SyntaxTree::from_nodes(vec![
        node(1, 0, 40, 0, 0, vec![1, 2]),
        node(2, 0, 20, 0, 0, Vec::new()),
        node(3, 20, 40, 0, 1, Vec::new()),
    ])
    .unwrap();
    let text: Vec<u16> = vec![0x63; 20];
    let m = QueryMatchData {
        pattern_index: 0,
        captures: vec![QueryCaptureData { capture_index: 0, node: 1, range: range(0, 20) }],
    };
    let mut out = Vec::new();
    rq.collect_ranges_for_entry(LanguageId(1), &text, &vec![m], false, &tree, 0, &mut out);
    assert_eq!(out.len(), 1);
    assert_eq!(out[0].range.start_byte, 0);
    assert_eq!(out[0].range.end_byte, 20);
    // The next sibling starts at 20: the combination anchor.
    assert_eq!(out[0].next_byte, 20);
}

#[test]
fn duplicate_range_capture_is_rejected() {
    let query = empty_query(vec!["fold".to_string(), "fold".to_string()], 1);
    match RangesQuery::new(query, AdditionalPredicates::empty(), "fold") {
        Err(e) => assert_eq!(e, syntax_forest::RangesQueryError::DuplicateCapture),
        Ok(_) => panic!("duplicate capture accepted"),
    }
    let query2 = empty_query(vec!["other".to_string()], 1);
    match RangesQuery::new(query2, AdditionalPredicates::empty(), "fold") {
        Err(e) => assert_eq!(e, syntax_forest::RangesQueryError::NoRequiredCaptures),
        Ok(_) => panic!("missing main capture accepted"),
    }
}

#[test]
fn tokens_clamp_at_the_requested_end() {
    // The request ends inside the keyword node: the run tiles [0, 12)
    // exactly, the final token clamped at the requested end.
    let mut registry = LanguageRegistry::new();
    let hq = HighlightQuery::new(
        empty_query(vec!["keyword".to_string()], 1),
        AdditionalPredicates::empty(),
    );
    let base = registry.register(
        "lang".to_string(),
        LanguageParserInfo {
            highlights_query: Some(hq),
            folds_query: None,
            indents_query: None,
            injections_query: None,
        },
    );
    let snapshot = keyword_snapshot(base);
    let text: Vec<u16> = vec![0x61; 100];
    let matches = vec![(
        0usize,
        vec![QueryMatchData {
            pattern_index: 0,
            captures: vec![QueryCaptureData { capture_index: 0, node: 1, range: range(20, 28) }],
        }],
    )];
    // The keyword node spans native [10, 14); request [0, 12) cuts it.
    let (cover, tokens) = highlight_tokens_cover(&snapshot, &registry, &text, 0, 12, &matches);
    assert_eq!(cover, 0);
    let total: u64 = tokens.iter().map(|t| t.length as u64).sum();
    assert_eq!(total, 12);
    // The clamped keyword token covers [10, 12).
    let captured: Vec<_> = tokens.iter().filter(|t| t.capture_id != 0xffff).collect();
    assert_eq!(captured.len(), 1);
    assert_eq!(captured[0].length, 2);
}
