//! Coordinate adjustments and highlight-span resolution on concrete values.

use syntax_forest::AdditionalPredicates;
use syntax_forest::CaptureOffset;
use syntax_forest::HighlightQuery;
use syntax_forest::LanguageId;
use syntax_forest::Point;
use syntax_forest::QueryCaptureData;
use syntax_forest::QueryDesc;
use syntax_forest::QueryMatchData;
use syntax_forest::TextRange;

#[test]
fn capture_offset_shifts_both_edges() {
    let off = CaptureOffset::new(4, -4);
    let r = TextRange {
        start_byte: 10,
        end_byte: 30,
        start_point: Point { row: 2, column: 10 },
        end_point: Point { row: 2, column: 30 },
    };
    let shifted = off.apply_to_range(&r);
    assert_eq!(shifted.start_byte, 14);
    assert_eq!(shifted.end_byte, 26);
    assert_eq!(shifted.start_point, Point { row: 2, column: 14 });
    assert_eq!(shifted.end_point, Point { row: 2, column: 26 });
}

#[test]
fn duplicate_highlight_ranges_resolve_to_lowest_pattern() {
    // Two patterns capture the same exact range; the lower pattern index
    // wins whichever order the matches arrive in.
    let query = QueryDesc {
        capture_names: vec!["a".to_string(), "b".to_string()],
        properties: vec![Vec::new(), Vec::new()],
        predicates: vec![Vec::new(), Vec::new()],
        pattern_captures: vec![vec![0], vec![1]],
        pattern_start_bytes: vec![0, 0],
    };
    let hq = HighlightQuery::new(query, AdditionalPredicates::empty());
    let text: Vec<u16> = vec![0x61; 10];
    let range = TextRange {
        start_byte: 2,
        end_byte: 8,
        start_point: Point { row: 0, column: 2 },
        end_point: Point { row: 0, column: 8 },
    };
    let m = |pattern: usize, capture: u32| QueryMatchData {
        pattern_index: pattern,
        captures: vec![QueryCaptureData { capture_index: capture, node: 0, range }],
    };
    for order in [vec![m(1, 1), m(0, 0)], vec![m(0, 0), m(1, 1)]] {
        let mut spans = Vec::new();
        hq.collect_entry_spans(LanguageId(1), &text, &order, &mut spans);
        assert_eq!(spans.len(), 1);
        assert_eq!(spans[0].pattern_index, 0);
        assert_eq!(spans[0].capture_id, 0);
    }
}
