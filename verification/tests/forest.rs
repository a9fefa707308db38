//! Trees, the cross-tree cursor, the snapshot builder, and the text layer
//! on concrete values.

use syntax_forest::EditDesc;
use syntax_forest::InjectionMatch;
use syntax_forest::LanguageId;
use syntax_forest::LanguageParserInfo;
use syntax_forest::LanguageRegistry;
use syntax_forest::ParseCommandLanguage;
use syntax_forest::Point;
use syntax_forest::RecodingUtf16TextProvider;
use syntax_forest::SnapshotBuilder;
use syntax_forest::SyntaxSnapshot;
use syntax_forest::SyntaxSnapshotEntry;
use syntax_forest::SyntaxSnapshotEntryContent;
use syntax_forest::SyntaxSnapshotTreeCursor;
use syntax_forest::SyntaxTree;
use syntax_forest::TextRange;
use syntax_forest::TreeNode;
use syntax_forest::UnknownLanguage;
use syntax_forest::parse_i32;
use syntax_forest::recode_utf16;
use syntax_forest::reuse_check;

fn node(
    kind: u16,
    sb: usize,
    eb: usize,
    parent: usize,
    rank: usize,
    children: Vec<usize>,
) -> TreeNode {
    TreeNode {
        kind_id: kind,
        start_byte: sb,
        end_byte: eb,
        start_point: Point { row: 0, column: sb },
        end_point: Point { row: 0, column: eb },
        parent,
        child_rank: rank,
        children,
    }
}

/// A root spanning `[0, end)` with the given leaf children.
fn simple_tree(end: usize, leaves: &[(u16, usize, usize)]) -> SyntaxTree {
    let mut nodes = vec![node(1, 0, end, 0, 0, (1..=leaves.len()).collect())];
    for (i, (k, s, e)) in leaves.iter().enumerate() {
        nodes.push(node(*k, *s, *e, 0, i, Vec::new()));
    }
    SyntaxTree::from_nodes(nodes).unwrap()
}

#[test]
fn tree_validation_rejects_bad_links() {
    // A child whose parent pointer is wrong.
    let nodes = vec![node(1, 0, 10, 0, 0, vec![1]), node(2, 0, 4, 1, 0, Vec::new())];
    assert!(SyntaxTree::from_nodes(nodes).is_none());
    // Overlapping children.
    let nodes2 = vec![
        node(1, 0, 10, 0, 0, vec![1, 2]),
        node(2, 0, 6, 0, 0, Vec::new()),
        node(3, 4, 10, 0, 1, Vec::new()),
    ];
    assert!(SyntaxTree::from_nodes(nodes2).is_none());
    // A well-formed arena passes.
    assert_eq!(simple_tree(10, &[(2, 0, 4), (3, 4, 10)]).node_count(), 3);
}

fn one_entry_snapshot(language: LanguageId, tree: SyntaxTree, end: usize) -> SyntaxSnapshot {
    SyntaxSnapshot {
        entries: vec![SyntaxSnapshotEntry {
            depth: 0,
            content: SyntaxSnapshotEntryContent::Parsed { language, tree },
            start_byte: 0,
            end_byte: end,
            byte_offset: 0,
            point_offset: Point { row: 0, column: 0 },
        }],
    }
}

#[test]
fn cursor_walks_one_tree() {
    let tree = simple_tree(10, &[(2, 0, 4), (3, 4, 10)]);
    let snapshot = one_entry_snapshot(LanguageId(7), tree, 10);
    let mut cursor = SyntaxSnapshotTreeCursor::walk(&snapshot);
    assert_eq!(cursor.language(), LanguageId(7));
    assert_eq!(cursor.node().kind_id, 1);
    assert!(cursor.goto_first_child());
    assert_eq!(cursor.node().kind_id, 2);
    assert!(cursor.goto_next_sibling());
    assert_eq!(cursor.node().kind_id, 3);
    assert!(!cursor.goto_next_sibling());
    assert!(cursor.goto_previous_sibling());
    assert_eq!(cursor.node().kind_id, 2);
    assert!(cursor.goto_parent());
    assert_eq!(cursor.node().kind_id, 1);
    assert!(!cursor.goto_parent());
}

#[test]
fn cursor_crosses_into_nested_entry() {
    // Root tree with a childless host node spanning [4, 10); a nested entry
    // at depth 1 covers [4, 10) with its own tree.
    let host = simple_tree(10, &[(2, 0, 4), (3, 4, 10)]);
    let nested = SyntaxTree::from_nodes(vec![node(9, 0, 6, 0, 0, Vec::new())]).unwrap();
    let snapshot = SyntaxSnapshot {
        entries: vec![
            SyntaxSnapshotEntry {
                depth: 0,
                content: SyntaxSnapshotEntryContent::Parsed { language: LanguageId(1), tree: host },
                start_byte: 0,
                end_byte: 10,
                byte_offset: 0,
                point_offset: Point { row: 0, column: 0 },
            },
            SyntaxSnapshotEntry {
                depth: 1,
                content: SyntaxSnapshotEntryContent::Parsed {
                    language: LanguageId(2),
                    tree: nested,
                },
                start_byte: 4,
                end_byte: 10,
                byte_offset: 4,
                point_offset: Point { row: 0, column: 4 },
            },
        ],
    };
    let mut cursor = SyntaxSnapshotTreeCursor::walk(&snapshot);
    assert!(cursor.goto_first_child());
    assert!(cursor.goto_next_sibling());
    // The host node is childless, so descending crosses into the entry.
    assert!(cursor.goto_first_child());
    assert_eq!(cursor.language(), LanguageId(2));
    assert_eq!(cursor.node_range().start_byte, 4);
    assert_eq!(cursor.node_range().end_byte, 10);
    // Ascending pops back out to the host node.
    assert!(cursor.goto_parent());
    assert_eq!(cursor.language(), LanguageId(1));
    assert_eq!(cursor.node().kind_id, 3);
}

#[test]
fn builder_produces_snapshot_and_orders_commands() {
    let mut registry = LanguageRegistry::new();
    let base = registry.register("markup".to_string(), LanguageParserInfo::empty());
    // A 5-native-unit document: the root command spans [0, 10).
    let mut b = SnapshotBuilder::begin(base, 5);
    let cmd = b.next_command().unwrap();
    assert_eq!(cmd.depth, 0);
    assert_eq!(cmd.end_byte, 10);
    assert!(matches!(cmd.language, ParseCommandLanguage::Known(l) if l == base));
    let tree = simple_tree(10, &[(2, 0, 4), (3, 4, 10)]);
    b.supply_parsed(cmd, base, tree, Vec::new(), &registry, None);
    assert!(b.next_command().is_none());
    let (snapshot, changed) = b.finish().unwrap();
    assert_eq!(snapshot.entries.len(), 1);
    assert_eq!(snapshot.base_language(), base);
    assert_eq!(changed.len(), 0);
}

#[test]
fn unknown_injected_language_becomes_unparsed_entry() {
    let mut registry = LanguageRegistry::new();
    let base = registry.register("markup".to_string(), LanguageParserInfo::empty());
    let mut b = SnapshotBuilder::begin(base, 5);
    let cmd = b.next_command().unwrap();
    let tree = simple_tree(10, &[(2, 0, 4), (3, 4, 10)]);
    let injection = InjectionMatch {
        id: 0,
        language: UnknownLanguage::LanguageName("nonexistent".to_string()),
        enclosing_start_byte: 4,
        enclosing_end_byte: 10,
        included_ranges: vec![TextRange {
            start_byte: 4,
            end_byte: 10,
            start_point: Point { row: 0, column: 4 },
            end_point: Point { row: 0, column: 10 },
        }],
        combined: false,
        include_children: false,
    };
    b.supply_parsed(cmd, base, tree, vec![injection], &registry, None);
    let child = b.next_command().unwrap();
    assert_eq!(child.depth, 1);
    assert!(matches!(child.language, ParseCommandLanguage::Unknown(_)));
    b.supply_unparsed(child, &registry);
    let (snapshot, _) = b.finish().unwrap();
    assert_eq!(snapshot.entries.len(), 2);
    assert!(matches!(
        snapshot.entries[1].content,
        SyntaxSnapshotEntryContent::Unparsed(UnknownLanguage::LanguageName(ref n)) if n == "nonexistent"
    ));
}

#[test]
fn incremental_changed_ranges_start_with_edit_span() {
    let mut registry = LanguageRegistry::new();
    let base = registry.register("markup".to_string(), LanguageParserInfo::empty());
    let edit = EditDesc {
        start_byte: 4,
        old_end_byte: 6,
        new_end_byte: 8,
        start_point: Point { row: 0, column: 4 },
        old_end_point: Point { row: 0, column: 6 },
        new_end_point: Point { row: 0, column: 8 },
    };
    let mut b = SnapshotBuilder::begin_incremental(base, 6, &edit);
    let cmd = b.next_command().unwrap();
    let tree = simple_tree(12, &[(2, 0, 12)]);
    b.supply_parsed(cmd, base, tree, Vec::new(), &registry, None);
    let (_, changed) = b.finish().unwrap();
    assert!(changed.len() >= 1);
    assert_eq!(changed[0].start_byte, 4);
    assert_eq!(changed[0].end_byte, 8);
}

#[test]
fn full_and_incremental_builds_agree_on_entries() {
    let mut registry = LanguageRegistry::new();
    let base = registry.register("markup".to_string(), LanguageParserInfo::empty());
    let edit = EditDesc {
        start_byte: 0,
        old_end_byte: 0,
        new_end_byte: 2,
        start_point: Point { row: 0, column: 0 },
        old_end_point: Point { row: 0, column: 0 },
        new_end_point: Point { row: 0, column: 2 },
    };
    let mut full = SnapshotBuilder::begin(base, 5);
    let mut incr = SnapshotBuilder::begin_incremental(base, 5, &edit);
    let c1 = full.next_command().unwrap();
    let c2 = incr.next_command().unwrap();
    full.supply_parsed(c1, base, simple_tree(10, &[(2, 0, 10)]), Vec::new(), &registry, None);
    incr.supply_parsed(c2, base, simple_tree(10, &[(2, 0, 10)]), Vec::new(), &registry, None);
    let (s1, _) = full.finish().unwrap();
    let (s2, _) = incr.finish().unwrap();
    assert_eq!(s1.entries.len(), s2.entries.len());
    for (a, b) in s1.entries.iter().zip(s2.entries.iter()) {
        assert_eq!(a.depth, b.depth);
        assert_eq!(a.start_byte, b.start_byte);
        assert_eq!(a.end_byte, b.end_byte);
    }
}

#[test]
fn reuse_condition_follows_edit_arithmetic() {
    let tree = simple_tree(20, &[(2, 0, 20)]);
    let old_root = SyntaxSnapshotEntry {
        depth: 0,
        content: SyntaxSnapshotEntryContent::Parsed { language: LanguageId(3), tree },
        start_byte: 0,
        end_byte: 20,
        byte_offset: 0,
        point_offset: Point { row: 0, column: 0 },
    };
    let edit = EditDesc {
        start_byte: 4,
        old_end_byte: 6,
        new_end_byte: 10,
        start_point: Point { row: 0, column: 4 },
        old_end_point: Point { row: 0, column: 6 },
        new_end_point: Point { row: 0, column: 10 },
    };
    // New root end = old end - old_end + new_end = 20 - 6 + 10 = 24.
    assert!(reuse_check(&old_root, &edit, 24, LanguageId(3)));
    assert!(!reuse_check(&old_root, &edit, 22, LanguageId(3)));
    assert!(!reuse_check(&old_root, &edit, 24, LanguageId(4)));
}

#[test]
fn recoding_handles_surrogate_pairs_and_lone_surrogates() {
    // "a" + U+1F600 (surrogate pair) + lone high surrogate.
    let units: Vec<u16> = vec![0x61, 0xD83D, 0xDE00, 0xD800];
    let bytes = recode_utf16(&units, 0, 4);
    assert_eq!(
        bytes,
        vec![0x61, 0xF0, 0x9F, 0x98, 0x80, 0xEF, 0xBF, 0xBD]
    );
    let provider = RecodingUtf16TextProvider::new(&units);
    // The span [0, 2) in doubled units covers just "a".
    let mut iter = provider.text(0, 2);
    assert_eq!(iter.next(), Some(vec![0x61]));
    assert_eq!(iter.next(), None);
}

#[test]
fn integer_literals_parse_like_the_offsets_they_carry() {
    assert_eq!(parse_i32(b"-2"), Some(-2));
    assert_eq!(parse_i32(b"+17"), Some(17));
    assert_eq!(parse_i32(b"2147483647"), Some(2147483647));
    assert_eq!(parse_i32(b"-2147483648"), Some(-2147483648));
    assert_eq!(parse_i32(b"2147483648"), None);
    assert_eq!(parse_i32(b""), None);
    assert_eq!(parse_i32(b"-"), None);
    assert_eq!(parse_i32(b"12x"), None);
}

#[test]
fn byte_directed_descent_moves_to_covering_child() {
    let tree = simple_tree(10, &[(2, 0, 4), (3, 4, 10)]);
    let snapshot = one_entry_snapshot(LanguageId(7), tree, 10);
    let mut cursor = SyntaxSnapshotTreeCursor::walk(&snapshot);
    // Byte 6 lies in the second child.
    assert!(cursor.goto_first_child_for_byte(6).is_some());
    assert_eq!(cursor.node().kind_id, 3);
    // The leaf has no child extending past byte 6 and no nested entry.
    assert!(cursor.goto_first_child_for_byte(6).is_none());
    assert_eq!(cursor.node().kind_id, 3);
    // An index outside the entry's range moves nothing.
    assert!(cursor.goto_parent());
    assert!(cursor.goto_first_child_for_byte(10).is_none());
    assert_eq!(cursor.node().kind_id, 1);
}
