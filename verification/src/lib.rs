//! An incremental, multi-language syntax analysis core for an editor.
//!
//! Given document text and edits, the crate maintains a forest of syntax
//! trees spanning a base grammar plus recursively injected sub-grammars, and
//! derives token-level highlighting, fold ranges and indent ranges from that
//! forest. The single-grammar parsing engine and raw query matching are
//! external collaborators: their results enter the library as plain data and
//! everything computed from them is verified.
//!
//! All byte and column coordinates are carried in a doubled unit internally:
//! one native (UTF-16 code unit) position maps to two internal units. Public
//! boundaries divide by two on the way out and multiply by two on the way
//! in.

use vstd::prelude::*;

mod coords;
mod cursor;
mod highlight;
mod injections;
mod predicates;
mod query;
mod ranges;
mod registry;
mod snapshot;
mod text;
mod tree;

pub use coords::CaptureOffset;
pub use coords::Point;
pub use coords::TextRange;
pub use coords::add_point;
pub use coords::sub_point;
pub use cursor::SyntaxSnapshotTreeCursor;
pub use highlight::HighlightSpan;
pub use highlight::HighlightToken;
pub use highlight::collect_highlights_for_range;
pub use highlight::highlight_tokens_cover;
pub use injections::InjectionLanguage;
pub use injections::InjectionMatch;
pub use injections::InjectionQuery;
pub use injections::InjectionQueryError;
pub use injections::injection_query_window;
pub use predicates::AdditionalPredicates;
pub use predicates::ContainsPredicate;
pub use predicates::ContainsPredicateParser;
pub use predicates::PredicateError;
pub use predicates::PredicateErrorKind;
pub use query::HighlightQuery;
pub use query::PredicateArgDesc;
pub use query::QueryCaptureData;
pub use query::QueryDesc;
pub use query::QueryMatchData;
pub use query::QueryPredicateDesc;
pub use query::QueryPropertyDesc;
pub use ranges::FoldRange;
pub use ranges::FoldSettings;
pub use ranges::RangeResult;
pub use ranges::RangesQuery;
pub use ranges::RangesQueryError;
pub use ranges::collect_range_results;
pub use ranges::combine_fold_ranges;
pub use ranges::fold_settings;
pub use ranges::merge_fold;
pub use ranges::trim_trailing_newline;
pub use registry::Language;
pub use registry::LanguageError;
pub use registry::LanguageId;
pub use registry::LanguageParserInfo;
pub use registry::LanguageRegistry;
pub use registry::UnknownLanguage;
pub use snapshot::EditDesc;
pub use snapshot::ParseCommand;
pub use snapshot::ParseCommandLanguage;
pub use snapshot::SnapshotBuilder;
pub use snapshot::SyntaxSnapshot;
pub use snapshot::SyntaxSnapshotEntry;
pub use snapshot::SyntaxSnapshotEntryContent;
pub use snapshot::reuse_check;
pub use text::RecodingUtf16TextProvider;
pub use text::RecodingUtf16TextProviderIterator;
pub use text::find_bytes;
pub use text::parse_i32;
pub use text::recode_utf16;
pub use tree::SyntaxTree;
pub use tree::TreeNode;

verus! {

} // verus!
