//! The snapshot builder: a work queue of parse commands, one per grammar
//! region at increasing injection depth, driven to produce a forest of
//! parsed and unparsed entries.
//!
//! The external engine performs the parses; a driver loop asks
//! `next_command` for the highest-priority command, has the engine parse
//! that region, and hands the outcome back through `supply_parsed` or
//! `supply_unparsed`. Commands are ordered by ascending depth, then start,
//! then end byte, so enclosing regions materialize before nested ones and
//! same-depth regions in document order. Only the root command is eligible
//! for incremental tree reuse; injected regions are always parsed fresh.

use vstd::prelude::*;

use crate::coords::Point;
use crate::coords::TextRange;
use crate::injections::InjectionMatch;
use crate::registry::Language;
use crate::registry::LanguageId;
use crate::registry::LanguageRegistry;
use crate::registry::UnknownLanguage;
use crate::registry::spec_index_by_id;
use crate::registry::spec_index_by_name;
use crate::tree::SyntaxTree;

verus! {

/// An edit, in internal doubled units.
#[derive(Clone, Copy, Debug, PartialEq, Eq, Structural)]
pub struct EditDesc {
    pub start_byte: usize,
    pub old_end_byte: usize,
    pub new_end_byte: usize,
    pub start_point: Point,
    pub old_end_point: Point,
    pub new_end_point: Point,
}

impl EditDesc {
    /// The edit's own span in the new text: always reported as changed.
    pub open spec fn spec_span(&self) -> TextRange {
        TextRange {
            start_byte: self.start_byte,
            end_byte: self.new_end_byte,
            start_point: self.start_point,
            end_point: self.new_end_point,
        }
    }

    /// An edit given in native text units carried into the internal doubled
    /// coordinates: every byte offset and column is doubled; `None` when a
    /// doubled value cannot be represented.
    pub fn doubled(&self) -> (r: Option<EditDesc>)
        ensures
            match r {
                Some(d) => {
                    &&& self.start_byte * 2 <= usize::MAX
                    &&& self.old_end_byte * 2 <= usize::MAX
                    &&& self.new_end_byte * 2 <= usize::MAX
                    &&& self.start_point.column * 2 <= usize::MAX
                    &&& self.old_end_point.column * 2 <= usize::MAX
                    &&& self.new_end_point.column * 2 <= usize::MAX
                    &&& d.start_byte == self.start_byte * 2
                    &&& d.old_end_byte == self.old_end_byte * 2
                    &&& d.new_end_byte == self.new_end_byte * 2
                    &&& d.start_point == (Point {
                        row: self.start_point.row,
                        column: (self.start_point.column * 2) as usize,
                    })
                    &&& d.old_end_point == (Point {
                        row: self.old_end_point.row,
                        column: (self.old_end_point.column * 2) as usize,
                    })
                    &&& d.new_end_point == (Point {
                        row: self.new_end_point.row,
                        column: (self.new_end_point.column * 2) as usize,
                    })
                },
                None => self.start_byte * 2 > usize::MAX || self.old_end_byte * 2 > usize::MAX
                    || self.new_end_byte * 2 > usize::MAX || self.start_point.column * 2
                    > usize::MAX || self.old_end_point.column * 2 > usize::MAX
                    || self.new_end_point.column * 2 > usize::MAX,
            },
    {
        let half = usize::MAX / 2;
        if self.start_byte > half || self.old_end_byte > half || self.new_end_byte > half
            || self.start_point.column > half || self.old_end_point.column > half
            || self.new_end_point.column > half {
            return None;
        }
        Some(
            EditDesc {
                start_byte: self.start_byte * 2,
                old_end_byte: self.old_end_byte * 2,
                new_end_byte: self.new_end_byte * 2,
                start_point: Point { row: self.start_point.row, column: self.start_point.column * 2 },
                old_end_point: Point {
                    row: self.old_end_point.row,
                    column: self.old_end_point.column * 2,
                },
                new_end_point: Point {
                    row: self.new_end_point.row,
                    column: self.new_end_point.column * 2,
                },
            },
        )
    }
}

/// The target of a parse command: a resolved language or a reference still
/// to be resolved.
#[derive(Clone, Debug, PartialEq, Eq)]
pub enum ParseCommandLanguage {
    Known(LanguageId),
    Unknown(UnknownLanguage),
}

/// One region to parse: its injection depth, target language, included
/// sub-ranges, byte range, and the offsets mapping the region's local
/// coordinates to document coordinates.
#[derive(Clone, Debug)]
pub struct ParseCommand {
    pub depth: usize,
    pub language: ParseCommandLanguage,
    pub included_ranges: Vec<TextRange>,
    pub start_byte: usize,
    pub end_byte: usize,
    pub byte_offset: usize,
    pub point_offset: Point,
}

pub ghost struct ParseCommandV {
    pub depth: usize,
    pub language: ParseCommandLanguage,
    pub included_ranges: Seq<TextRange>,
    pub start_byte: usize,
    pub end_byte: usize,
    pub byte_offset: usize,
    pub point_offset: Point,
}

impl View for ParseCommand {
    type V = ParseCommandV;

    open spec fn view(&self) -> ParseCommandV {
        ParseCommandV {
            depth: self.depth,
            language: self.language,
            included_ranges: self.included_ranges@,
            start_byte: self.start_byte,
            end_byte: self.end_byte,
            byte_offset: self.byte_offset,
            point_offset: self.point_offset,
        }
    }
}

/// The views of a command queue.
pub open spec fn queue_view(s: Seq<ParseCommand>) -> Seq<ParseCommandV> {
    Seq::new(s.len(), |i: int| s[i]@)
}

/// Strict priority order of parse commands: ascending depth, then start,
/// then end byte.
pub open spec fn cmd_lt(a: ParseCommandV, b: ParseCommandV) -> bool {
    ||| a.depth < b.depth
    ||| (a.depth == b.depth && a.start_byte < b.start_byte)
    ||| (a.depth == b.depth && a.start_byte == b.start_byte && a.end_byte < b.end_byte)
}

fn cmd_lt_exec(a: &ParseCommand, b: &ParseCommand) -> (r: bool)
    ensures
        r == cmd_lt(a@, b@),
{
    a.depth < b.depth || (a.depth == b.depth && a.start_byte < b.start_byte) || (a.depth == b.depth
        && a.start_byte == b.start_byte && a.end_byte < b.end_byte)
}

/// The position of the first highest-priority command: the earliest command
/// not strictly preceded by any later one.
pub open spec fn min_cmd_index(s: Seq<ParseCommandV>) -> int
    recommends
        s.len() > 0,
    decreases s.len(),
{
    if s.len() <= 1 {
        0
    } else {
        let m = min_cmd_index(s.drop_last());
        if cmd_lt(s.last(), s[m]) {
            s.len() - 1
        } else {
            m
        }
    }
}

proof fn lemma_min_cmd_index_bounds(s: Seq<ParseCommandV>)
    requires
        s.len() > 0,
    ensures
        0 <= min_cmd_index(s) < s.len(),
    decreases s.len(),
{
    if s.len() > 1 {
        lemma_min_cmd_index_bounds(s.drop_last());
    }
}

/// The root command for a document of `text_len` native units under the
/// base language.
pub open spec fn spec_root_command(base: LanguageId, text_len: usize) -> ParseCommandV
    recommends
        text_len * 2 <= usize::MAX,
{
    ParseCommandV {
        depth: 0,
        language: ParseCommandLanguage::Known(base),
        included_ranges: Seq::empty(),
        start_byte: 0,
        end_byte: (text_len * 2) as usize,
        byte_offset: 0,
        point_offset: Point { row: 0, column: 0 },
    }
}

/// The command an injection match expands to, one injection depth further
/// down: its language resolved against the catalog by name where possible,
/// its offsets taken from its first included range.
pub open spec fn spec_from_injection(
    inj: InjectionMatch,
    depth: usize,
    langs: Seq<Language>,
) -> ParseCommandV
    recommends
        inj.included_ranges@.len() >= 1,
{
    let language = match inj.language {
        UnknownLanguage::LanguageName(s) => match spec_index_by_name(langs, s@) {
            Some(i) => ParseCommandLanguage::Known(langs[i].id),
            None => ParseCommandLanguage::Unknown(inj.language),
        },
        UnknownLanguage::LanguageMimetype(_) => ParseCommandLanguage::Unknown(inj.language),
    };
    ParseCommandV {
        depth,
        language,
        included_ranges: inj.included_ranges@,
        start_byte: inj.enclosing_start_byte,
        end_byte: inj.enclosing_end_byte,
        byte_offset: inj.included_ranges@[0].start_byte,
        point_offset: inj.included_ranges@[0].start_point,
    }
}

impl ParseCommand {
    /// Expand one injection match into the command that will parse it.
    pub fn from_injection(inj: InjectionMatch, depth: usize, registry: &LanguageRegistry) -> (r:
        ParseCommand)
        requires
            inj.included_ranges@.len() >= 1,
        ensures
            r@ == spec_from_injection(inj, depth, registry.languages@),
    {
        let resolved: Option<LanguageId> = match registry.language_by_unknown(&inj.language) {
            Some(l) => Some(l.id()),
            None => None,
        };
        let language = match resolved {
            Some(id) => ParseCommandLanguage::Known(id),
            None => ParseCommandLanguage::Unknown(inj.language),
        };
        let byte_offset = inj.included_ranges[0].start_byte;
        let point_offset = inj.included_ranges[0].start_point;
        ParseCommand {
            depth,
            language,
            included_ranges: inj.included_ranges,
            start_byte: inj.enclosing_start_byte,
            end_byte: inj.enclosing_end_byte,
            byte_offset,
            point_offset,
        }
    }
}

/// The tree of a parsed entry.
pub open spec fn entry_tree(e: SyntaxSnapshotEntry) -> SyntaxTree
    recommends
        e.content is Parsed,
{
    e.content->Parsed_tree
}

/// The content of one forest entry: a parsed tree under a resolved
/// language, or an unparsed region with its unresolved reference.
pub enum SyntaxSnapshotEntryContent {
    Parsed { language: LanguageId, tree: SyntaxTree },
    Unparsed(UnknownLanguage),
}

/// One forest entry: a parsed or unparsed region at an injection depth,
/// with the offsets mapping its tree's local coordinates to the document.
pub struct SyntaxSnapshotEntry {
    pub depth: usize,
    pub content: SyntaxSnapshotEntryContent,
    pub start_byte: usize,
    pub end_byte: usize,
    pub byte_offset: usize,
    pub point_offset: Point,
}

/// A parsed entry's tree is well-formed and its offsets keep every node's
/// document coordinates within machine bounds.
pub open spec fn entry_wf(e: SyntaxSnapshotEntry) -> bool {
    match e.content {
        SyntaxSnapshotEntryContent::Parsed { tree, .. } => {
            &&& tree.wf()
            &&& e.byte_offset % 2 == 0
            &&& e.start_byte <= e.byte_offset + tree@[0].start_byte
            &&& e.byte_offset + tree@[0].end_byte <= e.end_byte
            &&& forall|i: int|
                0 <= i < tree@.len() ==> {
                    &&& e.byte_offset + (#[trigger] tree@[i]).end_byte <= usize::MAX
                    &&& e.point_offset.row + tree@[i].start_point.row <= usize::MAX
                    &&& e.point_offset.row + tree@[i].end_point.row <= usize::MAX
                    &&& e.point_offset.column + tree@[i].start_point.column <= usize::MAX
                    &&& e.point_offset.column + tree@[i].end_point.column <= usize::MAX
                }
        },
        SyntaxSnapshotEntryContent::Unparsed(_) => true,
    }
}

/// `host` can host a region at injection depth `depth` spanning
/// `[start_byte, end_byte)`: it is parsed, sits one depth up, and one of
/// its nodes contains the span in document coordinates.
pub open spec fn hosts_range(
    host: SyntaxSnapshotEntry,
    depth: int,
    start_byte: usize,
    end_byte: usize,
) -> bool {
    &&& host.content is Parsed
    &&& host.depth + 1 == depth
    &&& exists|ni: int|
        0 <= ni < entry_tree(host)@.len() && host.byte_offset + (#[trigger] entry_tree(
            host,
        )@[ni]).start_byte <= start_byte && end_byte <= host.byte_offset + entry_tree(
            host,
        )@[ni].end_byte
}

/// Some entry hosts a region at the given depth and span.
pub open spec fn range_hosted(
    entries: Seq<SyntaxSnapshotEntry>,
    depth: int,
    start_byte: usize,
    end_byte: usize,
) -> bool {
    exists|e2: int|
        0 <= e2 < entries.len() && #[trigger] hosts_range(entries[e2], depth, start_byte, end_byte)
}

/// A non-root entry's byte range is contained in a node of some entry one
/// injection depth up — the node its injection match came from.
pub open spec fn entry_parent_contained(entries: Seq<SyntaxSnapshotEntry>, i: int) -> bool {
    range_hosted(entries, entries[i].depth as int, entries[i].start_byte, entries[i].end_byte)
}

/// An injection match lies within a node of the tree that produced it,
/// after the command's offset lifts the tree into document coordinates.
pub open spec fn injection_in_tree(tree: SyntaxTree, byte_offset: usize, inj: InjectionMatch) -> bool {
    exists|ni: int|
        0 <= ni < tree@.len() && byte_offset + (#[trigger] tree@[ni]).start_byte
            <= inj.enclosing_start_byte && inj.enclosing_end_byte <= byte_offset + tree@[ni].end_byte
}

/// Appending an entry hosted by the existing forest keeps the forest
/// linked.
proof fn lemma_linked_push(entries: Seq<SyntaxSnapshotEntry>, e: SyntaxSnapshotEntry)
    requires
        entries_linked(entries),
        entries.len() >= 1 ==> range_hosted(entries, e.depth as int, e.start_byte, e.end_byte),
    ensures
        entries_linked(entries.push(e)),
{
    reveal(entries_linked);
    let after = entries.push(e);
    assert forall|i: int| 1 <= i < after.len() implies #[trigger] entry_parent_contained(
        after,
        i,
    ) by {
        if i < entries.len() {
            assert(entry_parent_contained(entries, i));
            let e2 = choose|e2: int|
                0 <= e2 < entries.len() && #[trigger] hosts_range(
                    entries[e2],
                    entries[i].depth as int,
                    entries[i].start_byte,
                    entries[i].end_byte,
                );
            assert(after[e2] == entries[e2]);
            assert(after[i] == entries[i]);
            assert(hosts_range(after[e2], after[i].depth as int, after[i].start_byte, after[i].end_byte));
        } else {
            let e2 = choose|e2: int|
                0 <= e2 < entries.len() && #[trigger] hosts_range(
                    entries[e2],
                    e.depth as int,
                    e.start_byte,
                    e.end_byte,
                );
            assert(after[e2] == entries[e2]);
            assert(after[i] == e);
            assert(hosts_range(after[e2], after[i].depth as int, after[i].start_byte, after[i].end_byte));
        }
    }
}

/// Every non-root entry sits inside a host node one injection depth up.
/// Opaque: consumers of a well-formed snapshot rarely need it; `reveal` it
/// where they do.
#[verifier::opaque]
pub open spec fn entries_linked(entries: Seq<SyntaxSnapshotEntry>) -> bool {
    forall|i: int| 1 <= i < entries.len() ==> #[trigger] entry_parent_contained(entries, i)
}

/// A snapshot's first entry exists, sits at depth 0 and is parsed; every
/// entry is well-formed and every non-root entry is hosted.
pub open spec fn snapshot_wf(entries: Seq<SyntaxSnapshotEntry>) -> bool {
    &&& entries.len() >= 1
    &&& entries[0].depth == 0
    &&& entries[0].content is Parsed
    &&& forall|i: int| 0 <= i < entries.len() ==> entry_wf(#[trigger] entries[i])
    &&& entries_linked(entries)
}

/// An immutable forest of parsed and unparsed regions.
pub struct SyntaxSnapshot {
    pub entries: Vec<SyntaxSnapshotEntry>,
}

impl SyntaxSnapshot {
    pub open spec fn wf(&self) -> bool {
        snapshot_wf(self.entries@)
    }

    /// The base language: the language of the root entry.
    pub fn base_language(&self) -> (r: LanguageId)
        requires
            self.wf(),
        ensures
            self.entries@[0].content matches SyntaxSnapshotEntryContent::Parsed { language, .. }
                && r == language,
    {
        match &self.entries[0].content {
            SyntaxSnapshotEntryContent::Parsed { language, .. } => *language,
            SyntaxSnapshotEntryContent::Unparsed(_) => {
                proof {
                    assert(false);
                }
                LanguageId(0)
            },
        }
    }

    /// The root entry's tree.
    pub fn main_tree(&self) -> (r: &SyntaxTree)
        requires
            self.wf(),
        ensures
            self.entries@[0].content matches SyntaxSnapshotEntryContent::Parsed { tree, .. } && *r
                == tree,
    {
        match &self.entries[0].content {
            SyntaxSnapshotEntryContent::Parsed { tree, .. } => tree,
            SyntaxSnapshotEntryContent::Unparsed(_) => {
                proof {
                    assert(false);
                }
                vstd::pervasive::unreached()
            },
        }
    }
}

/// The language reference recorded for an unparsed region: the command's
/// own reference, or the catalog name of its already-resolved language.
pub open spec fn spec_source_language(
    l: ParseCommandLanguage,
    langs: Seq<Language>,
) -> UnknownLanguage
    recommends
        l matches ParseCommandLanguage::Known(id) ==> spec_index_by_id(langs, id) is Some,
{
    match l {
        ParseCommandLanguage::Unknown(u) => u,
        ParseCommandLanguage::Known(id) => match spec_index_by_id(langs, id) {
            Some(i) => UnknownLanguage::LanguageName(langs[i].name),
            None => UnknownLanguage::LanguageMimetype(langs[0].name),
        },
    }
}

/// The unparsed entry a command degrades to.
pub open spec fn spec_unparsed_entry(
    cmd: ParseCommandV,
    langs: Seq<Language>,
) -> SyntaxSnapshotEntry {
    SyntaxSnapshotEntry {
        depth: cmd.depth,
        content: SyntaxSnapshotEntryContent::Unparsed(spec_source_language(cmd.language, langs)),
        start_byte: cmd.start_byte,
        end_byte: cmd.end_byte,
        byte_offset: cmd.byte_offset,
        point_offset: cmd.point_offset,
    }
}

/// The parsed entry a successful parse produces.
pub open spec fn spec_parsed_entry(
    cmd: ParseCommandV,
    language: LanguageId,
    tree: SyntaxTree,
) -> SyntaxSnapshotEntry {
    SyntaxSnapshotEntry {
        depth: cmd.depth,
        content: SyntaxSnapshotEntryContent::Parsed { language, tree },
        start_byte: cmd.start_byte,
        end_byte: cmd.end_byte,
        byte_offset: cmd.byte_offset,
        point_offset: cmd.point_offset,
    }
}

/// The child commands of a parsed region: one per injection match, one
/// injection depth further down.
pub open spec fn spec_child_commands(
    injections: Seq<InjectionMatch>,
    depth: usize,
    langs: Seq<Language>,
) -> Seq<ParseCommandV> {
    Seq::new(injections.len(), |i: int| spec_from_injection(injections[i], depth, langs))
}

/// Append every range of `src_ranges` to `dst`, in order.
fn append_ranges(dst: &mut Vec<TextRange>, src_ranges: Vec<TextRange>)
    ensures
        final(dst)@ == old(dst)@ + src_ranges@,
{
    let ghost granges = src_ranges@;
    let ghost before = dst@;
    let total = src_ranges.len();
    let mut rest = src_ranges;
    let mut taken: usize = 0;
    proof {
        assert(granges.skip(0) =~= granges);
        assert(before + granges.take(0) =~= before);
        assert(granges.len() == total);
    }
    while rest.len() > 0
        invariant
            taken + rest@.len() == granges.len(),
            granges.len() == total,
            rest@ == granges.skip(taken as int),
            dst@ == before + granges.take(taken as int),
        decreases rest@.len(),
    {
        let r = rest.remove(0);
        proof {
            assert(r == granges[taken as int]);
            assert(rest@ =~= granges.skip(taken as int + 1));
        }
        dst.push(r);
        proof {
            assert(dst@ =~= before + granges.take(taken as int + 1));
        }
        taken = taken + 1;
    }
    proof {
        assert(granges.take(granges.len() as int) =~= granges);
    }
}

/// Whether an incremental rebuild may reuse the old root tree: the edit
/// must be contained so that the old root's end byte, adjusted by the
/// edit's length delta, equals the new root's end byte, and the old root
/// must be parsed under the same language.
pub open spec fn spec_reuse_ok(
    old_root: SyntaxSnapshotEntry,
    edit: EditDesc,
    new_end_byte: usize,
    language: LanguageId,
) -> bool {
    &&& old_root.end_byte >= edit.old_end_byte
    &&& old_root.end_byte - edit.old_end_byte + edit.new_end_byte == new_end_byte
    &&& old_root.content matches SyntaxSnapshotEntryContent::Parsed { language: l, .. } && l
        == language
}

/// Decide root-tree reuse for an incremental rebuild.
pub fn reuse_check(
    old_root: &SyntaxSnapshotEntry,
    edit: &EditDesc,
    new_end_byte: usize,
    language: LanguageId,
) -> (r: bool)
    ensures
        r == spec_reuse_ok(*old_root, *edit, new_end_byte, language),
{
    if old_root.end_byte < edit.old_end_byte {
        return false;
    }
    let diff = old_root.end_byte - edit.old_end_byte;
    if diff > usize::MAX - edit.new_end_byte {
        return false;
    }
    if diff + edit.new_end_byte != new_end_byte {
        return false;
    }
    match &old_root.content {
        SyntaxSnapshotEntryContent::Parsed { language: l, .. } => l.0 == language.0,
        SyntaxSnapshotEntryContent::Unparsed(_) => false,
    }
}

/// The builder's work-in-progress state.
pub struct SnapshotBuilder {
    pub queue: Vec<ParseCommand>,
    pub entries: Vec<SyntaxSnapshotEntry>,
    pub changed_ranges: Vec<TextRange>,
    pub base_language: LanguageId,
}

impl SnapshotBuilder {
    /// Every entry accumulated so far is well-formed and hosted, and a
    /// parsed first entry carries the base language.
    pub open spec fn wf(&self) -> bool {
        &&& forall|i: int| 0 <= i < self.entries@.len() ==> entry_wf(#[trigger] self.entries@[i])
        &&& entries_linked(self.entries@)
        &&& (self.entries@.len() >= 1 ==> match self.entries@[0].content {
            SyntaxSnapshotEntryContent::Parsed { language, .. } => language == self.base_language,
            SyntaxSnapshotEntryContent::Unparsed(_) => true,
        })
    }

    /// Start a full build: the queue holds the root command, nothing else.
    pub fn begin(base: LanguageId, text_len: usize) -> (r: SnapshotBuilder)
        requires
            text_len * 2 <= usize::MAX,
        ensures
            queue_view(r.queue@) == seq![spec_root_command(base, text_len)],
            r.entries@ == Seq::<SyntaxSnapshotEntry>::empty(),
            r.changed_ranges@ == Seq::<TextRange>::empty(),
            r.base_language == base,
            r.wf(),
    {
        let mut queue: Vec<ParseCommand> = Vec::new();
        queue.push(
            ParseCommand {
                depth: 0,
                language: ParseCommandLanguage::Known(base),
                included_ranges: Vec::new(),
                start_byte: 0,
                end_byte: text_len * 2,
                byte_offset: 0,
                point_offset: Point { row: 0, column: 0 },
            },
        );
        let r = SnapshotBuilder {
            queue,
            entries: Vec::new(),
            changed_ranges: Vec::new(),
            base_language: base,
        };
        proof {
            assert(queue_view(r.queue@) =~= seq![spec_root_command(base, text_len)]);
            assert(entries_linked(r.entries@)) by {
                reveal(entries_linked);
            }
        }
        r
    }

    /// Start an incremental rebuild: like `begin`, with the edit's own span
    /// seeded as the first changed range.
    pub fn begin_incremental(base: LanguageId, text_len: usize, edit: &EditDesc) -> (r:
        SnapshotBuilder)
        requires
            text_len * 2 <= usize::MAX,
        ensures
            queue_view(r.queue@) == seq![spec_root_command(base, text_len)],
            r.entries@ == Seq::<SyntaxSnapshotEntry>::empty(),
            r.changed_ranges@ == seq![edit.spec_span()],
            r.base_language == base,
            r.wf(),
    {
        let mut b = SnapshotBuilder::begin(base, text_len);
        b.changed_ranges.push(
            TextRange {
                start_byte: edit.start_byte,
                end_byte: edit.new_end_byte,
                start_point: edit.start_point,
                end_point: edit.new_end_point,
            },
        );
        proof {
            assert(b.changed_ranges@ =~= seq![edit.spec_span()]);
        }
        b
    }

    /// Pop the highest-priority command: lowest depth, then start, then end
    /// byte; the earliest on ties.
    pub fn next_command(&mut self) -> (r: Option<ParseCommand>)
        requires
            old(self).wf(),
        ensures
            final(self).wf(),
            final(self).base_language == old(self).base_language,
            final(self).entries@ == old(self).entries@,
            final(self).changed_ranges@ == old(self).changed_ranges@,
            match r {
                None => old(self).queue@.len() == 0 && final(self).queue@ == old(self).queue@,
                Some(c) => {
                    &&& old(self).queue@.len() > 0
                    &&& c@ == queue_view(old(self).queue@)[min_cmd_index(queue_view(old(self).queue@))]
                    &&& queue_view(final(self).queue@) == queue_view(old(self).queue@).remove(
                        min_cmd_index(queue_view(old(self).queue@)),
                    )
                },
            },
    {
        let n = self.queue.len();
        if n == 0 {
            return None;
        }
        let ghost q = queue_view(self.queue@);
        let mut best: usize = 0;
        let mut i: usize = 1;
        proof {
            assert(q.take(1) =~= q.drop_last().take(1) || q.len() == 1);
            assert(min_cmd_index(q.take(1)) == 0);
        }
        while i < n
            invariant
                n == self.queue@.len(),
                q == queue_view(self.queue@),
                1 <= i <= n,
                best < i,
                best == min_cmd_index(q.take(i as int)),
            decreases n - i,
        {
            proof {
                assert(q.take(i + 1).drop_last() =~= q.take(i as int));
                assert(q.take(i + 1).last() == q[i as int]);
                assert(forall|k: int| 0 <= k < i + 1 ==> q.take(i + 1)[k] == q[k]);
            }
            if cmd_lt_exec(&self.queue[i], &self.queue[best]) {
                best = i;
            }
            i = i + 1;
        }
        proof {
            assert(q.take(n as int) =~= q);
            lemma_min_cmd_index_bounds(q);
        }
        let cmd = self.queue.remove(best);
        proof {
            assert(queue_view(self.queue@) =~= q.remove(best as int));
        }
        Some(cmd)
    }

    /// Record that a command's region could not be parsed (or its language
    /// could not be resolved): an unparsed entry takes its place.
    pub fn supply_unparsed(&mut self, cmd: ParseCommand, registry: &LanguageRegistry)
        requires
            old(self).wf(),
            cmd.language matches ParseCommandLanguage::Known(id) ==> spec_index_by_id(
                registry.languages@,
                id,
            ) is Some,
            old(self).entries@.len() >= 1 ==> range_hosted(
                old(self).entries@,
                cmd.depth as int,
                cmd.start_byte,
                cmd.end_byte,
            ),
        ensures
            final(self).wf(),
            final(self).base_language == old(self).base_language,
            final(self).queue@ == old(self).queue@,
            final(self).changed_ranges@ == old(self).changed_ranges@,
            final(self).entries@ == old(self).entries@.push(
                spec_unparsed_entry(cmd@, registry.languages@),
            ),
    {
        let ghost cmdv = cmd@;
        let language: UnknownLanguage = match cmd.language {
            ParseCommandLanguage::Unknown(u) => u,
            ParseCommandLanguage::Known(id) => {
                match registry.language(id) {
                    Some(l) => UnknownLanguage::LanguageName(l.name.clone()),
                    None => {
                        proof {
                            assert(false);
                        }
                        UnknownLanguage::LanguageMimetype(String::new())
                    },
                }
            },
        };
        let ghost before = self.entries@;
        self.entries.push(
            SyntaxSnapshotEntry {
                depth: cmd.depth,
                content: SyntaxSnapshotEntryContent::Unparsed(language),
                start_byte: cmd.start_byte,
                end_byte: cmd.end_byte,
                byte_offset: cmd.byte_offset,
                point_offset: cmd.point_offset,
            },
        );
        proof {
            assert(self.entries@ =~= before.push(self.entries@.last()));
            lemma_linked_push(before, self.entries@.last());
        }
    }

    /// Record a successful parse: the parsed entry is appended, one child
    /// command per injection match is queued one depth further down, and
    /// the changed ranges grow by what the reparse reported (for a reused
    /// root) or by the command's own included ranges (for a fresh parse).
    pub fn supply_parsed(
        &mut self,
        cmd: ParseCommand,
        language: LanguageId,
        tree: SyntaxTree,
        injections: Vec<InjectionMatch>,
        registry: &LanguageRegistry,
        reported_changes: Option<Vec<TextRange>>,
    )
        requires
            old(self).wf(),
            entry_wf(spec_parsed_entry(cmd@, language, tree)),
            cmd.language == ParseCommandLanguage::Known(language),
            old(self).entries@.len() == 0 ==> cmd.depth == 0 && language == old(
                self,
            ).base_language,
            old(self).entries@.len() >= 1 ==> range_hosted(
                old(self).entries@,
                cmd.depth as int,
                cmd.start_byte,
                cmd.end_byte,
            ),
            cmd.depth < usize::MAX,
            forall|i: int|
                0 <= i < injections@.len() ==> (#[trigger] injections@[i]).included_ranges@.len()
                    >= 1,
            forall|i: int|
                0 <= i < injections@.len() ==> injection_in_tree(
                    tree,
                    cmd.byte_offset,
                    #[trigger] injections@[i],
                ),
        ensures
            final(self).wf(),
            final(self).base_language == old(self).base_language,
            final(self).entries@ == old(self).entries@.push(
                spec_parsed_entry(cmd@, language, tree),
            ),
            queue_view(final(self).queue@) == queue_view(old(self).queue@) + spec_child_commands(
                injections@,
                (cmd.depth + 1) as usize,
                registry.languages@,
            ),
            final(self).changed_ranges@ == old(self).changed_ranges@ + (match reported_changes {
                Some(r) => r@,
                None => cmd.included_ranges@,
            }),
    {
        let ghost cmdv = cmd@;
        let ghost old_queue = queue_view(self.queue@);
        let depth = cmd.depth + 1;
        let ParseCommand {
            depth: entry_depth,
            language: _,
            included_ranges,
            start_byte,
            end_byte,
            byte_offset,
            point_offset,
        } = cmd;
        let ghost before_entries = self.entries@;
        self.entries.push(
            SyntaxSnapshotEntry {
                depth: entry_depth,
                content: SyntaxSnapshotEntryContent::Parsed { language, tree },
                start_byte,
                end_byte,
                byte_offset,
                point_offset,
            },
        );
        proof {
            assert(self.entries@ =~= before_entries.push(self.entries@.last()));
            lemma_linked_push(before_entries, self.entries@.last());
        }
        let n = injections.len();
        let ghost ginjections = injections@;
        let ghost entries_after = self.entries@;
        let ghost changed_before = self.changed_ranges@;
        let mut rest = injections;
        proof {
            assert(ginjections.skip(0) =~= ginjections);
            assert(queue_view(self.queue@) =~= old_queue + spec_child_commands(
                ginjections.take(0),
                depth,
                registry.languages@,
            ));
        }
        let mut pushed: usize = 0;
        while rest.len() > 0
            invariant
                n == ginjections.len(),
                n <= usize::MAX,
                pushed + rest@.len() == n,
                rest@ == ginjections.skip(pushed as int),
                depth <= usize::MAX,
                self.entries@ == entries_after,
                self.changed_ranges@ == changed_before,
                self.base_language == old(self).base_language,
                self.wf(),
                forall|i: int|
                    0 <= i < ginjections.len() ==> (#[trigger] ginjections[i]).included_ranges@.len()
                        >= 1,
                queue_view(self.queue@) == old_queue + spec_child_commands(
                    ginjections.take(pushed as int),
                    depth,
                    registry.languages@,
                ),
            decreases rest@.len(),
    {
            let ghost before = queue_view(self.queue@);
            let inj = rest.remove(0);
            proof {
                assert(inj == ginjections[pushed as int]);
                assert(rest@ =~= ginjections.skip(pushed as int + 1));
            }
            let child = ParseCommand::from_injection(inj, depth, registry);
            self.queue.push(child);
            proof {
                assert(queue_view(self.queue@) =~= before.push(child@));
                assert(queue_view(self.queue@) =~= old_queue + spec_child_commands(
                    ginjections.take(pushed as int + 1),
                    depth,
                    registry.languages@,
                ));
            }
            pushed = pushed + 1;
        }
        proof {
            assert(ginjections.take(n as int) =~= ginjections);
        }
        match reported_changes {
            Some(ranges) => {
                append_ranges(&mut self.changed_ranges, ranges);
            },
            None => {
                append_ranges(&mut self.changed_ranges, included_ranges);
            },
        }
    }

    /// Close the build. The snapshot exists exactly when the first entry
    /// exists, sits at depth 0 and is parsed — that is, when the root
    /// region parsed successfully; failures of injected regions never
    /// abort the build.
    pub fn finish(self) -> (r: Option<(SyntaxSnapshot, Vec<TextRange>)>)
        requires
            self.wf(),
        ensures
            match r {
                Some(p) => {
                    &&& p.0.entries@ == self.entries@
                    &&& p.1@ == self.changed_ranges@
                    &&& p.0.wf()
                    &&& p.0.entries@[0].content matches SyntaxSnapshotEntryContent::Parsed {
                        language,
                        ..
                    } && language == self.base_language
                },
                None => !(self.entries@.len() >= 1 && self.entries@[0].depth == 0
                    && self.entries@[0].content is Parsed),
            },
    {
        if self.entries.len() == 0 {
            return None;
        }
        if self.entries[0].depth != 0 {
            return None;
        }
        let first_parsed = match &self.entries[0].content {
            SyntaxSnapshotEntryContent::Parsed { .. } => true,
            SyntaxSnapshotEntryContent::Unparsed(_) => false,
        };
        if !first_parsed {
            return None;
        }
        Some((SyntaxSnapshot { entries: self.entries }, self.changed_ranges))
    }
}

/// An injection naming a language absent from the catalog degrades and
/// never aborts the build: the expanded command keeps the unresolved
/// reference, the unparsed entry records that same hint, and `finish`
/// succeeds whenever the root entry parsed — an unparsed nested region is
/// never a reason for `None`.
pub proof fn lemma_unknown_language_degrades(
    inj: InjectionMatch,
    depth: usize,
    langs: Seq<Language>,
)
    requires
        inj.language matches UnknownLanguage::LanguageName(s) && spec_index_by_name(
            langs,
            s@,
        ) is None,
        inj.included_ranges@.len() >= 1,
    ensures
        spec_from_injection(inj, depth, langs).language == ParseCommandLanguage::Unknown(
            inj.language,
        ),
        spec_unparsed_entry(spec_from_injection(inj, depth, langs), langs).content
            == SyntaxSnapshotEntryContent::Unparsed(inj.language),
        spec_unparsed_entry(spec_from_injection(inj, depth, langs), langs).depth == depth,
{
}

/// One parse outcome handed back by the driver, as the stepping functions
/// consume it: the region failed (or its language never resolved), or it
/// parsed to a tree with the injections found in it, with the changed
/// ranges the engine reported for a reused root.
pub ghost enum BuildOutcome {
    Unparsed,
    Parsed {
        language: LanguageId,
        tree: SyntaxTree,
        injections: Seq<InjectionMatch>,
        reported_changes: Option<Seq<TextRange>>,
    },
}

/// The builder's state as one value.
pub ghost struct BuildStateV {
    pub queue: Seq<ParseCommandV>,
    pub entries: Seq<SyntaxSnapshotEntry>,
    pub changed: Seq<TextRange>,
}

/// One build step: pop the highest-priority command and apply the outcome,
/// exactly as `next_command` followed by `supply_unparsed` or
/// `supply_parsed` does.
pub open spec fn spec_build_step(
    state: BuildStateV,
    langs: Seq<Language>,
    o: BuildOutcome,
) -> BuildStateV {
    if state.queue.len() == 0 {
        state
    } else {
        let i = min_cmd_index(state.queue);
        let cmd = state.queue[i];
        let rest = state.queue.remove(i);
        match o {
            BuildOutcome::Unparsed => BuildStateV {
                queue: rest,
                entries: state.entries.push(spec_unparsed_entry(cmd, langs)),
                changed: state.changed,
            },
            BuildOutcome::Parsed { language, tree, injections, reported_changes } => BuildStateV {
                queue: rest + spec_child_commands(
                    injections,
                    ((cmd.depth + 1) as usize),
                    langs,
                ),
                entries: state.entries.push(spec_parsed_entry(cmd, language, tree)),
                changed: state.changed + (match reported_changes {
                    Some(r) => r,
                    None => cmd.included_ranges,
                }),
            },
        }
    }
}

/// A whole build: the steps applied first to last.
pub open spec fn spec_build_run(
    state: BuildStateV,
    langs: Seq<Language>,
    outcomes: Seq<BuildOutcome>,
) -> BuildStateV
    decreases outcomes.len(),
{
    if outcomes.len() == 0 {
        state
    } else {
        spec_build_run(spec_build_step(state, langs, outcomes[0]), langs, outcomes.skip(1))
    }
}

/// The state a full build starts from, and the one an incremental rebuild
/// starts from: the same root command and no entries; they differ only in
/// the seeded changed ranges.
pub open spec fn spec_begin_state(base: LanguageId, text_len: usize) -> BuildStateV {
    BuildStateV {
        queue: seq![spec_root_command(base, text_len)],
        entries: Seq::empty(),
        changed: Seq::empty(),
    }
}

pub open spec fn spec_begin_incremental_state(
    base: LanguageId,
    text_len: usize,
    edit: EditDesc,
) -> BuildStateV {
    BuildStateV {
        queue: seq![spec_root_command(base, text_len)],
        entries: Seq::empty(),
        changed: seq![edit.spec_span()],
    }
}

/// The queue and the entries a build produces never depend on the changed
/// ranges accumulated so far: a step reads only the queue and the outcome.
proof fn lemma_run_entries_ignore_changed(
    a: BuildStateV,
    b: BuildStateV,
    langs: Seq<Language>,
    outcomes: Seq<BuildOutcome>,
)
    requires
        a.queue == b.queue,
        a.entries == b.entries,
    ensures
        spec_build_run(a, langs, outcomes).queue == spec_build_run(b, langs, outcomes).queue,
        spec_build_run(a, langs, outcomes).entries == spec_build_run(b, langs, outcomes).entries,
    decreases outcomes.len(),
{
    if outcomes.len() > 0 {
        lemma_run_entries_ignore_changed(
            spec_build_step(a, langs, outcomes[0]),
            spec_build_step(b, langs, outcomes[0]),
            langs,
            outcomes.skip(1),
        );
    }
}

/// Rebuilding a snapshot from scratch on text equal to one reached through
/// an incremental edit yields the same entries — same boundaries, same
/// languages, same trees — provided the external engine returns the same
/// parse outcomes for the same regions. The two builders start from the
/// same queue and entries; only their seeded changed ranges differ, and no
/// step reads those.
pub proof fn lemma_rebuild_idempotent(
    base: LanguageId,
    text_len: usize,
    edit: EditDesc,
    langs: Seq<Language>,
    outcomes: Seq<BuildOutcome>,
)
    ensures
        spec_build_run(spec_begin_state(base, text_len), langs, outcomes).entries
            == spec_build_run(
            spec_begin_incremental_state(base, text_len, edit),
            langs,
            outcomes,
        ).entries,
{
    lemma_run_entries_ignore_changed(
        spec_begin_state(base, text_len),
        spec_begin_incremental_state(base, text_len, edit),
        langs,
        outcomes,
    );
}

/// The changed ranges of an incremental rebuild always include the edited
/// span: the builder seeds it as the first changed range, and every step
/// only appends.
pub proof fn lemma_changed_ranges_include_edit(
    base: LanguageId,
    text_len: usize,
    edit: EditDesc,
    langs: Seq<Language>,
    outcomes: Seq<BuildOutcome>,
)
    ensures
        spec_build_run(
            spec_begin_incremental_state(base, text_len, edit),
            langs,
            outcomes,
        ).changed.len() >= 1,
        spec_build_run(spec_begin_incremental_state(base, text_len, edit), langs, outcomes).changed[0]
            == edit.spec_span(),
{
    lemma_run_changed_prefix(spec_begin_incremental_state(base, text_len, edit), langs, outcomes);
    assert(spec_begin_incremental_state(base, text_len, edit).changed == seq![edit.spec_span()]);
    assert(spec_begin_incremental_state(base, text_len, edit).changed[0] == edit.spec_span());
}

/// A run only appends to the changed ranges.
proof fn lemma_run_changed_prefix(
    state: BuildStateV,
    langs: Seq<Language>,
    outcomes: Seq<BuildOutcome>,
)
    ensures
        spec_build_run(state, langs, outcomes).changed.len() >= state.changed.len(),
        forall|i: int|
            0 <= i < state.changed.len() ==> spec_build_run(state, langs, outcomes).changed[i]
                == state.changed[i],
    decreases outcomes.len(),
{
    if outcomes.len() > 0 {
        let s2 = spec_build_step(state, langs, outcomes[0]);
        assert(s2.changed.len() >= state.changed.len());
        assert forall|i: int| 0 <= i < state.changed.len() implies s2.changed[i] == state.changed[i]
        by {
            if state.queue.len() > 0 {
                match outcomes[0] {
                    BuildOutcome::Unparsed => {},
                    BuildOutcome::Parsed { reported_changes, .. } => {},
                }
            }
        }
        lemma_run_changed_prefix(s2, langs, outcomes.skip(1));
    }
}

} // verus!
