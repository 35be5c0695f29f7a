//! One parser and editor per document format. Everything else talks to structure through
//! [`StructureProvider`], never to a concrete format: the structural edits are default
//! methods written once over `parse` and the two format primitives (`marker`, `max_level`).
use vstd::prelude::*;

use crate::document::Document;
use crate::edits::{
    cycle_priority_in, cycle_todo_in, demote_heading_in, demote_subtree_in, demoted, edit_done,
    insert_sibling_in, marker_byte, max_level_usize, move_subtree_down_in, move_subtree_up_in,
    moved_down, moved_up, planning_set, priority_cycled, promote_heading_in, promote_subtree_in,
    promoted, set_planning_in, set_tags_in, sibling_inserted, subtree_demoted, subtree_promoted,
    tags_set, todo_cycled, EditOutcome, Planning,
};
use crate::structure::{outline_is, parse_outline, Format, Outline};
use crate::timestamp::{printable_ts, Timestamp};

verus! {

/// The format a marker byte stands for: `*` is Org, anything else Markdown.
fn format_of_marker(m: u8) -> (f: Format)
    ensures
        m == marker_byte(Format::Org) ==> f == Format::Org,
        m == marker_byte(Format::Markdown) ==> f == Format::Markdown,
{
    if m == 42 {
        Format::Org
    } else {
        Format::Markdown
    }
}

/// A parser + editor of one document format's structure.
pub trait StructureProvider {
    /// The format this provider reads and writes.
    spec fn kind(&self) -> Format;

    /// Scan `doc` into an [`Outline`].
    fn parse(&self, doc: &Document) -> (o: Outline)
        ensures
            outline_is(o, self.kind(), doc@),
    ;

    /// Cycle the TODO keyword on the heading at `line`: none → `TODO` → `DONE` → none.
    /// A no-op if that line is not a heading.
    fn cycle_todo(&self, doc: &mut Document, line: usize)
        ensures
            match todo_cycled(self.kind(), old(doc)@, line as int) {
                Some(t) => final(doc)@ == t && final(doc).modified_flag(),
                None => *final(doc) == *old(doc),
            },
    ;

    /// The heading marker byte (`*` for Org, `#` for Markdown).
    fn marker(&self) -> (m: u8)
        ensures
            m == marker_byte(self.kind()),
    ;

    /// The deepest legal heading level, if the format has one.
    fn max_level(&self) -> (r: Option<usize>)
        ensures
            r == max_level_usize(self.kind()),
    ;

    /// Promote the enclosing heading one level (children keep theirs).
    fn promote_heading(&self, doc: &mut Document, line: usize) -> (r: EditOutcome)
        ensures
            edit_done(r, promoted(self.kind(), old(doc)@, line), *old(doc), *final(doc)),
    {
        let f = format_of_marker(self.marker());
        promote_heading_in(f, doc, line)
    }

    /// Demote the enclosing heading one level (children keep theirs).
    fn demote_heading(&self, doc: &mut Document, line: usize) -> (r: EditOutcome)
        ensures
            edit_done(r, demoted(self.kind(), old(doc)@, line), *old(doc), *final(doc)),
    {
        let f = format_of_marker(self.marker());
        demote_heading_in(f, doc, line)
    }

    /// Promote the enclosing heading and every heading in its subtree.
    fn promote_subtree(&self, doc: &mut Document, line: usize) -> (r: EditOutcome)
        ensures
            edit_done(r, subtree_promoted(self.kind(), old(doc)@, line), *old(doc), *final(doc)),
    {
        let f = format_of_marker(self.marker());
        promote_subtree_in(f, doc, line)
    }

    /// Demote the enclosing heading and every heading in its subtree.
    fn demote_subtree(&self, doc: &mut Document, line: usize) -> (r: EditOutcome)
        ensures
            edit_done(r, subtree_demoted(self.kind(), old(doc)@, line), *old(doc), *final(doc)),
    {
        let f = format_of_marker(self.marker());
        demote_subtree_in(f, doc, line)
    }

    /// Swap the enclosing subtree with the previous same-level sibling subtree.
    fn move_subtree_up(&self, doc: &mut Document, line: usize) -> (r: EditOutcome)
        ensures
            edit_done(r, moved_up(self.kind(), old(doc)@, line), *old(doc), *final(doc)),
    {
        let f = format_of_marker(self.marker());
        move_subtree_up_in(f, doc, line)
    }

    /// Swap the enclosing subtree with the next same-level sibling subtree.
    fn move_subtree_down(&self, doc: &mut Document, line: usize) -> (r: EditOutcome)
        requires
            line + old(doc)@.len() + 1 <= usize::MAX,
        ensures
            edit_done(r, moved_down(self.kind(), old(doc)@, line), *old(doc), *final(doc)),
    {
        let f = format_of_marker(self.marker());
        move_subtree_down_in(f, doc, line)
    }

    /// Insert a new (possibly `TODO`) sibling heading after the enclosing subtree; with no
    /// enclosing heading, append a level-1 heading at the end of the document.
    fn insert_sibling(&self, doc: &mut Document, line: usize, todo: bool) -> (r: EditOutcome)
        ensures
            edit_done(r, sibling_inserted(self.kind(), old(doc)@, line, todo), *old(doc), *final(doc)),
    {
        let f = format_of_marker(self.marker());
        insert_sibling_in(f, doc, line, todo)
    }

    /// Cycle the `[#X]` cookie on the enclosing heading: up = none→C→B→A, down = A→B→C→none.
    fn cycle_priority(&self, doc: &mut Document, line: usize, up: bool) -> (r: EditOutcome)
        ensures
            edit_done(r, priority_cycled(self.kind(), old(doc)@, line, up), *old(doc), *final(doc)),
    {
        let f = format_of_marker(self.marker());
        cycle_priority_in(f, doc, line, up)
    }

    /// Replace the enclosing heading's trailing tag run with `tags` (empty = remove).
    /// Tags must already satisfy [`is_valid_tag`](crate::edits::is_valid_tag).
    fn set_tags(&self, doc: &mut Document, line: usize, tags: &[String]) -> (r: EditOutcome)
        ensures
            edit_done(r, tags_set(self.kind(), old(doc)@, line, tags@), *old(doc), *final(doc)),
    {
        let f = format_of_marker(self.marker());
        set_tags_in(f, doc, line, tags)
    }

    /// Set, replace, or remove (`ts = None`) the enclosing heading's `SCHEDULED`/`DEADLINE`
    /// timestamp on the planning line directly below it. `SCHEDULED` is written before
    /// `DEADLINE`; an empty planning line is removed entirely.
    fn set_planning(&self, doc: &mut Document, line: usize, which: Planning, ts: Option<Timestamp>) -> (r: EditOutcome)
        requires
            ts matches Some(t) ==> printable_ts(t),
        ensures
            edit_done(r, planning_set(self.kind(), old(doc)@, line, which, ts), *old(doc), *final(doc)),
    {
        let f = format_of_marker(self.marker());
        set_planning_in(f, doc, line, which, ts)
    }
}

/// The Org-syntax structure provider: headings are `*`-prefixed lines
/// (`^(\*+) +(?:(TODO|DONE) +)?title`).
pub struct OrgProvider;

impl StructureProvider for OrgProvider {
    open spec fn kind(&self) -> Format {
        Format::Org
    }

    fn parse(&self, doc: &Document) -> (o: Outline) {
        parse_outline(Format::Org, doc)
    }

    fn cycle_todo(&self, doc: &mut Document, line: usize) {
        cycle_todo_in(Format::Org, doc, line)
    }

    fn marker(&self) -> (m: u8) {
        42
    }

    fn max_level(&self) -> (r: Option<usize>) {
        None
    }
}

/// The Markdown-syntax structure provider: ATX headings — `#{1,6}` at column 0, a required
/// space, and a non-empty title — outside fenced code blocks. Setext (underline) headings are
/// not recognized, and closing hash runs (`## title ##`) stay in the title.
pub struct MarkdownProvider;

impl StructureProvider for MarkdownProvider {
    open spec fn kind(&self) -> Format {
        Format::Markdown
    }

    fn parse(&self, doc: &Document) -> (o: Outline) {
        parse_outline(Format::Markdown, doc)
    }

    fn cycle_todo(&self, doc: &mut Document, line: usize) {
        cycle_todo_in(Format::Markdown, doc, line)
    }

    fn marker(&self) -> (m: u8) {
        35
    }

    fn max_level(&self) -> (r: Option<usize>) {
        Some(6)
    }
}

impl StructureProvider for Format {
    open spec fn kind(&self) -> Format {
        *self
    }

    fn parse(&self, doc: &Document) -> (o: Outline) {
        parse_outline(*self, doc)
    }

    fn cycle_todo(&self, doc: &mut Document, line: usize) {
        cycle_todo_in(*self, doc, line)
    }

    fn marker(&self) -> (m: u8) {
        match self {
            Format::Org => 42,
            Format::Markdown => 35,
        }
    }

    fn max_level(&self) -> (r: Option<usize>) {
        match self {
            Format::Org => None,
            Format::Markdown => Some(6),
        }
    }
}

} // verus!
