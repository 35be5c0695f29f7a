//! The editor session: the open buffers (each a document with its cursor, folds, outline and
//! format), which one is active, the mode, and the status line — and every transition a key
//! press makes. The session does no I/O: where a key asks for the file system, the transition
//! returns an [`Effect`] for the driver to perform and report back.
use vstd::prelude::*;
use vstd::view::View as HasView;

use crate::commands::{category_at, command_table, row_key, rows_in, Category, CommandInfo};
use crate::document::{line_body, Document};
use crate::search::{found, Match};
use crate::editor::{DatePurpose, Mode};
use crate::keymap::{action_for, key_to_action, Action, Key, KeyCode, KeyKind};
use crate::editor::PromptEvent;
use crate::edits::{
    demoted, edit_done, moved_down, moved_up, planning_set, priority_cycled, promoted,
    shift_timestamp, subtree_demoted, subtree_promoted, tags_set, timestamp_shifted, EditOutcome,
    Planning,
};
use crate::timestamp::{printable_ts, timestamp_text, Timestamp};
use crate::provider::StructureProvider;
use crate::structure::{detect_format, outline_is, parse_outline, Format, Outline};
use crate::text::{chars_of, chars_of_string, string_of};
use crate::view::{clamp_pos, last_line, line_len, View};

verus! {

/// The name of the file `path` names (`Path::file_name`), as text.
pub uninterp spec fn path_file_name(path: Seq<char>) -> Option<Seq<char>>;

/// The final component of `path` (`Path::new(path).file_name()`, lossily as text). Its result
/// is named: the path grammar is std's.
#[verifier::external_body]
fn file_name(path: &str) -> (r: Option<String>)
    ensures
        match r {
            Some(n) => path_file_name(path@) == Some(n@),
            None => path_file_name(path@) is None,
        },
{
    std::path::Path::new(path).file_name().map(|n| n.to_string_lossy().into_owned())
}

/// One open file and everything the editor remembers about it.
pub struct Buffer {
    /// The text.
    pub doc: Document,
    /// The caret.
    pub view: View,
    /// Heading lines that are currently collapsed.
    pub folded: Vec<usize>,
    /// The outline, re-derived after every edit so fold ranges stay correct.
    pub outline: Outline,
    /// Top document line of the viewport.
    pub scroll_top: usize,
    /// How the text is read: Org or Markdown.
    pub format: Format,
    /// Where the file lives, once it has been loaded from or saved to disk.
    pub path: Option<String>,
    /// For a buffer opened on a not-yet-existing path: where the first save should go.
    pub stash_path: Option<String>,
}

/// `s` without its trailing carriage returns.
pub open spec fn without_cr(s: Seq<char>) -> Seq<char>
    decreases s.len(),
{
    if s.len() > 0 && s.last() == '\r' {
        without_cr(s.drop_last())
    } else {
        s
    }
}

/// A line's text as shown: trailing carriage returns dropped, tabs expanded, and ` …`
/// after a folded heading.
pub open spec fn shown_text(body: Seq<char>, folded: bool) -> Seq<char> {
    let t = without_cr(body);
    crate::display::expanded(t, t.len() as int) + if folded {
        seq![' ', '…']
    } else {
        seq![]
    }
}

/// Whether `line` is the line of one of `o`'s headings.
pub open spec fn is_heading_line(o: Outline, line: int) -> bool {
    exists|k: int| 0 <= k < o.headings@.len() && #[trigger] o.headings@[k].line == line
}

/// A buffer's invariant: its outline is its text's, its caret lies inside the text, and its
/// folds sit on heading lines.
pub open spec fn buffer_ok(b: Buffer) -> bool {
    &&& outline_is(b.outline, b.format, b.doc@)
    &&& b.view.placed(b.doc@)
    &&& forall|j: int| 0 <= j < b.folded@.len() ==> is_heading_line(b.outline, #[trigger] b.folded@[j] as int)
}

/// The text a path names the format by.
pub open spec fn format_source(path: Option<String>, stash: Option<String>) -> Option<Seq<char>> {
    match path {
        Some(p) => Some(p@),
        None => match stash {
            Some(p) => Some(p@),
            None => None,
        },
    }
}

impl Buffer {
    /// A buffer over a document that was not loaded from a file; `stash_path` is where it
    /// will first save (a path that did not exist yet when it was opened).
    pub fn new(doc: Document, stash_path: Option<String>) -> (b: Buffer)
        ensures
            buffer_ok(b),
            b.doc == doc,
            b.path is None,
            b.stash_path == stash_path,
            b.format == crate::structure::format_for_extension(
                match stash_path {
                    Some(p) => crate::structure::path_extension(p@),
                    None => None,
                },
            ),
            b.folded@.len() == 0,
            b.scroll_top == 0,
            b.view.at(0, 0, 0),
    {
        Buffer::with_paths(doc, None, stash_path)
    }

    /// A buffer over a document that was read from the file at `path`.
    pub fn opened(doc: Document, path: String) -> (b: Buffer)
        ensures
            buffer_ok(b),
            b.doc == doc,
            b.path == Some(path),
            b.stash_path is None,
            b.format == crate::structure::format_for_extension(crate::structure::path_extension(path@)),
            b.folded@.len() == 0,
            b.scroll_top == 0,
            b.view.at(0, 0, 0),
    {
        Buffer::with_paths(doc, Some(path), None)
    }

    /// A buffer over `doc`, loaded from `path` (if any); `stash_path` is where a file that did
    /// not exist yet will first save. The format follows the file name.
    fn with_paths(doc: Document, path: Option<String>, stash_path: Option<String>) -> (b: Buffer)
        ensures
            buffer_ok(b),
            b.doc == doc,
            b.path == path,
            b.stash_path == stash_path,
            b.format == crate::structure::format_for_extension(
                match format_source(path, stash_path) {
                    Some(p) => crate::structure::path_extension(p),
                    None => None,
                },
            ),
            b.folded@.len() == 0,
            b.scroll_top == 0,
            b.view.at(0, 0, 0),
    {
        let format = match &path {
            Some(p) => detect_format(Some(p.as_str())),
            None => match &stash_path {
                Some(p) => detect_format(Some(p.as_str())),
                None => detect_format(None),
            },
        };
        let outline = parse_outline(format, &doc);
        let view = View::new();
        proof {
            crate::document::lemma_line_count_bounds(doc@);
        }
        Buffer { doc, view, folded: Vec::new(), outline, scroll_top: 0, format, path, stash_path }
    }

    /// An untitled, empty buffer.
    pub fn untitled() -> (b: Buffer)
        ensures
            buffer_ok(b),
            b.doc@.len() == 0,
            b.path is None,
            b.stash_path is None,
            b.format == Format::Org,
    {
        Buffer::new(Document::new(), None)
    }

    /// The name shown in the status line and buffer list: the file name of the buffer's path,
    /// else of the stashed first-save path, else `[No Name]`.
    pub fn display_name(&self) -> (r: String)
        ensures
            r@ == buffer_name(*self),
    {
        let named = match &self.path {
            Some(p) => file_name(p.as_str()),
            None => match &self.stash_path {
                Some(p) => file_name(p.as_str()),
                None => None,
            },
        };
        match named {
            Some(n) => n,
            None => {
                let v = vec!['[', 'N', 'o', ' ', 'N', 'a', 'm', 'e', ']'];
                assert(v@ =~= no_name());
                string_of(&v)
            },
        }
    }

    /// Whether the buffer has unsaved changes.
    pub fn is_dirty(&self) -> (r: bool)
        ensures
            r == self.doc.modified_flag(),
    {
        self.doc.is_modified()
    }
}

/// Whether two spellings `a` and `b` name the same file, given what each resolves to on disk
/// (`None`: it does not resolve): the resolved forms where both resolve, else the spellings.
pub open spec fn same_file(a: Seq<char>, b: Seq<char>, ra: Option<Seq<char>>, rb: Option<Seq<char>>) -> bool {
    match (ra, rb) {
        (Some(x), Some(y)) => x == y,
        _ => a == b,
    }
}

/// The view of an optional string.
pub open spec fn opt_view(o: Option<String>) -> Option<Seq<char>> {
    match o {
        Some(s) => Some(s@),
        None => None,
    }
}

/// Whether `a` and `b` name the same file; `resolved_a` and `resolved_b` are what each
/// resolves to on disk, `None` where it does not resolve (a file that does not exist yet).
pub fn same_path(a: &str, b: &str, resolved_a: Option<String>, resolved_b: Option<String>) -> (r: bool)
    ensures
        r == same_file(a@, b@, opt_view(resolved_a), opt_view(resolved_b)),
{
    same_path_in(a, b, &resolved_a, &resolved_b)
}

fn same_path_in(a: &str, b: &str, resolved_a: &Option<String>, resolved_b: &Option<String>) -> (r: bool)
    ensures
        r == same_file(a@, b@, opt_view(*resolved_a), opt_view(*resolved_b)),
{
    match (resolved_a, resolved_b) {
        (Some(x), Some(y)) => {
            let xv = crate::text::chars_of_string(x);
            let yv = crate::text::chars_of_string(y);
            crate::text::chars_eq(&xv, &yv)
        },
        _ => {
            let av = crate::text::chars_of(a);
            let bv = crate::text::chars_of(b);
            crate::text::chars_eq(&av, &bv)
        },
    }
}

/// Whether the optional path `own` names the same file as `path`.
pub open spec fn names_file(own: Option<String>, own_resolved: Option<Seq<char>>, path: Seq<char>, resolved: Option<Seq<char>>) -> bool {
    match own {
        Some(p) => same_file(p@, path, own_resolved, resolved),
        None => false,
    }
}

fn optional_same_path(own: &Option<String>, own_resolved: &Option<String>, path: &str, resolved: &Option<String>) -> (r: bool)
    ensures
        r == names_file(*own, opt_view(*own_resolved), path@, opt_view(*resolved)),
{
    match own {
        Some(p) => same_path_in(p.as_str(), path, own_resolved, resolved),
        None => false,
    }
}

impl Buffer {
    /// Whether this buffer is the one `path` names: its document path or its stashed
    /// first-save path names the same file. `resolved` is what `path` resolves to on disk,
    /// `own_resolved` what the buffer's two paths resolve to (`None` where a path does not
    /// resolve).
    pub fn matches_path(&self, path: &str, resolved: Option<String>, own_resolved: (Option<String>, Option<String>)) -> (r: bool)
        ensures
            r == (names_file(self.path, opt_view(own_resolved.0), path@, opt_view(resolved))
                || names_file(self.stash_path, opt_view(own_resolved.1), path@, opt_view(resolved))),
    {
        optional_same_path(&self.path, &own_resolved.0, path, &resolved)
            || optional_same_path(&self.stash_path, &own_resolved.1, path, &resolved)
    }
}

/// What entry `i` of `own` says the buffer's paths resolve to; nothing past its end.
pub open spec fn own_at(own: Seq<(Option<String>, Option<String>)>, i: int) -> (Option<String>, Option<String>) {
    if 0 <= i < own.len() {
        own[i]
    } else {
        (None, None)
    }
}

/// The name shown for buffer `b`: the file name of its path, else of its stashed first-save
/// path, else `[No Name]`.
pub open spec fn buffer_name(b: Buffer) -> Seq<char> {
    match format_source(b.path, b.stash_path) {
        Some(p) => match path_file_name(p) {
            Some(n) => n,
            None => no_name(),
        },
        None => no_name(),
    }
}

/// Whether `line` lies inside the collapsed subtree of a folded heading of `b` (the heading
/// line itself stays visible).
pub open spec fn hidden_line(b: Buffer, line: int) -> bool {
    exists|k: int|
        0 <= k < b.outline.headings@.len() && {
            let h = #[trigger] b.outline.headings@[k];
            b.folded@.contains(h.line) && h.line < line <= h.last_line
        }
}

/// The first `n` lines of `b` at or after `line` that are not folded away.
pub open spec fn rows_from(b: Buffer, line: int, n: int) -> Seq<int>
    decreases crate::document::line_count(b.doc@) - line,
{
    if n <= 0 || line < 0 || line >= crate::document::line_count(b.doc@) {
        seq![]
    } else if hidden_line(b, line) {
        rows_from(b, line + 1, n)
    } else {
        seq![line] + rows_from(b, line + 1, n - 1)
    }
}

/// `[No Name]`
pub open spec fn no_name() -> Seq<char> {
    seq!['[', 'N', 'o', ' ', 'N', 'a', 'm', 'e', ']']
}

/// What the driver must do for the session: the file-system work a key asked for.
#[derive(Debug, Clone, PartialEq, Eq)]
pub enum Effect {
    /// Nothing.
    Nothing,
    /// Write the active buffer's text to `path`; `rename` also makes `path` the buffer's own
    /// (a save-as). Report back with [`App::saved`].
    Write { path: String, rename: bool },
    /// Expand the path typed into the Save As prompt and save the active buffer there, as a
    /// `Write` with `rename`.
    SaveAsTyped(String),
    /// Expand the path typed into the Open prompt and open it: switch to its buffer if one is
    /// open on it ([`App::switch_to`]), else add a buffer ([`App::add_buffer`]).
    OpenTyped(String),
    /// Complete the path typed so far against the file system; report back with
    /// [`App::set_prompt_input`].
    Complete(String),
}

/// The whole editor: the open buffers, which one is active, and the mode and status line.
pub struct App {
    buffers: Vec<Buffer>,
    active: usize,
    mode: Mode,
    page: usize,
    status: String,
    should_quit: bool,
}

impl App {
    /// What the invariant promises: some buffers, the active one among them, each consistent.
    pub proof fn lemma_wf(&self)
        requires
            self.wf(),
        ensures
            self.buffers_v().len() >= 1,
            0 <= self.active_v() < self.buffers_v().len(),
            forall|i: int| 0 <= i < self.buffers_v().len() ==> buffer_ok(#[trigger] self.buffers_v()[i]),
    {
    }

    /// The session's invariant: at least one buffer, the active one among them, every buffer
    /// consistent, and a page of at least one line.
    pub closed spec fn wf(&self) -> bool {
        &&& self.buffers@.len() >= 1
        &&& self.active < self.buffers@.len()
        &&& forall|i: int| 0 <= i < self.buffers@.len() ==> buffer_ok(#[trigger] self.buffers@[i])
        &&& self.page >= 1
        &&& self.mode matches Mode::BufferList { selected } ==> selected < self.buffers@.len()
        &&& self.mode matches Mode::HelpMenu { category, selected } ==> category < 7 && selected
            < help_len(category as int)
    }

    /// The open buffers.
    pub closed spec fn buffers_v(&self) -> Seq<Buffer> {
        self.buffers@
    }

    /// The active buffer's index.
    pub closed spec fn active_v(&self) -> int {
        self.active as int
    }

    /// The active buffer.
    pub open spec fn active_buffer(&self) -> Buffer {
        self.buffers_v()[self.active_v()]
    }

    /// The mode.
    pub closed spec fn mode_v(&self) -> Mode {
        self.mode
    }

    /// The status-line message.
    pub closed spec fn status_v(&self) -> Seq<char> {
        self.status@
    }

    /// Whether the editor should quit.
    pub closed spec fn quit_v(&self) -> bool {
        self.should_quit
    }

    /// Lines per page.
    pub closed spec fn page_v(&self) -> int {
        self.page as int
    }

    /// An editor over `buffers`, the first active; no buffers get one untitled buffer.
    pub fn new(buffers: Vec<Buffer>) -> (app: App)
        requires
            forall|i: int| 0 <= i < buffers@.len() ==> buffer_ok(#[trigger] buffers@[i]),
        ensures
            app.wf(),
            buffers@.len() > 0 ==> app.buffers_v() == buffers@,
            buffers@.len() == 0 ==> app.buffers_v().len() == 1 && app.active_buffer().doc@.len() == 0,
            app.active_v() == 0,
            app.mode_v() == Mode::Edit,
            app.status_v().len() == 0,
            !app.quit_v(),
    {
        let mut buffers = buffers;
        if buffers.len() == 0 {
            buffers.push(Buffer::untitled());
        }
        App { buffers, active: 0, mode: Mode::Edit, page: 1, status: String::new(), should_quit: false }
    }

    // ---- read-only accessors --------------------------------------------------------

    /// The active buffer's text.
    pub fn document(&self) -> (r: &Document)
        requires
            self.wf(),
        ensures
            *r == self.active_buffer().doc,
    {
        &self.buffers[self.active].doc
    }

    /// The active buffer's caret.
    pub fn view(&self) -> (r: &View)
        requires
            self.wf(),
        ensures
            *r == self.active_buffer().view,
    {
        &self.buffers[self.active].view
    }

    /// The mode.
    pub fn mode(&self) -> (r: &Mode)
        ensures
            *r == self.mode_v(),
    {
        &self.mode
    }

    /// The active buffer's outline.
    pub fn outline(&self) -> (r: &Outline)
        requires
            self.wf(),
        ensures
            *r == self.active_buffer().outline,
    {
        &self.buffers[self.active].outline
    }

    /// The active buffer's format.
    pub fn format(&self) -> (r: Format)
        requires
            self.wf(),
        ensures
            r == self.active_buffer().format,
    {
        self.buffers[self.active].format
    }

    /// The top line of the active buffer's viewport.
    pub fn scroll_top(&self) -> (r: usize)
        requires
            self.wf(),
        ensures
            r == self.active_buffer().scroll_top,
    {
        self.buffers[self.active].scroll_top
    }

    /// The status-line message.
    pub fn status(&self) -> (r: &str)
        ensures
            r@ == self.status_v(),
    {
        self.status.as_str()
    }

    /// Whether the editor should quit.
    pub fn should_quit(&self) -> (r: bool)
        ensures
            r == self.quit_v(),
    {
        self.should_quit
    }

    /// The index of the active buffer (0-based).
    pub fn active_index(&self) -> (r: usize)
        ensures
            r == self.active_v(),
    {
        self.active
    }

    /// How many buffers are open.
    pub fn buffer_count(&self) -> (r: usize)
        ensures
            r == self.buffers_v().len(),
    {
        self.buffers.len()
    }

    /// The path of the active buffer's file, if it has one.
    pub fn active_path(&self) -> (r: Option<String>)
        requires
            self.wf(),
        ensures
            r == self.active_buffer().path,
    {
        match &self.buffers[self.active].path {
            Some(p) => Some(p.clone()),
            None => None,
        }
    }

    /// The paths each open buffer answers to — its file's and its stashed first-save path.
    pub fn buffer_paths(&self) -> (r: Vec<(Option<String>, Option<String>)>)
        ensures
            r@.len() == self.buffers_v().len(),
            forall|i: int| 0 <= i < r@.len() ==> (#[trigger] r@[i]).0 == self.buffers_v()[i].path
                && r@[i].1 == self.buffers_v()[i].stash_path,
    {
        let mut r: Vec<(Option<String>, Option<String>)> = Vec::new();
        let mut i: usize = 0;
        while i < self.buffers.len()
            invariant
                i <= self.buffers@.len(),
                r@.len() == i,
                forall|k: int| 0 <= k < i ==> (#[trigger] r@[k]).0 == self.buffers@[k].path && r@[k].1
                    == self.buffers@[k].stash_path,
            decreases self.buffers@.len() - i,
        {
            let p = match &self.buffers[i].path {
                Some(p) => Some(p.clone()),
                None => None,
            };
            let q = match &self.buffers[i].stash_path {
                Some(p) => Some(p.clone()),
                None => None,
            };
            r.push((p, q));
            i = i + 1;
        }
        r
    }

    /// Whether open buffer `i` is the one `path` names, with `own` what its two paths
    /// resolve to.
    pub open spec fn buffer_names(&self, i: int, own: (Option<String>, Option<String>), path: Seq<char>, resolved: Option<Seq<char>>) -> bool {
        names_file(self.buffers_v()[i].path, opt_view(own.0), path, resolved)
            || names_file(self.buffers_v()[i].stash_path, opt_view(own.1), path, resolved)
    }

    /// The first open buffer that `path` names. `resolved` is what `path` resolves to on
    /// disk; `own[i]` what buffer `i`'s two paths resolve to (a buffer past the end of `own`
    /// counts as resolving neither).
    pub fn buffer_for_path(&self, path: &str, resolved: Option<String>, own: &Vec<(Option<String>, Option<String>)>) -> (r: Option<usize>)
        ensures
            match r {
                Some(i) => {
                    &&& i < self.buffers_v().len()
                    &&& self.buffer_names(i as int, own_at(own@, i as int), path@, opt_view(resolved))
                    &&& forall|j: int| 0 <= j < i ==> !self.buffer_names(j, #[trigger] own_at(own@, j), path@, opt_view(resolved))
                },
                None => forall|j: int| 0 <= j < self.buffers_v().len() ==> !self.buffer_names(j, #[trigger] own_at(own@, j), path@, opt_view(resolved)),
            },
    {
        let mut i: usize = 0;
        while i < self.buffers.len()
            invariant
                i <= self.buffers@.len(),
                forall|j: int| 0 <= j < i ==> !self.buffer_names(j, #[trigger] own_at(own@, j), path@, opt_view(resolved)),
            decreases self.buffers@.len() - i,
        {
            let hit = if i < own.len() {
                self.buffers[i].matches_path(path, resolved.clone(), (own[i].0.clone(), own[i].1.clone()))
            } else {
                self.buffers[i].matches_path(path, resolved.clone(), (None, None))
            };
            if hit {
                return Some(i);
            }
            i = i + 1;
        }
        None
    }

    /// The document lines a body of `height` rows shows, top to bottom: from the viewport's
    /// top line on, skipping folded-away lines.
    pub fn visible_lines(&self, height: usize) -> (r: Vec<usize>)
        requires
            self.wf(),
        ensures
            r@.map_values(|l: usize| l as int) == rows_from(self.active_buffer(), self.active_buffer().scroll_top as int, height as int),
    {
        let ghost b = self.active_buffer();
        let ghost top = b.scroll_top as int;
        let count = self.buffers[self.active].doc.line_count();
        let mut rows: Vec<usize> = Vec::new();
        let mut line: usize = self.buffers[self.active].scroll_top;
        proof {
            assert(rows@.map_values(|l: usize| l as int) =~= Seq::<int>::empty());
            assert(Seq::<int>::empty() + rows_from(b, top, height as int) =~= rows_from(b, top, height as int));
        }
        while rows.len() < height && line < count
            invariant
                self.wf(),
                b == self.active_buffer(),
                count as int == crate::document::line_count(b.doc@),
                rows@.len() <= height,
                rows@.map_values(|l: usize| l as int) + rows_from(b, line as int, height - rows@.len()) == rows_from(b, top, height as int),
            decreases count - line,
        {
            let ghost before = rows@.map_values(|l: usize| l as int);
            if !self.is_hidden(line) {
                rows.push(line);
                assert(rows@.map_values(|l: usize| l as int) =~= before.push(line as int));
                assert(rows_from(b, line as int, height - before.len()) == seq![line as int] + rows_from(b, line + 1, height - rows@.len()));
                assert(before + rows_from(b, line as int, height - before.len()) =~= rows@.map_values(|l: usize| l as int) + rows_from(b, line + 1, height - rows@.len()));
            }
            line = line + 1;
        }
        proof {
            assert(rows_from(b, line as int, height - rows@.len()) =~= Seq::<int>::empty());
            assert(rows@.map_values(|l: usize| l as int) + Seq::<int>::empty() =~= rows@.map_values(|l: usize| l as int));
        }
        rows
    }

    /// `(display_name, is_dirty)` per open buffer, for the status line and buffer list.
    pub fn buffer_labels(&self) -> (r: Vec<(String, bool)>)
        ensures
            r@.len() == self.buffers_v().len(),
            forall|i: int| 0 <= i < r@.len() ==> (#[trigger] r@[i]).1 == self.buffers_v()[i].doc.modified_flag()
                && r@[i].0@ == buffer_name(self.buffers_v()[i]),
    {
        let mut r: Vec<(String, bool)> = Vec::new();
        let mut i: usize = 0;
        while i < self.buffers.len()
            invariant
                i <= self.buffers@.len(),
                r@.len() == i,
                forall|k: int| 0 <= k < i ==> (#[trigger] r@[k]).1 == self.buffers@[k].doc.modified_flag()
                    && r@[k].0@ == buffer_name(self.buffers@[k]),
            decreases self.buffers@.len() - i,
        {
            r.push((self.buffers[i].display_name(), self.buffers[i].is_dirty()));
            i = i + 1;
        }
        r
    }
    /// How document line `line` of the active buffer is shown: its text without trailing
    /// carriage returns, tabs expanded, and ` …` after a folded heading; and whether it is a
    /// heading line (shown in bold).
    pub fn shown_line(&self, line: usize) -> (r: (String, bool))
        requires
            self.wf(),
        ensures
            r.0@ == shown_text(line_body(self.active_buffer().doc@, line as int), self.active_buffer().folded@.contains(line)),
            r.1 == is_heading_line(self.active_buffer().outline, line as int),
    {
        let b = &self.buffers[self.active];
        let mut body = b.doc.line_body(line);
        let ghost full = body@;
        while body.len() > 0 && body[body.len() - 1] == '\r'
            invariant
                without_cr(body@) == without_cr(full),
            decreases body@.len(),
        {
            let ghost before = body@;
            body.pop();
            assert(body@ =~= before.drop_last());
        }
        let text = string_of(&body);
        let mut out = chars_of_string(&crate::display::expand_tabs(text.as_str()));
        let folded = contains_line(&b.folded, line);
        if folded {
            out.push(' ');
            out.push('…');
        }
        let hs = &b.outline.headings;
        let mut heading = false;
        let mut k: usize = 0;
        while k < hs.len()
            invariant
                k <= hs@.len(),
                hs@ == b.outline.headings@,
                heading == exists|j: int| 0 <= j < k && #[trigger] hs@[j].line == line as int,
            decreases hs@.len() - k,
        {
            if hs[k].line == line {
                heading = true;
            }
            k = k + 1;
        }
        (string_of(&out), heading)
    }


    /// Whether `line` is a collapsed heading of the active buffer.
    pub fn is_folded_heading(&self, line: usize) -> (r: bool)
        requires
            self.wf(),
        ensures
            r == self.active_buffer().folded@.contains(line),
    {
        contains_line(&self.buffers[self.active].folded, line)
    }

    /// Whether `line` lies inside some collapsed heading's subtree (below the heading).
    pub fn is_hidden(&self, line: usize) -> (r: bool)
        requires
            self.wf(),
        ensures
            r == hidden_line(self.active_buffer(), line as int),
    {
        let b = &self.buffers[self.active];
        let hs = &b.outline.headings;
        assert(self.active_buffer() == *b);
        let mut k: usize = 0;
        while k < hs.len()
            invariant
                self.active_buffer() == *b,
                *hs == b.outline.headings,
                k <= hs@.len(),
                forall|j: int|
                    0 <= j < k ==> !({
                        let h = #[trigger] hs@[j];
                        b.folded@.contains(h.line) && h.line < line <= h.last_line
                    }),
            decreases hs@.len() - k,
        {
            if contains_line(&b.folded, hs[k].line) && hs[k].line < line && line <= hs[k].last_line {
                assert(self.active_buffer().outline.headings@[k as int] == hs@[k as int]);
                return true;
            }
            k = k + 1;
        }
        assert(self.active_buffer() == *b);
        false
    }
}

/// Whether `v` holds `x`.
fn contains_line(v: &Vec<usize>, x: usize) -> (r: bool)
    ensures
        r == v@.contains(x),
{
    let mut i: usize = 0;
    while i < v.len()
        invariant
            i <= v@.len(),
            forall|k: int| 0 <= k < i ==> v@[k] != x,
        decreases v@.len() - i,
    {
        if v[i] == x {
            return true;
        }
        i = i + 1;
    }
    false
}

// ---- one buffer ---------------------------------------------------------------------

/// A structural edit the editor can run on the heading under the caret.
#[derive(Debug, Clone, Copy, PartialEq, Eq, Structural)]
pub enum StructOp {
    PromoteHeading,
    DemoteHeading,
    PromoteSubtree,
    DemoteSubtree,
    MoveSubtreeUp,
    MoveSubtreeDown,
    PriorityUp,
    PriorityDown,
    ToggleCheckbox,
}

/// What structural edit `op` does to text `s` with the caret on `line`.
pub open spec fn op_result(op: StructOp, f: Format, s: Seq<char>, line: usize) -> (EditOutcome, Seq<char>) {
    match op {
        StructOp::PromoteHeading => promoted(f, s, line),
        StructOp::DemoteHeading => demoted(f, s, line),
        StructOp::PromoteSubtree => subtree_promoted(f, s, line),
        StructOp::DemoteSubtree => subtree_demoted(f, s, line),
        StructOp::MoveSubtreeUp => moved_up(f, s, line),
        StructOp::MoveSubtreeDown => moved_down(f, s, line),
        StructOp::PriorityUp => priority_cycled(f, s, line, true),
        StructOp::PriorityDown => priority_cycled(f, s, line, false),
        StructOp::ToggleCheckbox => crate::list::checkbox_toggled(f, s, line),
    }
}

/// The folds among `folded` that still sit on a heading of `o`, in order.
pub open spec fn kept_folds(folded: Seq<usize>, o: Outline, n: int) -> Seq<usize>
    decreases n,
{
    if n <= 0 || n > folded.len() {
        seq![]
    } else {
        kept_folds(folded, o, n - 1) + if is_heading_line(o, folded[n - 1] as int) {
            seq![folded[n - 1]]
        } else {
            seq![]
        }
    }
}

fn heading_at_line(o: &Outline, line: usize) -> (r: bool)
    ensures
        r == is_heading_line(*o, line as int),
{
    let mut k: usize = 0;
    while k < o.headings.len()
        invariant
            k <= o.headings@.len(),
            forall|j: int| 0 <= j < k ==> (#[trigger] o.headings@[j]).line != line,
        decreases o.headings@.len() - k,
    {
        if o.headings[k].line == line {
            return true;
        }
        k = k + 1;
    }
    false
}

proof fn lemma_kept_folds(folded: Seq<usize>, o: Outline, n: int)
    requires
        0 <= n <= folded.len(),
    ensures
        forall|j: int| 0 <= j < kept_folds(folded, o, n).len() ==> is_heading_line(o, #[trigger] kept_folds(folded, o, n)[j] as int),
    decreases n,
{
    if n > 0 {
        lemma_kept_folds(folded, o, n - 1);
        let prev = kept_folds(folded, o, n - 1);
        assert forall|j: int| 0 <= j < kept_folds(folded, o, n).len() implies is_heading_line(o, #[trigger] kept_folds(folded, o, n)[j] as int) by {
            if j < prev.len() {
                assert(kept_folds(folded, o, n)[j] == prev[j]);
            }
        }
    }
}

/// Re-derive the outline after the text changed, drop folds whose heading line no longer
/// exists, and pull the caret back inside the text.
fn reparse(b: &mut Buffer)
    ensures
        buffer_ok(*final(b)),
        final(b).doc == old(b).doc,
        final(b).format == old(b).format,
        final(b).path == old(b).path,
        final(b).stash_path == old(b).stash_path,
        final(b).scroll_top == old(b).scroll_top,
        final(b).folded@ == kept_folds(old(b).folded@, final(b).outline, old(b).folded@.len() as int),
        final(b).view.line_v() == clamp_pos(old(b).doc@, old(b).view.line_v(), old(b).view.col_v()).0,
        final(b).view.col_v() == clamp_pos(old(b).doc@, old(b).view.line_v(), old(b).view.col_v()).1,
        final(b).view.goal_v() == old(b).view.goal_v(),
{
    let o = parse_outline(b.format, &b.doc);
    let mut kept: Vec<usize> = Vec::new();
    let mut i: usize = 0;
    while i < b.folded.len()
        invariant
            i <= b.folded@.len(),
            kept@ == kept_folds(b.folded@, o, i as int),
        decreases b.folded@.len() - i,
    {
        let line = b.folded[i];
        if heading_at_line(&o, line) {
            kept.push(line);
        }
        i = i + 1;
    }
    proof {
        lemma_kept_folds(b.folded@, o, b.folded@.len() as int);
    }
    b.outline = o;
    b.folded = kept;
    b.view.clamp(&b.doc);
}

/// Run the structural edit `op` on the heading enclosing the caret; on a change, move the
/// caret to the line the edit names and re-parse.
fn buffer_structure_edit(b: &mut Buffer, op: StructOp) -> (r: EditOutcome)
    requires
        buffer_ok(*old(b)),
    ensures
        buffer_ok(*final(b)),
        edit_done(r, op_result(op, old(b).format, old(b).doc@, old(b).view.line_v() as usize), old(b).doc, final(b).doc),
        final(b).format == old(b).format,
        final(b).path == old(b).path,
        final(b).stash_path == old(b).stash_path,
        r matches EditOutcome::Changed { cursor_line } ==> final(b).view.line_v() == clamp_pos(
            final(b).doc@,
            cursor_line as int,
            0,
        ).0,
        r is NoOp ==> *final(b) == *old(b),
        edited_in(*old(b), *final(b), op_result(op, old(b).format, old(b).doc@, old(b).view.line_v() as usize)),
{
    let line = b.view.cursor_line();
    let f = b.format;
    b.doc.len_bound();
    proof {
        crate::document::lemma_line_count_bounds(b.doc@);
    }
    let r = match op {
        StructOp::PromoteHeading => f.promote_heading(&mut b.doc, line),
        StructOp::DemoteHeading => f.demote_heading(&mut b.doc, line),
        StructOp::PromoteSubtree => f.promote_subtree(&mut b.doc, line),
        StructOp::DemoteSubtree => f.demote_subtree(&mut b.doc, line),
        StructOp::MoveSubtreeUp => f.move_subtree_up(&mut b.doc, line),
        StructOp::MoveSubtreeDown => f.move_subtree_down(&mut b.doc, line),
        StructOp::PriorityUp => f.cycle_priority(&mut b.doc, line, true),
        StructOp::PriorityDown => f.cycle_priority(&mut b.doc, line, false),
        StructOp::ToggleCheckbox => crate::list::toggle_checkbox(f, &mut b.doc, line),
    };
    match r {
        EditOutcome::Changed { cursor_line } => {
            b.view.move_to_line(&b.doc, cursor_line);
            reparse(b);
        },
        EditOutcome::NoOp(_) => {},
    }
    r
}

/// A typing edit at the caret.
#[derive(Debug, Clone, Copy, PartialEq, Eq, Structural)]
pub enum Typing {
    Char(char),
    Newline,
    Backspace,
    Delete,
}

/// Apply a typing edit at the caret, then re-parse.
fn buffer_type(b: &mut Buffer, t: Typing)
    requires
        buffer_ok(*old(b)),
    ensures
        buffer_ok(*final(b)),
        ({
            let r = typing_result(old(b).doc@, old(b).view.line_v(), old(b).view.col_v(), old(b).view.goal_v(), t);
            &&& final(b).doc@ == r.0
            &&& final(b).view.at(r.1.0, r.1.1, r.1.2)
        }),
        final(b).doc.modified_flag() || final(b).doc == old(b).doc,
        final(b).folded@ == kept_folds(old(b).folded@, final(b).outline, old(b).folded@.len() as int),
        final(b).scroll_top == old(b).scroll_top,
        final(b).format == old(b).format,
        final(b).path == old(b).path,
        final(b).stash_path == old(b).stash_path,
{
    match t {
        Typing::Char(c) => b.view.insert_char(&mut b.doc, c),
        Typing::Newline => b.view.insert_newline(&mut b.doc),
        Typing::Backspace => b.view.backspace(&mut b.doc),
        Typing::Delete => b.view.delete(&mut b.doc),
    }
    reparse(b);
}

/// Cycle the TODO keyword of the heading on the caret's line, then re-parse.
fn buffer_cycle_todo(b: &mut Buffer)
    requires
        buffer_ok(*old(b)),
    ensures
        buffer_ok(*final(b)),
        todo_cycled_in(*old(b), *final(b)),
        match crate::edits::todo_cycled(old(b).format, old(b).doc@, old(b).view.line_v()) {
            Some(t) => final(b).doc@ == t,
            None => final(b).doc == old(b).doc,
        },
        final(b).format == old(b).format,
        final(b).path == old(b).path,
        final(b).stash_path == old(b).stash_path,
{
    let line = b.view.cursor_line();
    let f = b.format;
    f.cycle_todo(&mut b.doc, line);
    reparse(b);
}

/// Insert a (possibly `TODO`) sibling after the subtree under the caret and leave the caret
/// at the end of the new heading's line.
fn buffer_insert_sibling(b: &mut Buffer, todo: bool)
    requires
        buffer_ok(*old(b)),
    ensures
        buffer_ok(*final(b)),
        sibling_in(*old(b), *final(b), todo),
        final(b).doc@ == crate::edits::sibling_inserted(old(b).format, old(b).doc@, old(b).view.line_v() as usize, todo).1,
        final(b).format == old(b).format,
        final(b).path == old(b).path,
        final(b).stash_path == old(b).stash_path,
{
    let line = b.view.cursor_line();
    let f = b.format;
    match f.insert_sibling(&mut b.doc, line, todo) {
        EditOutcome::Changed { cursor_line } => {
            b.view.move_to_line(&b.doc, cursor_line);
            b.view.move_end(&b.doc);
        },
        EditOutcome::NoOp(_) => {},
    }
    reparse(b);
}

/// On a heading line, fold or unfold it and say so; elsewhere leave everything alone.
fn buffer_toggle_fold(b: &mut Buffer) -> (r: bool)
    requires
        buffer_ok(*old(b)),
    ensures
        buffer_ok(*final(b)),
        r == is_heading_line(old(b).outline, old(b).view.line_v()),
        final(b).doc == old(b).doc,
        final(b).outline == old(b).outline,
        final(b).format == old(b).format,
        final(b).path == old(b).path,
        final(b).stash_path == old(b).stash_path,
        r ==> (final(b).folded@.contains(old(b).view.line_v() as usize) <==> !old(b).folded@.contains(old(b).view.line_v() as usize)),
        r ==> *final(b) == (Buffer { folded: final(b).folded, ..*old(b) }),
        r ==> (forall|l: usize| l != old(b).view.line_v() ==> (final(b).folded@.contains(l) <==> old(b).folded@.contains(l))),
        !r ==> *final(b) == *old(b),
{
    let line = b.view.cursor_line();
    if !heading_at_line(&b.outline, line) {
        return false;
    }
    let mut kept: Vec<usize> = Vec::new();
    let mut removed = false;
    let mut i: usize = 0;
    while i < b.folded.len()
        invariant
            i <= b.folded@.len(),
            is_heading_line(b.outline, line as int),
            forall|j: int| 0 <= j < kept@.len() ==> is_heading_line(b.outline, #[trigger] kept@[j] as int),
            forall|j: int| 0 <= j < kept@.len() ==> #[trigger] kept@[j] != line,
            forall|j: int| 0 <= j < kept@.len() ==> b.folded@.contains(#[trigger] kept@[j]),
            forall|j: int| 0 <= j < i && b.folded@[j] != line ==> kept@.contains(#[trigger] b.folded@[j]),
            removed == exists|j: int| 0 <= j < i && #[trigger] b.folded@[j] == line,
            forall|j: int| 0 <= j < b.folded@.len() ==> is_heading_line(b.outline, #[trigger] b.folded@[j] as int),
        decreases b.folded@.len() - i,
    {
        let x = b.folded[i];
        if x == line {
            removed = true;
        } else {
            let ghost before = kept@;
            kept.push(x);
            proof {
                assert(kept@[kept@.len() - 1] == x);
                assert forall|j: int| 0 <= j < i + 1 && b.folded@[j] != line implies kept@.contains(#[trigger] b.folded@[j]) by {
                    if j < i {
                        let w = choose|w: int| 0 <= w < before.len() && before[w] == b.folded@[j];
                        assert(kept@[w] == before[w]);
                    } else {
                        assert(kept@[kept@.len() - 1] == b.folded@[j]);
                    }
                }
            }
        }
        i = i + 1;
    }
    let ghost pre = kept@;
    if !removed {
        kept.push(line);
        assert(kept@[kept@.len() - 1] == line);
    }
    proof {
        if removed {
            assert(!kept@.contains(line as usize));
            let j = choose|j: int| 0 <= j < b.folded@.len() && #[trigger] b.folded@[j] == line;
            assert(b.folded@.contains(line as usize));
        } else {
            assert(kept@.contains(line as usize));
            assert(!b.folded@.contains(line as usize));
        }
        assert forall|l: usize| l != line implies (kept@.contains(l) <==> b.folded@.contains(l)) by {
            if kept@.contains(l) {
                let w = choose|w: int| 0 <= w < kept@.len() && kept@[w] == l;
                assert(b.folded@.contains(kept@[w]));
            }
            if b.folded@.contains(l) {
                let j = choose|j: int| 0 <= j < b.folded@.len() && b.folded@[j] == l;
                assert(pre.contains(b.folded@[j]));
                let w = choose|w: int| 0 <= w < pre.len() && pre[w] == l;
                assert(kept@[w] == pre[w]);
            }
        }
    }
    b.folded = kept;
    true
}

/// Move the caret to the next (or previous) heading, if there is one.
fn buffer_jump_heading(b: &mut Buffer, next: bool)
    requires
        buffer_ok(*old(b)),
    ensures
        buffer_ok(*final(b)),
        jumped_in(*old(b), *final(b), next),
        final(b).doc == old(b).doc,
        final(b).format == old(b).format,
        final(b).path == old(b).path,
        final(b).stash_path == old(b).stash_path,
        ({
            let hs = old(b).outline.headings@;
            let target = if next {
                crate::structure::line_of_index(hs, crate::structure::first_below(hs, old(b).view.line_v(), 0))
            } else {
                crate::structure::line_of_index(hs, crate::structure::last_above(hs, old(b).view.line_v(), hs.len() as int))
            };
            match target {
                Some(l) => final(b).view.at(clamp_pos(old(b).doc@, l as int, 0).0, 0, 0),
                None => final(b).view == old(b).view,
            }
        }),
{
    let line = b.view.cursor_line();
    let target = if next {
        crate::structure::next_heading(&b.outline, line)
    } else {
        crate::structure::prev_heading(&b.outline, line)
    };
    if let Some(l) = target {
        b.view.move_to_line(&b.doc, l);
    }
}

/// Set or remove the planning stamp `which` of the heading under the caret.
fn buffer_set_planning(b: &mut Buffer, which: Planning, ts: Option<Timestamp>) -> (r: EditOutcome)
    requires
        buffer_ok(*old(b)),
        ts matches Some(t) ==> printable_ts(t),
    ensures
        buffer_ok(*final(b)),
        edit_done(r, planning_set(old(b).format, old(b).doc@, old(b).view.line_v() as usize, which, ts), old(b).doc, final(b).doc),
        retouched_in(*old(b), *final(b), planning_set(old(b).format, old(b).doc@, old(b).view.line_v() as usize, which, ts)),
        final(b).format == old(b).format,
        final(b).path == old(b).path,
        final(b).stash_path == old(b).stash_path,
{
    let line = b.view.cursor_line();
    let f = b.format;
    let r = f.set_planning(&mut b.doc, line, which, ts);
    match r {
        EditOutcome::Changed { .. } => reparse(b),
        EditOutcome::NoOp(_) => {},
    }
    r
}

/// Replace the tag run of the heading under the caret.
fn buffer_set_tags(b: &mut Buffer, tags: &[String]) -> (r: EditOutcome)
    requires
        buffer_ok(*old(b)),
    ensures
        buffer_ok(*final(b)),
        edit_done(r, tags_set(old(b).format, old(b).doc@, old(b).view.line_v() as usize, tags@), old(b).doc, final(b).doc),
        retouched_in(*old(b), *final(b), tags_set(old(b).format, old(b).doc@, old(b).view.line_v() as usize, tags@)),
        final(b).format == old(b).format,
        final(b).path == old(b).path,
        final(b).stash_path == old(b).stash_path,
{
    let line = b.view.cursor_line();
    let f = b.format;
    let r = f.set_tags(&mut b.doc, line, tags);
    match r {
        EditOutcome::Changed { .. } => reparse(b),
        EditOutcome::NoOp(_) => {},
    }
    r
}

/// Insert the text of `ts` at the caret.
fn buffer_insert_stamp(b: &mut Buffer, ts: Timestamp)
    requires
        buffer_ok(*old(b)),
        printable_ts(ts),
    ensures
        buffer_ok(*final(b)),
        final(b).doc@ == crate::document::spliced_in(
            old(b).doc@,
            crate::document::line_start(old(b).doc@, old(b).view.line_v()) + old(b).view.col_v(),
            timestamp_text(ts),
        ),
        final(b).doc.modified_flag(),
        caret_kept(*old(b), *final(b)),
        reparsed(*old(b), *final(b)),
        final(b).format == old(b).format,
        final(b).path == old(b).path,
        final(b).stash_path == old(b).stash_path,
{
    let at = b.view.cursor_char_idx(&b.doc);
    let t = ts.to_chars();
    b.doc.insert(at, &t);
    reparse(b);
}

/// `Shift+↑/↓`: shift the timestamp field under the caret if there is one, else cycle the
/// heading's priority.
fn buffer_shift_or_priority(b: &mut Buffer, up: bool) -> (r: EditOutcome)
    requires
        buffer_ok(*old(b)),
    ensures
        buffer_ok(*final(b)),
        match timestamp_shifted(old(b).doc@, old(b).view.line_v() as usize, old(b).view.col_v() as usize, up) {
            Some(t) => final(b).doc@ == t && r == (EditOutcome::Changed { cursor_line: old(b).view.line_v() as usize }),
            None => edit_done(r, priority_cycled(old(b).format, old(b).doc@, old(b).view.line_v() as usize, up), old(b).doc, final(b).doc),
        },
        shifted_in(*old(b), *final(b), up),
        final(b).format == old(b).format,
        final(b).path == old(b).path,
        final(b).stash_path == old(b).stash_path,
{
    let line = b.view.cursor_line();
    let col = b.view.cursor_column();
    match shift_timestamp(&mut b.doc, line, col, up) {
        Some(r) => {
            b.view.move_to_line(&b.doc, line);
            reparse(b);
            r
        },
        None => buffer_structure_edit(b, if up {
            StructOp::PriorityUp
        } else {
            StructOp::PriorityDown
        }),
    }
}

// ---- the session's transitions -------------------------------------------------------

/// `s` as an owned string.
pub(crate) fn owned(s: &str) -> (r: String)
    ensures
        r@ == s@,
{
    string_of(&chars_of(s))
}

/// The concatenation of `parts`.
fn joined(parts: &[&str]) -> (r: String)
    ensures
        r@ == joined_text(parts@, parts@.len() as int),
{
    let mut out: Vec<char> = Vec::new();
    let mut i: usize = 0;
    while i < parts.len()
        invariant
            i <= parts@.len(),
            out@ == joined_text(parts@, i as int),
        decreases parts@.len() - i,
    {
        let v = chars_of(parts[i]);
        crate::text::append_chars(&mut out, &v);
        i = i + 1;
    }
    string_of(&out)
}

/// The first `n` parts, concatenated.
pub open spec fn joined_text(parts: Seq<&str>, n: int) -> Seq<char>
    decreases n,
{
    if n <= 0 || n > parts.len() {
        seq![]
    } else {
        joined_text(parts, n - 1) + parts[n - 1]@
    }
}

/// `Save failed: <error>`
fn failure_text(e: &String) -> (r: String)
    ensures
        r@ == "Save failed: "@ + e@,
{
    let mut t = chars_of("Save failed: ");
    crate::text::append_chars(&mut t, &chars_of_string(e));
    string_of(&t)
}

/// The decimal text of `n`.
fn decimal(n: usize) -> (r: String)
    ensures
        r@ == crate::text::digits_of(n as nat),
{
    let mut v: Vec<char> = Vec::new();
    crate::text::push_digits(&mut v, n as u64);
    string_of(&v)
}

/// `text` quoted the way `{:?}` quotes a string: in double quotes, with `"` and `\` escaped.
fn quoted(text: &str) -> (r: String)
    ensures
        r@ == quote_text(text@),
{
    let t = chars_of(text);
    let mut out: Vec<char> = Vec::new();
    out.push('"');
    let mut i: usize = 0;
    while i < t.len()
        invariant
            i <= t@.len(),
            t@ == text@,
            out@ == seq!['"'] + escaped(t@, i as int),
        decreases t@.len() - i,
    {
        let c = t[i];
        if c == '"' || c == '\\' {
            out.push('\\');
        }
        out.push(c);
        i = i + 1;
        assert(out@ =~= seq!['"'] + escaped(t@, i as int));
    }
    out.push('"');
    string_of(&out)
}

impl App {
    fn take_active(&mut self) -> (b: Buffer)
        requires
            old(self).wf(),
        ensures
            b == old(self).buffers@[old(self).active as int],
            final(self).buffers@ == old(self).buffers@.remove(old(self).active as int),
            final(self).active == old(self).active,
            final(self).mode == old(self).mode,
            final(self).page == old(self).page,
            final(self).status == old(self).status,
            final(self).should_quit == old(self).should_quit,
    {
        self.buffers.remove(self.active)
    }

    fn put_active(&mut self, b: Buffer)
        requires
            old(self).active <= old(self).buffers@.len(),
        ensures
            final(self).buffers@ == old(self).buffers@.insert(old(self).active as int, b),
            final(self).active == old(self).active,
            final(self).mode == old(self).mode,
            final(self).page == old(self).page,
            final(self).status == old(self).status,
            final(self).should_quit == old(self).should_quit,
    {
        self.buffers.insert(self.active, b);
    }

    /// Keep the page size in step with the terminal body height (for PageUp/PageDown).
    pub fn set_page(&mut self, page: usize)
        requires
            old(self).wf(),
        ensures
            final(self).wf(),
            final(self).page_v() == if page >= 1 { page as int } else { 1 },
            final(self).buffers_v() == old(self).buffers_v(),
            final(self).active_v() == old(self).active_v(),
    {
        self.page = if page >= 1 {
            page
        } else {
            1
        };
    }

    /// Replace the status-line message.
    pub fn set_status(&mut self, msg: String)
        requires
            old(self).wf(),
        ensures
            final(self).wf(),
            final(self).status_v() == msg@,
            final(self).buffers_v() == old(self).buffers_v(),
            final(self).active_v() == old(self).active_v(),
            final(self).mode_v() == old(self).mode_v(),
    {
        self.status = msg;
    }

    /// Make `index` the active buffer and, with several open, announce it on the status line
    /// as `name (i/n)`.
    pub fn switch_to(&mut self, index: usize)
        requires
            old(self).wf(),
            index < old(self).buffers_v().len(),
        ensures
            final(self).wf(),
            final(self).active_v() == index,
            final(self).buffers_v() == old(self).buffers_v(),
            final(self).mode_v() == old(self).mode_v(),
            final(self).quit_v() == old(self).quit_v(),
            final(self).page_v() == old(self).page_v(),
            final(self).status_v() == switch_status(old(self).buffers_v(), index as int, old(self).status_v()),
    {
        self.active = index;
        if self.buffers.len() > 1 {
            let mut text = chars_of_string(&self.buffers[self.active].display_name());
            text.push(' ');
            text.push('(');
            crate::text::push_digits(&mut text, self.active as u64 + 1);
            text.push('/');
            crate::text::push_digits(&mut text, self.buffers.len() as u64);
            text.push(')');
            self.status = string_of(&text);
        }
    }

    /// Remove the active buffer: the list never empties (a fresh untitled buffer replaces the
    /// last one) and the active index stays in bounds.
    fn close_active_buffer(&mut self)
        requires
            old(self).wf(),
            !(old(self).mode is BufferList),
        ensures
            final(self).wf(),
            old(self).buffers@.len() > 1 ==> final(self).buffers@ == old(self).buffers@.remove(old(self).active as int),
            old(self).buffers@.len() == 1 ==> final(self).buffers@.len() == 1 && final(self).buffers@[0].doc@.len() == 0
                && final(self).buffers@[0].path is None && final(self).buffers@[0].stash_path is None,
            final(self).active == if old(self).active < final(self).buffers@.len() {
                old(self).active
            } else {
                (final(self).buffers@.len() - 1) as usize
            },
            final(self).mode == old(self).mode,
            final(self).status == old(self).status,
            final(self).should_quit == old(self).should_quit,
            final(self).page == old(self).page,
    {
        self.buffers.remove(self.active);
        if self.buffers.len() == 0 {
            self.buffers.push(Buffer::untitled());
        }
        if self.active >= self.buffers.len() {
            self.active = self.buffers.len() - 1;
        }
        proof {
            assert forall|i: int| 0 <= i < self.buffers@.len() implies buffer_ok(#[trigger] self.buffers@[i]) by {
                if old(self).buffers@.len() > 1 {
                    if i < old(self).active {
                        assert(self.buffers@[i] == old(self).buffers@[i]);
                    } else {
                        assert(self.buffers@[i] == old(self).buffers@[i + 1]);
                    }
                }
            }
        }
    }

    /// Put `b` back as the active buffer after working on it.
    proof fn lemma_put_back(old_app: App, new_app: App, b: Buffer)
        requires
            old_app.wf(),
            buffer_ok(b),
            new_app.buffers@ == old_app.buffers@.remove(old_app.active as int).insert(old_app.active as int, b),
            new_app.active == old_app.active,
            new_app.page == old_app.page,
            new_app.mode matches Mode::BufferList { selected } ==> selected < old_app.buffers@.len(),
            new_app.mode matches Mode::HelpMenu { category, selected } ==> category < 7 && selected
                < help_len(category as int),
        ensures
            new_app.wf(),
            new_app.buffers@ == old_app.buffers@.update(old_app.active as int, b),
    {
        assert(new_app.buffers@ =~= old_app.buffers@.update(old_app.active as int, b));
        assert forall|i: int| 0 <= i < new_app.buffers@.len() implies buffer_ok(#[trigger] new_app.buffers@[i]) by {
            if i != old_app.active {
                assert(new_app.buffers@[i] == old_app.buffers@[i]);
            }
        }
    }
}

/// Where a caret at `(line, col)` with goal column `goal` goes in text `s` on motion `m`, a
/// page being `page` lines: the new line, column and goal column.
pub open spec fn motion_target(s: Seq<char>, line: int, col: int, goal: int, m: Motion, page: int) -> (int, int, int) {
    match m {
        Motion::Left => {
            let (l, c, g) = if col > 0 {
                (line, col - 1, col - 1)
            } else if line > 0 {
                (line - 1, line_len(s, line - 1), line_len(s, line - 1))
            } else {
                (line, col, goal)
            };
            (clamp_pos(s, l, c).0, clamp_pos(s, l, c).1, g)
        },
        Motion::Right => {
            let (l, c, g) = if col < line_len(s, line) {
                (line, col + 1, col + 1)
            } else if line < last_line(s) {
                (line + 1, 0, 0)
            } else {
                (line, col, goal)
            };
            (clamp_pos(s, l, c).0, clamp_pos(s, l, c).1, g)
        },
        Motion::Home => (line, 0, 0),
        Motion::End => {
            let c = line_len(s, line);
            (clamp_pos(s, line, c).0, clamp_pos(s, line, c).1, c)
        },
        Motion::Up | Motion::Down => {
            let t = if m is Up {
                if line > 0 { line - 1 } else { line }
            } else {
                if line < last_line(s) { line + 1 } else { line }
            };
            let moves = if m is Up { line > 0 } else { line < last_line(s) };
            let c = if !moves {
                col
            } else if goal < line_len(s, t) {
                goal
            } else {
                line_len(s, t)
            };
            (clamp_pos(s, t, c).0, clamp_pos(s, t, c).1, goal)
        },
        Motion::PageUp | Motion::PageDown => {
            let t = if m is PageUp {
                if line > page { line - page } else { 0 }
            } else {
                if line + page < last_line(s) { line + page } else { last_line(s) }
            };
            let c = if goal < line_len(s, t) { goal } else { line_len(s, t) };
            (clamp_pos(s, t, c).0, clamp_pos(s, t, c).1, goal)
        },
    }
}

/// The text and caret `(line, col, goal)` after typing edit `t` at caret `(line, col)` with goal
/// column `goal` in text `s`.
pub open spec fn typing_result(s: Seq<char>, line: int, col: int, goal: int, t: Typing) -> (Seq<char>, (int, int, int)) {
    let idx = crate::document::line_start(s, line) + col;
    match t {
        Typing::Char(ch) => {
            let n = crate::document::spliced_in(s, idx, seq![ch]);
            (n, (clamp_pos(n, line, col + 1).0, clamp_pos(n, line, col + 1).1, col + 1))
        },
        Typing::Newline => {
            let n = crate::document::spliced_in(s, idx, seq!['\n']);
            (n, (clamp_pos(n, line + 1, 0).0, clamp_pos(n, line + 1, 0).1, 0))
        },
        Typing::Backspace => if idx == 0 {
            (s, (line, col, goal))
        } else {
            let n = crate::document::spliced_out(s, idx - 1, idx);
            if col > 0 {
                (n, (clamp_pos(n, line, col - 1).0, clamp_pos(n, line, col - 1).1, col - 1))
            } else {
                let seam = line_len(s, line - 1);
                (n, (clamp_pos(n, line - 1, seam).0, clamp_pos(n, line - 1, seam).1, seam))
            }
        },
        Typing::Delete => if idx >= s.len() {
            (s, (line, col, goal))
        } else {
            let n = crate::document::spliced_out(s, idx, idx + 1);
            (n, (clamp_pos(n, line, col).0, clamp_pos(n, line, col).1, goal))
        },
    }
}

/// `nb` holds the outline of its own text, keeps those of `ob`'s folds that still sit on
/// headings, and keeps `ob`'s viewport, format and paths.
pub open spec fn reparsed(ob: Buffer, nb: Buffer) -> bool {
    &&& nb.folded@ == kept_folds(ob.folded@, nb.outline, ob.folded@.len() as int)
    &&& nb.scroll_top == ob.scroll_top
    &&& nb.format == ob.format
    &&& nb.path == ob.path
    &&& nb.stash_path == ob.stash_path
}

/// `nb`'s caret is `ob`'s, pulled back inside `nb`'s text.
pub open spec fn caret_kept(ob: Buffer, nb: Buffer) -> bool {
    let p = clamp_pos(nb.doc@, ob.view.line_v(), ob.view.col_v());
    nb.view.at(p.0, p.1, ob.view.goal_v())
}

/// `nb`'s caret is at the start of line `l` (pulled back inside its text).
pub open spec fn caret_at_line(nb: Buffer, l: int) -> bool {
    nb.view.at(clamp_pos(nb.doc@, l, 0).0, 0, 0)
}

/// A structural edit whose outcome and text are `want`: refused, the buffer is untouched;
/// done, it holds the new text with the caret at the start of the line the edit names.
pub open spec fn edited_in(ob: Buffer, nb: Buffer, want: (EditOutcome, Seq<char>)) -> bool {
    match want.0 {
        EditOutcome::NoOp(_) => nb == ob,
        EditOutcome::Changed { cursor_line } => {
            &&& nb.doc@ == want.1
            &&& nb.doc.modified_flag() || nb.doc == ob.doc
            &&& caret_at_line(nb, cursor_line as int)
            &&& reparsed(ob, nb)
        },
    }
}

/// An edit of a heading's metadata whose outcome and text are `want`: refused, the buffer is
/// untouched; done, it holds the new text and the caret stays where it was.
pub open spec fn retouched_in(ob: Buffer, nb: Buffer, want: (EditOutcome, Seq<char>)) -> bool {
    match want.0 {
        EditOutcome::NoOp(_) => nb == ob,
        EditOutcome::Changed { .. } => {
            &&& nb.doc@ == want.1
            &&& nb.doc.modified_flag() || nb.doc == ob.doc
            &&& caret_kept(ob, nb)
            &&& reparsed(ob, nb)
        },
    }
}

/// Cycling the TODO keyword of the heading the caret is in: the new text, the caret kept.
pub open spec fn todo_cycled_in(ob: Buffer, nb: Buffer) -> bool {
    &&& match crate::edits::todo_cycled(ob.format, ob.doc@, ob.view.line_v()) {
        Some(t) => nb.doc@ == t,
        None => nb.doc == ob.doc,
    }
    &&& nb.doc.modified_flag() || nb.doc == ob.doc
    &&& caret_kept(ob, nb)
    &&& reparsed(ob, nb)
}

/// Inserting a sibling heading after the caret's subtree: the new text, and the caret at
/// the end of the new heading's line.
pub open spec fn sibling_in(ob: Buffer, nb: Buffer, todo: bool) -> bool {
    let want = crate::edits::sibling_inserted(ob.format, ob.doc@, ob.view.line_v() as usize, todo);
    &&& nb.doc@ == want.1
    &&& nb.doc.modified_flag() || nb.doc == ob.doc
    &&& match want.0 {
        EditOutcome::Changed { cursor_line } => {
            let l = clamp_pos(nb.doc@, cursor_line as int, 0).0;
            nb.view.at(l, line_len(nb.doc@, l), line_len(nb.doc@, l))
        },
        EditOutcome::NoOp(_) => nb.view == ob.view,
    }
    &&& reparsed(ob, nb)
}

/// Shifting the timestamp field under the caret, or else the priority: the new text; after
/// a shifted timestamp the caret goes to the start of its line.
pub open spec fn shifted_in(ob: Buffer, nb: Buffer, up: bool) -> bool {
    match timestamp_shifted(ob.doc@, ob.view.line_v() as usize, ob.view.col_v() as usize, up) {
        Some(t) => nb.doc@ == t && nb.doc.modified_flag() && caret_at_line(nb, ob.view.line_v())
            && reparsed(ob, nb),
        None => edited_in(ob, nb, priority_cycled(ob.format, ob.doc@, ob.view.line_v() as usize, up)),
    }
}

/// The heading line the caret jumps to: the next heading below it, or the previous above.
pub open spec fn jump_target(ob: Buffer, next: bool) -> Option<usize> {
    let hs = ob.outline.headings@;
    if next {
        crate::structure::line_of_index(hs, crate::structure::first_below(hs, ob.view.line_v(), 0))
    } else {
        crate::structure::line_of_index(hs, crate::structure::last_above(hs, ob.view.line_v(), hs.len() as int))
    }
}

/// Jumping to the next or previous heading: only the caret moves, to the start of the target
/// heading's line; with no target nothing changes.
pub open spec fn jumped_in(ob: Buffer, nb: Buffer, next: bool) -> bool {
    &&& nb == Buffer { view: nb.view, ..ob }
    &&& match jump_target(ob, next) {
        Some(l) => nb.view.at(clamp_pos(ob.doc@, l as int, 0).0, 0, 0),
        None => nb.view == ob.view,
    }
}

/// Tab: on a heading line the fold of that heading flips and nothing else changes; elsewhere
/// a tab is typed.
pub open spec fn tab_in(ob: Buffer, nb: Buffer) -> bool {
    let line = ob.view.line_v();
    if is_heading_line(ob.outline, line) {
        &&& nb == Buffer { folded: nb.folded, ..ob }
        &&& (nb.folded@.contains(line as usize) <==> !ob.folded@.contains(line as usize))
        &&& forall|l: usize| l != line ==> (nb.folded@.contains(l) <==> ob.folded@.contains(l))
    } else {
        typed_in(ob, nb, Typing::Char('\t'))
    }
}

/// Buffer `nb` is `ob` with its caret moved by `m`: the text, outline, folds and viewport
/// are kept.
pub open spec fn moved_in(ob: Buffer, nb: Buffer, m: Motion, page: int) -> bool {
    let t = motion_target(ob.doc@, ob.view.line_v(), ob.view.col_v(), ob.view.goal_v(), m, page);
    &&& nb == Buffer { view: nb.view, ..ob }
    &&& nb.view.at(t.0, t.1, t.2)
}

/// Buffer `nb` is `ob` after typing edit `t`: the text and caret as the edit leaves them, the
/// outline re-read, the folds that still sit on headings kept.
pub open spec fn typed_in(ob: Buffer, nb: Buffer, t: Typing) -> bool {
    let r = typing_result(ob.doc@, ob.view.line_v(), ob.view.col_v(), ob.view.goal_v(), t);
    &&& nb.doc@ == r.0
    &&& nb.doc.modified_flag() || nb.doc == ob.doc
    &&& nb.view.at(r.1.0, r.1.1, r.1.2)
    &&& nb.folded@ == kept_folds(ob.folded@, nb.outline, ob.folded@.len() as int)
    &&& nb.scroll_top == ob.scroll_top
    &&& nb.format == ob.format
    &&& nb.path == ob.path
    &&& nb.stash_path == ob.stash_path
}

/// The first `n` tags, one space apart.
pub open spec fn spaced_tags(tags: Seq<String>, n: int) -> Seq<char>
    decreases n,
{
    if n <= 0 {
        seq![]
    } else if n == 1 {
        tags[0]@
    } else {
        spaced_tags(tags, n - 1) + seq![' '] + tags[n - 1]@
    }
}

/// What a date prompt starts with: the scheduled or deadline stamp of the heading the caret is
/// in, if it has one; nothing for an inserted timestamp.
pub open spec fn planning_prefill(b: Buffer, purpose: DatePurpose) -> Seq<char> {
    match crate::structure::enclosing_index(b.outline.headings@, b.view.line_v()) {
        Some(k) => {
            let h = b.outline.headings@[k];
            let ts = match purpose {
                DatePurpose::Scheduled => h.scheduled,
                DatePurpose::Deadline => h.deadline,
                _ => None,
            };
            match ts {
                Some(t) => timestamp_text(t),
                None => seq![],
            }
        },
        None => seq![],
    }
}

/// `Ctrl+G`: on a heading, the tags prompt opens holding its tags; elsewhere the status line
/// says the caret is not on a heading.
pub open spec fn tags_prompt_opened(o: App, n: App, prior: Seq<char>) -> bool {
    let b = o.active_buffer();
    match crate::structure::enclosing_index(b.outline.headings@, b.view.line_v()) {
        Some(k) => {
            &&& n.mode_v() == (Mode::EditTags { input: n.mode_v()->EditTags_input })
            &&& n.mode_v()->EditTags_input@ == spaced_tags(b.outline.headings@[k].tags@, b.outline.headings@[k].tags@.len() as int)
            &&& n.status_v() == prior
        },
        None => n.mode_v() == o.mode_v() && n.status_v() == crate::edits::NOT_ON_HEADING@,
    }
}

/// A date prompt for `purpose`: refused with a message for planning in a Markdown buffer;
/// otherwise open, holding the current stamp (see [`planning_prefill`]).
pub open spec fn date_prompt_opened(o: App, n: App, purpose: DatePurpose, prior: Seq<char>) -> bool {
    if (purpose == DatePurpose::Scheduled || purpose == DatePurpose::Deadline) && o.active_buffer().format != Format::Org {
        n.mode_v() == o.mode_v() && n.status_v() == "SCHEDULED/DEADLINE is an Org feature"@
    } else {
        &&& n.mode_v() matches Mode::DatePrompt { input, purpose: p }
        &&& p == purpose
        &&& n.mode_v()->DatePrompt_input@ == planning_prefill(o.active_buffer(), purpose)
        &&& n.status_v() == prior
    }
}

/// The status line after switching to buffer `i` of `bs`: its name and position, `name (i/n)`,
/// when several are open; otherwise the message `prior` stays.
pub open spec fn switch_status(bs: Seq<Buffer>, i: int, prior: Seq<char>) -> Seq<char> {
    if bs.len() > 1 {
        buffer_name(bs[i]) + seq![' ', '('] + crate::text::digits_of((i + 1) as nat) + seq!['/']
            + crate::text::digits_of(bs.len()) + seq![')']
    } else {
        prior
    }
}

/// The caret motion an action stands for.
pub open spec fn motion_of(a: Action) -> Option<Motion> {
    match a {
        Action::MoveLeft => Some(Motion::Left),
        Action::MoveRight => Some(Motion::Right),
        Action::MoveUp => Some(Motion::Up),
        Action::MoveDown => Some(Motion::Down),
        Action::MoveHome => Some(Motion::Home),
        Action::MoveEnd => Some(Motion::End),
        Action::PageUp => Some(Motion::PageUp),
        Action::PageDown => Some(Motion::PageDown),
        _ => None,
    }
}

/// The typing edit an action stands for.
pub open spec fn typing_of(a: Action) -> Option<Typing> {
    match a {
        Action::InsertChar(c) => Some(Typing::Char(c)),
        Action::Newline => Some(Typing::Newline),
        Action::Backspace => Some(Typing::Backspace),
        Action::Delete => Some(Typing::Delete),
        _ => None,
    }
}

/// The date prompt an action opens.
pub open spec fn date_purpose_of(a: Action) -> Option<DatePurpose> {
    match a {
        Action::SetScheduled => Some(DatePurpose::Scheduled),
        Action::SetDeadline => Some(DatePurpose::Deadline),
        Action::InsertActiveTs => Some(DatePurpose::InsertActive),
        Action::InsertInactiveTs => Some(DatePurpose::InsertInactive),
        _ => None,
    }
}

/// Whether an edit of the active buffer left the rest of the session as it was: the same
/// buffer active, the other buffers, the mode, the page size and the quit flag.
pub open spec fn in_place(o: App, n: App) -> bool {
    &&& edit_frame(o, n)
    &&& n.mode_v() == o.mode_v()
}

/// Whether only the active buffer changed: the same buffer active, the other buffers, the page
/// size and the quit flag as they were.
pub open spec fn edit_frame(o: App, n: App) -> bool {
    &&& n.active_v() == o.active_v()
    &&& n.buffers_v() == o.buffers_v().update(o.active_v(), n.active_buffer())
    &&& n.page_v() == o.page_v()
    &&& n.quit_v() == o.quit_v()
}

/// Whether the buffers, the active one, the page size and the quit flag are as they were.
pub open spec fn same_buffers(o: App, n: App) -> bool {
    &&& n.buffers_v() == o.buffers_v()
    &&& n.active_v() == o.active_v()
    &&& n.page_v() == o.page_v()
    &&& n.quit_v() == o.quit_v()
}

/// Whether any open buffer has unsaved changes.
pub open spec fn some_dirty(bs: Seq<Buffer>) -> bool {
    exists|i: int| 0 <= i < bs.len() && (#[trigger] bs[i]).doc.modified_flag()
}

/// A caret motion: only the caret of the active buffer moves.
#[verifier::opaque]
pub open spec fn applied_motion(o: App, n: App, m: Motion, e: Effect, prior: Seq<char>) -> bool {
    &&& in_place(o, n) && n.status_v() == prior && e == Effect::Nothing
    &&& moved_in(o.active_buffer(), n.active_buffer(), m, o.page_v())
}

/// A typing edit of the active buffer.
#[verifier::opaque]
pub open spec fn applied_typing(o: App, n: App, t: Typing, e: Effect, prior: Seq<char>) -> bool {
    &&& in_place(o, n) && n.status_v() == prior && e == Effect::Nothing
    &&& typed_in(o.active_buffer(), n.active_buffer(), t)
}

/// A structural edit of the active buffer; a refusal is reported on the status line.
#[verifier::opaque]
pub open spec fn applied_struct(o: App, n: App, op: StructOp, e: Effect, prior: Seq<char>) -> bool {
    let ob = o.active_buffer();
    let want = op_result(op, ob.format, ob.doc@, ob.view.line_v() as usize);
    &&& in_place(o, n) && e == Effect::Nothing
    &&& edited_in(ob, n.active_buffer(), want)
    &&& n.status_v() == if want.0 is NoOp { refusal(want.0) } else { prior }
}

/// Opening a date prompt.
#[verifier::opaque]
pub open spec fn applied_date(o: App, n: App, purpose: DatePurpose, e: Effect, prior: Seq<char>) -> bool {
    &&& same_buffers(o, n) && e == Effect::Nothing
    &&& date_prompt_opened(o, n, purpose, prior)
}

/// Saving, quitting, opening, and moving between or closing buffers.
#[verifier::opaque]
pub open spec fn applied_session(o: App, n: App, a: Action, e: Effect, prior: Seq<char>) -> bool {
    let ob = o.active_buffer();
    let quiet = e == Effect::Nothing;
    match a {
        Action::Save => {
            &&& same_buffers(o, n) && n.status_v() == prior
            &&& match ob.path {
                Some(p) => e == (Effect::Write { path: p, rename: false }) && n.mode_v() == o.mode_v(),
                None => match ob.stash_path {
                    Some(p) => e == (Effect::Write { path: p, rename: true }) && n.mode_v() == o.mode_v(),
                    None => quiet && n.mode_v() == (Mode::SaveAs { input: n.mode_v()->SaveAs_input })
                        && n.mode_v()->SaveAs_input@.len() == 0,
                },
            }
        },
        Action::Quit => {
            &&& n.buffers_v() == o.buffers_v() && n.active_v() == o.active_v() && quiet && n.status_v() == prior
            &&& n.page_v() == o.page_v()
            &&& if some_dirty(o.buffers_v()) {
                n.mode_v() == Mode::ConfirmQuit && n.quit_v() == o.quit_v()
            } else {
                n.mode_v() == o.mode_v() && n.quit_v()
            }
        },
        Action::OpenFile => {
            &&& same_buffers(o, n) && n.status_v() == prior && quiet
            &&& n.mode_v() == (Mode::OpenFile { input: n.mode_v()->OpenFile_input })
            &&& n.mode_v()->OpenFile_input@.len() == 0
        },
        Action::NextBuffer | Action::PrevBuffer => {
            let len = o.buffers_v().len() as int;
            let target = if a is NextBuffer {
                (o.active_v() + 1) % len
            } else if o.active_v() == 0 {
                len - 1
            } else {
                o.active_v() - 1
            };
            &&& n.buffers_v() == o.buffers_v() && n.mode_v() == o.mode_v() && quiet
            &&& n.page_v() == o.page_v() && n.quit_v() == o.quit_v()
            &&& n.active_v() == target
            &&& n.status_v() == switch_status(o.buffers_v(), target, prior)
        },
        Action::ListBuffers => {
            same_buffers(o, n) && n.status_v() == prior && quiet && n.mode_v() == (Mode::BufferList {
                selected: o.active_v() as usize,
            })
        },
        _ => {
            &&& quiet && n.status_v() == prior && n.quit_v() == o.quit_v() && n.page_v() == o.page_v()
            &&& if ob.doc.modified_flag() {
                n.buffers_v() == o.buffers_v() && n.active_v() == o.active_v() && n.mode_v() == Mode::ConfirmClose
            } else {
                &&& n.mode_v() == o.mode_v()
                &&& o.buffers_v().len() > 1 ==> n.buffers_v() == o.buffers_v().remove(o.active_v())
                &&& o.buffers_v().len() == 1 ==> n.buffers_v().len() == 1 && n.buffers_v()[0].doc@.len() == 0
                    && n.buffers_v()[0].path is None && n.buffers_v()[0].stash_path is None
                &&& n.active_v() == if o.active_v() < n.buffers_v().len() {
                    o.active_v()
                } else {
                    n.buffers_v().len() - 1
                }
            }
        },
    }
}

/// Folding, jumping between headings, and editing the heading under the caret.
#[verifier::opaque]
pub open spec fn applied_heading(o: App, n: App, a: Action, e: Effect, prior: Seq<char>) -> bool {
    let ob = o.active_buffer();
    let nb = n.active_buffer();
    let quiet = e == Effect::Nothing;
    match a {
        Action::ToggleFold => in_place(o, n) && n.status_v() == prior && quiet && tab_in(ob, nb),
        Action::NextHeading => in_place(o, n) && n.status_v() == prior && quiet && jumped_in(ob, nb, true),
        Action::PrevHeading => in_place(o, n) && n.status_v() == prior && quiet && jumped_in(ob, nb, false),
        Action::CycleTodo => in_place(o, n) && n.status_v() == prior && quiet && todo_cycled_in(ob, nb),
        Action::InsertSibling => in_place(o, n) && n.status_v() == prior && quiet && sibling_in(ob, nb, false),
        Action::InsertTodoSibling => in_place(o, n) && n.status_v() == prior && quiet && sibling_in(ob, nb, true),
        Action::PriorityUp | Action::PriorityDown => {
            let up = a is PriorityUp;
            &&& in_place(o, n) && quiet
            &&& shifted_in(ob, nb, up)
            &&& n.status_v() == match timestamp_shifted(ob.doc@, ob.view.line_v() as usize, ob.view.col_v() as usize, up) {
                Some(_) => prior,
                None => {
                    let want = priority_cycled(ob.format, ob.doc@, ob.view.line_v() as usize, up);
                    if want.0 is NoOp { refusal(want.0) } else { prior }
                },
            }
        },
        Action::EditTags => same_buffers(o, n) && quiet && tags_prompt_opened(o, n, prior),
        Action::Find => {
            &&& same_buffers(o, n) && n.status_v() == prior && quiet
            &&& n.mode_v() matches Mode::Search { input, origin_line, origin_col, forward } && input@.len() == 0
                && origin_line == ob.view.line_v() && origin_col == ob.view.col_v() && forward
        },
        Action::Help => same_buffers(o, n) && n.status_v() == prior && quiet && n.mode_v() == (Mode::HelpMenu {
            category: 0,
            selected: 0,
        }),
        _ => same_buffers(o, n) && n.mode_v() == o.mode_v() && n.status_v() == prior && quiet,
    }
}

/// `t` escaped the way `{:?}` escapes a string's chars here: `"` and `\` get a backslash.
pub open spec fn escaped(t: Seq<char>, n: int) -> Seq<char>
    decreases n,
{
    if n <= 0 {
        seq![]
    } else if t[n - 1] == '"' || t[n - 1] == '\\' {
        escaped(t, n - 1) + seq!['\\', t[n - 1]]
    } else {
        escaped(t, n - 1) + seq![t[n - 1]]
    }
}

/// `t` in double quotes, escaped.
pub open spec fn quote_text(t: Seq<char>) -> Seq<char> {
    seq!['"'] + escaped(t, t.len() as int) + seq!['"']
}

/// The message for a tag that may not be written.
pub open spec fn invalid_tag_text(bad: Seq<char>) -> Seq<char> {
    "Invalid tag "@ + quote_text(bad) + " — use letters, digits, _ @ # %"@
}

/// The first of the words from number `i` on that is not a valid tag.
pub open spec fn first_bad_tag(ws: Seq<Seq<char>>, i: int) -> Option<int>
    decreases ws.len() - i,
{
    if i < 0 || i >= ws.len() {
        None
    } else if !(ws[i].len() > 0 && crate::headline::all_tag_chars(ws[i])) {
        Some(i)
    } else {
        first_bad_tag(ws, i + 1)
    }
}

/// The texts of some strings.
pub open spec fn string_views(ts: Seq<String>) -> Seq<Seq<char>> {
    ts.map_values(|t: String| t@)
}

/// Writing the tags `ts` on the heading at the caret; a refusal is reported.
pub open spec fn tags_written(o: App, n: App, ts: Seq<String>, prior: Seq<char>) -> bool {
    let ob = o.active_buffer();
    let want = tags_set(ob.format, ob.doc@, ob.view.line_v() as usize, ts);
    &&& edit_frame(o, n)
    &&& retouched_in(ob, n.active_buffer(), want)
    &&& n.status_v() == if want.0 is NoOp { refusal(want.0) } else { prior }
}

/// The tags prompt submitted with `text`: its words are written as the tags of the heading at
/// the caret, unless one is not a valid tag, which keeps the prompt open with a message.
pub open spec fn tags_applied(o: App, n: App, text: Seq<char>, prior: Seq<char>) -> bool {
    let ws = crate::timestamp::words(text);
    match first_bad_tag(ws, 0) {
        Some(j) => {
            &&& same_buffers(o, n)
            &&& n.mode_v() == (Mode::EditTags { input: n.mode_v()->EditTags_input })
            &&& n.mode_v()->EditTags_input@ == text
            &&& n.status_v() == invalid_tag_text(ws[j])
        },
        None => n.mode_v() == Mode::Edit && exists|ts: Seq<String>| string_views(ts) == ws && #[trigger] tags_written(o, n, ts, prior),
    }
}

/// `Invalid date — try 2024-01-15 or 2024-01-15 09:30`
pub open spec fn invalid_date_text() -> Seq<char> {
    "Invalid date — try 2024-01-15 or 2024-01-15 09:30"@
}

/// The date prompt for `purpose` submitted with `text`: a date that does not parse keeps the
/// prompt open with a message; otherwise the scheduled or deadline stamp is set (removed for
/// an empty input), or the stamp is inserted at the caret.
pub open spec fn date_applied(o: App, n: App, purpose: DatePurpose, text: Seq<char>, prior: Seq<char>) -> bool {
    let t = crate::text::trim(text);
    let ob = o.active_buffer();
    let nb = n.active_buffer();
    if t.len() > 0 && crate::editor::date_input(t, purpose) is None {
        &&& same_buffers(o, n)
        &&& n.mode_v() == (Mode::DatePrompt { input: n.mode_v()->DatePrompt_input, purpose })
        &&& n.mode_v()->DatePrompt_input@ == text
        &&& n.status_v() == invalid_date_text()
    } else {
        let ts = if t.len() == 0 {
            None
        } else {
            crate::editor::date_input(t, purpose)
        };
        &&& n.mode_v() == Mode::Edit
        &&& match purpose {
            DatePurpose::Scheduled | DatePurpose::Deadline => {
                let which = if purpose is Scheduled {
                    Planning::Scheduled
                } else {
                    Planning::Deadline
                };
                let want = planning_set(ob.format, ob.doc@, ob.view.line_v() as usize, which, ts);
                &&& edit_frame(o, n)
                &&& retouched_in(ob, nb, want)
                &&& n.status_v() == if want.0 is NoOp { refusal(want.0) } else { prior }
            },
            _ => match ts {
                Some(x) => {
                    &&& edit_frame(o, n)
                    &&& nb.doc@ == crate::document::spliced_in(
                        ob.doc@,
                        crate::document::line_start(ob.doc@, ob.view.line_v()) + ob.view.col_v(),
                        timestamp_text(x),
                    )
                    &&& nb.doc.modified_flag()
                    &&& caret_kept(ob, nb)
                    &&& reparsed(ob, nb)
                    &&& n.status_v() == prior
                },
                None => same_buffers(o, n) && n.status_v() == prior,
            },
        }
    }
}

/// The input of a prompt mode (empty for the other modes).
pub open spec fn prompt_input(m: Mode) -> Seq<char> {
    match m {
        Mode::SaveAs { input } => input@,
        Mode::OpenFile { input } => input@,
        Mode::EditTags { input } => input@,
        Mode::DatePrompt { input, .. } => input@,
        _ => seq![],
    }
}

/// Whether two modes are the same prompt (a date prompt for the same purpose).
pub open spec fn same_prompt(a: Mode, b: Mode) -> bool {
    match (a, b) {
        (Mode::SaveAs { .. }, Mode::SaveAs { .. }) => true,
        (Mode::OpenFile { .. }, Mode::OpenFile { .. }) => true,
        (Mode::EditTags { .. }, Mode::EditTags { .. }) => true,
        (Mode::DatePrompt { purpose: p, .. }, Mode::DatePrompt { purpose: q, .. }) => p == q,
        _ => false,
    }
}

/// A key typed into an open prompt: any press first clears the message; Tab in a path prompt
/// asks the driver to complete the input; otherwise the key edits the input, Esc cancels, and
/// Enter submits: tags and dates are applied here, a non-blank path goes to the driver.
pub open spec fn prompt_keyed(o: App, n: App, key: Key, e: Effect) -> bool {
    let press = key.kind == KeyKind::Press;
    let prior = if press { Seq::<char>::empty() } else { o.status_v() };
    let input = prompt_input(o.mode_v());
    let step = crate::editor::prompt_step(input, key);
    if key.code == KeyCode::Tab && press && (o.mode_v() is SaveAs || o.mode_v() is OpenFile) {
        &&& same_buffers(o, n) && n.mode_v() == o.mode_v() && n.status_v() == prior
        &&& e matches Effect::Complete(t) && t@ == input
    } else if step.1 == 0 {
        &&& same_buffers(o, n) && n.status_v() == prior && e == Effect::Nothing
        &&& same_prompt(n.mode_v(), o.mode_v()) && prompt_input(n.mode_v()) == step.0
    } else if step.1 == 1 {
        same_buffers(o, n) && n.mode_v() == Mode::Edit && n.status_v() == prior && e == Effect::Nothing
    } else {
        match o.mode_v() {
            Mode::EditTags { .. } => e == Effect::Nothing && tags_applied(o, n, input, prior),
            Mode::DatePrompt { purpose, .. } => e == Effect::Nothing && date_applied(o, n, purpose, input, prior),
            _ => {
                &&& same_buffers(o, n) && n.mode_v() == Mode::Edit && n.status_v() == prior
                &&& if crate::text::trim(input).len() == 0 {
                    e == Effect::Nothing
                } else if o.mode_v() is SaveAs {
                    e matches Effect::SaveAsTyped(t) && t@ == input
                } else {
                    e matches Effect::OpenTyped(t) && t@ == input
                }
            },
        }
    }
}

/// Whether `n` is `o` but for its mode.
pub open spec fn only_mode(o: App, n: App) -> bool {
    same_buffers(o, n) && n.status_v() == o.status_v()
}

/// Switching to buffer `i` from a picker: the mode goes back to editing.
pub open spec fn picked(o: App, n: App, i: int) -> bool {
    &&& n.buffers_v() == o.buffers_v() && n.page_v() == o.page_v() && n.quit_v() == o.quit_v()
    &&& n.mode_v() == Mode::Edit
    &&& n.active_v() == i
    &&& n.status_v() == switch_status(o.buffers_v(), i, o.status_v())
}

/// A key in the buffer list: arrows move the selection (within the list), Enter switches to
/// the selected buffer, a digit 1-9 switches straight to that buffer if it is open, Esc
/// leaves the list; anything else, and any key that is not a press, does nothing.
pub open spec fn list_keyed(o: App, n: App, key: Key) -> bool {
    let sel = o.mode_v()->BufferList_selected as int;
    let len = o.buffers_v().len() as int;
    if key.kind != KeyKind::Press {
        only_mode(o, n) && n.mode_v() == o.mode_v()
    } else {
        match key.code {
            KeyCode::Esc => only_mode(o, n) && n.mode_v() == Mode::Edit,
            KeyCode::Up => only_mode(o, n) && n.mode_v() == (Mode::BufferList {
                selected: if sel > 0 { (sel - 1) as usize } else { 0 },
            }),
            KeyCode::Down => only_mode(o, n) && n.mode_v() == (Mode::BufferList {
                selected: if sel + 1 < len { (sel + 1) as usize } else { (len - 1) as usize },
            }),
            KeyCode::Enter => picked(o, n, sel),
            KeyCode::Char(c) => if '1' <= c <= '9' && (c as int) - ('1' as int) < len {
                picked(o, n, (c as int) - ('1' as int))
            } else {
                only_mode(o, n) && n.mode_v() == o.mode_v()
            },
            _ => only_mode(o, n) && n.mode_v() == o.mode_v(),
        }
    }
}

/// Closing the active buffer: it goes (the last one gives way to a fresh untitled buffer),
/// and the one after it, or the new last one, becomes active.
pub open spec fn closed_active(o: App, n: App) -> bool {
    &&& o.buffers_v().len() > 1 ==> n.buffers_v() == o.buffers_v().remove(o.active_v())
    &&& o.buffers_v().len() == 1 ==> n.buffers_v().len() == 1 && n.buffers_v()[0].doc@.len() == 0
        && n.buffers_v()[0].path is None && n.buffers_v()[0].stash_path is None
    &&& n.active_v() == if o.active_v() < n.buffers_v().len() {
        o.active_v()
    } else {
        n.buffers_v().len() - 1
    }
    &&& n.page_v() == o.page_v()
    &&& n.status_v() == o.status_v()
}

/// A key answering a close or quit question: `y` closes the buffer or quits, `n` or Esc
/// cancels; anything else, and any key that is not a press, does nothing.
pub open spec fn confirm_keyed(o: App, n: App, key: Key) -> bool {
    let yes = key.code matches KeyCode::Char(c) && (c == 'y' || c == 'Y');
    let no = key.code is Esc || (key.code matches KeyCode::Char(c) && (c == 'n' || c == 'N'));
    if key.kind != KeyKind::Press || !(yes || no) {
        only_mode(o, n) && n.mode_v() == o.mode_v()
    } else if no {
        only_mode(o, n) && n.mode_v() == Mode::Edit
    } else if o.mode_v() is ConfirmQuit {
        &&& n.buffers_v() == o.buffers_v() && n.active_v() == o.active_v() && n.page_v() == o.page_v()
        &&& n.status_v() == o.status_v() && n.mode_v() == Mode::Edit && n.quit_v()
    } else {
        closed_active(o, n) && n.mode_v() == Mode::Edit && n.quit_v() == o.quit_v()
    }
}

/// Buffer `nb` is `ob` with its caret put at `(line, col)`, pulled back inside the text.
pub open spec fn caret_put(ob: Buffer, nb: Buffer, line: int, col: int) -> bool {
    let l = clamp_pos(ob.doc@, line, 0).0;
    let c = if col < line_len(ob.doc@, l) {
        col
    } else {
        line_len(ob.doc@, l)
    };
    &&& nb == Buffer { view: nb.view, ..ob }
    &&& nb.view.at(l, c, c)
}

/// `Wrapped`
pub open spec fn wrapped_text() -> Seq<char> {
    seq!['W', 'r', 'a', 'p', 'p', 'e', 'd']
}

/// `Not found`
pub open spec fn not_found_text() -> Seq<char> {
    seq!['N', 'o', 't', ' ', 'f', 'o', 'u', 'n', 'd']
}

/// The session after a search for `q` that found `r`, the prompt now holding `q` and going
/// `forward`: on a hit the caret goes to it (`Wrapped` when the search went round); with an
/// empty query the caret goes back to where the prompt opened; with no hit it stays and the
/// status says `Not found`.
pub open spec fn searched(o: App, n: App, q: Seq<char>, forward: bool, r: Option<(Match, bool)>) -> bool {
    let ob = o.active_buffer();
    let nb = n.active_buffer();
    let ol = o.mode_v()->Search_origin_line as int;
    let oc = o.mode_v()->Search_origin_col as int;
    &&& n.mode_v() matches Mode::Search { input, origin_line, origin_col, forward: f } && input@ == q
        && origin_line == ol && origin_col == oc && f == forward
    &&& edit_frame(o, n)
    &&& match r {
        Some((m, w)) => caret_put(ob, nb, m.line as int, m.col as int) && n.status_v() == if w {
            wrapped_text()
        } else {
            Seq::<char>::empty()
        },
        None => if q.len() == 0 {
            caret_put(ob, nb, ol, oc) && n.status_v().len() == 0
        } else {
            nb == ob && n.status_v() == not_found_text()
        },
    }
}

/// A key in the *Find* prompt: a char is added to the query and a backspace takes the last
/// one off, each searching again from where the prompt opened; Ctrl+F steps to the next
/// occurrence after the caret and Ctrl+R to the one before it; Enter keeps the caret where
/// it is and Esc puts it back where it was, both closing the prompt; anything else, and any
/// key that is not a press, does nothing.
pub open spec fn search_keyed(o: App, n: App, key: Key) -> bool {
    let m = o.mode_v();
    let input = m->Search_input@;
    let ol = m->Search_origin_line as int;
    let oc = m->Search_origin_col as int;
    let fwd = m->Search_forward;
    let ob = o.active_buffer();
    let s = ob.doc@;
    let stay = only_mode(o, n) && n.mode_v() == o.mode_v();
    if key.kind != KeyKind::Press {
        stay
    } else {
        match key.code {
            KeyCode::Esc => {
                &&& edit_frame(o, n) && n.mode_v() == Mode::Edit && n.status_v() == o.status_v()
                &&& caret_put(ob, n.active_buffer(), ol, oc)
            },
            KeyCode::Enter => only_mode(o, n) && n.mode_v() == Mode::Edit,
            KeyCode::Backspace => {
                let q = if input.len() > 0 {
                    input.drop_last()
                } else {
                    input
                };
                searched(o, n, q, fwd, found(s, q, ol, oc, fwd))
            },
            KeyCode::Char(c) => if key.ctrl && c == 'f' {
                searched(o, n, input, true, found(s, input, ob.view.line_v(), ob.view.col_v() + 1, true))
            } else if key.ctrl && c == 'r' {
                searched(o, n, input, false, found(s, input, ob.view.line_v(), ob.view.col_v() - 1, false))
            } else if !key.ctrl && !key.alt {
                searched(o, n, input.push(c), fwd, found(s, input.push(c), ol, oc, fwd))
            } else {
                stay
            },
            _ => stay,
        }
    }
}

/// The number of rows of category number `c` of the help menu.
pub open spec fn help_len(c: int) -> int {
    rows_in(command_table(), category_at(c), command_table().len() as int).len() as int
}

/// The action on row `sel` of category number `c` of the help menu.
pub open spec fn help_action(c: int, sel: int) -> Action {
    rows_in(command_table(), category_at(c), command_table().len() as int)[sel].0
}

/// Session `o` back in Edit mode, everything else as it is.
pub closed spec fn edit_of(o: App) -> App {
    App { mode: Mode::Edit, ..o }
}

/// `edit_of(o)` is `o` in Edit mode.
pub proof fn lemma_edit_of(o: App)
    ensures
        edit_of(o).mode_v() == Mode::Edit,
        edit_of(o).buffers_v() == o.buffers_v(),
        edit_of(o).active_v() == o.active_v(),
        edit_of(o).page_v() == o.page_v(),
        edit_of(o).quit_v() == o.quit_v(),
        edit_of(o).status_v() == o.status_v(),
{
}

/// A key in the help menu: `←`/`→` (and Tab) move between categories, wrapping, back to the
/// first row; `↑`/`↓` move the selection, wrapping; Enter leaves the menu and runs the
/// selected command as its chord would in the editor; Esc, Ctrl+H and Ctrl+K leave it;
/// anything else, and any key that is not a press, does nothing.
pub open spec fn help_keyed(o: App, n: App, key: Key, e: Effect) -> bool {
    let c = o.mode_v()->HelpMenu_category as int;
    let sel = o.mode_v()->HelpMenu_selected as int;
    let len = help_len(c);
    let stay = only_mode(o, n) && n.mode_v() == o.mode_v() && e == Effect::Nothing;
    let close = only_mode(o, n) && n.mode_v() == Mode::Edit && e == Effect::Nothing;
    let to = |nc: int, ns: int|
        only_mode(o, n) && n.mode_v() == (Mode::HelpMenu { category: nc as usize, selected: ns as usize })
            && e == Effect::Nothing;
    if key.kind != KeyKind::Press {
        stay
    } else {
        match key.code {
            KeyCode::Esc => close,
            KeyCode::Char(ch) => if key.ctrl && (ch == 'h' || ch == 'k') {
                close
            } else {
                stay
            },
            KeyCode::Left => to((c + 6) % 7, 0),
            KeyCode::Right | KeyCode::Tab => to((c + 1) % 7, 0),
            KeyCode::Up => to(c, if sel > 0 { sel - 1 } else { len - 1 }),
            KeyCode::Down => to(c, if sel + 1 < len { sel + 1 } else { 0 }),
            KeyCode::Enter => applied(edit_of(o), n, help_action(c, sel), e, Seq::<char>::empty()),
            _ => stay,
        }
    }
}

/// What one key does to session `o`, by mode: in the editor the key's action applies (after
/// the message is cleared); in the buffer list, a question or a prompt it answers that.
pub open spec fn key_handled(o: App, n: App, key: Key, e: Effect) -> bool {
    match o.mode_v() {
        Mode::Edit => match action_for(key) {
            Some(a) => applied(o, n, a, e, Seq::<char>::empty()),
            None => same_buffers(o, n) && n.mode_v() == o.mode_v() && n.status_v().len() == 0 && e == Effect::Nothing,
        },
        Mode::BufferList { .. } => e == Effect::Nothing && list_keyed(o, n, key),
        Mode::HelpMenu { .. } => help_keyed(o, n, key, e),
        Mode::Search { .. } => e == Effect::Nothing && search_keyed(o, n, key),
        Mode::ConfirmClose | Mode::ConfirmQuit => e == Effect::Nothing && confirm_keyed(o, n, key),
        _ => prompt_keyed(o, n, key, e),
    }
}

/// Two sessions alike but for their status-line message.
pub open spec fn alike_but_status(o1: App, o2: App) -> bool {
    &&& o1.buffers_v() == o2.buffers_v()
    &&& o1.active_v() == o2.active_v()
    &&& o1.mode_v() == o2.mode_v()
    &&& o1.page_v() == o2.page_v()
    &&& o1.quit_v() == o2.quit_v()
}

/// What an action does depends on the message before it only through `prior`.
proof fn lemma_applied_ignores_status(o1: App, o2: App, n: App, a: Action, e: Effect, prior: Seq<char>)
    requires
        alike_but_status(o1, o2),
    ensures
        applied(o1, n, a, e, prior) == applied(o2, n, a, e, prior),
{
    reveal(applied_motion);
    reveal(applied_typing);
    reveal(applied_struct);
    reveal(applied_date);
    reveal(applied_session);
    reveal(applied_heading);
}

/// Switching to the next buffer and then to the previous one comes back to the buffer one
/// started on, every buffer as it was; and the other way round.
pub proof fn lemma_next_then_prev_buffer(
    o: App,
    m: App,
    n: App,
    first: Action,
    e1: Effect,
    e2: Effect,
    p1: Seq<char>,
    p2: Seq<char>,
)
    requires
        o.wf(),
        first is NextBuffer || first is PrevBuffer,
        applied(o, m, first, e1, p1),
        applied(m, n, if first is NextBuffer { Action::PrevBuffer } else { Action::NextBuffer }, e2, p2),
    ensures
        n.buffers_v() == o.buffers_v(),
        n.active_v() == o.active_v(),
        n.mode_v() == o.mode_v(),
{
    reveal(applied_session);
    let len = o.buffers_v().len() as int;
    assert(len >= 1 && 0 <= o.active_v() < len);
    let a = o.active_v();
    if first is NextBuffer {
        if a + 1 < len {
            vstd::arithmetic::div_mod::lemma_small_mod((a + 1) as nat, len as nat);
        } else {
            vstd::arithmetic::div_mod::lemma_mod_self_0(len);
        }
        assert(m.active_v() == if a + 1 < len { a + 1 } else { 0 });
    } else {
        let b = if a == 0 { len - 1 } else { a - 1 };
        assert(m.active_v() == b);
        if b + 1 < len {
            vstd::arithmetic::div_mod::lemma_small_mod((b + 1) as nat, len as nat);
        } else {
            vstd::arithmetic::div_mod::lemma_mod_self_0(len);
        }
    }
}

/// What the Edit-mode action `a` does to session `o`: the session `n` it leaves and the
/// effect `e` it asks of the driver. `prior` is the status-line message as the action starts;
/// an action that reports nothing leaves it.
pub open spec fn applied(o: App, n: App, a: Action, e: Effect, prior: Seq<char>) -> bool {
    if motion_of(a) is Some {
        applied_motion(o, n, motion_of(a)->0, e, prior)
    } else if typing_of(a) is Some {
        applied_typing(o, n, typing_of(a)->0, e, prior)
    } else if struct_op_of(a) is Some {
        applied_struct(o, n, struct_op_of(a)->0, e, prior)
    } else if date_purpose_of(a) is Some {
        applied_date(o, n, date_purpose_of(a)->0, e, prior)
    } else if a is Save || a is Quit || a is OpenFile || a is NextBuffer || a is PrevBuffer || a is ListBuffers
        || a is CloseBuffer {
        applied_session(o, n, a, e, prior)
    } else {
        applied_heading(o, n, a, e, prior)
    }
}

/// A caret movement.
#[derive(Debug, Clone, Copy, PartialEq, Eq, Structural)]
pub enum Motion {
    Left,
    Right,
    Up,
    Down,
    Home,
    End,
    PageUp,
    PageDown,
}

/// The structural edit an action asks for, if it is one.
pub open spec fn struct_op_of(a: Action) -> Option<StructOp> {
    match a {
        Action::PromoteHeading => Some(StructOp::PromoteHeading),
        Action::DemoteHeading => Some(StructOp::DemoteHeading),
        Action::PromoteSubtree => Some(StructOp::PromoteSubtree),
        Action::DemoteSubtree => Some(StructOp::DemoteSubtree),
        Action::MoveSubtreeUp => Some(StructOp::MoveSubtreeUp),
        Action::MoveSubtreeDown => Some(StructOp::MoveSubtreeDown),
        Action::ToggleCheckbox => Some(StructOp::ToggleCheckbox),
        _ => None,
    }
}

/// The message of a refused edit.
pub open spec fn refusal(r: EditOutcome) -> Seq<char> {
    match r {
        EditOutcome::NoOp(m) => m@,
        _ => seq![],
    }
}

impl App {
    /// Move the caret of the active buffer.
    fn act_motion(&mut self, m: Motion)
        requires
            old(self).wf(),
        ensures
            final(self).wf(),
            final(self).page == old(self).page,
            moved_in(old(self).active_buffer(), final(self).active_buffer(), m, old(self).page_v()),
            final(self).buffers_v() == old(self).buffers_v().update(old(self).active_v(), final(self).active_buffer()),
            final(self).active_buffer().doc == old(self).active_buffer().doc,
            final(self).active_v() == old(self).active_v(),
            final(self).mode == old(self).mode,
            final(self).status == old(self).status,
            final(self).should_quit == old(self).should_quit,
            final(self).buffers_v().len() == old(self).buffers_v().len(),
    {
        let ghost o = *self;
        let page = self.page;
        let mut b = self.take_active();
        match m {
            Motion::Left => b.view.move_left(&b.doc),
            Motion::Right => b.view.move_right(&b.doc),
            Motion::Up => b.view.move_up(&b.doc),
            Motion::Down => b.view.move_down(&b.doc),
            Motion::Home => b.view.move_home(),
            Motion::End => b.view.move_end(&b.doc),
            Motion::PageUp => b.view.move_page_up(&b.doc, page),
            Motion::PageDown => b.view.move_page_down(&b.doc, page),
        }
        proof {
            crate::document::lemma_line_count_bounds(b.doc@);
        }
        self.put_active(b);
        proof {
            App::lemma_put_back(o, *self, b);
        }
    }

    /// Type into the active buffer.
    fn act_typing(&mut self, t: Typing)
        requires
            old(self).wf(),
        ensures
            final(self).wf(),
            final(self).page == old(self).page,
            typed_in(old(self).active_buffer(), final(self).active_buffer(), t),
            final(self).buffers_v() == old(self).buffers_v().update(old(self).active_v(), final(self).active_buffer()),
            final(self).active_v() == old(self).active_v(),
            final(self).mode == old(self).mode,
            final(self).status == old(self).status,
            final(self).should_quit == old(self).should_quit,
            final(self).buffers_v().len() == old(self).buffers_v().len(),
    {
        let ghost o = *self;
        let mut b = self.take_active();
        buffer_type(&mut b, t);
        self.put_active(b);
        proof {
            App::lemma_put_back(o, *self, b);
        }
    }

    /// Run a structural edit on the active buffer; a refused one says why on the status line.
    fn act_struct(&mut self, op: StructOp)
        requires
            old(self).wf(),
        ensures
            final(self).wf(),
            final(self).page == old(self).page,
            ({
                let ob = old(self).active_buffer();
                let want = op_result(op, ob.format, ob.doc@, ob.view.line_v() as usize);
                &&& final(self).active_buffer().doc@ == want.1
                &&& edited_in(ob, final(self).active_buffer(), want)
                &&& want.0 is NoOp ==> final(self).status_v() == refusal(want.0)
                &&& want.0 is Changed ==> final(self).status == old(self).status
            }),
            final(self).buffers_v() == old(self).buffers_v().update(old(self).active_v(), final(self).active_buffer()),

            final(self).active_v() == old(self).active_v(),
            final(self).mode == old(self).mode,
            final(self).should_quit == old(self).should_quit,
            final(self).buffers_v().len() == old(self).buffers_v().len(),
    {
        let ghost o = *self;
        let mut b = self.take_active();
        let r = buffer_structure_edit(&mut b, op);
        self.put_active(b);
        proof {
            App::lemma_put_back(o, *self, b);
        }
        if let EditOutcome::NoOp(msg) = r {
            self.status = owned(msg);
        }
    }

    /// `Shift+↑/↓`: shift the timestamp field under the caret, else cycle the priority.
    fn act_shift(&mut self, up: bool)
        requires
            old(self).wf(),
        ensures
            final(self).wf(),
            final(self).page == old(self).page,
            ({
                let ob = old(self).active_buffer();
                &&& shifted_in(ob, final(self).active_buffer(), up)
                &&& match timestamp_shifted(ob.doc@, ob.view.line_v() as usize, ob.view.col_v() as usize, up) {
                    Some(t) => final(self).active_buffer().doc@ == t && final(self).status == old(self).status,
                    None => {
                        let want = priority_cycled(ob.format, ob.doc@, ob.view.line_v() as usize, up);
                        &&& final(self).active_buffer().doc@ == want.1
                        &&& want.0 is NoOp ==> final(self).status_v() == refusal(want.0)
                        &&& want.0 is Changed ==> final(self).status == old(self).status
                    },
                }
            }),
            final(self).buffers_v() == old(self).buffers_v().update(old(self).active_v(), final(self).active_buffer()),

            final(self).active_v() == old(self).active_v(),
            final(self).mode == old(self).mode,
            final(self).should_quit == old(self).should_quit,
            final(self).buffers_v().len() == old(self).buffers_v().len(),
    {
        let ghost o = *self;
        let mut b = self.take_active();
        let r = buffer_shift_or_priority(&mut b, up);
        self.put_active(b);
        proof {
            App::lemma_put_back(o, *self, b);
        }
        if let EditOutcome::NoOp(msg) = r {
            self.status = owned(msg);
        }
    }

    /// Cycle the TODO keyword on the caret's heading.
    fn act_cycle_todo(&mut self)
        requires
            old(self).wf(),
        ensures
            final(self).wf(),
            final(self).page == old(self).page,
            ({
                let ob = old(self).active_buffer();
                &&& todo_cycled_in(ob, final(self).active_buffer())
                &&& match crate::edits::todo_cycled(ob.format, ob.doc@, ob.view.line_v()) {
                    Some(t) => final(self).active_buffer().doc@ == t,
                    None => final(self).active_buffer().doc == ob.doc,
                }
            }),
            final(self).buffers_v() == old(self).buffers_v().update(old(self).active_v(), final(self).active_buffer()),

            final(self).active_v() == old(self).active_v(),
            final(self).mode == old(self).mode,
            final(self).status == old(self).status,
            final(self).should_quit == old(self).should_quit,
            final(self).buffers_v().len() == old(self).buffers_v().len(),
    {
        let ghost o = *self;
        let mut b = self.take_active();
        buffer_cycle_todo(&mut b);
        self.put_active(b);
        proof {
            App::lemma_put_back(o, *self, b);
        }
    }

    /// Insert a (possibly `TODO`) sibling heading and put the caret on it.
    fn act_sibling(&mut self, todo: bool)
        requires
            old(self).wf(),
        ensures
            final(self).wf(),
            final(self).page == old(self).page,
            ({
                let ob = old(self).active_buffer();
                &&& final(self).active_buffer().doc@ == crate::edits::sibling_inserted(ob.format, ob.doc@, ob.view.line_v() as usize, todo).1
                &&& sibling_in(ob, final(self).active_buffer(), todo)
            }),
            final(self).buffers_v() == old(self).buffers_v().update(old(self).active_v(), final(self).active_buffer()),

            final(self).active_v() == old(self).active_v(),
            final(self).mode == old(self).mode,
            final(self).status == old(self).status,
            final(self).should_quit == old(self).should_quit,
            final(self).buffers_v().len() == old(self).buffers_v().len(),
    {
        let ghost o = *self;
        let mut b = self.take_active();
        buffer_insert_sibling(&mut b, todo);
        self.put_active(b);
        proof {
            App::lemma_put_back(o, *self, b);
        }
    }

    /// `Tab`: fold or unfold the heading under the caret, otherwise insert a tab.
    fn act_toggle_fold(&mut self)
        requires
            old(self).wf(),
        ensures
            final(self).wf(),
            final(self).page == old(self).page,
            ({
                let ob = old(self).active_buffer();
                let nb = final(self).active_buffer();
                if is_heading_line(ob.outline, ob.view.line_v()) {
                    &&& nb.doc == ob.doc
                    &&& (nb.folded@.contains(ob.view.line_v() as usize) <==> !ob.folded@.contains(ob.view.line_v() as usize))
                } else {
                    nb.doc@ == crate::document::spliced_in(
                        ob.doc@,
                        crate::document::line_start(ob.doc@, ob.view.line_v()) + ob.view.col_v(),
                        seq!['\t'],
                    )
                }
            }),
            tab_in(old(self).active_buffer(), final(self).active_buffer()),
            final(self).buffers_v() == old(self).buffers_v().update(old(self).active_v(), final(self).active_buffer()),

            final(self).active_v() == old(self).active_v(),
            final(self).mode == old(self).mode,
            final(self).status == old(self).status,
            final(self).should_quit == old(self).should_quit,
            final(self).buffers_v().len() == old(self).buffers_v().len(),
    {
        let ghost o = *self;
        let mut b = self.take_active();
        if !buffer_toggle_fold(&mut b) {
            b.view.insert_char(&mut b.doc, '\t');
            reparse(&mut b);
        }
        self.put_active(b);
        proof {
            App::lemma_put_back(o, *self, b);
        }
    }

    /// Jump the caret to the next (or previous) heading.
    fn act_jump(&mut self, next: bool)
        requires
            old(self).wf(),
        ensures
            final(self).wf(),
            final(self).page == old(self).page,
            jumped_in(old(self).active_buffer(), final(self).active_buffer(), next),
            final(self).buffers_v() == old(self).buffers_v().update(old(self).active_v(), final(self).active_buffer()),

            final(self).active_buffer().doc == old(self).active_buffer().doc,
            final(self).active_v() == old(self).active_v(),
            final(self).mode == old(self).mode,
            final(self).status == old(self).status,
            final(self).should_quit == old(self).should_quit,
            final(self).buffers_v().len() == old(self).buffers_v().len(),
    {
        let ghost o = *self;
        let mut b = self.take_active();
        buffer_jump_heading(&mut b, next);
        self.put_active(b);
        proof {
            App::lemma_put_back(o, *self, b);
        }
    }

    /// Whether some buffer has unsaved changes.
    fn any_dirty(&self) -> (r: bool)
        ensures
            r == exists|i: int| 0 <= i < self.buffers@.len() && (#[trigger] self.buffers@[i]).doc.modified_flag(),
    {
        let mut i: usize = 0;
        while i < self.buffers.len()
            invariant
                i <= self.buffers@.len(),
                forall|k: int| 0 <= k < i ==> !(#[trigger] self.buffers@[k]).doc.modified_flag(),
            decreases self.buffers@.len() - i,
        {
            if self.buffers[i].is_dirty() {
                return true;
            }
            i = i + 1;
        }
        false
    }

    /// `Ctrl+S`: write to the buffer's file; a buffer with only a stashed first-save path
    /// saves there as a save-as; one with neither opens the Save As prompt.
    fn act_save(&mut self) -> (e: Effect)
        requires
            old(self).wf(),
        ensures
            final(self).wf(),
            final(self).status == old(self).status,
            final(self).should_quit == old(self).should_quit,
            final(self).page == old(self).page,
            final(self).buffers_v() == old(self).buffers_v(),
            final(self).active_v() == old(self).active_v(),
            match old(self).active_buffer().path {
                Some(p) => e == (Effect::Write { path: p, rename: false }) && final(self).mode == old(self).mode,
                None => match old(self).active_buffer().stash_path {
                    Some(p) => e == (Effect::Write { path: p, rename: true }) && final(self).mode == old(self).mode,
                    None => e == Effect::Nothing && (final(self).mode_v() matches Mode::SaveAs { input } && input@.len() == 0),
                },
            },
    {
        match &self.buffers[self.active].path {
            Some(p) => {
                return Effect::Write { path: p.clone(), rename: false };
            },
            None => {},
        }
        match &self.buffers[self.active].stash_path {
            Some(p) => {
                return Effect::Write { path: p.clone(), rename: true };
            },
            None => {},
        }
        self.mode = Mode::SaveAs { input: String::new() };
        Effect::Nothing
    }
}

/// The stamps a planning line carries can be printed.
proof fn lemma_planning_printable(text: Seq<char>)
    ensures
        crate::structure::planning_of(text).0 matches Some(t) ==> printable_ts(t),
        crate::structure::planning_of(text).1 matches Some(t) ==> printable_ts(t),
{
    let t = crate::text::trim_start(text);
    let sw = crate::structure::planning_word(true);
    let dw = crate::structure::planning_word(false);
    if let Some(pos) = crate::text::find_from(t, sw, 0) {
        crate::timestamp::lemma_parsed_printable(crate::text::trim_start(t.skip(pos + sw.len())));
    }
    if let Some(pos) = crate::text::find_from(t, dw, 0) {
        crate::timestamp::lemma_parsed_printable(crate::text::trim_start(t.skip(pos + dw.len())));
    }
}

/// The text after `Invalid tag `, quoted, and the rule.
fn invalid_tag_message(bad: &str) -> (r: String)
    ensures
        r@ == invalid_tag_text(bad@),
{
    let q = quoted(bad);
    let mut v = chars_of("Invalid tag ");
    crate::text::append_chars(&mut v, &chars_of_string(&q));
    crate::text::append_chars(&mut v, &chars_of(" — use letters, digits, _ @ # %"));
    string_of(&v)
}

impl App {
    /// The heading enclosing the caret of the active buffer, by number.
    fn enclosing_heading(&self) -> (r: Option<usize>)
        requires
            self.wf(),
        ensures
            r matches Some(k) ==> k < self.active_buffer().outline.headings@.len(),
            match r {
                Some(k) => crate::structure::enclosing_index(self.active_buffer().outline.headings@, self.active_buffer().view.line_v()) == Some(k as int),
                None => crate::structure::enclosing_index(self.active_buffer().outline.headings@, self.active_buffer().view.line_v()) is None,
            },
    {
        let b = &self.buffers[self.active];
        b.outline.enclosing_index(b.view.cursor_line())
    }

    /// `Ctrl+G`: open the tags prompt pre-filled with the enclosing heading's tags.
    fn open_tags_prompt(&mut self)
        requires
            old(self).wf(),
        ensures
            final(self).wf(),
            final(self).page == old(self).page,
            final(self).buffers_v() == old(self).buffers_v(),
            final(self).active_v() == old(self).active_v(),
            final(self).should_quit == old(self).should_quit,
            tags_prompt_opened(*old(self), *final(self), old(self).status_v()),
    {
        match self.enclosing_heading() {
            Some(k) => {
                let text = self.tags_text(k);
                self.mode = Mode::EditTags { input: text };
            },
            None => {
                self.status = owned(crate::edits::NOT_ON_HEADING);
            },
        }
    }

    /// The enclosing heading's current SCHEDULED/DEADLINE stamp as text, to pre-fill the
    /// prompt (empty when there is none).
    fn existing_planning(&self, purpose: DatePurpose) -> (r: String)
        requires
            self.wf(),
        ensures
            r@ == planning_prefill(self.active_buffer(), purpose),
    {
        match self.enclosing_heading() {
            Some(k) => {
                let b = &self.buffers[self.active];
                let h = &b.outline.headings[k];
                proof {
                    assert(crate::structure::heading_is(*h, b.format, b.doc@, k as int));
                    lemma_planning_printable(crate::document::line_of(b.doc@, crate::structure::heading_lines(b.format, b.doc@)[k as int] + 1));
                }
                let ts = match purpose {
                    DatePurpose::Scheduled => h.scheduled,
                    DatePurpose::Deadline => h.deadline,
                    _ => None,
                };
                match ts {
                    Some(t) => t.to_string(),
                    None => String::new(),
                }
            },
            None => String::new(),
        }
    }

    /// The text of the active heading's tags, space-separated.
    fn tags_text(&self, k: usize) -> (r: String)
        requires
            self.wf(),
            k < self.active_buffer().outline.headings@.len(),
        ensures
            r@ == spaced_tags(self.active_buffer().outline.headings@[k as int].tags@, self.active_buffer().outline.headings@[k as int].tags@.len() as int),
    {
        proof {
            self.lemma_wf();
        }
        let tags = &self.buffers[self.active].outline.headings[k].tags;
        let mut v: Vec<char> = Vec::new();
        let mut i: usize = 0;
        while i < tags.len()
            invariant
                i <= tags@.len(),
                v@ == spaced_tags(tags@, i as int),
            decreases tags@.len() - i,
        {
            if i > 0 {
                v.push(' ');
            }
            let t = chars_of(tags[i].as_str());
            crate::text::append_chars(&mut v, &t);
            i = i + 1;
        }
        string_of(&v)
    }

    /// Open the date prompt for `purpose`; SCHEDULED/DEADLINE are Org-only and pre-fill with
    /// the heading's current stamp.
    fn open_date_prompt(&mut self, purpose: DatePurpose)
        requires
            old(self).wf(),
        ensures
            final(self).wf(),
            final(self).page == old(self).page,
            final(self).buffers_v() == old(self).buffers_v(),
            final(self).active_v() == old(self).active_v(),
            final(self).should_quit == old(self).should_quit,
            date_prompt_opened(*old(self), *final(self), purpose, old(self).status_v()),
    {
        if (purpose == DatePurpose::Scheduled || purpose == DatePurpose::Deadline)
            && self.buffers[self.active].format != Format::Org {
            self.status = owned("SCHEDULED/DEADLINE is an Org feature");
            return;
        }
        let input = self.existing_planning(purpose);
        self.mode = Mode::DatePrompt { input, purpose };
    }

    /// Parse the typed date and act on it. An invalid date keeps the prompt open with a
    /// message; empty input on a planning command removes that entry.
    fn apply_date(&mut self, purpose: DatePurpose, text: &str)
        requires
            old(self).wf(),
            old(self).mode is Edit,
        ensures
            final(self).wf(),
            final(self).active_v() == old(self).active_v(),
            final(self).buffers_v().len() == old(self).buffers_v().len(),
            date_applied(*old(self), *final(self), purpose, text@, old(self).status_v()),
    {
        let t = chars_of(text);
        let trimmed = crate::text::trim_exec(&t);
        let ts: Option<Timestamp> = if trimmed.len() == 0 {
            None
        } else {
            let tr = string_of(&trimmed);
            match crate::editor::parse_date_input(tr.as_str(), purpose) {
                Some(ts) => {
                    proof {
                        crate::timestamp::lemma_parsed_printable(crate::editor::wrapped_date(tr@, purpose));
                    }
                    Some(ts)
                },
                None => {
                    assert(tr@ == crate::text::trim(text@));
                    self.status = owned("Invalid date — try 2024-01-15 or 2024-01-15 09:30");
                    self.mode = Mode::DatePrompt { input: owned(text), purpose };
                    return;
                },
            }
        };
        let ghost o = *self;
        match purpose {
            DatePurpose::Scheduled | DatePurpose::Deadline => {
                let which = if purpose == DatePurpose::Scheduled {
                    Planning::Scheduled
                } else {
                    Planning::Deadline
                };
                let mut b = self.take_active();
                let r = buffer_set_planning(&mut b, which, ts);
                self.put_active(b);
                proof {
                    App::lemma_put_back(o, *self, b);
                }
                if let EditOutcome::NoOp(msg) = r {
                    self.status = owned(msg);
                }
            },
            DatePurpose::InsertActive | DatePurpose::InsertInactive => {
                if let Some(ts) = ts {
                    let mut b = self.take_active();
                    buffer_insert_stamp(&mut b, ts);
                    self.put_active(b);
                    proof {
                        App::lemma_put_back(o, *self, b);
                    }
                }
            },
        }
    }

    /// Validate the space-separated tags typed into the prompt and write them; an invalid
    /// tag keeps the prompt open with a message.
    fn apply_tags(&mut self, text: &str)
        requires
            old(self).wf(),
            old(self).mode is Edit,
        ensures
            final(self).wf(),
            final(self).active_v() == old(self).active_v(),
            final(self).buffers_v().len() == old(self).buffers_v().len(),
            tags_applied(*old(self), *final(self), text@, old(self).status_v()),
    {
        let t = chars_of(text);
        let words = crate::timestamp::split_words(&t);
        let mut tags: Vec<String> = Vec::new();
        let mut i: usize = 0;
        while i < words.len()
            invariant
                i <= words@.len(),
                tags@.len() == i,
                forall|k: int| 0 <= k < i ==> #[trigger] tags@[k]@ == words@[k]@,
            decreases words@.len() - i,
        {
            tags.push(string_of(&words[i]));
            i = i + 1;
        }
        let ghost ws = crate::timestamp::words(t@);
        assert(t@ == text@);
        assert(string_views(tags@) =~= ws);
        let mut j: usize = 0;
        while j < tags.len()
            invariant
                j <= tags@.len(),
                self.wf(),
                self == old(self),
                tags@.len() == ws.len(),
                forall|k: int| 0 <= k < tags@.len() ==> #[trigger] tags@[k]@ == ws[k],
                first_bad_tag(ws, 0) == first_bad_tag(ws, j as int),
                ws == crate::timestamp::words(text@),
            decreases tags@.len() - j,
        {
            if !crate::edits::is_valid_tag(tags[j].as_str()) {
                self.status = invalid_tag_message(tags[j].as_str());
                self.mode = Mode::EditTags { input: owned(text) };
                return;
            }
            j = j + 1;
        }
        let ghost o = *self;
        let mut b = self.take_active();
        let r = buffer_set_tags(&mut b, &tags);
        self.put_active(b);
        proof {
            App::lemma_put_back(o, *self, b);
        }
        if let EditOutcome::NoOp(msg) = r {
            self.status = owned(msg);
        }
        proof {
            assert(tags_written(*old(self), *self, tags@, old(self).status_v()));
        }
    }
}

impl App {
    /// Apply one Edit-mode action.
    fn apply(&mut self, action: Action) -> (e: Effect)
        requires
            old(self).wf(),
            old(self).mode is Edit,
        ensures
            final(self).wf(),
            applied(*old(self), *final(self), action, e, old(self).status_v()),
    {
        match action {
            Action::MoveLeft | Action::MoveRight | Action::MoveUp | Action::MoveDown | Action::MoveHome
            | Action::MoveEnd | Action::PageUp | Action::PageDown => self.apply_motion(action),
            Action::InsertChar(_) | Action::Newline | Action::Backspace | Action::Delete => self.apply_typing(action),
            Action::PromoteHeading | Action::DemoteHeading | Action::PromoteSubtree | Action::DemoteSubtree
            | Action::MoveSubtreeUp | Action::MoveSubtreeDown | Action::ToggleCheckbox => self.apply_struct(action),
            Action::SetScheduled | Action::SetDeadline | Action::InsertActiveTs | Action::InsertInactiveTs => {
                self.apply_date_prompt(action)
            },
            Action::Save | Action::Quit | Action::OpenFile | Action::NextBuffer | Action::PrevBuffer
            | Action::ListBuffers | Action::CloseBuffer => self.apply_session(action),
            _ => self.apply_heading(action),
        }
    }

    fn apply_motion(&mut self, action: Action) -> (e: Effect)
        requires
            old(self).wf(),
            motion_of(action) is Some,
        ensures
            final(self).wf(),
            applied(*old(self), *final(self), action, e, old(self).status_v()),
    {
        let m = match action {
            Action::MoveLeft => Motion::Left,
            Action::MoveRight => Motion::Right,
            Action::MoveUp => Motion::Up,
            Action::MoveDown => Motion::Down,
            Action::MoveHome => Motion::Home,
            Action::MoveEnd => Motion::End,
            Action::PageUp => Motion::PageUp,
            _ => Motion::PageDown,
        };
        self.act_motion(m);
        proof {
            reveal(applied_motion);
        }
        Effect::Nothing
    }

    fn apply_typing(&mut self, action: Action) -> (e: Effect)
        requires
            old(self).wf(),
            typing_of(action) is Some,
        ensures
            final(self).wf(),
            applied(*old(self), *final(self), action, e, old(self).status_v()),
    {
        let t = match action {
            Action::InsertChar(c) => Typing::Char(c),
            Action::Newline => Typing::Newline,
            Action::Backspace => Typing::Backspace,
            _ => Typing::Delete,
        };
        self.act_typing(t);
        proof {
            reveal(applied_typing);
        }
        Effect::Nothing
    }

    fn apply_struct(&mut self, action: Action) -> (e: Effect)
        requires
            old(self).wf(),
            struct_op_of(action) is Some,
        ensures
            final(self).wf(),
            applied(*old(self), *final(self), action, e, old(self).status_v()),
    {
        let op = match action {
            Action::PromoteHeading => StructOp::PromoteHeading,
            Action::DemoteHeading => StructOp::DemoteHeading,
            Action::PromoteSubtree => StructOp::PromoteSubtree,
            Action::DemoteSubtree => StructOp::DemoteSubtree,
            Action::MoveSubtreeUp => StructOp::MoveSubtreeUp,
            Action::ToggleCheckbox => StructOp::ToggleCheckbox,
            _ => StructOp::MoveSubtreeDown,
        };
        self.act_struct(op);
        proof {
            reveal(applied_struct);
        }
        Effect::Nothing
    }

    fn apply_date_prompt(&mut self, action: Action) -> (e: Effect)
        requires
            old(self).wf(),
            date_purpose_of(action) is Some,
        ensures
            final(self).wf(),
            applied(*old(self), *final(self), action, e, old(self).status_v()),
    {
        let purpose = match action {
            Action::SetScheduled => DatePurpose::Scheduled,
            Action::SetDeadline => DatePurpose::Deadline,
            Action::InsertActiveTs => DatePurpose::InsertActive,
            _ => DatePurpose::InsertInactive,
        };
        self.open_date_prompt(purpose);
        proof {
            reveal(applied_date);
        }
        Effect::Nothing
    }

    fn apply_session(&mut self, action: Action) -> (e: Effect)
        requires
            old(self).wf(),
            old(self).mode is Edit,
            action is Save || action is Quit || action is OpenFile || action is NextBuffer || action is PrevBuffer
                || action is ListBuffers || action is CloseBuffer,
        ensures
            final(self).wf(),
            applied(*old(self), *final(self), action, e, old(self).status_v()),
    {
        proof {
            reveal(applied_session);
        }
        match action {
            Action::Save => {
                return self.act_save();
            },
            Action::Quit => {
                if self.any_dirty() {
                    self.mode = Mode::ConfirmQuit;
                } else {
                    self.should_quit = true;
                }
            },
            Action::OpenFile => {
                self.mode = Mode::OpenFile { input: String::new() };
            },
            Action::NextBuffer => {
                let n = self.buffers.len();
                self.switch_to((self.active + 1) % n);
            },
            Action::PrevBuffer => {
                let n = self.buffers.len();
                let prev = if self.active == 0 {
                    n - 1
                } else {
                    self.active - 1
                };
                self.switch_to(prev);
            },
            Action::ListBuffers => {
                self.mode = Mode::BufferList { selected: self.active };
            },
            _ => {
                if self.buffers[self.active].is_dirty() {
                    self.mode = Mode::ConfirmClose;
                } else {
                    self.close_active_buffer();
                }
            },
        }
        Effect::Nothing
    }

    fn apply_heading(&mut self, action: Action) -> (e: Effect)
        requires
            old(self).wf(),
            motion_of(action) is None,
            typing_of(action) is None,
            struct_op_of(action) is None,
            date_purpose_of(action) is None,
            !(action is Save || action is Quit || action is OpenFile || action is NextBuffer || action is PrevBuffer
                || action is ListBuffers || action is CloseBuffer),
        ensures
            final(self).wf(),
            applied(*old(self), *final(self), action, e, old(self).status_v()),
    {
        proof {
            reveal(applied_heading);
        }
        match action {
            Action::ToggleFold => self.act_toggle_fold(),
            Action::NextHeading => self.act_jump(true),
            Action::PrevHeading => self.act_jump(false),
            Action::CycleTodo => self.act_cycle_todo(),
            Action::InsertSibling => self.act_sibling(false),
            Action::InsertTodoSibling => self.act_sibling(true),
            Action::PriorityUp => self.act_shift(true),
            Action::PriorityDown => self.act_shift(false),
            Action::EditTags => self.open_tags_prompt(),
            Action::Find => {
                let line = self.buffers[self.active].view.cursor_line();
                let col = self.buffers[self.active].view.cursor_column();
                self.mode = Mode::Search { input: String::new(), origin_line: line, origin_col: col, forward: true };
            },
            Action::Help => {
                proof {
                    crate::commands::lemma_no_empty_category(Category::File);
                }
                self.mode = Mode::HelpMenu { category: 0, selected: 0 };
            },
            _ => {},
        }
        Effect::Nothing
    }

    /// Handle one key press, dispatching by mode. In Edit mode the status line clears and the
    /// key's action (if it has one) applies; the prompts, the buffer list and the y/n
    /// questions take their keys themselves.
    pub fn handle_key(&mut self, key: Key) -> (e: Effect)
        requires
            old(self).wf(),
        ensures
            final(self).wf(),
            key_handled(*old(self), *final(self), key, e),
    {
        match &self.mode {
            Mode::Edit => {
                let ghost o = *self;
                self.status = String::new();
                let ghost cleared = *self;
                match key_to_action(key) {
                    Some(a) => {
                        let e = self.apply(a);
                        proof {
                            lemma_applied_ignores_status(cleared, o, *self, a, e, Seq::<char>::empty());
                        }
                        e
                    },
                    None => Effect::Nothing,
                }
            },
            Mode::SaveAs { .. } | Mode::OpenFile { .. } | Mode::EditTags { .. } | Mode::DatePrompt { .. } => {
                self.handle_prompt_key(key)
            },
            Mode::BufferList { .. } => {
                self.handle_bufferlist_key(key);
                Effect::Nothing
            },
            Mode::HelpMenu { .. } => self.handle_help_key(key),
            Mode::Search { .. } => {
                self.handle_search_key(key);
                Effect::Nothing
            },
            Mode::ConfirmClose | Mode::ConfirmQuit => {
                self.handle_confirm_key(key);
                Effect::Nothing
            },
        }
    }

    /// Drive the open prompt with one key: Tab in a path prompt asks for completion; Esc
    /// cancels; Enter submits (tags and dates apply here, paths go to the driver).
    fn handle_prompt_key(&mut self, key: Key) -> (e: Effect)
        requires
            old(self).wf(),
            old(self).mode is SaveAs || old(self).mode is OpenFile || old(self).mode is EditTags
                || old(self).mode is DatePrompt,
        ensures
            final(self).wf(),
            prompt_keyed(*old(self), *final(self), key, e),
    {
        let press = key.kind == KeyKind::Press;
        if press {
            self.status = String::new();
        }
        let (kind, purpose, mut input): (u8, DatePurpose, String) = match &self.mode {
            Mode::SaveAs { input } => (0, DatePurpose::Scheduled, input.clone()),
            Mode::OpenFile { input } => (1, DatePurpose::Scheduled, input.clone()),
            Mode::EditTags { input } => (2, DatePurpose::Scheduled, input.clone()),
            Mode::DatePrompt { input, purpose } => (3, *purpose, input.clone()),
            _ => {
                return Effect::Nothing;
            },
        };
        if key.code == KeyCode::Tab && press && kind <= 1 {
            return Effect::Complete(input);
        }
        let event = crate::editor::prompt_event(&mut input, key);
        match event {
            PromptEvent::Pending => {
                self.mode = match kind {
                    0 => Mode::SaveAs { input },
                    1 => Mode::OpenFile { input },
                    2 => Mode::EditTags { input },
                    _ => Mode::DatePrompt { input, purpose },
                };
                Effect::Nothing
            },
            PromptEvent::Cancelled => {
                self.mode = Mode::Edit;
                Effect::Nothing
            },
            PromptEvent::Submitted(text) => {
                self.mode = Mode::Edit;
                if kind == 2 {
                    let ghost mid = *self;
                    self.apply_tags(text.as_str());
                    proof {
                        let ws = crate::timestamp::words(text@);
                        if first_bad_tag(ws, 0) is None {
                            let ts = choose|ts: Seq<String>| string_views(ts) == ws && #[trigger] tags_written(mid, *self, ts, mid.status_v());
                            assert(tags_written(*old(self), *self, ts, mid.status_v()));
                        }
                    }
                    Effect::Nothing
                } else if kind == 3 {
                    self.apply_date(purpose, text.as_str());
                        Effect::Nothing
                } else {
                    let tv = chars_of(text.as_str());
                    let tt = crate::text::trim_exec(&tv);
                    if tt.len() == 0 {
                        Effect::Nothing
                    } else if kind == 0 {
                        Effect::SaveAsTyped(text)
                    } else {
                        Effect::OpenTyped(text)
                    }
                }
            },
        }
    }

    /// Put the caret of the active buffer at `(line, col)`, pulled back inside the text.
    fn put_caret(&mut self, line: usize, col: usize)
        requires
            old(self).wf(),
        ensures
            final(self).wf(),
            edit_frame(*old(self), *final(self)),
            caret_put(old(self).active_buffer(), final(self).active_buffer(), line as int, col as int),
            final(self).mode == old(self).mode,
            final(self).status == old(self).status,
    {
        let ghost o = *self;
        let mut b = self.take_active();
        b.view.move_to(&b.doc, line, col);
        self.put_active(b);
        proof {
            App::lemma_put_back(o, *self, b);
        }
    }

    /// Land a search for `q` (going `forward`) that found `r`, the prompt keeping its origin.
    fn land(&mut self, q: String, forward: bool, r: Option<(Match, bool)>)
        requires
            old(self).wf(),
            old(self).mode is Search,
        ensures
            final(self).wf(),
            searched(*old(self), *final(self), q@, forward, r),
    {
        let (ol, oc) = match &self.mode {
            Mode::Search { origin_line, origin_col, .. } => (*origin_line, *origin_col),
            _ => (0, 0),
        };
        let empty = chars_of_string(&q).len() == 0;
        match r {
            Some((m, w)) => {
                self.put_caret(m.line, m.col);
                self.status = if w {
                    owned("Wrapped")
                } else {
                    String::new()
                };
                proof {
                    reveal_strlit("Wrapped");
                    if w {
                        assert(self.status@ =~= wrapped_text());
                    }
                }
            },
            None => {
                if empty {
                    self.put_caret(ol, oc);
                    self.status = String::new();
                } else {
                    self.status = owned("Not found");
                    proof {
                        reveal_strlit("Not found");
                        assert(self.status@ =~= not_found_text());
                        assert(self.buffers@ =~= old(self).buffers@.update(self.active as int, self.buffers@[self.active as int]));
                    }
                }
            },
        }
        self.mode = Mode::Search { input: q, origin_line: ol, origin_col: oc, forward };
        proof {
            reveal_strlit("Wrapped");
            reveal_strlit("Not found");
        }
    }

    /// The *Find* prompt: typing edits the query and searches again from the prompt's
    /// origin, Ctrl+F / Ctrl+R step forward / back, Enter keeps the caret, Esc restores it.
    fn handle_search_key(&mut self, key: Key)
        requires
            old(self).wf(),
            old(self).mode is Search,
        ensures
            final(self).wf(),
            search_keyed(*old(self), *final(self), key),
    {
        if key.kind != KeyKind::Press {
            return;
        }
        let (input, ol, oc, fwd) = match &self.mode {
            Mode::Search { input, origin_line, origin_col, forward } => (input.clone(), *origin_line, *origin_col, *forward),
            _ => {
                return;
            },
        };
        let line = self.buffers[self.active].view.cursor_line();
        let col = self.buffers[self.active].view.cursor_column();
        match key.code {
            KeyCode::Esc => {
                self.put_caret(ol, oc);
                self.mode = Mode::Edit;
            },
            KeyCode::Enter => {
                self.mode = Mode::Edit;
            },
            KeyCode::Backspace => {
                let mut v = chars_of_string(&input);
                if v.len() > 0 {
                    v.pop();
                }
                let q = string_of(&v);
                let r = crate::search::find(&self.buffers[self.active].doc, q.as_str(), ol, oc, fwd);
                self.land(q, fwd, r);
            },
            KeyCode::Char(c) => {
                if key.ctrl && c == 'f' {
                    self.buffers[self.active].doc.len_bound();
                    proof {
                        let b = self.buffers@[self.active as int];
                        assert(buffer_ok(b));
                        crate::view::lemma_placed_index(b.doc@, b.view.line_v(), b.view.col_v());
                        crate::document::lemma_line_start_bounds(b.doc@, b.view.line_v());
                    }
                    let r = crate::search::find(&self.buffers[self.active].doc, input.as_str(), line, col + 1, true);
                    self.land(input, true, r);
                } else if key.ctrl && c == 'r' {
                    let r = crate::search::find_before(&self.buffers[self.active].doc, input.as_str(), line, col);
                    self.land(input, false, r);
                } else if !key.ctrl && !key.alt {
                    let mut v = chars_of_string(&input);
                    v.push(c);
                    let q = string_of(&v);
                    let r = crate::search::find(&self.buffers[self.active].doc, q.as_str(), ol, oc, fwd);
                    self.land(q, fwd, r);
                }
            },
            _ => {},
        }
    }

    /// The help menu: arrows and Tab move between categories and rows, Enter runs the
    /// selected command, Esc (or Ctrl+H / Ctrl+K) closes the menu.
    fn handle_help_key(&mut self, key: Key) -> (e: Effect)
        requires
            old(self).wf(),
            old(self).mode is HelpMenu,
        ensures
            final(self).wf(),
            help_keyed(*old(self), *final(self), key, e),
    {
        let ghost o = *self;
        if key.kind != KeyKind::Press {
            return Effect::Nothing;
        }
        let (c, sel) = match &self.mode {
            Mode::HelpMenu { category, selected } => (*category, *selected),
            _ => {
                return Effect::Nothing;
            },
        };
        let cats = Category::all();
        let rows = crate::commands::commands_in(cats[c]);
        proof {
            assert(cats@[c as int] == category_at(c as int));
            assert(rows@.map_values(|r: CommandInfo| row_key(r)).len() == rows@.len());
            assert forall|k: int| 0 <= k < 7 implies help_len(k) > 0 by {
                crate::commands::lemma_no_empty_category(category_at(k));
            }
        }
        let len = rows.len();
        match key.code {
            KeyCode::Esc => {
                self.mode = Mode::Edit;
                Effect::Nothing
            },
            KeyCode::Char(ch) => {
                if key.ctrl && (ch == 'h' || ch == 'k') {
                    self.mode = Mode::Edit;
                }
                Effect::Nothing
            },
            KeyCode::Left => {
                self.mode = Mode::HelpMenu { category: (c + 6) % 7, selected: 0 };
                Effect::Nothing
            },
            KeyCode::Right | KeyCode::Tab => {
                self.mode = Mode::HelpMenu { category: (c + 1) % 7, selected: 0 };
                Effect::Nothing
            },
            KeyCode::Up => {
                self.mode = Mode::HelpMenu { category: c, selected: if sel > 0 {
                    sel - 1
                } else {
                    len - 1
                } };
                Effect::Nothing
            },
            KeyCode::Down => {
                self.mode = Mode::HelpMenu { category: c, selected: if sel + 1 < len {
                    sel + 1
                } else {
                    0
                } };
                Effect::Nothing
            },
            KeyCode::Enter => {
                let a = rows[sel].action;
                proof {
                    assert(rows@.map_values(|r: CommandInfo| row_key(r))[sel as int] == row_key(rows@[sel as int]));
                    assert(a == help_action(c as int, sel as int));
                }
                self.mode = Mode::Edit;
                self.status = String::new();
                let ghost before = *self;
                let e = self.apply(a);
                proof {
                    lemma_edit_of(o);
                    lemma_applied_ignores_status(before, edit_of(o), *self, a, e, Seq::<char>::empty());
                }
                e
            },
            _ => Effect::Nothing,
        }
    }

    /// The buffer-list picker: arrows move the selection, Enter or a digit `1`–`9` switches,
    /// Esc cancels.
    fn handle_bufferlist_key(&mut self, key: Key)
        requires
            old(self).wf(),
            old(self).mode is BufferList,
        ensures
            final(self).wf(),
            final(self).buffers_v() == old(self).buffers_v(),
            list_keyed(*old(self), *final(self), key),
    {
        if key.kind != KeyKind::Press {
            return;
        }
        let selected = match &self.mode {
            Mode::BufferList { selected } => *selected,
            _ => {
                return;
            },
        };
        let n = self.buffers.len();
        match key.code {
            KeyCode::Esc => {
                self.mode = Mode::Edit;
            },
            KeyCode::Up => {
                self.mode = Mode::BufferList { selected: if selected > 0 {
                    selected - 1
                } else {
                    0
                } };
            },
            KeyCode::Down => {
                self.mode = Mode::BufferList { selected: if selected + 1 < n {
                    selected + 1
                } else {
                    n - 1
                } };
            },
            KeyCode::Enter => {
                self.mode = Mode::Edit;
                self.switch_to(selected);
            },
            KeyCode::Char(c) => {
                if '1' <= c && c <= '9' {
                    let index = (c as u32 - '1' as u32) as usize;
                    if index < n {
                        self.mode = Mode::Edit;
                        self.switch_to(index);
                    }
                }
            },
            _ => {},
        }
    }

    /// Answer a y/n question: `y` quits (or closes the active buffer), `n`/Esc cancels.
    fn handle_confirm_key(&mut self, key: Key)
        requires
            old(self).wf(),
            old(self).mode is ConfirmClose || old(self).mode is ConfirmQuit,
        ensures
            final(self).wf(),
            confirm_keyed(*old(self), *final(self), key),
    {
        if key.kind != KeyKind::Press {
            return;
        }
        match key.code {
            KeyCode::Char(c) => {
                if c == 'y' || c == 'Y' {
                    let quitting = match &self.mode {
                        Mode::ConfirmQuit => true,
                        _ => false,
                    };
                    self.mode = Mode::Edit;
                    if quitting {
                        self.should_quit = true;
                    } else {
                        self.close_active_buffer();
                    }
                } else if c == 'n' || c == 'N' {
                    self.mode = Mode::Edit;
                }
            },
            KeyCode::Esc => {
                self.mode = Mode::Edit;
            },
            _ => {},
        }
    }

    // ---- the driver reports back ------------------------------------------------------

    /// The driver wrote the active buffer (a plain save): `Saved`, and the buffer is clean;
    /// or the error.
    pub fn saved(&mut self, result: Result<(), String>)
        requires
            old(self).wf(),
        ensures
            final(self).wf(),
            final(self).active_v() == old(self).active_v(),
            final(self).mode_v() == old(self).mode_v(),
            final(self).buffers_v().len() == old(self).buffers_v().len(),
            forall|i: int| 0 <= i < old(self).buffers_v().len() && i != old(self).active_v()
                ==> final(self).buffers_v()[i] == old(self).buffers_v()[i],
            match result {
                Ok(()) => {
                    &&& !final(self).active_buffer().doc.modified_flag()
                    &&& final(self).active_buffer().doc@ == old(self).active_buffer().doc@
                    &&& final(self).active_buffer().path == old(self).active_buffer().path
                    &&& final(self).status_v() == "Saved"@
                },
                Err(e) => {
                    &&& final(self).buffers_v() == old(self).buffers_v()
                    &&& final(self).status_v() == "Save failed: "@ + e@
                },
            },
    {
        match result {
            Ok(()) => {
                let ghost o = *self;
                let mut b = self.take_active();
                b.doc.mark_saved();
                self.put_active(b);
                proof {
                    App::lemma_put_back(o, *self, b);
                }
                self.status = owned("Saved");
            },
            Err(e) => {
                self.status = failure_text(&e);
            },
        }
    }

    /// The driver wrote the active buffer to `path` (a save-as): the buffer now lives there,
    /// its format follows the new name, and it is clean; or the error.
    pub fn saved_as(&mut self, path: String, result: Result<(), String>)
        requires
            old(self).wf(),
        ensures
            final(self).wf(),
            final(self).active_v() == old(self).active_v(),
            result is Ok ==> {
                let nb = final(self).active_buffer();
                &&& nb.path == Some(path)
                &&& nb.stash_path is None
                &&& !nb.doc.modified_flag()
                &&& nb.doc@ == old(self).active_buffer().doc@
                &&& nb.format == crate::structure::format_for_extension(crate::structure::path_extension(path@))
                &&& final(self).status_v() == "Saved "@ + path@
            },
            final(self).mode_v() == old(self).mode_v(),
            final(self).buffers_v().len() == old(self).buffers_v().len(),
            forall|i: int| 0 <= i < old(self).buffers_v().len() && i != old(self).active_v()
                ==> final(self).buffers_v()[i] == old(self).buffers_v()[i],
            result matches Err(e) ==> final(self).buffers_v() == old(self).buffers_v()
                && final(self).status_v() == "Save failed: "@ + e@,
    {
        match result {
            Ok(()) => {
                let ghost o = *self;
                let mut b = self.take_active();
                b.doc.mark_saved();
                b.format = detect_format(Some(path.as_str()));
                b.stash_path = None;
                let mut saved = chars_of("Saved ");
                crate::text::append_chars(&mut saved, &chars_of(path.as_str()));
                let shown = string_of(&saved);
                b.path = Some(path);
                reparse(&mut b);
                self.put_active(b);
                proof {
                    App::lemma_put_back(o, *self, b);
                }
                self.status = shown;
            },
            Err(e) => {
                self.status = failure_text(&e);
            },
        }
    }

    /// Open another buffer and make it active, saying whether it was read from disk
    /// (`Opened name`) or starts a new file (`New file: name`).
    pub fn add_buffer(&mut self, b: Buffer, opened: bool)
        requires
            old(self).wf(),
            buffer_ok(b),
            !(old(self).mode_v() is BufferList),
        ensures
            final(self).wf(),
            final(self).buffers_v() == old(self).buffers_v().push(b),
            final(self).active_v() == old(self).buffers_v().len(),
            final(self).mode_v() == old(self).mode_v(),
            final(self).status_v() == if opened {
                "Opened "@ + buffer_name(b)
            } else {
                "New file: "@ + buffer_name(b)
            },
    {
        self.buffers.push(b);
        let last = self.buffers.len() - 1;
        proof {
            assert forall|i: int| 0 <= i < self.buffers@.len() implies buffer_ok(#[trigger] self.buffers@[i]) by {
                if i < old(self).buffers@.len() {
                    assert(self.buffers@[i] == old(self).buffers@[i]);
                }
            }
        }
        self.switch_to(last);
        let name = chars_of_string(&self.buffers[self.active].display_name());
        let mut text = if opened {
            chars_of("Opened ")
        } else {
            chars_of("New file: ")
        };
        crate::text::append_chars(&mut text, &name);
        self.status = string_of(&text);
    }

    /// The driver completed the path typed into a path prompt: the new input, and a hint (or
    /// error) for the status line.
    pub fn set_prompt_input(&mut self, new_input: String, status: Option<String>)
        requires
            old(self).wf(),
        ensures
            final(self).wf(),
            final(self).buffers_v() == old(self).buffers_v(),
            final(self).active_v() == old(self).active_v(),
            final(self).mode_v() == match old(self).mode_v() {
                Mode::SaveAs { .. } => Mode::SaveAs { input: new_input },
                Mode::OpenFile { .. } => Mode::OpenFile { input: new_input },
                m => m,
            },
            final(self).status_v() == match status {
                Some(s) => s@,
                None => Seq::<char>::empty(),
            },
    {
        match &self.mode {
            Mode::SaveAs { .. } => {
                self.mode = Mode::SaveAs { input: new_input };
            },
            Mode::OpenFile { .. } => {
                self.mode = Mode::OpenFile { input: new_input };
            },
            _ => {},
        }
        self.status = match status {
            Some(s) => s,
            None => String::new(),
        };
    }

    /// Recompute the viewport top so the caret stays visible in a body of `height` rows.
    pub fn update_scroll(&mut self, height: usize)
        requires
            old(self).wf(),
        ensures
            final(self).wf(),
            final(self).active_buffer().scroll_top == viewport_top(
                old(self).active_buffer().view.line_v() as usize,
                old(self).active_buffer().scroll_top,
                height,
            ),
    {
        let ghost o = *self;
        let mut b = self.take_active();
        b.scroll_top = viewport_top_exec(b.view.cursor_line(), b.scroll_top, height);
        self.put_active(b);
        proof {
            App::lemma_put_back(o, *self, b);
        }
    }
}

/// The top line of a `height`-row viewport that keeps line `cursor` visible, moving as little
/// as possible from `top`.
pub open spec fn viewport_top(cursor: usize, top: usize, height: usize) -> usize {
    if cursor < top {
        cursor
    } else if height > 0 && cursor - top >= height {
        (cursor + 1 - height) as usize
    } else {
        top
    }
}

fn viewport_top_exec(cursor: usize, top: usize, height: usize) -> (r: usize)
    ensures
        r == viewport_top(cursor, top, height),
{
    if cursor < top {
        cursor
    } else if height > 0 && cursor - top >= height {
        cursor - (height - 1)
    } else {
        top
    }
}

} // verus!
