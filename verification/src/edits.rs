//! Structural edits over a document, written once for every format: promote/demote,
//! move subtrees, insert siblings, cycle TODO keywords and priorities, set tags and planning
//! lines, and shift the timestamp field under the cursor.
use vstd::prelude::*;

use crate::document::{
    lemma_line_parts, lemma_line_start_bounds, line_body, line_count, line_of, line_start,
    spliced_in, spliced_out, Document,
};
use crate::headline::{all_tag_chars, heading_rest, split_todo, split_todo_exec, tag_start, TodoState};
use crate::structure::{
    enclosing_index, heading_at, heading_is, heading_lines, lemma_heading_lines, marker_of,
    max_level_of, outline_is, parse_outline, planning_of, planning_word, Format, Heading, Outline,
};
use crate::text::{
    find_from, has_at, skip_ws, skip_ws_exec, slice_vec, strip_nl, strip_nl_exec, trim_end, trim_start,
};
use crate::timestamp::{
    field_at_ok, field_of, lemma_parsed_printable, printable_ts, shift_in_range, shifted, spans_from, stamp_parse,
    timestamp_parse, timestamp_text, Field, Timestamp,
};

verus! {

/// What a structural edit did — either the document changed (and where the cursor should
/// land) or nothing happened (and why, for the status line).
#[derive(Debug, Clone, Copy, PartialEq, Eq)]
pub enum EditOutcome {
    Changed { cursor_line: usize },
    NoOp(&'static str),
}

/// Why an edit off any heading did nothing.
pub const NOT_ON_HEADING: &'static str = "Not inside a heading's subtree";

/// Why a promotion at level 1 did nothing.
pub const TOP_LEVEL: &'static str = "Already at top level";

/// Why a demotion past Markdown's deepest level did nothing.
pub const MD_MAX_LEVEL: &'static str = "Markdown headings stop at level 6";

/// Why moving a subtree up did nothing.
pub const NO_PREV_SIBLING: &'static str = "No previous sibling at this level";

/// Why moving a subtree down did nothing.
pub const NO_NEXT_SIBLING: &'static str = "No next sibling at this level";

/// Why raising an `[#A]` priority did nothing.
pub const HIGHEST_PRIORITY: &'static str = "Already at highest priority";

/// Why lowering a missing priority did nothing.
pub const NO_PRIORITY: &'static str = "No priority to lower";

/// Which planning keyword an edit targets.
#[derive(Debug, Clone, Copy, PartialEq, Eq, Structural)]
pub enum Planning {
    Scheduled,
    Deadline,
}

/// `TODO ` (with its trailing space).
pub open spec fn todo_space() -> Seq<char> {
    seq!['T', 'O', 'D', 'O', ' ']
}

/// `DONE`
pub open spec fn done_word() -> Seq<char> {
    seq!['D', 'O', 'N', 'E']
}

/// Where the text after a heading's markers (and their spaces) starts, for a heading of
/// `level` markers on `line`.
pub open spec fn after_markers_at(s: Seq<char>, line: int, level: int) -> int {
    let am = strip_nl(line_of(s, line)).skip(level);
    line_start(s, line) + level + skip_ws(am, 0)
}

/// The text after a heading's markers and their spaces.
pub open spec fn after_markers(s: Seq<char>, line: int, level: int) -> Seq<char> {
    let am = strip_nl(line_of(s, line)).skip(level);
    am.skip(skip_ws(am, 0))
}

/// The text after rotating the TODO keyword of the heading with `level` markers on `line`:
/// none → `TODO` → `DONE` → none (dropping `DONE` and the space before the title).
pub open spec fn cycled_text(s: Seq<char>, line: int, level: int) -> Seq<char> {
    let at = after_markers_at(s, line, level);
    let rest = after_markers(s, line, level);
    match split_todo(rest).0 {
        None => spliced_in(s, at, todo_space()),
        Some(TodoState::Todo) => spliced_in(spliced_out(s, at, at + 4), at, done_word()),
        Some(TodoState::Done) => spliced_out(s, at, at + if rest == done_word() {
            4int
        } else {
            5int
        }),
    }
}

proof fn lemma_after_markers(s: Seq<char>, line: int, level: int)
    requires
        0 <= line < line_count(s),
        0 <= level <= line_body(s, line).len(),
    ensures
        after_markers_at(s, line, level) + after_markers(s, line, level).len() == line_start(s, line)
            + line_body(s, line).len(),
        after_markers_at(s, line, level) >= line_start(s, line) + level,
        after_markers(s, line, level) == s.subrange(
            after_markers_at(s, line, level),
            line_start(s, line) + line_body(s, line).len(),
        ),
        line_start(s, line) + line_body(s, line).len() <= s.len(),
{
    lemma_line_parts(s, line);
    let st = line_start(s, line);
    let body = line_body(s, line);
    let t = strip_nl(line_of(s, line));
    let am = t.skip(level);
    assert(t == s.subrange(st, st + body.len()));
    assert(am.len() == body.len() - level);
    assert forall|i: int| 0 <= i < am.len() implies am[i] == s.subrange(
        st + level,
        st + body.len(),
    )[i] by {
        assert(am[i] == t[i + level]);
        assert(t[i + level] == s[st + i + level]);
    }
    assert(am =~= s.subrange(st + level, st + body.len()));
    crate::text::lemma_skip_ws(am, 0);
    assert(after_markers(s, line, level) =~= s.subrange(
        after_markers_at(s, line, level),
        line_start(s, line) + line_body(s, line).len(),
    ));
}

/// Where the text after a heading's markers starts, and what it holds.
pub proof fn lemma_after_markers_pub(s: Seq<char>, line: int, level: int)
    requires
        0 <= line < line_count(s),
        0 <= level <= line_body(s, line).len(),
    ensures
        after_markers_at(s, line, level) + after_markers(s, line, level).len() == line_start(s, line)
            + line_body(s, line).len(),
        after_markers_at(s, line, level) >= line_start(s, line) + level,
{
    lemma_after_markers(s, line, level);
}

fn todo_space_exec() -> (r: Vec<char>)
    ensures
        r@ == todo_space(),
{
    let v = vec!['T', 'O', 'D', 'O', ' '];
    assert(v@ =~= todo_space());
    v
}

fn done_exec() -> (r: Vec<char>)
    ensures
        r@ == done_word(),
{
    let v = vec!['D', 'O', 'N', 'E'];
    assert(v@ =~= done_word());
    v
}

/// Rotate the TODO keyword on the heading line `line` whose marker run is `level` long.
fn cycle_keyword(doc: &mut Document, line: usize, level: usize)
    requires
        line < line_count(old(doc)@),
        level <= line_body(old(doc)@, line as int).len(),
    ensures
        final(doc)@ == cycled_text(old(doc)@, line as int, level as int),
        final(doc).modified_flag(),
{
    let ghost s = doc@;
    proof {
        lemma_line_parts(s, line as int);
        lemma_after_markers(s, line as int, level as int);
    }
    let raw = doc.line_text(line);
    let text = strip_nl_exec(&raw);
    let am = slice_vec(&text, level, text.len());
    let spaces = skip_ws_exec(&am, 0);
    doc.len_bound();
    let rest_start = doc.line_to_char(line) + level + spaces;
    let rest = slice_vec(&am, spaces, am.len());
    let (todo, _) = split_todo_exec(&rest);
    match todo {
        None => {
            let t = todo_space_exec();
            doc.insert(rest_start, &t);
        },
        Some(TodoState::Todo) => {
            doc.remove(rest_start, rest_start + 4);
            let d = done_exec();
            doc.insert(rest_start, &d);
        },
        Some(TodoState::Done) => {
            proof {
                assert(rest@ == after_markers(s, line as int, level as int));
                if rest@.len() == 4 {
                    assert(rest@ =~= rest@.subrange(0, 4));
                }
            }
            let d = done_exec();
            let len: usize = if crate::text::chars_eq(&rest, &d) {
                4
            } else {
                5
            };
            doc.remove(rest_start, rest_start + len);
        },
    }
}

/// The text after cycling the TODO keyword on `line` in format `f`: unchanged when the line
/// is not a heading.
pub open spec fn todo_cycled(f: Format, s: Seq<char>, line: int) -> Option<Seq<char>> {
    match heading_at(f, s, line) {
        Some((level, _)) => Some(cycled_text(s, line, level)),
        None => None,
    }
}

/// Cycle the TODO keyword of the heading on `line` in format `f`, if it is one.
#[verifier::spinoff_prover]
pub fn cycle_todo_in(f: Format, doc: &mut Document, line: usize)
    ensures
        match todo_cycled(f, old(doc)@, line as int) {
            Some(t) => final(doc)@ == t && final(doc).modified_flag(),
            None => *final(doc) == *old(doc),
        },
{
    let ghost s = doc@;
    let n = doc.line_count();
    if line >= n {
        proof {
            assert(line_of(s, line as int) =~= seq![]);
        }
        return;
    }
    let level = match f {
        Format::Org => {
            let raw = doc.line_text(line);
            match crate::headline::heading_rest_exec(&raw, '*', None) {
                Some((level, _)) => level,
                None => {
                    return;
                },
            }
        },
        Format::Markdown => {
            let o = parse_outline(f, doc);
            proof {
                lemma_heading_lines(f, s);
            }
            match heading_on_line(&o, line) {
                Some(i) => {
                    assert(heading_is(o.headings@[i as int], f, s, i as int));
                    o.headings[i].level
                },
                None => {
                    proof {
                        if heading_at(f, s, line as int) is Some {
                            lemma_line_in_heading_lines(f, s, line as int);
                            let k = choose|k: int|
                                0 <= k < heading_lines(f, s).len() && #[trigger] heading_lines(
                                    f,
                                    s,
                                )[k] == line;
                            assert(heading_is(o.headings@[k], f, s, k));
                        }
                    }
                    return;
                },
            }
        },
    };
    proof {
        lemma_heading_level_bound(f, s, line as int);
    }
    cycle_keyword(doc, line, level);
}

/// The index of the heading on `line`, if one sits there.
pub fn heading_on_line(o: &Outline, line: usize) -> (r: Option<usize>)
    ensures
        r matches Some(i) ==> i < o.headings@.len() && o.headings@[i as int].line == line,
        r is None ==> forall|k: int| 0 <= k < o.headings@.len() ==> o.headings@[k].line != line,
{
    let mut i: usize = 0;
    while i < o.headings.len()
        invariant
            i <= o.headings@.len(),
            forall|k: int| 0 <= k < i ==> o.headings@[k].line != line,
        decreases o.headings@.len() - i,
    {
        if o.headings[i].line == line {
            return Some(i);
        }
        i = i + 1;
    }
    None
}

/// A heading line is one of the heading lines.
pub proof fn lemma_line_in_heading_lines_pub(f: Format, s: Seq<char>, line: int)
    requires
        heading_at(f, s, line) is Some,
        0 <= line < line_count(s),
    ensures
        exists|k: int| 0 <= k < heading_lines(f, s).len() && #[trigger] heading_lines(f, s)[k] == line,
{
    lemma_line_in_heading_lines(f, s, line);
}

proof fn lemma_line_in_heading_lines(f: Format, s: Seq<char>, line: int)
    requires
        heading_at(f, s, line) is Some,
        0 <= line < line_count(s),
    ensures
        exists|k: int| 0 <= k < heading_lines(f, s).len() && #[trigger] heading_lines(f, s)[k] == line,
{
    lemma_in_from(f, s, 0, line);
    let k = choose|k: int|
        0 <= k < crate::structure::heading_lines_from(f, s, 0).len()
            && #[trigger] crate::structure::heading_lines_from(f, s, 0)[k] == line;
    assert(heading_lines(f, s)[k] == line);
}

proof fn lemma_in_from(f: Format, s: Seq<char>, l: int, line: int)
    requires
        heading_at(f, s, line) is Some,
        0 <= l <= line < line_count(s),
    ensures
        exists|k: int|
            0 <= k < crate::structure::heading_lines_from(f, s, l).len()
                && #[trigger] crate::structure::heading_lines_from(f, s, l)[k] == line,
    decreases line - l,
{
    let hl = crate::structure::heading_lines_from(f, s, l);
    if l == line {
        assert(hl[0] == line);
    } else {
        lemma_in_from(f, s, l + 1, line);
        let k = choose|k: int|
            0 <= k < crate::structure::heading_lines_from(f, s, l + 1).len()
                && #[trigger] crate::structure::heading_lines_from(f, s, l + 1)[k] == line;
        if heading_at(f, s, l) is Some {
            assert(hl[k + 1] == line);
        } else {
            assert(hl[k] == line);
        }
    }
}

/// A heading's marker run lies within its line.
pub proof fn lemma_heading_level_bound(f: Format, s: Seq<char>, line: int)
    requires
        0 <= line < line_count(s),
    ensures
        heading_at(f, s, line) matches Some((level, rest)) ==> 1 <= level < line_body(s, line).len()
            && rest.len() > 0,
{
    lemma_line_parts(s, line);
    let text = strip_nl(line_of(s, line));
    crate::headline::lemma_run_end(text, marker_of(f), 0);
}

// ---- the enclosing heading ---------------------------------------------------------

/// The last of the first `n` heading lines at or above `line`.
pub open spec fn last_le(hl: Seq<int>, line: int, n: int) -> Option<int>
    decreases n,
{
    if n <= 0 || n > hl.len() {
        None
    } else if hl[n - 1] <= line {
        Some(n - 1)
    } else {
        last_le(hl, line, n - 1)
    }
}

/// The number of the heading whose subtree holds `line`.
pub open spec fn enclosing_of(f: Format, s: Seq<char>, line: int) -> Option<int> {
    last_le(heading_lines(f, s), line, heading_lines(f, s).len() as int)
}

proof fn lemma_enclosing_n(o: Outline, f: Format, s: Seq<char>, line: int, n: int)
    requires
        outline_is(o, f, s),
        0 <= n <= o.headings@.len(),
    ensures
        crate::structure::last_at_or_above(o.headings@, line, n) == last_le(
            heading_lines(f, s),
            line,
            n,
        ),
        last_le(heading_lines(f, s), line, n) matches Some(k) ==> 0 <= k < n && heading_lines(
            f,
            s,
        )[k] <= line,
    decreases n,
{
    if n > 0 {
        assert(heading_is(o.headings@[n - 1], f, s, n - 1));
        lemma_enclosing_n(o, f, s, line, n - 1);
    }
}

/// The outline's enclosing heading is the text's.
pub proof fn lemma_enclosing(o: Outline, f: Format, s: Seq<char>, line: int)
    requires
        outline_is(o, f, s),
    ensures
        enclosing_index(o.headings@, line) == enclosing_of(f, s, line),
        enclosing_of(f, s, line) matches Some(k) ==> 0 <= k < heading_lines(f, s).len()
            && heading_lines(f, s)[k] <= line,
{
    lemma_enclosing_n(o, f, s, line, o.headings@.len() as int);
}

// ---- promote and demote --------------------------------------------------------

/// The marker byte of a format.
pub open spec fn marker_byte(f: Format) -> u8 {
    match f {
        Format::Org => 42,
        Format::Markdown => 35,
    }
}

/// The deepest level of a format, as `max_level` reports it.
pub open spec fn max_level_usize(f: Format) -> Option<usize> {
    match f {
        Format::Org => None,
        Format::Markdown => Some(6),
    }
}

/// The start of heading number `k`'s line.
pub open spec fn heading_start(f: Format, s: Seq<char>, k: int) -> int {
    line_start(s, heading_lines(f, s)[k])
}

/// Promoting the heading enclosing `line`: its first marker goes.
pub open spec fn promoted(f: Format, s: Seq<char>, line: usize) -> (EditOutcome, Seq<char>) {
    match enclosing_of(f, s, line as int) {
        None => (EditOutcome::NoOp(NOT_ON_HEADING), s),
        Some(k) => if crate::structure::level_of(f, s, k) == 1 {
            (EditOutcome::NoOp(TOP_LEVEL), s)
        } else {
            let st = heading_start(f, s, k);
            (EditOutcome::Changed { cursor_line: line }, spliced_out(s, st, st + 1))
        },
    }
}

/// Demoting the heading enclosing `line`: one more marker in front.
pub open spec fn demoted(f: Format, s: Seq<char>, line: usize) -> (EditOutcome, Seq<char>) {
    match enclosing_of(f, s, line as int) {
        None => (EditOutcome::NoOp(NOT_ON_HEADING), s),
        Some(k) => if max_level_of(f) == Some(crate::structure::level_of(f, s, k)) {
            (EditOutcome::NoOp(MD_MAX_LEVEL), s)
        } else {
            let st = heading_start(f, s, k);
            (EditOutcome::Changed { cursor_line: line }, spliced_in(s, st, seq![marker_of(f)]))
        },
    }
}

/// An edit's result: the changed text, marked modified unless nothing was touched; or no
/// change at all (the modified flag included).
pub open spec fn edit_done(r: EditOutcome, want: (EditOutcome, Seq<char>), old_doc: Document, new_doc: Document) -> bool {
    &&& r == want.0
    &&& match r {
        EditOutcome::Changed { .. } => new_doc@ == want.1 && (new_doc.modified_flag()
            || new_doc == old_doc),
        EditOutcome::NoOp(_) => new_doc == old_doc,
    }
}

/// A heading's line starts with its marker run, inside the text.
pub proof fn lemma_heading_start(f: Format, s: Seq<char>, k: int)
    requires
        0 <= k < heading_lines(f, s).len(),
    ensures
        0 <= heading_start(f, s, k),
        heading_start(f, s, k) + crate::structure::level_of(f, s, k) < s.len(),
        crate::structure::level_of(f, s, k) >= 1,
        forall|i: int|
            heading_start(f, s, k) <= i < heading_start(f, s, k) + crate::structure::level_of(f, s, k)
                ==> s[i] == marker_of(f),
{
    lemma_heading_lines(f, s);
    let l = heading_lines(f, s)[k];
    lemma_line_parts(s, l);
    lemma_heading_level_bound(f, s, l);
    let text = strip_nl(line_of(s, l));
    crate::headline::lemma_run_end(text, marker_of(f), 0);
    assert forall|i: int|
        heading_start(f, s, k) <= i < heading_start(f, s, k) + crate::structure::level_of(f, s, k)
            implies s[i] == marker_of(f) by {
        assert(text[i - heading_start(f, s, k)] == s[i]);
    }
}

/// The heading enclosing `line` in format `f`: its number and the heading itself.
pub fn enclosing_heading(f: Format, doc: &Document, line: usize) -> (r: Option<(usize, Heading)>)
    ensures
        match r {
            None => enclosing_of(f, doc@, line as int) is None,
            Some((k, h)) => {
                &&& enclosing_of(f, doc@, line as int) == Some(k as int)
                &&& k < heading_lines(f, doc@).len()
                &&& heading_is(h, f, doc@, k as int)
            },
        },
{
    let mut o = parse_outline(f, doc);
    proof {
        lemma_enclosing(o, f, doc@, line as int);
    }
    match o.enclosing_index(line) {
        Some(k) => {
            assert(heading_is(o.headings@[k as int], f, doc@, k as int));
            let h = o.headings.remove(k);
            Some((k, h))
        },
        None => None,
    }
}

/// Promote the heading enclosing `line` one level in format `f` (children keep theirs).
#[verifier::spinoff_prover]
pub fn promote_heading_in(f: Format, doc: &mut Document, line: usize) -> (r: EditOutcome)
    ensures
        edit_done(r, promoted(f, old(doc)@, line), *old(doc), *final(doc)),
{
    let (k, h) = match enclosing_heading(f, doc, line) {
        Some(p) => p,
        None => {
            return EditOutcome::NoOp(NOT_ON_HEADING);
        },
    };
    if h.level == 1 {
        return EditOutcome::NoOp(TOP_LEVEL);
    }
    proof {
        lemma_heading_start(f, doc@, k as int);
        assert(h.line == heading_lines(f, doc@)[k as int]);
        assert(h.level == crate::structure::level_of(f, doc@, k as int));
    }
    let start = doc.line_to_char(h.line);
    assert(start == heading_start(f, doc@, k as int));
    doc.len_bound();
    doc.remove(start, start + 1);
    EditOutcome::Changed { cursor_line: line }
}

/// Demote the heading enclosing `line` one level in format `f` (children keep theirs).
#[verifier::spinoff_prover]
pub fn demote_heading_in(f: Format, doc: &mut Document, line: usize) -> (r: EditOutcome)
    ensures
        edit_done(r, demoted(f, old(doc)@, line), *old(doc), *final(doc)),
{
    let (k, h) = match enclosing_heading(f, doc, line) {
        Some(p) => p,
        None => {
            return EditOutcome::NoOp(NOT_ON_HEADING);
        },
    };
    let max = match f {
        Format::Org => None,
        Format::Markdown => Some(6usize),
    };
    assert(h.level == crate::structure::level_of(f, doc@, k as int));
    if max == Some(h.level) {
        return EditOutcome::NoOp(MD_MAX_LEVEL);
    }
    proof {
        lemma_heading_start(f, doc@, k as int);
        assert(h.line == heading_lines(f, doc@)[k as int]);
        assert(h.level == crate::structure::level_of(f, doc@, k as int));
    }
    let start = doc.line_to_char(h.line);
    let m = match f {
        Format::Org => vec!['*'],
        Format::Markdown => vec!['#'],
    };
    assert(m@ =~= seq![marker_of(f)]);
    doc.insert(start, &m);
    EditOutcome::Changed { cursor_line: line }
}

// ---- subtree promote and demote -----------------------------------------------

/// The headings' lines, levels and subtree ends are the text's.
pub open spec fn lines_levels(hs: Seq<Heading>, f: Format, s: Seq<char>) -> bool {
    &&& hs.len() == heading_lines(f, s).len()
    &&& forall|j: int|
        0 <= j < hs.len() ==> {
            &&& (#[trigger] hs[j]).line == heading_lines(f, s)[j]
            &&& hs[j].level == crate::structure::level_of(f, s, j)
            &&& hs[j].last_line == crate::structure::extent_of(f, s, j)
        }
}

proof fn lemma_lines_levels(o: Outline, f: Format, s: Seq<char>)
    requires
        outline_is(o, f, s),
    ensures
        lines_levels(o.headings@, f, s),
{
    assert forall|j: int| 0 <= j < o.headings@.len() implies {
        &&& (#[trigger] o.headings@[j]).line == heading_lines(f, s)[j]
        &&& o.headings@[j].level == crate::structure::level_of(f, s, j)
        &&& o.headings@[j].last_line == crate::structure::extent_of(f, s, j)
    } by {
        assert(heading_is(o.headings@[j], f, s, j));
    }
}

/// The outline's headings with the number of the one enclosing `line`.
fn outline_enclosing(f: Format, doc: &Document, line: usize) -> (r: (Vec<Heading>, Option<usize>))
    ensures
        lines_levels(r.0@, f, doc@),
        match r.1 {
            None => enclosing_of(f, doc@, line as int) is None,
            Some(k) => enclosing_of(f, doc@, line as int) == Some(k as int) && k < r.0@.len(),
        },
{
    let o = parse_outline(f, doc);
    proof {
        lemma_enclosing(o, f, doc@, line as int);
        lemma_lines_levels(o, f, doc@);
    }
    let k = o.enclosing_index(line);
    (o.headings, k)
}

/// Each heading line from `top` to `last` loses its first char (`promote`) or gains a
/// marker in front; other lines stay.
pub open spec fn subtree_marks(f: Format, s: Seq<char>, top: int, last: int, promote: bool) -> spec_fn(
    int,
    Seq<char>,
) -> Seq<char> {
    |l: int, t: Seq<char>|
        if heading_at(f, s, l) is Some && top <= l <= last {
            if promote {
                t.skip(1)
            } else {
                seq![marker_of(f)] + t
            }
        } else {
            t
        }
}

/// Heading number `k`'s subtree with every heading in it shifted one level.
pub open spec fn subtree_shifted(f: Format, s: Seq<char>, k: int, promote: bool) -> Seq<char> {
    crate::document::with_lines(
        s,
        subtree_marks(f, s, heading_lines(f, s)[k], crate::structure::extent_of(f, s, k), promote),
    )
}

/// Whether a heading of heading number `k`'s subtree already sits at the format's deepest
/// level.
pub open spec fn subtree_at_max(f: Format, s: Seq<char>, k: int) -> bool {
    match max_level_of(f) {
        Some(mx) => exists|j: int|
            0 <= j < heading_lines(f, s).len() && heading_lines(f, s)[k] <= #[trigger] heading_lines(
                f,
                s,
            )[j] <= crate::structure::extent_of(f, s, k) && crate::structure::level_of(f, s, j)
                == mx,
        None => false,
    }
}

/// Promoting the subtree enclosing `line`: every heading in it loses a marker.
pub open spec fn subtree_promoted(f: Format, s: Seq<char>, line: usize) -> (EditOutcome, Seq<char>) {
    match enclosing_of(f, s, line as int) {
        None => (EditOutcome::NoOp(NOT_ON_HEADING), s),
        Some(k) => if crate::structure::level_of(f, s, k) == 1 {
            (EditOutcome::NoOp(TOP_LEVEL), s)
        } else {
            (EditOutcome::Changed { cursor_line: line }, subtree_shifted(f, s, k, true))
        },
    }
}

/// Demoting the subtree enclosing `line`: every heading in it gains a marker.
pub open spec fn subtree_demoted(f: Format, s: Seq<char>, line: usize) -> (EditOutcome, Seq<char>) {
    match enclosing_of(f, s, line as int) {
        None => (EditOutcome::NoOp(NOT_ON_HEADING), s),
        Some(k) => if subtree_at_max(f, s, k) {
            (EditOutcome::NoOp(MD_MAX_LEVEL), s)
        } else {
            (EditOutcome::Changed { cursor_line: line }, subtree_shifted(f, s, k, false))
        },
    }
}

/// Line `l` is a heading line exactly when it is heading line number `j`, the first one at
/// or after `l`.
proof fn lemma_heading_here(f: Format, s: Seq<char>, l: int, j: int)
    requires
        0 <= l < line_count(s),
        0 <= j <= heading_lines(f, s).len(),
        forall|i: int| 0 <= i < j ==> #[trigger] heading_lines(f, s)[i] < l,
        j < heading_lines(f, s).len() ==> heading_lines(f, s)[j] >= l,
    ensures
        heading_at(f, s, l) is Some <==> (j < heading_lines(f, s).len() && heading_lines(f, s)[j]
            == l),
{
    lemma_heading_lines(f, s);
    if heading_at(f, s, l) is Some {
        lemma_line_in_heading_lines(f, s, l);
        let kk = choose|kk: int|
            0 <= kk < heading_lines(f, s).len() && #[trigger] heading_lines(f, s)[kk] == l;
        if kk > j {
            assert(heading_lines(f, s)[j] < heading_lines(f, s)[kk]);
        }
    }
}

/// The text with every heading line from `top` to `last` shifted one level.
fn shift_heading_lines(
    f: Format,
    doc: &Document,
    hs: &Vec<Heading>,
    top: usize,
    last: usize,
    promote: bool,
) -> (out: Vec<char>)
    requires
        lines_levels(hs@, f, doc@),
        promote ==> forall|j: int|
            0 <= j < hs@.len() && top <= #[trigger] hs@[j].line <= last ==> hs@[j].level >= 1,
    ensures
        out@ == crate::document::with_lines(doc@, subtree_marks(f, doc@, top as int, last as int, promote)),
{
    let ghost s = doc@;
    let ghost g = subtree_marks(f, s, top as int, last as int, promote);
    let text = doc.chars();
    let n = doc.line_count();
    let m = match f {
        Format::Org => '*',
        Format::Markdown => '#',
    };
    let mut out: Vec<char> = Vec::new();
    let mut l: usize = 0;
    let mut p: usize = 0;
    let mut j: usize = 0;
    proof {
        lemma_heading_lines(f, s);
    }
    while l < n
        invariant
            s == doc@,
            text@ == s,
            n as int == line_count(s),
            l <= n,
            p as int == line_start(s, l as int),
            p <= s.len(),
            j <= hs@.len(),
            lines_levels(hs@, f, s),
            forall|i: int| 0 <= i < j ==> #[trigger] heading_lines(f, s)[i] < l,
            j < hs@.len() ==> heading_lines(f, s)[j as int] >= l,
            out@ == crate::document::mapped_lines(s, g, l as int),
            g == subtree_marks(f, s, top as int, last as int, promote),
            m == marker_of(f),
            forall|k: int|
                0 <= k < heading_lines(f, s).len() ==> 0 <= #[trigger] heading_lines(f, s)[k]
                    < line_count(s) && heading_at(f, s, heading_lines(f, s)[k]) is Some,
            forall|a: int, b: int|
                0 <= a < b < heading_lines(f, s).len() ==> heading_lines(f, s)[a] < heading_lines(
                    f,
                    s,
                )[b],
            promote ==> forall|jj: int|
                0 <= jj < hs@.len() && top <= #[trigger] hs@[jj].line <= last ==> hs@[jj].level >= 1,
        decreases n - l,
    {
        proof {
            crate::document::lemma_line_span(s, l as int);
            lemma_line_start_bounds(s, l as int);
            lemma_heading_here(f, s, l as int, j as int);
        }
        let e = crate::text::index_of(text, '\n', p);
        let stop = if e < text.len() {
            e + 1
        } else {
            e
        };
        let here = j < hs.len() && hs[j].line == l;
        let member = here && top <= l && l <= last;
        let ghost before = out@;
        if member && promote {
            proof {
                lemma_heading_level_bound(f, s, l as int);
                crate::document::lemma_line_parts(s, l as int);
            }
            let piece = slice_vec(text, p + 1, stop);
            assert(piece@ =~= line_of(s, l as int).skip(1));
            crate::text::append_chars(&mut out, &piece);
        } else {
            if member {
                out.push(m);
            }
            let piece = slice_vec(text, p, stop);
            crate::text::append_chars(&mut out, &piece);
            proof {
                if member {
                    assert(out@ =~= before + (seq![marker_of(f)] + line_of(s, l as int)));
                }
            }
        }
        assert(out@ =~= before + g(l as int, line_of(s, l as int)));
        if here {
            j = j + 1;
        }
        p = stop;
        l = l + 1;
    }
    out
}

/// Promote the heading enclosing `line` and every heading in its subtree, in format `f`.
#[verifier::spinoff_prover]
pub fn promote_subtree_in(f: Format, doc: &mut Document, line: usize) -> (r: EditOutcome)
    ensures
        edit_done(r, subtree_promoted(f, old(doc)@, line), *old(doc), *final(doc)),
{
    let (hs, k) = outline_enclosing(f, doc, line);
    let k = match k {
        Some(k) => k,
        None => {
            return EditOutcome::NoOp(NOT_ON_HEADING);
        },
    };
    if hs[k].level == 1 {
        return EditOutcome::NoOp(TOP_LEVEL);
    }
    let ghost s = doc@;
    proof {
        lemma_heading_lines(f, s);
        assert forall|j: int|
            0 <= j < hs@.len() && hs@[k as int].line <= #[trigger] hs@[j].line <= hs@[k as int].last_line
                implies hs@[j].level >= 1 by {
            assert(heading_at(f, s, heading_lines(f, s)[j]) is Some);
            lemma_heading_level_bound(f, s, heading_lines(f, s)[j]);
        }
    }
    let out = shift_heading_lines(f, doc, &hs, hs[k].line, hs[k].last_line, true);
    doc.set_chars(out);
    EditOutcome::Changed { cursor_line: line }
}

/// Whether a heading from `top` to `last` already sits at level `max`.
fn any_at_level(hs: &Vec<Heading>, top: usize, last: usize, max: usize) -> (r: bool)
    ensures
        r == exists|j: int|
            0 <= j < hs@.len() && top <= #[trigger] hs@[j].line <= last && hs@[j].level == max,
{
    let mut j: usize = 0;
    while j < hs.len()
        invariant
            j <= hs@.len(),
            forall|i: int|
                0 <= i < j ==> !(top <= #[trigger] hs@[i].line <= last && hs@[i].level == max),
        decreases hs@.len() - j,
    {
        if top <= hs[j].line && hs[j].line <= last && hs[j].level == max {
            return true;
        }
        j = j + 1;
    }
    false
}

/// Demote the heading enclosing `line` and every heading in its subtree, in format `f`.
#[verifier::spinoff_prover]
pub fn demote_subtree_in(f: Format, doc: &mut Document, line: usize) -> (r: EditOutcome)
    ensures
        edit_done(r, subtree_demoted(f, old(doc)@, line), *old(doc), *final(doc)),
{
    let (hs, k) = outline_enclosing(f, doc, line);
    let k = match k {
        Some(k) => k,
        None => {
            return EditOutcome::NoOp(NOT_ON_HEADING);
        },
    };
    let ghost s = doc@;
    let too_deep = match f {
        Format::Org => false,
        Format::Markdown => any_at_level(&hs, hs[k].line, hs[k].last_line, 6),
    };
    proof {
        if f is Markdown {
            if too_deep {
                let j = choose|j: int|
                    0 <= j < hs@.len() && hs@[k as int].line <= #[trigger] hs@[j].line
                        <= hs@[k as int].last_line && hs@[j].level == 6;
                assert(heading_lines(f, s)[j] == hs@[j].line);
            } else {
                assert forall|j: int|
                    0 <= j < heading_lines(f, s).len() && heading_lines(f, s)[k as int]
                        <= #[trigger] heading_lines(f, s)[j] <= crate::structure::extent_of(
                        f,
                        s,
                        k as int,
                    ) implies crate::structure::level_of(f, s, j) != 6 by {
                    assert(hs@[j].line == heading_lines(f, s)[j]);
                }
            }
        }
    }
    if too_deep {
        return EditOutcome::NoOp(MD_MAX_LEVEL);
    }
    let out = shift_heading_lines(f, doc, &hs, hs[k].line, hs[k].last_line, false);
    doc.set_chars(out);
    EditOutcome::Changed { cursor_line: line }
}

// ---- moving subtrees ---------------------------------------------------------------

/// The search for the next heading not deeper than number `k` stops at or after where it
/// starts, on a heading not deeper than `k`.
pub proof fn lemma_next_not_deeper(f: Format, s: Seq<char>, k: int, j: int)
    requires
        0 <= j,
    ensures
        crate::structure::next_not_deeper(f, s, k, j) matches Some(i) ==> j <= i < heading_lines(
            f,
            s,
        ).len() && crate::structure::level_of(f, s, i) <= crate::structure::level_of(f, s, k),
    decreases heading_lines(f, s).len() - j,
{
    if j < heading_lines(f, s).len() && crate::structure::level_of(f, s, j)
        > crate::structure::level_of(f, s, k) {
        lemma_next_not_deeper(f, s, k, j + 1);
    }
}

/// A subtree runs from its heading line to a line of the text.
pub proof fn lemma_extent(f: Format, s: Seq<char>, k: int)
    requires
        0 <= k < heading_lines(f, s).len(),
    ensures
        heading_lines(f, s)[k] <= crate::structure::extent_of(f, s, k) < line_count(s),
{
    lemma_heading_lines(f, s);
    lemma_next_not_deeper(f, s, k, k + 1);
    let l = heading_lines(f, s)[k];
    lemma_heading_level_bound(f, s, l);
    lemma_line_parts(s, l);
}

/// Lines `first_top..second_top` and `second_top..=second_last` of `s` traded places; a
/// second block without a final newline gains one, taken from the first block's end.
pub open spec fn blocks_swapped(s: Seq<char>, first_top: int, second_top: int, second_last: int) -> Seq<char> {
    let sa = line_start(s, first_top);
    let sb = line_start(s, second_top);
    let eb = if second_last + 1 < line_count(s) {
        line_start(s, second_last + 1)
    } else {
        s.len() as int
    };
    let a = s.subrange(sa, sb);
    let b = s.subrange(sb, eb);
    if b.len() > 0 && b.last() == '\n' {
        s.take(sa) + b + a + s.skip(eb)
    } else {
        let a2 = if a.len() > 0 && a.last() == '\n' {
            a.drop_last()
        } else {
            a
        };
        s.take(sa) + b.push('\n') + a2 + s.skip(eb)
    }
}

/// The first heading from number `j` on at `level` whose subtree ends right above `top`.
pub open spec fn prev_sibling_from(f: Format, s: Seq<char>, level: int, top: int, j: int) -> Option<int>
    decreases heading_lines(f, s).len() - j,
{
    if j < 0 || j >= heading_lines(f, s).len() {
        None
    } else if crate::structure::level_of(f, s, j) == level && crate::structure::extent_of(f, s, j)
        + 1 == top {
        Some(j)
    } else {
        prev_sibling_from(f, s, level, top, j + 1)
    }
}

/// The first heading from number `j` on at `level` sitting on line `at`.
pub open spec fn next_sibling_from(f: Format, s: Seq<char>, level: int, at: int, j: int) -> Option<int>
    decreases heading_lines(f, s).len() - j,
{
    if j < 0 || j >= heading_lines(f, s).len() {
        None
    } else if heading_lines(f, s)[j] == at && crate::structure::level_of(f, s, j) == level {
        Some(j)
    } else {
        next_sibling_from(f, s, level, at, j + 1)
    }
}

/// Moving the subtree enclosing `line` above its previous same-level sibling.
pub open spec fn moved_up(f: Format, s: Seq<char>, line: usize) -> (EditOutcome, Seq<char>) {
    match enclosing_of(f, s, line as int) {
        None => (EditOutcome::NoOp(NOT_ON_HEADING), s),
        Some(k) => {
            let top = heading_lines(f, s)[k];
            match prev_sibling_from(f, s, crate::structure::level_of(f, s, k), top, 0) {
                None => (EditOutcome::NoOp(NO_PREV_SIBLING), s),
                Some(p) => (
                    EditOutcome::Changed {
                        cursor_line: (heading_lines(f, s)[p] + (line - top)) as usize,
                    },
                    blocks_swapped(s, heading_lines(f, s)[p], top, crate::structure::extent_of(f, s, k)),
                ),
            }
        },
    }
}

/// Moving the subtree enclosing `line` below its next same-level sibling.
pub open spec fn moved_down(f: Format, s: Seq<char>, line: usize) -> (EditOutcome, Seq<char>) {
    match enclosing_of(f, s, line as int) {
        None => (EditOutcome::NoOp(NOT_ON_HEADING), s),
        Some(k) => {
            let last = crate::structure::extent_of(f, s, k);
            match next_sibling_from(f, s, crate::structure::level_of(f, s, k), last + 1, 0) {
                None => (EditOutcome::NoOp(NO_NEXT_SIBLING), s),
                Some(nx) => {
                    let next_len = crate::structure::extent_of(f, s, nx) - heading_lines(f, s)[nx] + 1;
                    (
                        EditOutcome::Changed { cursor_line: (line + next_len) as usize },
                        blocks_swapped(
                            s,
                            heading_lines(f, s)[k],
                            heading_lines(f, s)[nx],
                            crate::structure::extent_of(f, s, nx),
                        ),
                    )
                },
            }
        },
    }
}

/// Swap the line blocks `first_top..second_top` and `second_top..=second_last`.
fn swap_blocks(doc: &mut Document, first_top: usize, second_top: usize, second_last: usize)
    requires
        first_top <= second_top <= second_last,
    ensures
        final(doc)@ == blocks_swapped(old(doc)@, first_top as int, second_top as int, second_last as int),
        final(doc).modified_flag(),
{
    let ghost s = doc@;
    proof {
        crate::rewrite::lemma_line_start_mono(s, first_top as int, second_top as int);
        crate::rewrite::lemma_line_start_mono(s, second_top as int, second_last + 1);
    }
    let start_a = doc.line_to_char(first_top);
    let start_b = doc.line_to_char(second_top);
    let n = doc.line_count();
    let end_b = if second_last < n - 1 {
        doc.line_to_char(second_last + 1)
    } else {
        doc.char_count()
    };
    let text = doc.chars();
    let mut a = slice_vec(text, start_a, start_b);
    let mut b = slice_vec(text, start_b, end_b);
    if !(b.len() > 0 && b[b.len() - 1] == '\n') {
        b.push('\n');
        if a.len() > 0 && a[a.len() - 1] == '\n' {
            a.pop();
        }
    }
    let mut out = slice_vec(text, 0, start_a);
    crate::text::append_chars(&mut out, &b);
    crate::text::append_chars(&mut out, &a);
    let tail = slice_vec(text, end_b, text.len());
    crate::text::append_chars(&mut out, &tail);
    proof {
        let sa = start_a as int;
        let eb = end_b as int;
        assert(s.subrange(0, sa) =~= s.take(sa));
        assert(s.subrange(eb, s.len() as int) =~= s.skip(eb));
        let bb = s.subrange(start_b as int, eb);
        let aa = s.subrange(sa, start_b as int);
        if !(bb.len() > 0 && bb.last() == '\n') {
            if aa.len() > 0 && aa.last() == '\n' {
                assert(a@ =~= aa.drop_last());
            }
        }
    }
    doc.set_chars(out);
}

/// Swap the subtree enclosing `line` with the previous same-level sibling subtree.
#[verifier::spinoff_prover]
pub fn move_subtree_up_in(f: Format, doc: &mut Document, line: usize) -> (r: EditOutcome)
    ensures
        edit_done(r, moved_up(f, old(doc)@, line), *old(doc), *final(doc)),
{
    let (hs, k) = outline_enclosing(f, doc, line);
    let k = match k {
        Some(k) => k,
        None => {
            return EditOutcome::NoOp(NOT_ON_HEADING);
        },
    };
    let ghost s = doc@;
    let level = hs[k].level;
    let top = hs[k].line;
    proof {
        lemma_enclosing_facts(f, s, line as int);
    }
    let found = find_prev_sibling(f, Ghost(s), &hs, level, top);
    let p = match found {
        Some(p) => p,
        None => {
            return EditOutcome::NoOp(NO_PREV_SIBLING);
        },
    };
    proof {
        lemma_extent(f, s, p as int);
        lemma_extent(f, s, k as int);
    }
    let offset = line - top;
    swap_blocks(doc, hs[p].line, top, hs[k].last_line);
    EditOutcome::Changed { cursor_line: hs[p].line + offset }
}

/// The enclosing heading starts at or above the line.
pub proof fn lemma_enclosing_facts(f: Format, s: Seq<char>, line: int)
    ensures
        enclosing_of(f, s, line) matches Some(k) ==> 0 <= k < heading_lines(f, s).len()
            && heading_lines(f, s)[k] <= line,
{
    lemma_last_le(heading_lines(f, s), line, heading_lines(f, s).len() as int);
}

proof fn lemma_last_le(hl: Seq<int>, line: int, n: int)
    requires
        0 <= n <= hl.len(),
    ensures
        last_le(hl, line, n) matches Some(k) ==> 0 <= k < n && hl[k] <= line,
    decreases n,
{
    if n > 0 && hl[n - 1] > line {
        lemma_last_le(hl, line, n - 1);
    }
}

/// Swap the subtree enclosing `line` with the next same-level sibling subtree.
#[verifier::spinoff_prover]
pub fn move_subtree_down_in(f: Format, doc: &mut Document, line: usize) -> (r: EditOutcome)
    requires
        line + old(doc)@.len() + 1 <= usize::MAX,
    ensures
        edit_done(r, moved_down(f, old(doc)@, line), *old(doc), *final(doc)),
{
    let (hs, k) = outline_enclosing(f, doc, line);
    let k = match k {
        Some(k) => k,
        None => {
            return EditOutcome::NoOp(NOT_ON_HEADING);
        },
    };
    let ghost s = doc@;
    let level = hs[k].level;
    let last = hs[k].last_line;
    proof {
        lemma_extent(f, s, k as int);
        crate::document::lemma_line_count_bounds(s);
    }
    let found = find_next_sibling(f, Ghost(s), &hs, level, last + 1);
    let nx = match found {
        Some(nx) => nx,
        None => {
            return EditOutcome::NoOp(NO_NEXT_SIBLING);
        },
    };
    proof {
        lemma_extent(f, s, nx as int);
        lemma_heading_lines(f, s);
    }
    let next_len = hs[nx].last_line - hs[nx].line + 1;
    swap_blocks(doc, hs[k].line, hs[nx].line, hs[nx].last_line);
    EditOutcome::Changed { cursor_line: line + next_len }
}

fn find_prev_sibling(f: Format, Ghost(s): Ghost<Seq<char>>, hs: &Vec<Heading>, level: usize, top: usize) -> (r: Option<usize>)
    requires
        lines_levels(hs@, f, s),
    ensures
        match r {
            Some(j) => prev_sibling_from(f, s, level as int, top as int, 0) == Some(j as int) && j < hs@.len()
                && hs@[j as int].level == level && hs@[j as int].last_line + 1 == top,
            None => prev_sibling_from(f, s, level as int, top as int, 0) is None,
        },
{
    let mut j: usize = 0;
    while j < hs.len()
        invariant
            j <= hs@.len(),
            lines_levels(hs@, f, s),
            prev_sibling_from(f, s, level as int, top as int, 0) == prev_sibling_from(
                f,
                s,
                level as int,
                top as int,
                j as int,
            ),
        decreases hs@.len() - j,
    {
        if hs[j].level == level && hs[j].last_line < top && hs[j].last_line + 1 == top {
            return Some(j);
        }
        j = j + 1;
    }
    None
}

fn find_next_sibling(f: Format, Ghost(s): Ghost<Seq<char>>, hs: &Vec<Heading>, level: usize, at: usize) -> (r: Option<usize>)
    requires
        lines_levels(hs@, f, s),
    ensures
        match r {
            Some(j) => next_sibling_from(f, s, level as int, at as int, 0) == Some(j as int) && j < hs@.len()
                && hs@[j as int].line == at,
            None => next_sibling_from(f, s, level as int, at as int, 0) is None,
        },
{
    let mut j: usize = 0;
    while j < hs.len()
        invariant
            j <= hs@.len(),
            lines_levels(hs@, f, s),
            next_sibling_from(f, s, level as int, at as int, 0) == next_sibling_from(
                f,
                s,
                level as int,
                at as int,
                j as int,
            ),
        decreases hs@.len() - j,
    {
        if hs[j].line == at && hs[j].level == level {
            return Some(j);
        }
        j = j + 1;
    }
    None
}

// ---- inserting siblings -------------------------------------------------------------

/// `n` copies of `c`.
pub open spec fn repeated(c: char, n: int) -> Seq<char> {
    Seq::new(n as nat, |i: int| c)
}

/// Where a new sibling goes for `line`: the heading level and the line after the enclosing
/// subtree, or a level-1 heading after the last line.
pub open spec fn sibling_target(f: Format, s: Seq<char>, line: int) -> (int, int) {
    match enclosing_of(f, s, line) {
        Some(k) => (crate::structure::level_of(f, s, k), crate::structure::extent_of(f, s, k) + 1),
        None => (1, line_count(s)),
    }
}

/// Where the new heading's text goes and what comes before it: the target line's start, or
/// the end of the text behind a newline when the text does not end in one.
pub open spec fn sibling_place(s: Seq<char>, target: int) -> (int, Seq<char>) {
    if target < line_count(s) {
        (line_start(s, target), seq![])
    } else if s.len() > 0 && s.last() != '\n' {
        (s.len() as int, seq!['\n'])
    } else {
        (s.len() as int, seq![])
    }
}

/// Inserting a new (possibly `TODO`) sibling heading after the subtree enclosing `line`.
pub open spec fn sibling_inserted(f: Format, s: Seq<char>, line: usize, todo: bool) -> (EditOutcome, Seq<char>) {
    let (level, target) = sibling_target(f, s, line as int);
    let (at, prefix) = sibling_place(s, target);
    let new_line = prefix + repeated(marker_of(f), level) + seq![' '] + (if todo {
        todo_space()
    } else {
        seq![]
    }) + seq!['\n'];
    let t = spliced_in(s, at, new_line);
    (EditOutcome::Changed { cursor_line: crate::document::line_at(t, at + prefix.len()) as usize }, t)
}

fn sibling_target_exec(f: Format, doc: &Document, line: usize) -> (r: (usize, usize))
    ensures
        (r.0 as int, r.1 as int) == sibling_target(f, doc@, line as int),
        r.0 <= doc@.len() + 1,
{
    let ghost s = doc@;
    let (hs, k) = outline_enclosing(f, doc, line);
    doc.len_bound();
    proof {
        crate::document::lemma_line_count_bounds(s);
    }
    match k {
        Some(k) => {
            proof {
                lemma_heading_lines(f, s);
                lemma_extent(f, s, k as int);
                let l = heading_lines(f, s)[k as int];
                lemma_heading_level_bound(f, s, l);
                lemma_line_parts(s, l);
                assert(hs@[k as int].level < line_body(s, l).len());
            }
            (hs[k].level, hs[k].last_line + 1)
        },
        None => (1, doc.line_count()),
    }
}

/// Insert a new (possibly `TODO`) sibling heading after the subtree enclosing `line`; with
/// no enclosing heading, append a level-1 heading at the end of the document.
#[verifier::spinoff_prover]
pub fn insert_sibling_in(f: Format, doc: &mut Document, line: usize, todo: bool) -> (r: EditOutcome)
    ensures
        edit_done(r, sibling_inserted(f, old(doc)@, line, todo), *old(doc), *final(doc)),
{
    let ghost s = doc@;
    let (level, target) = sibling_target_exec(f, doc, line);
    let n = doc.line_count();
    let m = match f {
        Format::Org => '*',
        Format::Markdown => '#',
    };
    let mut new_line: Vec<char> = Vec::new();
    let text = doc.chars();
    let len = text.len();
    let at = if target < n {
        doc.line_to_char(target)
    } else {
        len
    };
    if target >= n && len > 0 && text[len - 1] != '\n' {
        new_line.push('\n');
    }
    let plen = new_line.len();
    let ghost prefix = new_line@;
    let mut i: usize = 0;
    while i < level
        invariant
            i <= level,
            new_line@ == prefix + repeated(m, i as int),
        decreases level - i,
    {
        new_line.push(m);
        i = i + 1;
        assert(new_line@ =~= prefix + repeated(m, i as int));
    }
    new_line.push(' ');
    if todo {
        let t = todo_space_exec();
        crate::text::append_chars(&mut new_line, &t);
    }
    new_line.push('\n');
    proof {
        assert(new_line@ =~= prefix + repeated(marker_of(f), level as int) + seq![' '] + (if todo {
            todo_space()
        } else {
            seq![]
        }) + seq!['\n']);
    }
    doc.len_bound();
    doc.insert(at, &new_line);
    let cursor_line = doc.char_to_line(at + plen);
    EditOutcome::Changed { cursor_line }
}

// ---- priorities ---------------------------------------------------------------------

/// The priority one step up (none → C → B → A) or down (A → B → C → none) from `p`;
/// `None` when there is no step to take.
pub open spec fn priority_step(p: Option<char>, up: bool) -> Option<Option<char>> {
    match p {
        None => if up {
            Some(Some('C'))
        } else {
            None
        },
        Some(c) => if up {
            if c == 'C' {
                Some(Some('B'))
            } else if c == 'B' {
                Some(Some('A'))
            } else {
                None
            }
        } else {
            if c == 'A' {
                Some(Some('B'))
            } else if c == 'B' {
                Some(Some('C'))
            } else {
                Some(None)
            }
        },
    }
}

/// `[#p]`
pub open spec fn cookie(p: char) -> Seq<char> {
    seq!['[', '#', p, ']']
}

/// Where the priority cookie of the heading with `level` markers on `line` sits (or would
/// go): after the markers, the keyword, and the spaces after each.
pub open spec fn cookie_at(s: Seq<char>, line: int, level: int) -> int {
    let rest = after_markers(s, line, level);
    let at = after_markers_at(s, line, level);
    if split_todo(rest).0 is Some {
        at + 4 + skip_ws(rest.skip(4), 0)
    } else {
        at
    }
}

/// Cycling the priority cookie of the heading enclosing `line` one step.
pub open spec fn priority_cycled(f: Format, s: Seq<char>, line: usize, up: bool) -> (EditOutcome, Seq<char>) {
    match enclosing_of(f, s, line as int) {
        None => (EditOutcome::NoOp(NOT_ON_HEADING), s),
        Some(k) => {
            let l = heading_lines(f, s)[k];
            let (level, rest) = heading_at(f, s, l).unwrap();
            let prio = crate::headline::headline_rest(rest).1;
            let st = cookie_at(s, l, level);
            let line_stop = line_start(s, l) + line_body(s, l).len();
            match priority_step(prio, up) {
                None => (EditOutcome::NoOp(if up {
                    HIGHEST_PRIORITY
                } else {
                    NO_PRIORITY
                }), s),
                Some(Some(q)) => (EditOutcome::Changed { cursor_line: line }, match prio {
                    None => spliced_in(s, st, cookie(q).push(' ')),
                    Some(_) => spliced_in(spliced_out(s, st, st + 4), st, cookie(q)),
                }),
                Some(None) => (
                    EditOutcome::Changed { cursor_line: line },
                    spliced_out(s, st, st + if st + 4 < line_stop && s[st + 4] == ' ' {
                        5int
                    } else {
                        4int
                    }),
                ),
            }
        },
    }
}

/// The text from the cookie position to the end of the line is what the headline reads
/// after its keyword.
proof fn lemma_cookie_at(f: Format, s: Seq<char>, l: int)
    requires
        0 <= l < line_count(s),
        heading_at(f, s, l) is Some,
    ensures
        ({
            let (level, rest) = heading_at(f, s, l).unwrap();
            let st = cookie_at(s, l, level);
            let stop = line_start(s, l) + line_body(s, l).len();
            &&& rest == after_markers(s, l, level)
            &&& line_start(s, l) + level <= st <= stop
            &&& stop <= s.len()
            &&& split_todo(rest).1 == s.subrange(st, stop)
        }),
{
    let (level, rest) = heading_at(f, s, l).unwrap();
    lemma_heading_level_bound(f, s, l);
    lemma_after_markers(s, l, level);
    lemma_line_parts(s, l);
    let am = after_markers(s, l, level);
    if split_todo(am).0 is Some {
        let tail = am.skip(4);
        crate::text::lemma_skip_ws(tail, 0);
        assert(split_todo(am).1 =~= tail.skip(skip_ws(tail, 0)));
        assert(split_todo(am).1 =~= s.subrange(
            cookie_at(s, l, level),
            line_start(s, l) + line_body(s, l).len(),
        ));
    }
}

fn cookie_exec(p: char, space: bool) -> (r: Vec<char>)
    ensures
        r@ == (if space {
            cookie(p).push(' ')
        } else {
            cookie(p)
        }),
{
    let mut v = vec!['[', '#', p, ']'];
    if space {
        v.push(' ');
    }
    proof {
        if space {
            assert(v@ =~= cookie(p).push(' '));
        } else {
            assert(v@ =~= cookie(p));
        }
    }
    v
}

/// Where the priority cookie of the heading on `line` (with `level` markers) sits.
fn cookie_pos(f: Format, doc: &Document, line: usize, level: usize) -> (r: usize)
    requires
        heading_at(f, doc@, line as int) is Some,
        heading_at(f, doc@, line as int).unwrap().0 == level,
        line < line_count(doc@),
    ensures
        r == cookie_at(doc@, line as int, level as int),
        r <= line_start(doc@, line as int) + line_body(doc@, line as int).len(),
{
    let ghost s = doc@;
    proof {
        lemma_cookie_at(f, s, line as int);
        lemma_after_markers(s, line as int, level as int);
        lemma_line_parts(s, line as int);
    }
    let raw = doc.line_text(line);
    let text = strip_nl_exec(&raw);
    let am = slice_vec(&text, level, text.len());
    let ws = skip_ws_exec(&am, 0);
    let rest = slice_vec(&am, ws, am.len());
    assert(rest@ == after_markers(s, line as int, level as int));
    let (todo, _) = split_todo_exec(&rest);
    doc.len_bound();
    let mut pos = level + ws;
    if todo.is_some() {
        let after_kw = slice_vec(&rest, 4, rest.len());
        pos = pos + 4 + skip_ws_exec(&after_kw, 0);
    }
    doc.line_to_char(line) + pos
}

/// Cycle the `[#X]` cookie on the enclosing heading: up = none→C→B→A, down = A→B→C→none.
#[verifier::spinoff_prover]
pub fn cycle_priority_in(f: Format, doc: &mut Document, line: usize, up: bool) -> (r: EditOutcome)
    ensures
        edit_done(r, priority_cycled(f, old(doc)@, line, up), *old(doc), *final(doc)),
{
    let ghost s = doc@;
    let (k, h) = match enclosing_heading(f, doc, line) {
        Some(p) => p,
        None => {
            return EditOutcome::NoOp(NOT_ON_HEADING);
        },
    };
    let ghost l = heading_lines(f, s)[k as int];
    proof {
        lemma_heading_lines(f, s);
        lemma_cookie_at(f, s, l);
        lemma_line_parts(s, l);
        assert(h.line == l);
    }
    let new = match h.priority {
        None => if up {
            Some('C')
        } else {
            return EditOutcome::NoOp(NO_PRIORITY);
        },
        Some(c) => if up {
            if c == 'C' {
                Some('B')
            } else if c == 'B' {
                Some('A')
            } else {
                return EditOutcome::NoOp(HIGHEST_PRIORITY);
            }
        } else {
            if c == 'A' {
                Some('B')
            } else if c == 'B' {
                Some('C')
            } else {
                None
            }
        },
    };
    let start = cookie_pos(f, doc, h.line, h.level);
    doc.len_bound();
    match (h.priority, new) {
        (None, Some(p)) => {
            let c = cookie_exec(p, true);
            doc.insert(start, &c);
        },
        (Some(_), Some(p)) => {
            doc.remove(start, start + 4);
            let c = cookie_exec(p, false);
            doc.insert(start, &c);
        },
        (Some(_), None) => {
            let stop = doc.line_to_char(h.line) + doc.line_len_chars(h.line);
            let spaced = start + 4 < stop && doc.chars()[start + 4] == ' ';
            let n: usize = if spaced {
                5
            } else {
                4
            };
            doc.remove(start, start + n);
        },
        (None, None) => {},
    }
    EditOutcome::Changed { cursor_line: line }
}

// ---- tags -------------------------------------------------------------------------

/// Whether `tag` is a legal tag name (non-empty, only letters/digits/`_@#%`).
pub fn is_valid_tag(tag: &str) -> (r: bool)
    ensures
        r == (tag@.len() > 0 && all_tag_chars(tag@)),
        crate::text::all_ascii(tag@) ==> (r == (tag@.len() > 0 && crate::headline::all_ascii_tag_chars(tag@))),
{
    let v = crate::text::chars_of(tag);
    v.len() > 0 && crate::headline::all_tag_chars_exec(&v)
}

/// The first `n` tags, each followed by a colon.
pub open spec fn tag_tail(tags: Seq<String>, n: int) -> Seq<char>
    decreases n,
{
    if n <= 0 || n > tags.len() {
        seq![]
    } else {
        tag_tail(tags, n - 1) + tags[n - 1]@ + seq![':']
    }
}

/// Heading `k`'s line with its trailing tag run replaced by `tags` (none: removed).
pub open spec fn retagged_line(text: Seq<char>, tags: Seq<String>) -> Seq<char> {
    let prefix = match tag_start(text) {
        Some(i) => trim_end(text.take(i)),
        None => trim_end(text),
    };
    if tags.len() == 0 {
        prefix
    } else {
        prefix + seq![' ', ':'] + tag_tail(tags, tags.len() as int)
    }
}

/// Replacing the trailing tag run of the heading enclosing `line` with `tags`.
pub open spec fn tags_set(f: Format, s: Seq<char>, line: usize, tags: Seq<String>) -> (EditOutcome, Seq<char>) {
    match enclosing_of(f, s, line as int) {
        None => (EditOutcome::NoOp(NOT_ON_HEADING), s),
        Some(k) => {
            let l = heading_lines(f, s)[k];
            let text = line_body(s, l);
            let st = line_start(s, l);
            (
                EditOutcome::Changed { cursor_line: line },
                spliced_in(spliced_out(s, st, st + text.len()), st, retagged_line(text, tags)),
            )
        },
    }
}

/// Replace the enclosing heading's trailing tag run with `tags` (empty = remove). Tags are
/// expected to satisfy [`is_valid_tag`] already.
#[verifier::spinoff_prover]
#[verifier::rlimit(40)]
pub fn set_tags_in(f: Format, doc: &mut Document, line: usize, tags: &[String]) -> (r: EditOutcome)
    ensures
        edit_done(r, tags_set(f, old(doc)@, line, tags@), *old(doc), *final(doc)),
{
    let ghost s = doc@;
    let (k, h) = match enclosing_heading(f, doc, line) {
        Some(p) => p,
        None => {
            return EditOutcome::NoOp(NOT_ON_HEADING);
        },
    };
    let ghost l = heading_lines(f, s)[k as int];
    proof {
        lemma_heading_lines(f, s);
        lemma_line_parts(s, l);
        assert(h.line == l);
    }
    let text = doc.line_body(h.line);
    let cut = match crate::headline::tag_start_exec(&text) {
        Some(i) => i,
        None => text.len(),
    };
    let head = slice_vec(&text, 0, cut);
    let mut new_line = crate::text::trim_end_exec(&head);
    proof {
        if tag_start(text@) is None {
            assert(head@ =~= text@);
        } else {
            assert(head@ =~= text@.take(cut as int));
        }
    }
    if tags.len() > 0 {
        new_line.push(' ');
        new_line.push(':');
        let ghost base = new_line@;
        let mut i: usize = 0;
        while i < tags.len()
            invariant
                i <= tags@.len(),
                new_line@ == base + tag_tail(tags@, i as int),
            decreases tags@.len() - i,
        {
            let t = crate::text::chars_of(tags[i].as_str());
            crate::text::append_chars(&mut new_line, &t);
            new_line.push(':');
            i = i + 1;
            assert(new_line@ =~= base + tag_tail(tags@, i as int));
        }
    }
    assert(new_line@ =~= retagged_line(text@, tags@));
    doc.len_bound();
    let start = doc.line_to_char(h.line);
    doc.remove(start, start + text.len());
    doc.insert(start, &new_line);
    EditOutcome::Changed { cursor_line: line }
}

// ---- planning lines -------------------------------------------------------------------

/// `SCHEDULED: <…>` and/or `DEADLINE: <…>`, space-separated, `SCHEDULED` first.
pub open spec fn planning_text(sched: Option<Timestamp>, dead: Option<Timestamp>) -> Seq<char> {
    let sp = match sched {
        Some(a) => seq![planning_word(true) + seq![' '] + timestamp_text(a)],
        None => seq![],
    };
    let dp = match dead {
        Some(b) => seq![planning_word(false) + seq![' '] + timestamp_text(b)],
        None => seq![],
    };
    let parts = sp + dp;
    if parts.len() == 2 {
        parts[0] + seq![' '] + parts[1]
    } else if parts.len() == 1 {
        parts[0]
    } else {
        seq![]
    }
}

/// Whether `t` is a planning line: after leading whitespace it opens with `SCHEDULED:` or
/// `DEADLINE:`.
pub open spec fn is_planning_line(t: Seq<char>) -> bool {
    let tt = trim_start(t);
    has_at(tt, 0, planning_word(true)) || has_at(tt, 0, planning_word(false))
}

/// Setting (or with `ts == None` removing) one planning stamp of the heading enclosing
/// `line`: the planning line below the heading is rewritten, inserted, or dropped when
/// nothing is left on it.
pub open spec fn planning_set(
    f: Format,
    s: Seq<char>,
    line: usize,
    which: Planning,
    ts: Option<Timestamp>,
) -> (EditOutcome, Seq<char>) {
    match enclosing_of(f, s, line as int) {
        None => (EditOutcome::NoOp(NOT_ON_HEADING), s),
        Some(k) => {
            let l = heading_lines(f, s)[k];
            let level = crate::structure::level_of(f, s, k);
            let below = line_of(s, l + 1);
            let is_plan = is_planning_line(below);
            let (sc0, dl0) = if is_plan {
                planning_of(below)
            } else {
                (None, None)
            };
            let (sc, dl) = match which {
                Planning::Scheduled => (ts, dl0),
                Planning::Deadline => (sc0, ts),
            };
            let st = line_start(s, l + 1);
            let s1 = if is_plan {
                spliced_out(s, st, st + below.len())
            } else {
                s
            };
            let s2 = if sc is None && dl is None {
                s1
            } else {
                spliced_in(s1, st, repeated(' ', level + 1) + planning_text(sc, dl) + seq!['\n'])
            };
            (EditOutcome::Changed { cursor_line: line }, s2)
        },
    }
}

fn push_stamp_part(out: &mut Vec<char>, scheduled: bool, t: &Timestamp)
    requires
        printable_ts(*t),
    ensures
        final(out)@ == old(out)@ + (planning_word(scheduled) + seq![' '] + timestamp_text(*t)),
{
    let w = crate::structure::planning_word_exec(scheduled);
    crate::text::append_chars(out, &w);
    out.push(' ');
    let tt = t.to_chars();
    crate::text::append_chars(out, &tt);
    assert(out@ =~= old(out)@ + (planning_word(scheduled) + seq![' '] + timestamp_text(*t)));
}

/// The planning line for the two stamps, indented `indent` spaces, with its newline.
fn planning_line(indent: usize, sched: &Option<Timestamp>, dead: &Option<Timestamp>) -> (r: Vec<char>)
    requires
        *sched matches Some(a) ==> printable_ts(a),
        *dead matches Some(b) ==> printable_ts(b),
    ensures
        r@ == repeated(' ', indent as int) + planning_text(*sched, *dead) + seq!['\n'],
{
    let mut out: Vec<char> = Vec::new();
    let mut i: usize = 0;
    while i < indent
        invariant
            i <= indent,
            out@ == repeated(' ', i as int),
        decreases indent - i,
    {
        out.push(' ');
        i = i + 1;
        assert(out@ =~= repeated(' ', i as int));
    }
    let ghost base = out@;
    match sched {
        Some(a) => {
            push_stamp_part(&mut out, true, a);
            match dead {
                Some(b) => {
                    out.push(' ');
                    push_stamp_part(&mut out, false, b);
                },
                None => {},
            }
        },
        None => match dead {
            Some(b) => {
                push_stamp_part(&mut out, false, b);
            },
            None => {},
        },
    }
    out.push('\n');
    assert(out@ =~= repeated(' ', indent as int) + planning_text(*sched, *dead) + seq!['\n']);
    out
}

/// Whether `below` is a planning line, and its stamps if so.
fn read_planning(below: &[char]) -> (r: (bool, Option<Timestamp>, Option<Timestamp>))
    ensures
        r.0 == is_planning_line(below@),
        (r.1, r.2) == (if r.0 {
            planning_of(below@)
        } else {
            (None, None)
        }),
        r.1 matches Some(a) ==> printable_ts(a),
        r.2 matches Some(b) ==> printable_ts(b),
{
    let i = skip_ws_exec(below, 0);
    let bt = slice_vec(below, i, below.len());
    let sw = crate::structure::planning_word_exec(true);
    let dw = crate::structure::planning_word_exec(false);
    let is_plan = crate::text::matches_at(&bt, 0, &sw) || crate::text::matches_at(&bt, 0, &dw);
    proof {
        let t = trim_start(below@);
        if let Some(pos) = crate::text::find_from(t, planning_word(true), 0) {
            lemma_parsed_printable(trim_start(t.skip(pos + planning_word(true).len())));
        }
        if let Some(pos) = crate::text::find_from(t, planning_word(false), 0) {
            lemma_parsed_printable(trim_start(t.skip(pos + planning_word(false).len())));
        }
    }
    if is_plan {
        let (a, b) = crate::structure::parse_planning(below);
        (true, a, b)
    } else {
        (false, None, None)
    }
}

/// Set, replace, or remove (`ts = None`) the enclosing heading's `SCHEDULED`/`DEADLINE`
/// timestamp on the planning line directly below it. `SCHEDULED` is written before
/// `DEADLINE`; an empty planning line is removed entirely.
#[verifier::spinoff_prover]
pub fn set_planning_in(
    f: Format,
    doc: &mut Document,
    line: usize,
    which: Planning,
    ts: Option<Timestamp>,
) -> (r: EditOutcome)
    requires
        ts matches Some(t) ==> printable_ts(t),
    ensures
        edit_done(r, planning_set(f, old(doc)@, line, which, ts), *old(doc), *final(doc)),
{
    let ghost s = doc@;
    let (k, h) = match enclosing_heading(f, doc, line) {
        Some(p) => p,
        None => {
            return EditOutcome::NoOp(NOT_ON_HEADING);
        },
    };
    let ghost l = heading_lines(f, s)[k as int];
    proof {
        lemma_heading_lines(f, s);
        lemma_heading_level_bound(f, s, l);
        lemma_line_parts(s, l);
        crate::document::lemma_line_count_bounds(s);
        assert(h.line == l);
        assert(h.level == crate::structure::level_of(f, s, k as int));
    }
    doc.len_bound();
    let hline = h.line;
    let level = h.level;
    let below = doc.line_text(hline + 1);
    let (is_plan, mut scheduled, mut deadline) = read_planning(&below);
    match which {
        Planning::Scheduled => {
            scheduled = ts;
        },
        Planning::Deadline => {
            deadline = ts;
        },
    }
    let start = doc.line_to_char(hline + 1);
    proof {
        crate::document::lemma_last_line_end(s);
        if l + 1 < line_count(s) {
            crate::document::lemma_line_span(s, l + 1);
        } else {
            assert(line_start(s, l + 1) == s.len());
            assert(below@ =~= seq![]);
        }
    }
    if is_plan {
        doc.remove(start, start + below.len());
    }
    if scheduled.is_some() || deadline.is_some() {
        let pl = planning_line(level + 1, &scheduled, &deadline);
        doc.insert(start, &pl);
    }
    EditOutcome::Changed { cursor_line: line }
}

// ---- shifting a timestamp field ---------------------------------------------------

/// The spans scanned from `i` on lie within the text, each non-empty.
pub proof fn lemma_spans_bounds(s: Seq<char>, i: int)
    requires
        0 <= i,
    ensures
        forall|k: int|
            0 <= k < spans_from(s, i).len() ==> 0 <= (#[trigger] spans_from(s, i)[k]).0
                < spans_from(s, i)[k].1 <= s.len(),
    decreases s.len() - i,
{
    if i < s.len() {
        lemma_spans_bounds(s, i + 1);
        let taken = (s[i] == '<' || s[i] == '[') && timestamp_parse(s.skip(i)) is Some && {
            let len = timestamp_parse(s.skip(i)).unwrap().1;
            len > 0 && i + len <= s.len()
        };
        if taken {
            let len = timestamp_parse(s.skip(i)).unwrap().1;
            lemma_spans_bounds(s, i + len);
            let rest = spans_from(s, i + len);
            assert(spans_from(s, i) == seq![(i, i + len)] + rest);
            assert forall|k: int| 0 <= k < spans_from(s, i).len() implies 0 <= (
            #[trigger] spans_from(s, i)[k]).0 < spans_from(s, i)[k].1 <= s.len() by {
                if k > 0 {
                    assert(spans_from(s, i)[k] == rest[k - 1]);
                } else {
                    assert(spans_from(s, i)[k] == (i, i + len));
                }
            }
        } else {
            assert(spans_from(s, i) == spans_from(s, i + 1));
        }
    }
}

/// The first span from number `i` on that holds column `col`.
pub open spec fn span_holding(spans: Seq<(int, int)>, col: int, i: int) -> Option<(int, int)>
    decreases spans.len() - i,
{
    if i < 0 || i >= spans.len() {
        None
    } else if spans[i].0 <= col < spans[i].1 {
        Some(spans[i])
    } else {
        span_holding(spans, col, i + 1)
    }
}

/// The timestamp `ts` with `field` of its start stamp — or of its end stamp when `in_end` —
/// moved one step; `None` when there is no end stamp to move, or when the step would leave
/// the stamps' range (a year outside `i32`, a month that cannot print).
pub open spec fn stamp_stepped(ts: Timestamp, field: Field, up: bool, in_end: bool) -> Option<Timestamp> {
    match raw_step(ts, field, up, in_end) {
        Some(t) => if printable_ts(t) {
            Some(t)
        } else {
            None
        },
        None => None,
    }
}

/// `ts` with the field of its start (or end) stamp moved, when the year stays in `i32`.
pub open spec fn raw_step(ts: Timestamp, field: Field, up: bool, in_end: bool) -> Option<Timestamp> {
    if in_end {
        match ts.end {
            Some(e) => if shift_in_range(e, field, up) {
                Some(Timestamp { start: ts.start, end: Some(shifted(e, field, up)) })
            } else {
                None
            },
            None => None,
        }
    } else if shift_in_range(ts.start, field, up) {
        Some(Timestamp { start: shifted(ts.start, field, up), end: ts.end })
    } else {
        None
    }
}

/// The stamp of the timestamp text `raw` that offset `rel` falls in: the text of that stamp,
/// where it starts in `raw`, and whether it is the end stamp of a range; `None` on the `--`
/// joining the two stamps of a range.
pub open spec fn stamp_under(raw: Seq<char>, rel: int) -> Option<(Seq<char>, int, bool)> {
    match stamp_parse(raw) {
        None => None,
        Some((_, len1)) => if rel < len1 {
            Some((raw.take(len1), 0, false))
        } else if rel >= len1 + 2 {
            Some((raw.skip(len1 + 2), len1 + 2, true))
        } else {
            None
        },
    }
}

/// The text after shifting the timestamp field under column `col` of `line`; `None` when the
/// column is not inside a timestamp (or on no field of it, or the stamp's text is not the
/// plain ASCII the field positions are read from). In a range, the field is read within the
/// stamp under the column, and that stamp is the one shifted.
pub open spec fn timestamp_shifted(s: Seq<char>, line: usize, col: usize, up: bool) -> Option<Seq<char>> {
    let text = line_body(s, line as int);
    match span_holding(spans_from(text, 0), col as int, 0) {
        None => None,
        Some((a, b)) => {
            let raw = text.subrange(a, b);
            match stamp_under(raw, col - a) {
                None => None,
                Some((piece, off, in_end)) => {
                    let rel = col - a - off;
                    if !field_at_ok(piece, rel) {
                        None
                    } else {
                        match field_of(piece, rel) {
                            None => None,
                            Some(field) => match timestamp_parse(raw) {
                                None => None,
                                Some((ts, _)) => match stamp_stepped(ts, field, up, in_end) {
                                    None => None,
                                    Some(nt) => {
                                        let base = line_start(s, line as int);
                                        Some(
                                            spliced_in(
                                                spliced_out(s, base + a, base + b),
                                                base + a,
                                                timestamp_text(nt),
                                            ),
                                        )
                                    },
                                },
                            },
                        }
                    }
                },
            }
        },
    }
}

/// The stamp of `raw` that `rel` falls in, as [`stamp_under`] says.
fn stamp_under_exec(raw: &Vec<char>, rel: usize) -> (r: Option<(Vec<char>, usize, bool)>)
    requires
        rel < raw@.len(),
    ensures
        match r {
            Some((piece, off, in_end)) => stamp_under(raw@, rel as int) == Some((piece@, off as int, in_end))
                && off <= rel,
            None => stamp_under(raw@, rel as int) is None,
        },
{
    let len1 = match crate::timestamp::parse_stamp_len(raw) {
        Some(n) => n,
        None => {
            return None;
        },
    };
    if rel < len1 {
        let piece = slice_vec(raw, 0, len1);
        assert(piece@ =~= raw@.take(len1 as int));
        Some((piece, 0, false))
    } else if rel - len1 >= 2 {
        let piece = slice_vec(raw, len1 + 2, raw.len());
        assert(piece@ =~= raw@.skip(len1 + 2));
        Some((piece, len1 + 2, true))
    } else {
        None
    }
}

fn span_holding_exec(spans: &Vec<(usize, usize)>, Ghost(want): Ghost<Seq<(int, int)>>, col: usize) -> (r: Option<(usize, usize)>)
    requires
        spans@.len() == want.len(),
        forall|k: int|
            0 <= k < spans@.len() ==> (#[trigger] spans@[k]).0 == want[k].0 && spans@[k].1
                == want[k].1,
    ensures
        match r {
            Some((a, b)) => span_holding(want, col as int, 0) == Some((a as int, b as int)),
            None => span_holding(want, col as int, 0) is None,
        },
{
    let mut i: usize = 0;
    while i < spans.len()
        invariant
            i <= spans@.len(),
            spans@.len() == want.len(),
            forall|k: int|
                0 <= k < spans@.len() ==> (#[trigger] spans@[k]).0 == want[k].0 && spans@[k].1
                    == want[k].1,
            span_holding(want, col as int, 0) == span_holding(want, col as int, i as int),
        decreases spans@.len() - i,
    {
        let (a, b) = spans[i];
        if a <= col && col < b {
            return Some((a, b));
        }
        i = i + 1;
    }
    None
}

/// Shift the timestamp field under the cursor (`line`, char column `col`) by one step,
/// rewriting it in place. Returns `None` when the cursor is not inside a timestamp, so the
/// caller can fall through to another meaning of the key (e.g. priority cycling).
#[verifier::spinoff_prover]
pub fn shift_timestamp(doc: &mut Document, line: usize, col: usize, up: bool) -> (r: Option<EditOutcome>)
    ensures
        match timestamp_shifted(old(doc)@, line, col, up) {
            Some(t) => r == Some(EditOutcome::Changed { cursor_line: line }) && final(doc)@ == t
                && final(doc).modified_flag(),
            None => r is None && *final(doc) == *old(doc),
        },
{
    let ghost s = doc@;
    let text = doc.line_body(line);
    let spans = crate::timestamp::find_timestamps_chars(&text);
    let (a, b) = match span_holding_exec(&spans, Ghost(spans_from(text@, 0)), col) {
        Some(p) => p,
        None => {
            return None;
        },
    };
    proof {
        lemma_spans_bounds(text@, 0);
        lemma_span_holding(spans_from(text@, 0), col as int, 0);
    }
    let raw = slice_vec(&text, a, b);
    let rel = col - a;
    let (piece, off, in_end) = match stamp_under_exec(&raw, rel) {
        Some(p) => p,
        None => {
            return None;
        },
    };
    let prel = rel - off;
    if !field_ok_exec(&piece, prel) {
        return None;
    }
    let field = match crate::timestamp::field_at_chars(&piece, prel) {
        Some(fl) => fl,
        None => {
            return None;
        },
    };
    let ts = match crate::timestamp::parse_timestamp_chars(&raw) {
        Some((ts, _)) => ts,
        None => {
            return None;
        },
    };
    let nt = match step_stamp(ts, field, up, in_end) {
        Some(nt) => nt,
        None => {
            return None;
        },
    };
    proof {
        lemma_line_body_bounds(s, line as int);
    }
    doc.len_bound();
    let base = doc.line_to_char(line);
    doc.remove(base + a, base + b);
    let t = nt.to_chars();
    doc.insert(base + a, &t);
    Some(EditOutcome::Changed { cursor_line: line })
}

proof fn lemma_span_holding(spans: Seq<(int, int)>, col: int, i: int)
    requires
        0 <= i,
    ensures
        span_holding(spans, col, i) matches Some(p) ==> exists|k: int|
            0 <= k < spans.len() && spans[k] == p,
        span_holding(spans, col, i) matches Some(p) ==> p.0 <= col < p.1,
    decreases spans.len() - i,
{
    if i < spans.len() && !(spans[i].0 <= col < spans[i].1) {
        lemma_span_holding(spans, col, i + 1);
    }
}

/// A line's body lies within the text, from the line's start.
proof fn lemma_line_body_bounds(s: Seq<char>, line: int)
    ensures
        line_start(s, line) + line_body(s, line).len() <= s.len(),
{
    crate::document::lemma_line_start_bounds(s, line);
    if 0 <= line < line_count(s) {
        lemma_line_parts(s, line);
    }
}

fn field_ok_exec(raw: &[char], rel: usize) -> (r: bool)
    ensures
        r == field_at_ok(raw@, rel as int),
{
    if !crate::text::is_all_ascii(raw) {
        return false;
    }
    if rel >= raw.len() || raw.len() == 0 {
        return true;
    }
    if crate::timestamp::date_field_is_some(raw, rel) {
        return true;
    }
    crate::timestamp::date_end_before_last(raw)
}

fn raw_step_exec(ts: Timestamp, field: Field, up: bool, in_end: bool) -> (r: Option<Timestamp>)
    ensures
        r == raw_step(ts, field, up, in_end),
{
    if in_end {
        match ts.end {
            Some(e) => if crate::timestamp::in_range(e, field, up) {
                Some(Timestamp { start: ts.start, end: Some(crate::timestamp::shift_field(e, field, up)) })
            } else {
                None
            },
            None => None,
        }
    } else if crate::timestamp::in_range(ts.start, field, up) {
        Some(Timestamp { start: crate::timestamp::shift_field(ts.start, field, up), end: ts.end })
    } else {
        None
    }
}

fn step_stamp(ts: Timestamp, field: Field, up: bool, in_end: bool) -> (r: Option<Timestamp>)
    ensures
        r == stamp_stepped(ts, field, up, in_end),
        r matches Some(t) ==> printable_ts(t),
{
    match raw_step_exec(ts, field, up, in_end) {
        Some(t) => {
            let ok = 1 <= t.start.date.month && t.start.date.month <= 12 && match t.end {
                Some(e) => 1 <= e.date.month && e.date.month <= 12,
                None => true,
            };
            if ok {
                Some(t)
            } else {
                None
            }
        },
        None => None,
    }
}

} // verus!
