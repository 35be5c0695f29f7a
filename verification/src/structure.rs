//! The format-agnostic outline layer. A buffer parses into an [`Outline`]: a flat,
//! level-tagged list of [`Heading`]s, each carrying the extent of its subtree so a frontend
//! can fold it. Format knowledge sits behind [`Format`] (Org `*` headings, Markdown ATX `#`
//! headings outside fenced code blocks); [`detect_format`] picks one from a file name.
use vstd::prelude::*;

use crate::document::{line_count, line_of, lemma_line_count_bounds, Document};
use crate::headline::{
    fence_closer, fence_closer_exec, fence_opener, fence_opener_exec, heading_rest,
    heading_rest_exec, headline_is, headline_rest, headline_rest_exec, tags_match, HeadLine,
    TodoState,
};
use crate::text::{
    chars_eq, find_chars, find_from, skip_ws_exec, slice_vec, string_of, strip_nl, strip_nl_exec,
    trim_start,
};
use crate::timestamp::{timestamp_parse, Timestamp};

verus! {

/// One heading in a parsed document.
#[derive(Debug, Clone, PartialEq, Eq)]
pub struct Heading {
    /// Nesting depth, 1-based: Org `* ` = 1, `** ` = 2.
    pub level: usize,
    /// The line the heading sits on (0-based).
    pub line: usize,
    /// The heading text, with the markers, TODO keyword, priority cookie, and trailing tags
    /// stripped.
    pub title: String,
    /// The heading's TODO state, if it carries a keyword.
    pub todo: Option<TodoState>,
    /// The `[#X]` priority cookie (A–C) after the keyword, if present.
    pub priority: Option<char>,
    /// The `:tag:` run at the end of the headline, colons stripped.
    pub tags: Vec<String>,
    /// A `SCHEDULED:` timestamp from the planning line below the heading (Org only).
    pub scheduled: Option<Timestamp>,
    /// A `DEADLINE:` timestamp from the planning line below the heading (Org only).
    pub deadline: Option<Timestamp>,
    /// The last line of this heading's subtree. The foldable body is the (possibly empty)
    /// range `line + 1 ..= last_line`.
    pub last_line: usize,
}

/// A document's headings in document order.
#[derive(Debug, Clone, PartialEq, Eq)]
pub struct Outline {
    /// The headings, top to bottom.
    pub headings: Vec<Heading>,
}

/// A document format torg understands.
#[derive(Debug, Clone, Copy, PartialEq, Eq, Structural)]
pub enum Format {
    /// Org (`*` headings) — also the default for unknown and untitled buffers.
    Org,
    /// Markdown (ATX `#` headings).
    Markdown,
}

impl Format {
    /// Org, the format of unknown and untitled buffers.
    pub fn default() -> (f: Format)
        ensures
            f == Format::Org,
    {
        Format::Org
    }
}

/// The heading marker of a format.
pub open spec fn marker_of(f: Format) -> char {
    match f {
        Format::Org => '*',
        Format::Markdown => '#',
    }
}

/// The deepest legal heading level of a format, if it has one.
pub open spec fn max_level_of(f: Format) -> Option<int> {
    match f {
        Format::Org => None,
        Format::Markdown => Some(6),
    }
}

// ---- which lines are headings -------------------------------------------------

/// The open Markdown fence after reading `text` in fence state `state`.
pub open spec fn fence_step(state: Option<(char, int)>, text: Seq<char>) -> Option<(char, int)> {
    match state {
        Some((ch, len)) => if fence_closer(text, ch, len) {
            None
        } else {
            state
        },
        None => fence_opener(text),
    }
}

/// The Markdown fence open before line `l` (scanning from the top).
pub open spec fn fence_before(s: Seq<char>, l: int) -> Option<(char, int)>
    decreases l,
{
    if l <= 0 {
        None
    } else {
        fence_step(fence_before(s, l - 1), strip_nl(line_of(s, l - 1)))
    }
}

/// Line `l`'s level and headline text, when it is a heading of format `f`: Org by its own
/// line; Markdown also outside any fenced code block and not itself a fence opener.
pub open spec fn heading_at(f: Format, s: Seq<char>, l: int) -> Option<(int, Seq<char>)> {
    match f {
        Format::Org => heading_rest(line_of(s, l), '*', None),
        Format::Markdown => if fence_before(s, l) is None && fence_opener(strip_nl(line_of(s, l)))
            is None {
            heading_rest(line_of(s, l), '#', Some(6))
        } else {
            None
        },
    }
}

/// The heading lines at or after line `l`, in order.
pub open spec fn heading_lines_from(f: Format, s: Seq<char>, l: int) -> Seq<int>
    decreases line_count(s) - l,
{
    if l < 0 || l >= line_count(s) {
        seq![]
    } else if heading_at(f, s, l) is Some {
        seq![l] + heading_lines_from(f, s, l + 1)
    } else {
        heading_lines_from(f, s, l + 1)
    }
}

/// The heading lines of `s`, top to bottom.
pub open spec fn heading_lines(f: Format, s: Seq<char>) -> Seq<int> {
    heading_lines_from(f, s, 0)
}

/// The level of heading number `k`.
pub open spec fn level_of(f: Format, s: Seq<char>, k: int) -> int {
    heading_at(f, s, heading_lines(f, s)[k]).unwrap().0
}

/// The last line holding content: a text ending in `'\n'` has an empty final line that
/// subtree extents leave out.
pub open spec fn last_content_line(s: Seq<char>) -> int {
    let last = line_count(s) - 1;
    if last > 0 && line_of(s, last).len() == 0 {
        last - 1
    } else {
        last
    }
}

/// The first heading after number `k` (from number `j` on) of equal or shallower level.
pub open spec fn next_not_deeper(f: Format, s: Seq<char>, k: int, j: int) -> Option<int>
    decreases heading_lines(f, s).len() - j,
{
    if j < 0 || j >= heading_lines(f, s).len() {
        None
    } else if level_of(f, s, j) <= level_of(f, s, k) {
        Some(j)
    } else {
        next_not_deeper(f, s, k, j + 1)
    }
}

/// The last line of heading number `k`'s subtree: the line before the next heading of equal
/// or shallower level, else the last content line.
pub open spec fn extent_of(f: Format, s: Seq<char>, k: int) -> int {
    match next_not_deeper(f, s, k, k + 1) {
        Some(j) => heading_lines(f, s)[j] - 1,
        None => last_content_line(s),
    }
}

/// `SCHEDULED:` (or `DEADLINE:`)
pub open spec fn planning_word(scheduled: bool) -> Seq<char> {
    if scheduled {
        seq!['S', 'C', 'H', 'E', 'D', 'U', 'L', 'E', 'D', ':']
    } else {
        seq!['D', 'E', 'A', 'D', 'L', 'I', 'N', 'E', ':']
    }
}

/// The timestamp after the first `kw` in `t`, if one parses there.
pub open spec fn keyword_stamp(t: Seq<char>, kw: Seq<char>) -> Option<Timestamp> {
    match find_from(t, kw, 0) {
        Some(pos) => match timestamp_parse(trim_start(t.skip(pos + kw.len()))) {
            Some((ts, _)) => Some(ts),
            None => None,
        },
        None => None,
    }
}

/// The `SCHEDULED`/`DEADLINE` stamps of a planning line (either or both, any order, any
/// leading whitespace).
pub open spec fn planning_of(text: Seq<char>) -> (Option<Timestamp>, Option<Timestamp>) {
    let t = trim_start(text);
    (keyword_stamp(t, planning_word(true)), keyword_stamp(t, planning_word(false)))
}

/// Whether `h` is heading number `k` of format `f` over text `s`.
pub open spec fn heading_is(h: Heading, f: Format, s: Seq<char>, k: int) -> bool {
    let l = heading_lines(f, s)[k];
    let (level, rest) = heading_at(f, s, l).unwrap();
    let (todo, prio, title, tags) = headline_rest(rest);
    let plan = match f {
        Format::Org => planning_of(line_of(s, l + 1)),
        Format::Markdown => (None, None),
    };
    &&& h.line == l
    &&& h.level == level
    &&& h.todo == todo
    &&& h.priority == prio
    &&& h.title@ == title
    &&& h.tags@.len() == tags.len()
    &&& forall|i: int| 0 <= i < tags.len() ==> #[trigger] h.tags@[i]@ == tags[i]
    &&& h.last_line == extent_of(f, s, k)
    &&& h.scheduled == plan.0
    &&& h.deadline == plan.1
}

/// Whether `o` is the outline of format `f` over text `s`.
pub open spec fn outline_is(o: Outline, f: Format, s: Seq<char>) -> bool {
    &&& o.headings@.len() == heading_lines(f, s).len()
    &&& forall|k: int| 0 <= k < o.headings@.len() ==> heading_is(#[trigger] o.headings@[k], f, s, k)
}

/// Whether line `l` lies inside a Markdown fenced code block: a fence opened above it is
/// still open (the closing fence line itself counts as inside).
pub open spec fn in_fence(s: Seq<char>, l: int) -> bool {
    fence_before(s, l) is Some
}

/// Whether `line` sits inside a Markdown fenced code block, scanning from the top.
pub fn line_in_fence(doc: &Document, line: usize) -> (r: bool)
    ensures
        r == in_fence(doc@, line as int),
{
    let ghost s = doc@;
    let text = doc.chars();
    let n = doc.line_count();
    let mut fence: Option<(char, usize)> = None;
    let mut l: usize = 0;
    let mut p: usize = 0;
    while l < line && l < n
        invariant
            s == doc@,
            text@ == s,
            n as int == line_count(s),
            l <= n,
            l <= line,
            p as int == crate::document::line_start(s, l as int),
            p <= s.len(),
            match fence {
                Some((c, k)) => fence_before(s, l as int) == Some((c, k as int)),
                None => fence_before(s, l as int) is None,
            },
        decreases n - l,
    {
        proof {
            crate::document::lemma_line_span(s, l as int);
            crate::document::lemma_line_start_bounds(s, l as int);
        }
        let e = crate::text::index_of(text, '\n', p);
        let stop = if e < text.len() {
            e + 1
        } else {
            e
        };
        let raw = slice_vec(text, p, stop);
        let body = strip_nl_exec(&raw);
        fence = match fence {
            Some((c, k)) => if fence_closer_exec(&body, c, k) {
                None
            } else {
                Some((c, k))
            },
            None => fence_opener_exec(&body),
        };
        p = stop;
        l = l + 1;
    }
    proof {
        if l < line {
            lemma_fence_past_end(s, l as int, line as int);
        }
    }
    fence.is_some()
}

/// Past the last line the fence state no longer changes.
proof fn lemma_fence_past_end(s: Seq<char>, n: int, l: int)
    requires
        n == line_count(s),
        n <= l,
    ensures
        fence_before(s, l) == fence_before(s, n),
    decreases l - n,
{
    if l > n {
        lemma_fence_past_end(s, n, l - 1);
        assert(strip_nl(line_of(s, l - 1)) =~= seq![]);
        lemma_no_fence_on_empty(fence_before(s, l - 1));
    }
}

proof fn lemma_no_fence_on_empty(state: Option<(char, int)>)
    ensures
        fence_step(state, seq![]) == state,
{
    if let Some((ch, len)) = state {
        assert(!fence_closer(seq![], ch, len)) by {
            reveal_with_fuel(crate::headline::run_end, 2);
        }
    } else {
        assert(fence_opener(seq![]) is None) by {
            reveal_with_fuel(crate::headline::run_end, 2);
        }
    }
}

// ---- parsing --------------------------------------------------------------------

proof fn lemma_heading_lines_from(f: Format, s: Seq<char>, l: int)
    requires
        0 <= l,
    ensures
        forall|k: int|
            0 <= k < heading_lines_from(f, s, l).len() ==> l <= #[trigger] heading_lines_from(
                f,
                s,
                l,
            )[k] < line_count(s) && heading_at(f, s, heading_lines_from(f, s, l)[k]) is Some,
        forall|a: int, b: int|
            0 <= a < b < heading_lines_from(f, s, l).len() ==> heading_lines_from(f, s, l)[a]
                < heading_lines_from(f, s, l)[b],
    decreases line_count(s) - l,
{
    if l < line_count(s) {
        lemma_heading_lines_from(f, s, l + 1);
        if heading_at(f, s, l) is Some {
            let rest = heading_lines_from(f, s, l + 1);
            assert(heading_lines_from(f, s, l) =~= seq![l] + rest);
            assert forall|a: int, b: int|
                0 <= a < b < heading_lines_from(f, s, l).len() implies heading_lines_from(
                f,
                s,
                l,
            )[a] < heading_lines_from(f, s, l)[b] by {
                if a > 0 {
                    assert(heading_lines_from(f, s, l)[a] == rest[a - 1]);
                }
                assert(heading_lines_from(f, s, l)[b] == rest[b - 1]);
            }
        }
    }
}

/// Heading lines are real heading lines, in strictly increasing order.
pub proof fn lemma_heading_lines(f: Format, s: Seq<char>)
    ensures
        forall|k: int|
            0 <= k < heading_lines(f, s).len() ==> 0 <= #[trigger] heading_lines(f, s)[k]
                < line_count(s) && heading_at(f, s, heading_lines(f, s)[k]) is Some,
        forall|a: int, b: int|
            0 <= a < b < heading_lines(f, s).len() ==> heading_lines(f, s)[a] < heading_lines(
                f,
                s,
            )[b],
{
    lemma_heading_lines_from(f, s, 0);
}

/// One heading line, as found while scanning: its line number and headline.
struct Found {
    line: usize,
    head: HeadLine,
}

/// The heading lines of `doc` with their headlines, top to bottom.
fn scan_headings(f: Format, doc: &Document) -> (r: Vec<Found>)
    ensures
        r@.len() == heading_lines(f, doc@).len(),
        forall|k: int|
            0 <= k < r@.len() ==> {
                let l = heading_lines(f, doc@)[k];
                &&& (#[trigger] r@[k]).line == l
                &&& headline_is(r@[k].head, heading_at(f, doc@, l).unwrap().0, heading_at(f, doc@, l).unwrap().1)
            },
{
    let n = doc.line_count();
    let mut out: Vec<Found> = Vec::new();
    let mut fence: Option<(char, usize)> = None;
    let mut line: usize = 0;
    let ghost s = doc@;
    while line < n
        invariant
            s == doc@,
            n as int == line_count(s),
            line <= n,
            f is Markdown ==> match fence {
                Some((c, k)) => fence_before(s, line as int) == Some((c, k as int)),
                None => fence_before(s, line as int) is None,
            },
            heading_lines(f, s) == heading_lines(f, s).take(out@.len() as int)
                + heading_lines_from(f, s, line as int),
            out@.len() <= heading_lines(f, s).len(),
            forall|k: int|
                0 <= k < out@.len() ==> {
                    let l = heading_lines(f, s)[k];
                    &&& (#[trigger] out@[k]).line == l
                    &&& headline_is(out@[k].head, heading_at(f, s, l).unwrap().0, heading_at(f, s, l).unwrap().1)
                },
        decreases n - line,
    {
        let raw = doc.line_text(line);
        let text = strip_nl_exec(&raw);
        let head: Option<(usize, Vec<char>)> = match f {
            Format::Org => heading_rest_exec(&raw, '*', None),
            Format::Markdown => {
                match fence {
                    Some((c, k)) => {
                        if fence_closer_exec(&text, c, k) {
                            fence = None;
                        }
                        None
                    },
                    None => {
                        match fence_opener_exec(&text) {
                            Some((c, k)) => {
                                fence = Some((c, k));
                                None
                            },
                            None => heading_rest_exec(&raw, '#', Some(6)),
                        }
                    },
                }
            },
        };
        let ghost before = out@;
        match head {
            Some((level, rest)) => {
                let h = headline_rest_exec(&rest, level);
                out.push(Found { line, head: h });
                proof {
                    assert(heading_at(f, s, line as int) == Some((level as int, rest@)));
                    assert(heading_lines_from(f, s, line as int) =~= seq![line as int]
                        + heading_lines_from(f, s, line + 1));
                    let hl = heading_lines(f, s);
                    assert(hl.take(before.len() as int) + heading_lines_from(f, s, line as int)
                        =~= hl.take(before.len() as int).push(line as int) + heading_lines_from(
                        f,
                        s,
                        line + 1,
                    ));
                    assert(hl[before.len() as int] == line as int);
                    assert(hl.take(out@.len() as int) =~= hl.take(before.len() as int).push(
                        line as int,
                    ));
                }
            },
            None => {
                proof {
                    assert(heading_at(f, s, line as int) is None);
                }
            },
        }
        line = line + 1;
    }
    proof {
        r_done(f, s, out@.len() as int);
    }
    out
}

proof fn r_done(f: Format, s: Seq<char>, n: int)
    requires
        0 <= n <= heading_lines(f, s).len(),
        heading_lines(f, s) == heading_lines(f, s).take(n) + heading_lines_from(
            f,
            s,
            line_count(s),
        ),
    ensures
        n == heading_lines(f, s).len(),
{
    assert(heading_lines_from(f, s, line_count(s)) =~= seq![]);
}

fn last_content_line_exec(doc: &Document) -> (r: usize)
    ensures
        r as int == last_content_line(doc@),
{
    let n = doc.line_count();
    let last = n - 1;
    if last > 0 && doc.line_text(last).len() == 0 {
        last - 1
    } else {
        last
    }
}

fn keyword_stamp_exec(t: &[char], kw: &[char]) -> (r: Option<Timestamp>)
    ensures
        r == keyword_stamp(t@, kw@),
{
    match find_chars(t, kw, 0) {
        Some(pos) => {
            proof {
                crate::text::lemma_find_from_bounds(t@, kw@, 0);
            }
            let tl = t.len();
            assert(pos + kw.len() <= tl);
            let after = slice_vec(t, pos + kw.len(), tl);
            let i = skip_ws_exec(&after, 0);
            let a = slice_vec(&after, i, after.len());
            assert(a@ == trim_start(t@.skip(pos + kw@.len())));
            match crate::timestamp::parse_timestamp_chars(&a) {
                Some((ts, _)) => Some(ts),
                None => None,
            }
        },
        None => None,
    }
}

pub fn planning_word_exec(scheduled: bool) -> (r: Vec<char>)
    ensures
        r@ == planning_word(scheduled),
{
    let v = if scheduled {
        vec!['S', 'C', 'H', 'E', 'D', 'U', 'L', 'E', 'D', ':']
    } else {
        vec!['D', 'E', 'A', 'D', 'L', 'I', 'N', 'E', ':']
    };
    assert(v@ =~= planning_word(scheduled));
    v
}

/// The two stamps of a planning line.
pub fn parse_planning(text: &[char]) -> (r: (Option<Timestamp>, Option<Timestamp>))
    ensures
        r == planning_of(text@),
{
    let i = skip_ws_exec(text, 0);
    let t = slice_vec(text, i, text.len());
    let sw = planning_word_exec(true);
    let dw = planning_word_exec(false);
    (keyword_stamp_exec(&t, &sw), keyword_stamp_exec(&t, &dw))
}

fn strings_of(v: &Vec<Vec<char>>) -> (r: Vec<String>)
    ensures
        r@.len() == v@.len(),
        forall|i: int| 0 <= i < v@.len() ==> #[trigger] r@[i]@ == v@[i]@,
{
    let mut r: Vec<String> = Vec::new();
    let mut i: usize = 0;
    while i < v.len()
        invariant
            i <= v@.len(),
            r@.len() == i,
            forall|k: int| 0 <= k < i ==> #[trigger] r@[k]@ == v@[k]@,
        decreases v@.len() - i,
    {
        r.push(string_of(&v[i]));
        i = i + 1;
    }
    r
}

/// What `scan_headings` found over `s`.
spec fn found_ok(found: Seq<Found>, f: Format, s: Seq<char>) -> bool {
    &&& found.len() == heading_lines(f, s).len()
    &&& forall|k: int|
        0 <= k < found.len() ==> {
            let l = heading_lines(f, s)[k];
            &&& (#[trigger] found[k]).line == l
            &&& headline_is(found[k].head, heading_at(f, s, l).unwrap().0, heading_at(f, s, l).unwrap().1)
        }
    &&& forall|k: int|
        0 <= k < heading_lines(f, s).len() ==> 0 <= #[trigger] heading_lines(f, s)[k]
            < line_count(s) && heading_at(f, s, heading_lines(f, s)[k]) is Some
    &&& forall|a: int, b: int|
        0 <= a < b < heading_lines(f, s).len() ==> heading_lines(f, s)[a] < heading_lines(f, s)[b]
}

fn extent_exec(f: Format, doc: &Document, found: &Vec<Found>, i: usize, last: usize) -> (r: usize)
    requires
        found_ok(found@, f, doc@),
        i < found@.len(),
        last as int == last_content_line(doc@),
    ensures
        r as int == extent_of(f, doc@, i as int),
{
    let ghost s = doc@;
    let level = found[i].head.level;
    let nf = found.len();
    let mut j = i + 1;
    while j < found.len() && found[j].head.level > level
        invariant
            i < j <= found@.len(),
            level == found@[i as int].head.level,
            found_ok(found@, f, s),
            next_not_deeper(f, s, i as int, i + 1) == next_not_deeper(f, s, i as int, j as int),
        decreases found@.len() - j,
    {
        assert(found@[j as int].line == heading_lines(f, s)[j as int]);
        j = j + 1;
    }
    if j < found.len() {
        assert(heading_lines(f, s)[i as int] < heading_lines(f, s)[j as int]);
        assert(found@[j as int].line == heading_lines(f, s)[j as int]);
        found[j].line - 1
    } else {
        last
    }
}

fn build_heading(f: Format, doc: &Document, found: &Vec<Found>, i: usize, last: usize) -> (h: Heading)
    requires
        found_ok(found@, f, doc@),
        i < found@.len(),
        last as int == last_content_line(doc@),
    ensures
        heading_is(h, f, doc@, i as int),
{
    let ghost s = doc@;
    let last_line = extent_exec(f, doc, found, i, last);
    let line = found[i].line;
    assert(line == heading_lines(f, s)[i as int]);
    let (scheduled, deadline) = match f {
        Format::Org => {
            let n = doc.line_count();
            assert(line < n);
            let below = doc.line_text(line + 1);
            parse_planning(&below)
        },
        Format::Markdown => (None, None),
    };
    let h = Heading {
        level: found[i].head.level,
        line,
        title: string_of(&found[i].head.title),
        todo: found[i].head.todo,
        priority: found[i].head.priority,
        tags: strings_of(&found[i].head.tags),
        scheduled,
        deadline,
        last_line,
    };
    proof {
        let l = heading_lines(f, s)[i as int];
        let (todo, prio, title, tags) = headline_rest(heading_at(f, s, l).unwrap().1);
        assert(tags_match(found@[i as int].head.tags@, tags));
        assert forall|t: int| 0 <= t < tags.len() implies #[trigger] h.tags@[t]@ == tags[t] by {
            assert(found@[i as int].head.tags@[t]@ == tags[t]);
        }
    }
    h
}

/// Scan `doc` into the outline of format `f`.
pub fn parse_outline(f: Format, doc: &Document) -> (o: Outline)
    ensures
        outline_is(o, f, doc@),
{
    let found = scan_headings(f, doc);
    let last = last_content_line_exec(doc);
    proof {
        lemma_heading_lines(f, doc@);
    }
    let mut headings: Vec<Heading> = Vec::new();
    let mut i: usize = 0;
    while i < found.len()
        invariant
            last as int == last_content_line(doc@),
            i <= found@.len(),
            headings@.len() == i,
            found_ok(found@, f, doc@),
            forall|k: int| 0 <= k < i ==> heading_is(#[trigger] headings@[k], f, doc@, k),
        decreases found@.len() - i,
    {
        let h = build_heading(f, doc, &found, i, last);
        headings.push(h);
        i = i + 1;
    }
    Outline { headings }
}

// ---- navigation -----------------------------------------------------------------

/// The last heading among the first `n` at or above `line`.
pub open spec fn last_at_or_above(hs: Seq<Heading>, line: int, n: int) -> Option<int>
    decreases n,
{
    if n <= 0 || n > hs.len() {
        None
    } else if hs[n - 1].line <= line {
        Some(n - 1)
    } else {
        last_at_or_above(hs, line, n - 1)
    }
}

/// The heading whose subtree holds `line`: the last heading at or above it.
pub open spec fn enclosing_index(hs: Seq<Heading>, line: int) -> Option<int> {
    last_at_or_above(hs, line, hs.len() as int)
}

/// The first heading from number `i` on that lies strictly below `line`.
pub open spec fn first_below(hs: Seq<Heading>, line: int, i: int) -> Option<int>
    decreases hs.len() - i,
{
    if i < 0 || i >= hs.len() {
        None
    } else if hs[i].line > line {
        Some(i)
    } else {
        first_below(hs, line, i + 1)
    }
}

/// The last heading among the first `n` strictly above `line`.
pub open spec fn last_above(hs: Seq<Heading>, line: int, n: int) -> Option<int>
    decreases n,
{
    if n <= 0 || n > hs.len() {
        None
    } else if hs[n - 1].line < line {
        Some(n - 1)
    } else {
        last_above(hs, line, n - 1)
    }
}

/// The last heading among the first `n` shallower than `level`.
pub open spec fn last_shallower(hs: Seq<Heading>, level: int, n: int) -> Option<int>
    decreases n,
{
    if n <= 0 || n > hs.len() {
        None
    } else if hs[n - 1].level < level {
        Some(n - 1)
    } else {
        last_shallower(hs, level, n - 1)
    }
}

/// The line of `hs[k]`, when there is a `k`.
pub open spec fn line_of_index(hs: Seq<Heading>, k: Option<int>) -> Option<usize> {
    match k {
        Some(i) => Some(hs[i].line),
        None => None,
    }
}

/// The parent of the heading enclosing `line`: the nearest preceding heading of a smaller
/// level.
pub open spec fn parent_index(hs: Seq<Heading>, line: int) -> Option<int> {
    match enclosing_index(hs, line) {
        Some(i) => last_shallower(hs, hs[i].level as int, i),
        None => None,
    }
}

proof fn lemma_last_at_or_above(hs: Seq<Heading>, line: int, n: int)
    requires
        0 <= n <= hs.len(),
    ensures
        last_at_or_above(hs, line, n) matches Some(k) ==> 0 <= k < n && hs[k].line <= line,
    decreases n,
{
    if n > 0 && hs[n - 1].line > line {
        lemma_last_at_or_above(hs, line, n - 1);
    }
}

proof fn lemma_last_shallower(hs: Seq<Heading>, level: int, n: int)
    requires
        0 <= n <= hs.len(),
    ensures
        last_shallower(hs, level, n) matches Some(k) ==> 0 <= k < n,
    decreases n,
{
    if n > 0 && hs[n - 1].level >= level {
        lemma_last_shallower(hs, level, n - 1);
    }
}

impl Outline {
    /// The heading the caret is "inside": the last heading at or above `line`, if any.
    pub fn enclosing_index(&self, line: usize) -> (r: Option<usize>)
        ensures
            match r {
                Some(k) => enclosing_index(self.headings@, line as int) == Some(k as int),
                None => enclosing_index(self.headings@, line as int) is None,
            },
            r matches Some(k) ==> k < self.headings@.len() && self.headings@[k as int].line <= line,
    {
        let mut n = self.headings.len();
        proof {
            lemma_last_at_or_above(self.headings@, line as int, n as int);
        }
        while n > 0
            invariant
                n <= self.headings@.len(),
                enclosing_index(self.headings@, line as int) == last_at_or_above(
                    self.headings@,
                    line as int,
                    n as int,
                ),
            decreases n,
        {
            if self.headings[n - 1].line <= line {
                return Some(n - 1);
            }
            n = n - 1;
        }
        None
    }
}

/// The line of the first heading strictly below `line`, if any.
pub fn next_heading(outline: &Outline, line: usize) -> (r: Option<usize>)
    ensures
        r == line_of_index(outline.headings@, first_below(outline.headings@, line as int, 0)),
{
    let mut i: usize = 0;
    while i < outline.headings.len()
        invariant
            i <= outline.headings@.len(),
            first_below(outline.headings@, line as int, 0) == first_below(
                outline.headings@,
                line as int,
                i as int,
            ),
        decreases outline.headings@.len() - i,
    {
        if outline.headings[i].line > line {
            return Some(outline.headings[i].line);
        }
        i = i + 1;
    }
    None
}

/// The line of the last heading strictly above `line`, if any.
pub fn prev_heading(outline: &Outline, line: usize) -> (r: Option<usize>)
    ensures
        r == line_of_index(
            outline.headings@,
            last_above(outline.headings@, line as int, outline.headings@.len() as int),
        ),
{
    let mut n = outline.headings.len();
    while n > 0
        invariant
            n <= outline.headings@.len(),
            last_above(outline.headings@, line as int, outline.headings@.len() as int)
                == last_above(outline.headings@, line as int, n as int),
        decreases n,
    {
        if outline.headings[n - 1].line < line {
            return Some(outline.headings[n - 1].line);
        }
        n = n - 1;
    }
    None
}

/// The line of the parent of the heading enclosing `line` — the nearest preceding heading
/// of a smaller level. `None` at the top level or outside any heading.
pub fn parent_heading(outline: &Outline, line: usize) -> (r: Option<usize>)
    ensures
        r == line_of_index(outline.headings@, parent_index(outline.headings@, line as int)),
{
    let idx = match outline.enclosing_index(line) {
        Some(i) => i,
        None => {
            return None;
        },
    };
    let level = outline.headings[idx].level;
    let mut n = idx;
    while n > 0
        invariant
            n <= idx < outline.headings@.len(),
            enclosing_index(outline.headings@, line as int) == Some(idx as int),
            level == outline.headings@[idx as int].level,
            last_shallower(outline.headings@, level as int, idx as int) == last_shallower(
                outline.headings@,
                level as int,
                n as int,
            ),
        decreases n,
    {
        if outline.headings[n - 1].level < level {
            return Some(outline.headings[n - 1].line);
        }
        n = n - 1;
    }
    None
}

// ---- format detection -----------------------------------------------------------

/// `Path::extension`: the extension of the file named by `path`.
pub uninterp spec fn path_extension(path: Seq<char>) -> Option<Seq<char>>;

/// The extension of the file named by `path` (`Path::new(path).extension()`, as text).
/// Its result is named: the path grammar is std's.
#[verifier::external_body]
fn extension_of(path: &str) -> (r: Option<String>)
    ensures
        match r {
            Some(e) => path_extension(path@) == Some(e@),
            None => path_extension(path@) is None,
        },
{
    std::path::Path::new(path).extension().map(|e| e.to_string_lossy().into_owned())
}

/// `c` in ASCII lower case.
pub open spec fn ascii_lower(c: char) -> char {
    if 'A' <= c <= 'Z' {
        ((c as u32) + 32) as char
    } else {
        c
    }
}

/// Whether `a` and `b` are equal ignoring ASCII case.
pub open spec fn eq_ignore_ascii_case(a: Seq<char>, b: Seq<char>) -> bool {
    a.len() == b.len() && forall|i: int| 0 <= i < a.len() ==> ascii_lower(#[trigger] a[i]) == ascii_lower(b[i])
}

/// The format an extension selects: `md`/`markdown` (any ASCII case) is Markdown;
/// everything else, and no extension, is Org.
pub open spec fn format_for_extension(ext: Option<Seq<char>>) -> Format {
    match ext {
        Some(e) => if eq_ignore_ascii_case(e, seq!['m', 'd']) || eq_ignore_ascii_case(
            e,
            seq!['m', 'a', 'r', 'k', 'd', 'o', 'w', 'n'],
        ) {
            Format::Markdown
        } else {
            Format::Org
        },
        None => Format::Org,
    }
}

fn lower_exec(c: char) -> (r: char)
    ensures
        r == ascii_lower(c),
{
    if 'A' <= c && c <= 'Z' {
        (((c as u32) + 32) as u8) as char
    } else {
        c
    }
}

fn eq_ignore_case_exec(a: &[char], b: &[char]) -> (r: bool)
    ensures
        r == eq_ignore_ascii_case(a@, b@),
{
    if a.len() != b.len() {
        return false;
    }
    let mut i: usize = 0;
    while i < a.len()
        invariant
            a@.len() == b@.len(),
            i <= a@.len(),
            forall|k: int| 0 <= k < i ==> ascii_lower(#[trigger] a@[k]) == ascii_lower(b@[k]),
        decreases a@.len() - i,
    {
        if lower_exec(a[i]) != lower_exec(b[i]) {
            return false;
        }
        i = i + 1;
    }
    true
}

/// The format an extension selects.
pub fn format_for(ext: Option<&str>) -> (f: Format)
    ensures
        f == format_for_extension(match ext {
            Some(e) => Some(e@),
            None => None,
        }),
{
    match ext {
        Some(e) => {
            let v = crate::text::chars_of(e);
            let md = vec!['m', 'd'];
            let markdown = vec!['m', 'a', 'r', 'k', 'd', 'o', 'w', 'n'];
            assert(md@ =~= seq!['m', 'd']);
            assert(markdown@ =~= seq!['m', 'a', 'r', 'k', 'd', 'o', 'w', 'n']);
            if eq_ignore_case_exec(&v, &md) || eq_ignore_case_exec(&v, &markdown) {
                Format::Markdown
            } else {
                Format::Org
            }
        },
        None => Format::Org,
    }
}

/// The format for a file path: `.md`/`.markdown` (ASCII-case-insensitive) is Markdown;
/// everything else — including no extension and no path at all — is Org.
pub fn detect_format(path: Option<&str>) -> (f: Format)
    ensures
        f == format_for_extension(match path {
            Some(p) => path_extension(p@),
            None => None,
        }),
{
    match path {
        Some(p) => match extension_of(p) {
            Some(e) => format_for(Some(e.as_str())),
            None => format_for(None),
        },
        None => Format::Org,
    }
}

} // verus!
