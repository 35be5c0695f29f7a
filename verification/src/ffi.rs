//! A small flat surface for foreign-language frontends: parse a text into its outline (both
//! formats), and cycle a heading's TODO keyword so an edit round-trips. Everything here
//! delegates to the outline layer.
use vstd::prelude::*;

use crate::document::Document;
use crate::edits::{cycle_todo_in, todo_cycled};
use crate::headline::{headline_rest, TodoState};
use crate::structure::{extent_of, heading_at, heading_lines, level_of, parse_outline, Format};
use crate::text::string_of;

verus! {

/// One heading in a parsed document, flattened (`usize` → `u32`).
#[derive(Debug, Clone, PartialEq, Eq)]
pub struct HeadingInfo {
    /// Nesting depth, 1-based (`*`/`#` = 1, `**`/`##` = 2, …).
    pub level: u32,
    /// The 0-based line the heading sits on.
    pub line: u32,
    /// The heading text, with markers, keyword, priority cookie, and tags stripped.
    pub title: String,
    /// The last line of this heading's subtree — a frontend folds `line + 1 ..= last_line`.
    pub last_line: u32,
    /// `"TODO"` / `"DONE"` if the heading carries a keyword, else `None`.
    pub todo: Option<String>,
    /// `"A"`/`"B"`/`"C"` priority cookie, if present.
    pub priority: Option<String>,
    /// The heading's `:tags:`, colons stripped.
    pub tags: Vec<String>,
}

/// The format the flag selects.
pub open spec fn format_flag(markdown: bool) -> Format {
    if markdown {
        Format::Markdown
    } else {
        Format::Org
    }
}

/// The keyword as text.
pub open spec fn todo_text(t: Option<TodoState>) -> Option<Seq<char>> {
    match t {
        Some(TodoState::Todo) => Some(seq!['T', 'O', 'D', 'O']),
        Some(TodoState::Done) => Some(seq!['D', 'O', 'N', 'E']),
        None => None,
    }
}

/// Whether `h` is heading number `k` of format `f` over `s`, flattened.
pub open spec fn info_is(h: HeadingInfo, f: Format, s: Seq<char>, k: int) -> bool {
    let l = heading_lines(f, s)[k];
    let (todo, prio, title, tags) = headline_rest(heading_at(f, s, l).unwrap().1);
    &&& h.level == level_of(f, s, k) as u32
    &&& h.line == l as u32
    &&& h.title@ == title
    &&& h.last_line == extent_of(f, s, k) as u32
    &&& match h.todo {
        Some(t) => todo_text(todo) == Some(t@),
        None => todo is None,
    }
    &&& match h.priority {
        Some(p) => prio matches Some(c) && p@ == seq![c],
        None => prio is None,
    }
    &&& h.tags@.len() == tags.len()
    &&& forall|i: int| 0 <= i < tags.len() ==> #[trigger] h.tags@[i]@ == tags[i]
}

fn flag_format(markdown: bool) -> (f: Format)
    ensures
        f == format_flag(markdown),
{
    if markdown {
        Format::Markdown
    } else {
        Format::Org
    }
}

fn copy_tags(tags: &Vec<String>) -> (r: Vec<String>)
    ensures
        r@.len() == tags@.len(),
        forall|i: int| 0 <= i < tags@.len() ==> #[trigger] r@[i]@ == tags@[i]@,
{
    let mut r: Vec<String> = Vec::new();
    let mut i: usize = 0;
    while i < tags.len()
        invariant
            i <= tags@.len(),
            r@.len() == i,
            forall|k: int| 0 <= k < i ==> #[trigger] r@[k]@ == tags@[k]@,
        decreases tags@.len() - i,
    {
        r.push(tags[i].clone());
        i = i + 1;
    }
    r
}

/// Parse `text` into its outline. `markdown` selects the Markdown format; otherwise Org.
pub fn outline(text: String, markdown: bool) -> (r: Vec<HeadingInfo>)
    ensures
        r@.len() == heading_lines(format_flag(markdown), text@).len(),
        forall|k: int|
            0 <= k < r@.len() ==> info_is(#[trigger] r@[k], format_flag(markdown), text@, k),
{
    let f = flag_format(markdown);
    let doc = Document::from_text(text.as_str());
    let o = parse_outline(f, &doc);
    let ghost s = doc@;
    let mut out: Vec<HeadingInfo> = Vec::new();
    let mut k: usize = 0;
    while k < o.headings.len()
        invariant
            s == text@,
            crate::structure::outline_is(o, f, s),
            k <= o.headings@.len(),
            out@.len() == k,
            forall|j: int| 0 <= j < k ==> info_is(#[trigger] out@[j], f, s, j),
        decreases o.headings@.len() - k,
    {
        let h = &o.headings[k];
        assert(crate::structure::heading_is(*h, f, s, k as int));
        let todo = match h.todo {
            Some(TodoState::Todo) => {
                let v = vec!['T', 'O', 'D', 'O'];
                assert(v@ =~= seq!['T', 'O', 'D', 'O']);
                Some(string_of(&v))
            },
            Some(TodoState::Done) => {
                let v = vec!['D', 'O', 'N', 'E'];
                assert(v@ =~= seq!['D', 'O', 'N', 'E']);
                Some(string_of(&v))
            },
            None => None,
        };
        let priority = match h.priority {
            Some(c) => {
                let v = vec![c];
                assert(v@ =~= seq![c]);
                Some(string_of(&v))
            },
            None => None,
        };
        let info = HeadingInfo {
            level: h.level as u32,
            line: h.line as u32,
            title: h.title.clone(),
            last_line: h.last_line as u32,
            todo,
            priority,
            tags: copy_tags(&h.tags),
        };
        out.push(info);
        k = k + 1;
    }
    out
}

/// The text after cycling the TODO keyword on `line`: unchanged off any heading.
pub open spec fn todo_text_after(text: Seq<char>, line: int, markdown: bool) -> Seq<char> {
    match todo_cycled(format_flag(markdown), text, line) {
        Some(t) => t,
        None => text,
    }
}

/// Cycle the TODO keyword on the heading at `line` (none → TODO → DONE → none) and return
/// the updated text. A no-op if `line` is not a heading.
pub fn cycle_todo(text: String, line: u32, markdown: bool) -> (r: String)
    ensures
        r@ == todo_text_after(text@, line as int, markdown),
{
    let mut doc = Document::from_text(text.as_str());
    cycle_todo_in(flag_format(markdown), &mut doc, line as usize);
    doc.text()
}

} // verus!
