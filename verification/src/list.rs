//! Plain lists: bullets and checkboxes. Free functions over `Document` + `Format` — list
//! syntax differs per format only by the bullet rules.
use vstd::prelude::*;

use crate::document::{line_body, line_count, Document};
use crate::structure::{in_fence, line_in_fence, Format};
use crate::text::{is_digit, parse_unsigned};

verus! {

/// The bullet marker that opens a list item.
#[derive(Debug, Clone, Copy, PartialEq, Eq, Structural)]
pub enum Bullet {
    Dash,
    Plus,
    Star,
    /// `1.` or `1)` — `number` as written, `paren` true for `)`.
    Ordered { number: usize, paren: bool },
}

/// A checkbox's state: `[ ]`, `[X]`/`[x]`, or `[-]` (partial — parsed and displayed, but
/// never written).
#[derive(Debug, Clone, Copy, PartialEq, Eq, Structural)]
pub enum CheckState {
    Unchecked,
    Checked,
    Partial,
}

/// A parsed list item line.
#[derive(Debug, Clone, Copy, PartialEq, Eq, Structural)]
pub struct ListItem {
    pub line: usize,
    /// Leading indentation, in chars. A tab counts as one char, same as any other
    /// character — nesting comparisons are purely by this count, not by display width.
    pub indent: usize,
    pub bullet: Bullet,
    pub checkbox: Option<CheckState>,
    /// Char col where the content starts (after bullet/checkbox), the cursor target.
    pub content_col: usize,
}

/// The end of the run of spaces and tabs starting at `i`.
pub open spec fn indent_end(s: Seq<char>, i: int) -> int
    decreases s.len() - i,
{
    if 0 <= i < s.len() && (s[i] == ' ' || s[i] == '\t') {
        indent_end(s, i + 1)
    } else {
        i
    }
}

/// The end of the run of ASCII digits starting at `i`.
pub open spec fn digits_end(s: Seq<char>, i: int) -> int
    decreases s.len() - i,
{
    if 0 <= i < s.len() && is_digit(s[i]) {
        digits_end(s, i + 1)
    } else {
        i
    }
}

/// The bullet opening `after` (the line past its indentation) and how many chars it takes.
pub open spec fn bullet_parse(after: Seq<char>, indent: int, f: Format) -> Option<(Bullet, int)> {
    if after.len() == 0 {
        None
    } else {
        let first = after[0];
        if first == '-' || first == '+' || first == '*' {
            if first == '*' && f == Format::Org && indent == 0 {
                None
            } else {
                Some(
                    (
                        if first == '-' {
                            Bullet::Dash
                        } else if first == '+' {
                            Bullet::Plus
                        } else {
                            Bullet::Star
                        },
                        1,
                    ),
                )
            }
        } else if is_digit(first) {
            let nd = digits_end(after, 0);
            if nd < after.len() && (after[nd] == '.' || after[nd] == ')') {
                match parse_unsigned(after.take(nd), usize::MAX as nat) {
                    Some(n) => Some(
                        (Bullet::Ordered { number: n as usize, paren: after[nd] == ')' }, nd + 1),
                    ),
                    None => None,
                }
            } else {
                None
            }
        } else {
            None
        }
    }
}

/// A leading `[ ]`/`[X]`/`[x]`/`[-]` checkbox of `rest` (the text right after the bullet's
/// space) and how many chars it takes with one trailing space. It counts only when its `]`
/// is followed by a space or the end of the line.
pub open spec fn checkbox_parse(rest: Seq<char>) -> Option<(CheckState, int)> {
    if rest.len() >= 3 && rest[0] == '[' && rest[2] == ']' && (rest[1] == ' ' || rest[1] == 'X'
        || rest[1] == 'x' || rest[1] == '-') {
        let state = if rest[1] == ' ' {
            CheckState::Unchecked
        } else if rest[1] == '-' {
            CheckState::Partial
        } else {
            CheckState::Checked
        };
        if rest.len() == 3 {
            Some((state, 3))
        } else if rest[3] == ' ' {
            Some((state, 4))
        } else {
            None
        }
    } else {
        None
    }
}

/// The list item that `text` (one line, no newline) reads as on `line`.
pub open spec fn item_parse(text: Seq<char>, line: int, f: Format) -> Option<ListItem> {
    let indent = indent_end(text, 0);
    let after = text.skip(indent);
    match bullet_parse(after, indent, f) {
        None => None,
        Some((bullet, rest_start)) => if rest_start < after.len() && after[rest_start] == ' ' {
            let content_start = indent + rest_start + 1;
            let (checkbox, content_col) = match checkbox_parse(text.skip(content_start)) {
                Some((state, used)) => (Some(state), content_start + used),
                None => (None, content_start),
            };
            Some(
                ListItem {
                    line: line as usize,
                    indent: indent as usize,
                    bullet,
                    checkbox,
                    content_col: content_col as usize,
                },
            )
        } else {
            None
        },
    }
}

/// The list item on `line` of `s` in format `f`: none past the last line or (Markdown)
/// inside a fenced code block.
pub open spec fn item_of(s: Seq<char>, line: int, f: Format) -> Option<ListItem> {
    if line >= line_count(s) {
        None
    } else if f == Format::Markdown && in_fence(s, line) {
        None
    } else {
        item_parse(line_body(s, line), line, f)
    }
}

proof fn lemma_indent_end(s: Seq<char>, i: int)
    requires
        0 <= i <= s.len(),
    ensures
        i <= indent_end(s, i) <= s.len(),
    decreases s.len() - i,
{
    if i < s.len() && (s[i] == ' ' || s[i] == '\t') {
        lemma_indent_end(s, i + 1);
    }
}

proof fn lemma_digits_end(s: Seq<char>, i: int)
    requires
        0 <= i <= s.len(),
    ensures
        i <= digits_end(s, i) <= s.len(),
    decreases s.len() - i,
{
    if i < s.len() && is_digit(s[i]) {
        lemma_digits_end(s, i + 1);
    }
}

/// The chars from `i` to the end of their digit run are all digits, and the run stops at a
/// char that is not one.
proof fn lemma_digit_run(s: Seq<char>, i: int)
    requires
        0 <= i <= s.len(),
    ensures
        forall|k: int| i <= k < digits_end(s, i) ==> is_digit(#[trigger] s[k]),
        digits_end(s, i) < s.len() ==> !is_digit(s[digits_end(s, i)]),
    decreases s.len() - i,
{
    lemma_digits_end(s, i);
    if i < s.len() && is_digit(s[i]) {
        lemma_digit_run(s, i + 1);
    }
}

/// A `-`, `+` or `*` opens the bullet it writes (a `*` at the left edge of an Org line is a
/// heading, not a bullet), and nothing else but a digit opens one. An ordered bullet is a
/// whole run of digits and then `.` or `)`: its number is the value of every digit before
/// the delimiter, `paren` says which delimiter it was, and the bullet takes the digits and
/// the delimiter. Conversely such a run opens an ordered bullet whenever its value fits in
/// `usize`.
pub proof fn lemma_bullet_read(after: Seq<char>, indent: int, f: Format)
    ensures
        after.len() > 0 && after[0] == '-' ==> bullet_parse(after, indent, f) == Some((Bullet::Dash, 1int)),
        after.len() > 0 && after[0] == '+' ==> bullet_parse(after, indent, f) == Some((Bullet::Plus, 1int)),
        after.len() > 0 && after[0] == '*' ==> bullet_parse(after, indent, f) == if f == Format::Org
            && indent == 0 {
            None
        } else {
            Some((Bullet::Star, 1int))
        },
        after.len() == 0 || !(after[0] == '-' || after[0] == '+' || after[0] == '*' || is_digit(after[0]))
            ==> bullet_parse(after, indent, f) is None,
        match bullet_parse(after, indent, f) {
            Some((Bullet::Ordered { number, paren }, n)) => {
                &&& 2 <= n <= after.len()
                &&& crate::text::all_digits(after.take(n - 1))
                &&& (after[n - 1] == '.' || after[n - 1] == ')')
                &&& paren == (after[n - 1] == ')')
                &&& number as nat == crate::text::digits_value(after.take(n - 1))
            },
            _ => true,
        },
        forall|nd: int|
            1 <= nd < after.len() && crate::text::all_digits(#[trigger] after.take(nd)) && (after[nd]
                == '.' || after[nd] == ')') && crate::text::digits_value(after.take(nd))
                <= usize::MAX ==> bullet_parse(after, indent, f) == Some(
                (
                    Bullet::Ordered {
                        number: crate::text::digits_value(after.take(nd)) as usize,
                        paren: after[nd] == ')',
                    },
                    nd + 1,
                ),
            ),
{
    lemma_digit_run(after, 0);
    let e = digits_end(after, 0);
    if after.len() > 0 && is_digit(after[0]) {
        lemma_digits_end(after, 1);
        let d = after.take(e);
        assert forall|k: int| 0 <= k < d.len() implies is_digit(#[trigger] d[k]) by {
            assert(d[k] == after[k]);
        }
        assert(d[0] == after[0]);
    }
    assert forall|nd: int|
        1 <= nd < after.len() && crate::text::all_digits(#[trigger] after.take(nd)) && (after[nd]
            == '.' || after[nd] == ')') && crate::text::digits_value(after.take(nd))
            <= usize::MAX implies bullet_parse(after, indent, f) == Some(
            (
                Bullet::Ordered {
                    number: crate::text::digits_value(after.take(nd)) as usize,
                    paren: after[nd] == ')',
                },
                nd + 1,
            ),
        ) by {
        assert(is_digit(after.take(nd)[0]));
        assert(is_digit(after[0]));
        if e < nd {
            assert(is_digit(after.take(nd)[e]));
        }
        if e > nd {
            assert(is_digit(after[nd]));
        }
        assert(e == nd);
        let d = after.take(nd);
        assert(d[0] == after[0]);
    }
}

fn indent_end_exec(s: &[char]) -> (r: usize)
    ensures
        r as int == indent_end(s@, 0),
        r <= s@.len(),
{
    proof {
        lemma_indent_end(s@, 0);
    }
    let mut i: usize = 0;
    while i < s.len() && (s[i] == ' ' || s[i] == '\t')
        invariant
            i <= s@.len(),
            indent_end(s@, 0) == indent_end(s@, i as int),
        decreases s@.len() - i,
    {
        i = i + 1;
    }
    i
}

fn digits_end_exec(s: &[char]) -> (r: usize)
    ensures
        r as int == digits_end(s@, 0),
        r <= s@.len(),
{
    proof {
        lemma_digits_end(s@, 0);
    }
    let mut i: usize = 0;
    while i < s.len() && crate::text::digit(s[i])
        invariant
            i <= s@.len(),
            digits_end(s@, 0) == digits_end(s@, i as int),
        decreases s@.len() - i,
    {
        i = i + 1;
    }
    i
}

fn bullet_parse_exec(after: &[char], indent: usize, f: Format) -> (r: Option<(Bullet, usize)>)
    ensures
        match r {
            Some((b, n)) => bullet_parse(after@, indent as int, f) == Some((b, n as int)) && n
                <= after@.len(),
            None => bullet_parse(after@, indent as int, f) is None,
        },
{
    if after.len() == 0 {
        return None;
    }
    let first = after[0];
    if first == '-' || first == '+' || first == '*' {
        if first == '*' && f == Format::Org && indent == 0 {
            return None;
        }
        let b = if first == '-' {
            Bullet::Dash
        } else if first == '+' {
            Bullet::Plus
        } else {
            Bullet::Star
        };
        Some((b, 1))
    } else if crate::text::digit(first) {
        let nd = digits_end_exec(after);
        if nd < after.len() && (after[nd] == '.' || after[nd] == ')') {
            let digits = crate::text::slice_vec(after, 0, nd);
            assert(digits@ =~= after@.take(nd as int));
            match crate::text::parse_unsigned_exec(&digits, usize::MAX as u64) {
                Some(n) => Some((Bullet::Ordered { number: n as usize, paren: after[nd] == ')' }, nd + 1)),
                None => None,
            }
        } else {
            None
        }
    } else {
        None
    }
}

fn checkbox_parse_exec(rest: &[char]) -> (r: Option<(CheckState, usize)>)
    ensures
        match r {
            Some((c, n)) => checkbox_parse(rest@) == Some((c, n as int)),
            None => checkbox_parse(rest@) is None,
        },
{
    if rest.len() >= 3 && rest[0] == '[' && rest[2] == ']' && (rest[1] == ' ' || rest[1] == 'X'
        || rest[1] == 'x' || rest[1] == '-') {
        let state = if rest[1] == ' ' {
            CheckState::Unchecked
        } else if rest[1] == '-' {
            CheckState::Partial
        } else {
            CheckState::Checked
        };
        if rest.len() == 3 {
            Some((state, 3))
        } else if rest[3] == ' ' {
            Some((state, 4))
        } else {
            None
        }
    } else {
        None
    }
}

/// Parse a single line (no trailing newline) into a [`ListItem`].
pub fn parse_item(text: &[char], line: usize, f: Format) -> (r: Option<ListItem>)
    ensures
        r == item_parse(text@, line as int, f),
{
    let indent = indent_end_exec(text);
    let after = crate::text::slice_vec(text, indent, text.len());
    assert(after@ =~= text@.skip(indent as int));
    let (bullet, rest_start) = match bullet_parse_exec(&after, indent, f) {
        Some(p) => p,
        None => {
            return None;
        },
    };
    if !(rest_start < after.len() && after[rest_start] == ' ') {
        return None;
    }
    let content_start = indent + rest_start + 1;
    let rest = crate::text::slice_vec(text, content_start, text.len());
    assert(rest@ =~= text@.skip(content_start as int));
    let (checkbox, content_col) = match checkbox_parse_exec(&rest) {
        Some((state, used)) => (Some(state), content_start + used),
        None => (None, content_start),
    };
    Some(ListItem { line, indent, bullet, checkbox, content_col })
}

/// Parse the list item at `line`, or `None` if that line is not one: blank, prose, a
/// heading, a bullet with no following space, or (Markdown only) inside a fenced code block.
pub fn item_at(doc: &Document, line: usize, format: Format) -> (r: Option<ListItem>)
    ensures
        r == item_of(doc@, line as int, format),
{
    if line >= doc.line_count() {
        return None;
    }
    if format == Format::Markdown && line_in_fence(doc, line) {
        return None;
    }
    let text = doc.line_body(line);
    parse_item(&text, line, format)
}

} // verus!

verus! {

// ---- toggling a checkbox ------------------------------------------------------------------

/// Why a checkbox toggle did nothing.
pub const NO_CHECKBOX: &'static str = "No checkbox here";

/// Where, in line `line` of `s`, the state char of the line's list-item checkbox sits: the
/// char after the `[` that follows the bullet and its space; none on a line that is no list
/// item (or, in Markdown, sits in a fence) or whose item has no checkbox.
pub open spec fn box_col(s: Seq<char>, line: int, f: Format) -> Option<int> {
    if line < 0 || line >= line_count(s) || (f == Format::Markdown && in_fence(s, line)) {
        None
    } else {
        let text = line_body(s, line);
        let indent = indent_end(text, 0);
        let after = text.skip(indent);
        match bullet_parse(after, indent, f) {
            None => None,
            Some((_, rs)) => if rs < after.len() && after[rs] == ' ' && checkbox_parse(
                text.skip(indent + rs + 1),
            ) is Some {
                Some(indent + rs + 2)
            } else {
                None
            },
        }
    }
}

/// Toggling the checkbox of the list item on `line`: `[ ]` and `[-]` become `[X]`, `[X]`
/// and `[x]` become `[ ]`; the caret stays on the line.
pub open spec fn checkbox_toggled(f: Format, s: Seq<char>, line: usize) -> (crate::edits::EditOutcome, Seq<char>) {
    match box_col(s, line as int, f) {
        None => (crate::edits::EditOutcome::NoOp(NO_CHECKBOX), s),
        Some(p) => {
            let at = crate::document::line_start(s, line as int) + p;
            let nc = if s[at] == 'X' || s[at] == 'x' {
                ' '
            } else {
                'X'
            };
            (
                crate::edits::EditOutcome::Changed { cursor_line: line },
                crate::document::spliced_in(crate::document::spliced_out(s, at, at + 1), at, seq![nc]),
            )
        },
    }
}

/// Toggle the checkbox of the list item on `line` (see [`checkbox_toggled`]).
pub fn toggle_checkbox(f: Format, doc: &mut Document, line: usize) -> (r: crate::edits::EditOutcome)
    ensures
        crate::edits::edit_done(r, checkbox_toggled(f, old(doc)@, line), *old(doc), *final(doc)),
{
    let ghost s = doc@;
    if line >= doc.line_count() {
        return crate::edits::EditOutcome::NoOp(NO_CHECKBOX);
    }
    if f == Format::Markdown && line_in_fence(doc, line) {
        return crate::edits::EditOutcome::NoOp(NO_CHECKBOX);
    }
    let text = doc.line_body(line);
    let indent = indent_end_exec(&text);
    let after = crate::text::slice_vec(&text, indent, text.len());
    assert(after@ =~= text@.skip(indent as int));
    let rs = match bullet_parse_exec(&after, indent, f) {
        Some((_, n)) => n,
        None => {
            return crate::edits::EditOutcome::NoOp(NO_CHECKBOX);
        },
    };
    if !(rs < after.len() && after[rs] == ' ') {
        return crate::edits::EditOutcome::NoOp(NO_CHECKBOX);
    }
    let cs = indent + rs + 1;
    let rest = crate::text::slice_vec(&text, cs, text.len());
    assert(rest@ =~= text@.skip(cs as int));
    if checkbox_parse_exec(&rest).is_none() {
        return crate::edits::EditOutcome::NoOp(NO_CHECKBOX);
    }
    let p = cs + 1;
    assert(rest@.len() >= 3);
    assert(p < text@.len());
    proof {
        crate::document::lemma_line_parts(s, line as int);
    }
    let base = doc.line_to_char(line);
    doc.len_bound();
    assert(base + text@.len() <= s.len());
    assert(text@ == line_body(s, line as int));
    assert(box_col(s, line as int, f) == Some(p as int));
    let c = text[p];
    assert(c == s[base + p]);
    let nc = if c == 'X' || c == 'x' {
        ' '
    } else {
        'X'
    };
    doc.remove(base + p, base + p + 1);
    let v = vec![nc];
    assert(v@ =~= seq![nc]);
    doc.insert(base + p, &v);
    crate::edits::EditOutcome::Changed { cursor_line: line }
}

} // verus!
