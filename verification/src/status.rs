//! The status line: the prompt being typed into, the question being asked, or the active
//! buffer's name, position and caret plus the latest message.
use vstd::prelude::*;

use crate::editor::{date_label, date_prompt_label, Mode};
use crate::session::{buffer_name, App, Buffer};
use crate::text::{append_chars, chars_of, digits_of, push_digits, string_of};

verus! {

/// A message appended to a path prompt: three spaces and the message, if there is one.
pub open spec fn prompt_hint(status: Seq<char>) -> Seq<char> {
    if status.len() == 0 {
        seq![]
    } else {
        seq![' ', ' ', ' '] + status
    }
}

/// How many of the first `n` buffers have unsaved changes.
pub open spec fn dirty_count(bs: Seq<Buffer>, n: int) -> nat
    decreases n,
{
    if n <= 0 {
        0
    } else {
        dirty_count(bs, n - 1) + if bs[n - 1].doc.modified_flag() {
            1nat
        } else {
            0nat
        }
    }
}

/// `[i/n] ` for the active buffer when more than one is open, else nothing.
pub open spec fn position_text(app: App) -> Seq<char> {
    if app.buffers_v().len() > 1 {
        seq!['['] + digits_of((app.active_v() + 1) as nat) + seq!['/'] + digits_of(app.buffers_v().len())
            + seq![']', ' ']
    } else {
        seq![]
    }
}

/// ` [i/n] name* — line:col ` and, after two spaces, the latest message.
pub open spec fn edit_status(app: App) -> Seq<char> {
    let b = app.active_buffer();
    let head = seq![' '] + position_text(app) + buffer_name(b) + (if b.doc.modified_flag() {
        seq!['*']
    } else {
        seq![]
    }) + " — "@ + digits_of((b.view.line_v() + 1) as nat) + seq![':'] + digits_of(
        (b.view.col_v() + 1) as nat,
    ) + seq![' '];
    if app.status_v().len() == 0 {
        head
    } else {
        head + seq![' ', ' '] + app.status_v()
    }
}

/// The status line for each mode.
pub open spec fn status_line(app: App) -> Seq<char> {
    match app.mode_v() {
        Mode::SaveAs { input } => "Save as: "@ + input@ + prompt_hint(app.status_v()),
        Mode::OpenFile { input } => "Open: "@ + input@ + prompt_hint(app.status_v()),
        Mode::EditTags { input } => "Tags: "@ + input@,
        Mode::DatePrompt { input, purpose } => date_label(purpose) + input@,
        Mode::BufferList { .. } => " Buffers — ↑/↓ or 1-9 select · Enter switch · Esc cancel "@,
        Mode::HelpMenu { .. } => " ←/→ category · ↑/↓ select · Enter run · Esc close "@,
        Mode::Search { input, .. } => "Find: "@ + input@ + prompt_hint(app.status_v()),
        Mode::ConfirmClose => " Discard unsaved changes to "@ + buffer_name(app.active_buffer()) + "? (y/n) "@,
        Mode::ConfirmQuit => seq![' '] + digits_of(dirty_count(app.buffers_v(), app.buffers_v().len() as int))
            + " buffer(s) have unsaved changes — quit anyway? (y/n) "@,
        Mode::Edit => edit_status(app),
    }
}

/// Append `s` to `out`.
fn push_str(out: &mut Vec<char>, s: &str)
    ensures
        final(out)@ == old(out)@ + s@,
{
    let v = chars_of(s);
    append_chars(out, &v);
}

/// The status-line text.
pub fn status_text(app: &App) -> (r: String)
    requires
        app.wf(),
    ensures
        r@ == status_line(*app),
{
    proof {
        app.lemma_wf();
    }
    let mut out: Vec<char> = Vec::new();
    match app.mode() {
        Mode::SaveAs { input } => {
            push_str(&mut out, "Save as: ");
            push_str(&mut out, input.as_str());
            push_hint(&mut out, app.status());
        },
        Mode::OpenFile { input } => {
            push_str(&mut out, "Open: ");
            push_str(&mut out, input.as_str());
            push_hint(&mut out, app.status());
        },
        Mode::EditTags { input } => {
            push_str(&mut out, "Tags: ");
            push_str(&mut out, input.as_str());
        },
        Mode::DatePrompt { input, purpose } => {
            push_str(&mut out, date_prompt_label(*purpose));
            push_str(&mut out, input.as_str());
        },
        Mode::BufferList { .. } => {
            push_str(&mut out, " Buffers — ↑/↓ or 1-9 select · Enter switch · Esc cancel ");
        },
        Mode::HelpMenu { .. } => {
            push_str(&mut out, " ←/→ category · ↑/↓ select · Enter run · Esc close ");
        },
        Mode::Search { input, .. } => {
            push_str(&mut out, "Find: ");
            push_str(&mut out, input.as_str());
            push_hint(&mut out, app.status());
        },
        Mode::ConfirmClose => {
            let labels = app.buffer_labels();
            let i = app.active_index();
            push_str(&mut out, " Discard unsaved changes to ");
            push_str(&mut out, labels[i].0.as_str());
            push_str(&mut out, "? (y/n) ");
        },
        Mode::ConfirmQuit => {
            let labels = app.buffer_labels();
            let mut dirty: u64 = 0;
            let mut k: usize = 0;
            while k < labels.len()
                invariant
                    k <= labels@.len(),
                    labels@.len() == app.buffers_v().len(),
                    forall|j: int| 0 <= j < labels@.len() ==> (#[trigger] labels@[j]).1
                        == app.buffers_v()[j].doc.modified_flag(),
                    dirty as int == dirty_count(app.buffers_v(), k as int),
                    dirty <= k,
                decreases labels@.len() - k,
            {
                if labels[k].1 {
                    dirty = dirty + 1;
                }
                k = k + 1;
            }
            out.push(' ');
            push_digits(&mut out, dirty);
            push_str(&mut out, " buffer(s) have unsaved changes — quit anyway? (y/n) ");
        },
        Mode::Edit => {
            return edit_status_text(app);
        },
    }
    string_of(&out)
}

/// Append the message to a path prompt, if there is one.
fn push_hint(out: &mut Vec<char>, status: &str)
    ensures
        final(out)@ == old(out)@ + prompt_hint(status@),
{
    let v = chars_of(status);
    if v.len() > 0 {
        out.push(' ');
        out.push(' ');
        out.push(' ');
        append_chars(out, &v);
    }
}

/// The status line while editing.
fn edit_status_text(app: &App) -> (r: String)
    requires
        app.wf(),
        app.mode_v() is Edit,
    ensures
        r@ == edit_status(*app),
{
    proof {
        app.lemma_wf();
    }
    let ghost b = app.active_buffer();
    let labels = app.buffer_labels();
    let n = app.buffer_count();
    let i = app.active_index();
    let mut out: Vec<char> = vec![' '];
    if n > 1 {
        out.push('[');
        push_digits(&mut out, i as u64 + 1);
        out.push('/');
        push_digits(&mut out, n as u64);
        out.push(']');
        out.push(' ');
    }
    assert(out@ =~= seq![' '] + position_text(*app));
    let ghost head1 = out@;
    push_str(&mut out, labels[i].0.as_str());
    if labels[i].1 {
        out.push('*');
    }
    let ghost flag = if b.doc.modified_flag() { seq!['*'] } else { Seq::<char>::empty() };
    assert(out@ =~= head1 + buffer_name(b) + flag);
    push_str(&mut out, " — ");
    let ghost head2 = out@;
    let doc = app.document();
    doc.len_bound();
    let line = app.view().cursor_line();
    let col = app.view().cursor_column();
    proof {
        let s = b.doc@;
        crate::document::lemma_line_count_bounds(s);
        crate::document::lemma_line_start_bounds(s, line as int);
    }
    push_digits(&mut out, line as u64 + 1);
    out.push(':');
    push_digits(&mut out, col as u64 + 1);
    out.push(' ');
    assert(out@ =~= head2 + digits_of((b.view.line_v() + 1) as nat) + seq![':'] + digits_of((b.view.col_v() + 1) as nat) + seq![' ']);
    let ghost head = out@;
    let status = chars_of(app.status());
    if status.len() > 0 {
        out.push(' ');
        out.push(' ');
        append_chars(&mut out, &status);
        assert(out@ =~= head + seq![' ', ' '] + app.status_v());
    }
    string_of(&out)
}

/// The prompt a mode types into, if any: its label and its input.
pub open spec fn prompt_of(m: Mode) -> Option<(Seq<char>, Seq<char>)> {
    match m {
        Mode::SaveAs { input } => Some(("Save as: "@, input@)),
        Mode::OpenFile { input } => Some(("Open: "@, input@)),
        Mode::EditTags { input } => Some(("Tags: "@, input@)),
        Mode::DatePrompt { input, purpose } => Some((date_label(purpose), input@)),
        Mode::Search { input, .. } => Some(("Find: "@, input@)),
        _ => None,
    }
}

/// Where the caret stands on the status line while a prompt is open: after the label and the
/// input typed so far. No prompt, no caret there.
pub fn prompt_cursor_col(app: &App) -> (r: Option<usize>)
    ensures
        match prompt_of(app.mode_v()) {
            Some((label, input)) => r == Some((label.len() + input.len()) as usize),
            None => r is None,
        },
{
    let (label, input): (&str, &String) = match app.mode() {
        Mode::SaveAs { input } => ("Save as: ", input),
        Mode::OpenFile { input } => ("Open: ", input),
        Mode::EditTags { input } => ("Tags: ", input),
        Mode::DatePrompt { input, purpose } => (date_prompt_label(*purpose), input),
        Mode::Search { input, .. } => ("Find: ", input),
        _ => {
            return None;
        },
    };
    let l = chars_of(label);
    let v = chars_of(input.as_str());
    crate::text::char_vec_len_bound(&l);
    crate::text::char_vec_len_bound(&v);
    Some(l.len() + v.len())
}

/// One row of the buffer list: ` i name* ` (1-based, a `*` when unsaved).
pub open spec fn buffer_row(i: int, b: Buffer) -> Seq<char> {
    seq![' '] + digits_of((i + 1) as nat) + seq![' '] + buffer_name(b) + (if b.doc.modified_flag() {
        seq!['*']
    } else {
        seq![]
    }) + seq![' ']
}

/// The rows of the buffer list, one per open buffer.
pub fn buffer_list_rows(app: &App) -> (r: Vec<String>)
    requires
        app.wf(),
    ensures
        r@.len() == app.buffers_v().len(),
        forall|i: int| 0 <= i < r@.len() ==> (#[trigger] r@[i])@ == buffer_row(i, app.buffers_v()[i]),
{
    let labels = app.buffer_labels();
    let mut rows: Vec<String> = Vec::new();
    let mut i: usize = 0;
    while i < labels.len()
        invariant
            i <= labels@.len(),
            labels@.len() == app.buffers_v().len(),
            forall|j: int| 0 <= j < labels@.len() ==> (#[trigger] labels@[j]).1 == app.buffers_v()[j].doc.modified_flag()
                && labels@[j].0@ == buffer_name(app.buffers_v()[j]),
            rows@.len() == i,
            forall|j: int| 0 <= j < i ==> (#[trigger] rows@[j])@ == buffer_row(j, app.buffers_v()[j]),
        decreases labels@.len() - i,
    {
        let mut out: Vec<char> = vec![' '];
        push_digits(&mut out, i as u64 + 1);
        out.push(' ');
        push_str(&mut out, labels[i].0.as_str());
        if labels[i].1 {
            out.push('*');
        }
        out.push(' ');
        let ghost flag = if app.buffers_v()[i as int].doc.modified_flag() { seq!['*'] } else { Seq::<char>::empty() };
        assert(out@ =~= seq![' '] + digits_of((i + 1) as nat) + seq![' '] + buffer_name(app.buffers_v()[i as int]) + flag + seq![' ']);
        rows.push(string_of(&out));
        i = i + 1;
    }
    rows
}

} // verus!
