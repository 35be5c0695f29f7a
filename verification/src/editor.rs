//! The editor's modes and its bottom-line prompts: what a key does to a prompt's input, and
//! how a typed date becomes a timestamp.
use vstd::prelude::*;

use crate::keymap::{Key, KeyCode, KeyKind};
use crate::text::{chars_of, chars_of_string, string_of};
use crate::timestamp::{timestamp_parse, Timestamp};

verus! {

/// What the editor is doing right now. In the prompt modes the keyboard drives the
/// bottom-line prompt instead of the buffer.
#[derive(Debug, Clone, PartialEq, Eq)]
pub enum Mode {
    /// Normal editing.
    Edit,
    /// The *Save As* prompt is open; `input` is the path typed so far.
    SaveAs { input: String },
    /// The *Open* prompt is open; `input` is the path typed so far.
    OpenFile { input: String },
    /// The *Tags* prompt is open; `input` is the space-separated tags typed so far.
    EditTags { input: String },
    /// The buffer list is open; `selected` is the highlighted entry.
    BufferList { selected: usize },
    /// The *Find* prompt is open: `input` is the query typed so far, `(origin_line,
    /// origin_col)` where the caret stood when it opened, and `forward` the direction.
    Search { input: String, origin_line: usize, origin_col: usize, forward: bool },
    /// The help menu is open on category number `category` (in menu order), with row
    /// `selected` of that category highlighted.
    HelpMenu { category: usize, selected: usize },
    /// Asking whether to close the active (unsaved) buffer: `y` discards, `n`/Esc cancels.
    ConfirmClose,
    /// Asking whether to quit despite unsaved buffers: `y` quits, `n`/Esc cancels.
    ConfirmQuit,
    /// A date prompt is open; `input` is the timestamp typed so far and `purpose` is what to
    /// do with it on submit.
    DatePrompt { input: String, purpose: DatePurpose },
}

/// What a date prompt does with the date the user types.
#[derive(Debug, Clone, Copy, PartialEq, Eq, Structural)]
pub enum DatePurpose {
    Scheduled,
    Deadline,
    InsertActive,
    InsertInactive,
}

/// What a key press did to a bottom-line prompt.
#[derive(Debug, Clone, PartialEq, Eq)]
pub enum PromptEvent {
    /// The input changed (or the key was ignored) — stay in the prompt.
    Pending,
    /// Esc — leave the prompt without acting.
    Cancelled,
    /// Enter — act on the typed text.
    Submitted(String),
}

/// The status-line prefix of a date prompt.
pub open spec fn date_label(purpose: DatePurpose) -> Seq<char> {
    match purpose {
        DatePurpose::Scheduled => seq!['S', 'c', 'h', 'e', 'd', 'u', 'l', 'e', 'd', ':', ' '],
        DatePurpose::Deadline => seq!['D', 'e', 'a', 'd', 'l', 'i', 'n', 'e', ':', ' '],
        _ => seq!['T', 'i', 'm', 'e', 's', 't', 'a', 'm', 'p', ':', ' '],
    }
}

/// The status-line prefix for a date prompt.
pub fn date_prompt_label(purpose: DatePurpose) -> (r: &'static str)
    ensures
        r@ == date_label(purpose),
{
    proof {
        reveal_strlit("Scheduled: ");
        reveal_strlit("Deadline: ");
        reveal_strlit("Timestamp: ");
    }
    match purpose {
        DatePurpose::Scheduled => "Scheduled: ",
        DatePurpose::Deadline => "Deadline: ",
        DatePurpose::InsertActive | DatePurpose::InsertInactive => "Timestamp: ",
    }
}

/// A prompt's input after one key, and what the key did: Esc cancels, Enter submits the
/// input, Backspace drops the last char, a plain (not Ctrl/Alt) char is appended; anything
/// else, and any key that is not a press, leaves it alone.
pub open spec fn prompt_step(input: Seq<char>, key: Key) -> (Seq<char>, int) {
    if key.kind != KeyKind::Press {
        (input, 0)
    } else {
        match key.code {
            KeyCode::Esc => (input, 1),
            KeyCode::Enter => (input, 2),
            KeyCode::Backspace => (if input.len() > 0 {
                input.drop_last()
            } else {
                input
            }, 0),
            KeyCode::Char(c) => if !key.ctrl && !key.alt {
                (input.push(c), 0)
            } else {
                (input, 0)
            },
            _ => (input, 0),
        }
    }
}

/// Drive a prompt's input with one key press. Ctrl/Alt-modified chars are ignored so command
/// chords never leak literal chars into the input.
pub fn prompt_event(input: &mut String, key: Key) -> (r: PromptEvent)
    ensures
        final(input)@ == prompt_step(old(input)@, key).0,
        match r {
            PromptEvent::Pending => prompt_step(old(input)@, key).1 == 0,
            PromptEvent::Cancelled => prompt_step(old(input)@, key).1 == 1,
            PromptEvent::Submitted(t) => prompt_step(old(input)@, key).1 == 2 && t@ == old(input)@,
        },
{
    if key.kind != KeyKind::Press {
        return PromptEvent::Pending;
    }
    match key.code {
        KeyCode::Esc => PromptEvent::Cancelled,
        KeyCode::Enter => PromptEvent::Submitted(input.clone()),
        KeyCode::Backspace => {
            let mut v = chars_of_string(input);
            if v.len() > 0 {
                v.pop();
            }
            *input = string_of(&v);
            PromptEvent::Pending
        },
        KeyCode::Char(c) => {
            if !key.ctrl && !key.alt {
                let mut v = chars_of_string(input);
                v.push(c);
                *input = string_of(&v);
            }
            PromptEvent::Pending
        },
        _ => PromptEvent::Pending,
    }
}

/// The date text as the parser sees it: as typed when it already opens with a bracket,
/// else wrapped in `<…>` (or `[…]` for an inactive insert).
pub open spec fn wrapped_date(text: Seq<char>, purpose: DatePurpose) -> Seq<char> {
    if text.len() > 0 && (text[0] == '<' || text[0] == '[') {
        text
    } else if purpose != DatePurpose::InsertInactive {
        seq!['<'] + text + seq!['>']
    } else {
        seq!['['] + text + seq![']']
    }
}

/// The timestamp a typed date stands for: the wrapped text must parse as one timestamp
/// that spans all of it.
pub open spec fn date_input(text: Seq<char>, purpose: DatePurpose) -> Option<Timestamp> {
    let w = wrapped_date(text, purpose);
    match timestamp_parse(w) {
        Some((ts, len)) => if len == w.len() {
            Some(ts)
        } else {
            None
        },
        None => None,
    }
}

/// Parse a date typed into the prompt (with or without brackets) into a timestamp whose
/// active/inactive flag follows `purpose`. `None` if it is not a valid, fully-consumed stamp.
pub fn parse_date_input(text: &str, purpose: DatePurpose) -> (r: Option<Timestamp>)
    ensures
        r == date_input(text@, purpose),
{
    let t = chars_of(text);
    let w: Vec<char> = if t.len() > 0 && (t[0] == '<' || t[0] == '[') {
        t
    } else {
        let mut w: Vec<char> = Vec::new();
        let inactive = purpose == DatePurpose::InsertInactive;
        w.push(if inactive {
            '['
        } else {
            '<'
        });
        crate::text::append_chars(&mut w, &t);
        w.push(if inactive {
            ']'
        } else {
            '>'
        });
        proof {
            if inactive {
                assert(w@ =~= seq!['['] + text@ + seq![']']);
            } else {
                assert(w@ =~= seq!['<'] + text@ + seq!['>']);
            }
        }
        w
    };
    match crate::timestamp::parse_timestamp_chars(&w) {
        Some((ts, len)) => if len == w.len() {
            Some(ts)
        } else {
            None
        },
        None => None,
    }
}

} // verus!
