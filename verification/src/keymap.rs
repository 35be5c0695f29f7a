//! The editor's vocabulary of intents, and the pure mapping from a key press to one. Key
//! presses arrive as [`Key`] values, so swapping the terminal driver changes only how keys
//! are produced, never this mapping.
use vstd::prelude::*;

verus! {

/// A single editor intent, decoded from a key press and applied to the editor.
#[derive(Debug, Clone, Copy, PartialEq, Eq, Structural)]
pub enum Action {
    // movement
    MoveLeft,
    MoveRight,
    MoveUp,
    MoveDown,
    MoveHome,
    MoveEnd,
    PageUp,
    PageDown,
    // editing
    InsertChar(char),
    Newline,
    Backspace,
    Delete,
    // file
    Save,
    Quit,
    // structure
    ToggleFold,
    NextHeading,
    PrevHeading,
    CycleTodo,
    // buffers
    OpenFile,
    NextBuffer,
    PrevBuffer,
    ListBuffers,
    CloseBuffer,
    // structural editing
    PromoteHeading,
    DemoteHeading,
    PromoteSubtree,
    DemoteSubtree,
    MoveSubtreeUp,
    MoveSubtreeDown,
    InsertSibling,
    InsertTodoSibling,
    PriorityUp,
    PriorityDown,
    EditTags,
    /// Toggle the list item's checkbox (Ctrl+Space).
    ToggleCheckbox,
    // dates
    SetScheduled,
    SetDeadline,
    InsertActiveTs,
    InsertInactiveTs,
    // documentation
    Help,
    Guide,
    /// Open the incremental-search prompt (Ctrl+F).
    Find,
}

/// Which key was pressed.
#[derive(Debug, Clone, Copy, PartialEq, Eq, Structural)]
pub enum KeyCode {
    Left,
    Right,
    Up,
    Down,
    Home,
    End,
    PageUp,
    PageDown,
    Enter,
    Backspace,
    Delete,
    Tab,
    Esc,
    Char(char),
    /// Any key the editor has no use for.
    Other,
}

/// Whether the key went down, repeated, or came up.
#[derive(Debug, Clone, Copy, PartialEq, Eq, Structural)]
pub enum KeyKind {
    Press,
    Repeat,
    Release,
}

/// One key event with its modifiers.
#[derive(Debug, Clone, Copy, PartialEq, Eq, Structural)]
pub struct Key {
    pub code: KeyCode,
    pub ctrl: bool,
    pub alt: bool,
    pub shift: bool,
    pub kind: KeyKind,
}

impl Key {
    /// A press of `code` with the given modifiers.
    pub fn new(code: KeyCode, ctrl: bool, alt: bool, shift: bool) -> (k: Key)
        ensures
            k == (Key { code, ctrl, alt, shift, kind: KeyKind::Press }),
    {
        Key { code, ctrl, alt, shift, kind: KeyKind::Press }
    }
}

/// The action a Ctrl chord on `c` stands for.
pub open spec fn ctrl_action(c: char) -> Option<Action> {
    if c == 's' {
        Some(Action::Save)
    } else if c == 'q' {
        Some(Action::Quit)
    } else if c == 't' {
        Some(Action::CycleTodo)
    } else if c == 'n' {
        Some(Action::NextHeading)
    } else if c == 'p' {
        Some(Action::PrevHeading)
    } else if c == 'o' {
        Some(Action::OpenFile)
    } else if c == 'b' {
        Some(Action::ListBuffers)
    } else if c == 'w' {
        Some(Action::CloseBuffer)
    } else if c == 'g' {
        Some(Action::EditTags)
    } else if c == 'h' || c == 'k' {
        Some(Action::Help)
    } else if c == 'u' {
        Some(Action::Guide)
    } else if c == 'f' {
        Some(Action::Find)
    } else if c == ' ' {
        Some(Action::ToggleCheckbox)
    } else {
        None
    }
}

/// The action an Alt chord on `c` stands for.
pub open spec fn alt_action(c: char) -> Option<Action> {
    if c == 'n' {
        Some(Action::NextBuffer)
    } else if c == 'p' {
        Some(Action::PrevBuffer)
    } else if c == 't' {
        Some(Action::InsertTodoSibling)
    } else if c == 's' {
        Some(Action::SetScheduled)
    } else if c == 'd' {
        Some(Action::SetDeadline)
    } else if c == '.' {
        Some(Action::InsertActiveTs)
    } else if c == 'i' {
        Some(Action::InsertInactiveTs)
    } else {
        None
    }
}

/// The keymap. Only presses map; the structural chords (Alt, Alt+Shift, Shift on arrows and
/// Enter) take precedence over the plain keys they modify; Ctrl chords come before Alt
/// chords; any other char is inserted.
pub open spec fn action_for(key: Key) -> Option<Action> {
    if key.kind != KeyKind::Press {
        None
    } else {
        let (ctrl, alt, shift) = (key.ctrl, key.alt, key.shift);
        match key.code {
            KeyCode::Left => Some(
                if alt && shift {
                    Action::PromoteSubtree
                } else if alt {
                    Action::PromoteHeading
                } else {
                    Action::MoveLeft
                },
            ),
            KeyCode::Right => Some(
                if alt && shift {
                    Action::DemoteSubtree
                } else if alt {
                    Action::DemoteHeading
                } else {
                    Action::MoveRight
                },
            ),
            KeyCode::Up => Some(
                if alt {
                    Action::MoveSubtreeUp
                } else if shift {
                    Action::PriorityUp
                } else {
                    Action::MoveUp
                },
            ),
            KeyCode::Down => Some(
                if alt {
                    Action::MoveSubtreeDown
                } else if shift {
                    Action::PriorityDown
                } else {
                    Action::MoveDown
                },
            ),
            KeyCode::Enter => Some(
                if alt && shift {
                    Action::InsertTodoSibling
                } else if alt {
                    Action::InsertSibling
                } else {
                    Action::Newline
                },
            ),
            KeyCode::Home => Some(Action::MoveHome),
            KeyCode::End => Some(Action::MoveEnd),
            KeyCode::PageUp => Some(Action::PageUp),
            KeyCode::PageDown => Some(Action::PageDown),
            KeyCode::Backspace => Some(Action::Backspace),
            KeyCode::Delete => Some(Action::Delete),
            KeyCode::Tab => Some(Action::ToggleFold),
            KeyCode::Char(c) => if ctrl {
                ctrl_action(c)
            } else if alt {
                alt_action(c)
            } else {
                Some(Action::InsertChar(c))
            },
            KeyCode::Esc => None,
            KeyCode::Other => None,
        }
    }
}

fn ctrl_action_exec(c: char) -> (r: Option<Action>)
    ensures
        r == ctrl_action(c),
{
    match c {
        's' => Some(Action::Save),
        'q' => Some(Action::Quit),
        't' => Some(Action::CycleTodo),
        'n' => Some(Action::NextHeading),
        'p' => Some(Action::PrevHeading),
        'o' => Some(Action::OpenFile),
        'b' => Some(Action::ListBuffers),
        'w' => Some(Action::CloseBuffer),
        'g' => Some(Action::EditTags),
        // Help: `h` is the mnemonic (works where the terminal tells Ctrl+H from
        // Backspace); `k` is the always-reliable fallback.
        'h' | 'k' => Some(Action::Help),
        'u' => Some(Action::Guide),
        'f' => Some(Action::Find),
        ' ' => Some(Action::ToggleCheckbox),
        _ => None,
    }
}

fn alt_action_exec(c: char) -> (r: Option<Action>)
    ensures
        r == alt_action(c),
{
    match c {
        'n' => Some(Action::NextBuffer),
        'p' => Some(Action::PrevBuffer),
        // The TODO-sibling alias: Shift+Enter has no legacy escape sequence, so
        // Alt+Shift+Enter never reaches the editor in many terminals.
        't' => Some(Action::InsertTodoSibling),
        's' => Some(Action::SetScheduled),
        'd' => Some(Action::SetDeadline),
        '.' => Some(Action::InsertActiveTs),
        'i' => Some(Action::InsertInactiveTs),
        _ => None,
    }
}

/// Map a key press to an [`Action`], or `None` if the key is unbound. Key releases and
/// repeats are ignored (only presses map).
pub fn key_to_action(key: Key) -> (r: Option<Action>)
    ensures
        r == action_for(key),
{
    if key.kind != KeyKind::Press {
        return None;
    }
    let (ctrl, alt, shift) = (key.ctrl, key.alt, key.shift);
    match key.code {
        KeyCode::Left => Some(
            if alt && shift {
                Action::PromoteSubtree
            } else if alt {
                Action::PromoteHeading
            } else {
                Action::MoveLeft
            },
        ),
        KeyCode::Right => Some(
            if alt && shift {
                Action::DemoteSubtree
            } else if alt {
                Action::DemoteHeading
            } else {
                Action::MoveRight
            },
        ),
        KeyCode::Up => Some(
            if alt {
                Action::MoveSubtreeUp
            } else if shift {
                Action::PriorityUp
            } else {
                Action::MoveUp
            },
        ),
        KeyCode::Down => Some(
            if alt {
                Action::MoveSubtreeDown
            } else if shift {
                Action::PriorityDown
            } else {
                Action::MoveDown
            },
        ),
        KeyCode::Enter => Some(
            if alt && shift {
                Action::InsertTodoSibling
            } else if alt {
                Action::InsertSibling
            } else {
                Action::Newline
            },
        ),
        KeyCode::Home => Some(Action::MoveHome),
        KeyCode::End => Some(Action::MoveEnd),
        KeyCode::PageUp => Some(Action::PageUp),
        KeyCode::PageDown => Some(Action::PageDown),
        KeyCode::Backspace => Some(Action::Backspace),
        KeyCode::Delete => Some(Action::Delete),
        KeyCode::Tab => Some(Action::ToggleFold),
        KeyCode::Char(c) => if ctrl {
            ctrl_action_exec(c)
        } else if alt {
            alt_action_exec(c)
        } else {
            Some(Action::InsertChar(c))
        },
        KeyCode::Esc => None,
        KeyCode::Other => None,
    }
}

} // verus!
