//! The single source of truth for user-facing commands: every chord the help menu shows,
//! grouped by category, tied to the [`Action`] enum so that a new action cannot ship without
//! a help entry (or an explicit exclusion).
use vstd::prelude::*;

use crate::keymap::Action;

verus! {

/// A help-menu category.
#[derive(Debug, Clone, Copy, PartialEq, Eq, Structural)]
pub enum Category {
    File,
    Navigate,
    Structure,
    Dates,
    Search,
    Buffers,
    Help,
}

impl Category {
    /// Every category, in menu order.
    pub fn all() -> (r: Vec<Category>)
        ensures
            r@ == seq![
                Category::File,
                Category::Navigate,
                Category::Structure,
                Category::Dates,
                Category::Search,
                Category::Buffers,
                Category::Help,
            ],
    {
        let v = vec![
            Category::File,
            Category::Navigate,
            Category::Structure,
            Category::Dates,
            Category::Search,
            Category::Buffers,
            Category::Help,
        ];
        assert(v@ =~= seq![
            Category::File,
            Category::Navigate,
            Category::Structure,
            Category::Dates,
            Category::Search,
            Category::Buffers,
            Category::Help,
        ]);
        v
    }

    /// The category's tab title.
    pub fn title(self) -> (r: &'static str)
        ensures
            r@ == category_title(self),
    {
        proof {
            reveal_strlit("File");
            reveal_strlit("Navigate");
            reveal_strlit("Structure");
            reveal_strlit("Dates");
            reveal_strlit("Search");
            reveal_strlit("Buffers");
            reveal_strlit("Help");
        }
        match self {
            Category::File => "File",
            Category::Navigate => "Navigate",
            Category::Structure => "Structure",
            Category::Dates => "Dates",
            Category::Search => "Search",
            Category::Buffers => "Buffers",
            Category::Help => "Help",
        }
    }
}

/// A category's tab title.
pub open spec fn category_title(c: Category) -> Seq<char> {
    match c {
        Category::File => seq!['F', 'i', 'l', 'e'],
        Category::Navigate => seq!['N', 'a', 'v', 'i', 'g', 'a', 't', 'e'],
        Category::Structure => seq!['S', 't', 'r', 'u', 'c', 't', 'u', 'r', 'e'],
        Category::Dates => seq!['D', 'a', 't', 'e', 's'],
        Category::Search => seq!['S', 'e', 'a', 'r', 'c', 'h'],
        Category::Buffers => seq!['B', 'u', 'f', 'f', 'e', 'r', 's'],
        Category::Help => seq!['H', 'e', 'l', 'p'],
    }
}

/// One help-menu row.
#[derive(Debug, Clone, Copy)]
pub struct CommandInfo {
    pub action: Action,
    pub keys: &'static str,
    pub name: &'static str,
    pub description: &'static str,
    pub category: Category,
}

/// Whether an action must appear in the command table. Raw typing and plain cursor motion
/// stay out of the menu by design; every other action needs an entry.
pub open spec fn needs_entry(action: Action) -> bool {
    match action {
        Action::MoveLeft | Action::MoveRight | Action::MoveUp | Action::MoveDown
        | Action::MoveHome | Action::MoveEnd | Action::PageUp | Action::PageDown
        | Action::InsertChar(_) | Action::Newline | Action::Backspace | Action::Delete => false,
        _ => true,
    }
}

/// Whether an [`Action`] must appear in the command table.
pub fn requires_entry(action: &Action) -> (r: bool)
    ensures
        r == needs_entry(*action),
{
    match action {
        Action::MoveLeft
        | Action::MoveRight
        | Action::MoveUp
        | Action::MoveDown
        | Action::MoveHome
        | Action::MoveEnd
        | Action::PageUp
        | Action::PageDown
        | Action::InsertChar(_)
        | Action::Newline
        | Action::Backspace
        | Action::Delete => false,
        Action::Save
        | Action::Quit
        | Action::ToggleFold
        | Action::NextHeading
        | Action::PrevHeading
        | Action::CycleTodo
        | Action::OpenFile
        | Action::NextBuffer
        | Action::PrevBuffer
        | Action::ListBuffers
        | Action::CloseBuffer
        | Action::PromoteHeading
        | Action::DemoteHeading
        | Action::PromoteSubtree
        | Action::DemoteSubtree
        | Action::MoveSubtreeUp
        | Action::MoveSubtreeDown
        | Action::InsertSibling
        | Action::InsertTodoSibling
        | Action::PriorityUp
        | Action::PriorityDown
        | Action::EditTags
        | Action::ToggleCheckbox
        | Action::SetScheduled
        | Action::SetDeadline
        | Action::InsertActiveTs
        | Action::InsertInactiveTs
        | Action::Help
        | Action::Guide
        | Action::Find => true,
    }
}

/// The command table's actions and categories, in table order.
pub open spec fn command_table() -> Seq<(Action, Category)> {
    seq![
        (Action::Save, Category::File),
        (Action::OpenFile, Category::File),
        (Action::Quit, Category::File),
        (Action::NextHeading, Category::Navigate),
        (Action::PrevHeading, Category::Navigate),
        (Action::ToggleFold, Category::Structure),
        (Action::CycleTodo, Category::Structure),
        (Action::PromoteHeading, Category::Structure),
        (Action::DemoteHeading, Category::Structure),
        (Action::PromoteSubtree, Category::Structure),
        (Action::DemoteSubtree, Category::Structure),
        (Action::MoveSubtreeUp, Category::Structure),
        (Action::MoveSubtreeDown, Category::Structure),
        (Action::InsertSibling, Category::Structure),
        (Action::InsertTodoSibling, Category::Structure),
        (Action::PriorityUp, Category::Structure),
        (Action::PriorityDown, Category::Structure),
        (Action::EditTags, Category::Structure),
        (Action::ToggleCheckbox, Category::Structure),
        (Action::SetScheduled, Category::Dates),
        (Action::SetDeadline, Category::Dates),
        (Action::InsertActiveTs, Category::Dates),
        (Action::InsertInactiveTs, Category::Dates),
        (Action::Find, Category::Search),
        (Action::ListBuffers, Category::Buffers),
        (Action::NextBuffer, Category::Buffers),
        (Action::PrevBuffer, Category::Buffers),
        (Action::CloseBuffer, Category::Buffers),
        (Action::Help, Category::Help),
        (Action::Guide, Category::Help),
    ]
}

/// The keys the help menu shows for an action of the command table.
pub open spec fn key_of(a: Action) -> Seq<char> {
    match a {
        Action::Save => seq!['C', 't', 'r', 'l', '+', 'S'],
        Action::OpenFile => seq!['C', 't', 'r', 'l', '+', 'O'],
        Action::Quit => seq!['C', 't', 'r', 'l', '+', 'Q'],
        Action::NextHeading => seq!['C', 't', 'r', 'l', '+', 'N'],
        Action::PrevHeading => seq!['C', 't', 'r', 'l', '+', 'P'],
        Action::ToggleFold => seq!['T', 'a', 'b'],
        Action::CycleTodo => seq!['C', 't', 'r', 'l', '+', 'T'],
        Action::PromoteHeading => seq!['A', 'l', 't', '+', '←'],
        Action::DemoteHeading => seq!['A', 'l', 't', '+', '→'],
        Action::PromoteSubtree => seq!['A', 'l', 't', '+', 'S', 'h', 'i', 'f', 't', '+', '←'],
        Action::DemoteSubtree => seq!['A', 'l', 't', '+', 'S', 'h', 'i', 'f', 't', '+', '→'],
        Action::MoveSubtreeUp => seq!['A', 'l', 't', '+', '↑'],
        Action::MoveSubtreeDown => seq!['A', 'l', 't', '+', '↓'],
        Action::InsertSibling => seq!['A', 'l', 't', '+', 'E', 'n', 't', 'e', 'r'],
        Action::InsertTodoSibling => seq!['A', 'l', 't', '+', 'T'],
        Action::PriorityUp => seq!['S', 'h', 'i', 'f', 't', '+', '↑'],
        Action::PriorityDown => seq!['S', 'h', 'i', 'f', 't', '+', '↓'],
        Action::EditTags => seq!['C', 't', 'r', 'l', '+', 'G'],
        Action::ToggleCheckbox => seq!['C', 't', 'r', 'l', '+', 'S', 'p', 'a', 'c', 'e'],
        Action::SetScheduled => seq!['A', 'l', 't', '+', 'S'],
        Action::SetDeadline => seq!['A', 'l', 't', '+', 'D'],
        Action::InsertActiveTs => seq!['A', 'l', 't', '+', '.'],
        Action::InsertInactiveTs => seq!['A', 'l', 't', '+', 'I'],
        Action::Find => seq!['C', 't', 'r', 'l', '+', 'F'],
        Action::ListBuffers => seq!['C', 't', 'r', 'l', '+', 'B'],
        Action::NextBuffer => seq!['A', 'l', 't', '+', 'N'],
        Action::PrevBuffer => seq!['A', 'l', 't', '+', 'P'],
        Action::CloseBuffer => seq!['C', 't', 'r', 'l', '+', 'W'],
        Action::Help => seq!['C', 't', 'r', 'l', '+', 'H'],
        Action::Guide => seq!['C', 't', 'r', 'l', '+', 'U'],
        _ => seq![],
    }
}

/// The action and category of a row.
pub open spec fn row_key(c: CommandInfo) -> (Action, Category) {
    (c.action, c.category)
}

/// Every command row, in table order.
pub fn commands() -> (r: Vec<CommandInfo>)
    ensures
        r@.map_values(|c: CommandInfo| row_key(c)) == command_table(),
        forall|k: int| 0 <= k < r@.len() ==> (#[trigger] r@[k]).keys@ == key_of(r@[k].action),
{
    proof {
        reveal_strlit("Ctrl+S");
        reveal_strlit("Ctrl+O");
        reveal_strlit("Ctrl+Q");
        reveal_strlit("Ctrl+N");
        reveal_strlit("Ctrl+P");
        reveal_strlit("Tab");
        reveal_strlit("Ctrl+T");
        reveal_strlit("Alt+←");
        reveal_strlit("Alt+→");
        reveal_strlit("Alt+Shift+←");
        reveal_strlit("Alt+Shift+→");
        reveal_strlit("Alt+↑");
        reveal_strlit("Alt+↓");
        reveal_strlit("Alt+Enter");
        reveal_strlit("Alt+T");
        reveal_strlit("Shift+↑");
        reveal_strlit("Shift+↓");
        reveal_strlit("Ctrl+G");
        reveal_strlit("Ctrl+Space");
        reveal_strlit("Alt+S");
        reveal_strlit("Alt+D");
        reveal_strlit("Alt+.");
        reveal_strlit("Alt+I");
        reveal_strlit("Ctrl+F");
        reveal_strlit("Ctrl+B");
        reveal_strlit("Alt+N");
        reveal_strlit("Alt+P");
        reveal_strlit("Ctrl+W");
        reveal_strlit("Ctrl+H");
        reveal_strlit("Ctrl+U");
    }
    let mut v: Vec<CommandInfo> = Vec::new();
    v.push(CommandInfo { action: Action::Save, keys: "Ctrl+S", name: "Save", description: "Save the buffer (prompts for a path when it has none)", category: Category::File });
    v.push(CommandInfo { action: Action::OpenFile, keys: "Ctrl+O", name: "Open file", description: "Open a file in a new buffer (Tab completes the path)", category: Category::File });
    v.push(CommandInfo { action: Action::Quit, keys: "Ctrl+Q", name: "Quit", description: "Quit torg (asks about unsaved buffers)", category: Category::File });
    v.push(CommandInfo { action: Action::NextHeading, keys: "Ctrl+N", name: "Next heading", description: "Jump to the next heading", category: Category::Navigate });
    v.push(CommandInfo { action: Action::PrevHeading, keys: "Ctrl+P", name: "Previous heading", description: "Jump to the previous heading", category: Category::Navigate });
    v.push(CommandInfo { action: Action::ToggleFold, keys: "Tab", name: "Fold / unfold", description: "Collapse or expand the current subtree", category: Category::Structure });
    v.push(CommandInfo { action: Action::CycleTodo, keys: "Ctrl+T", name: "Cycle TODO", description: "Cycle the heading's TODO state", category: Category::Structure });
    v.push(CommandInfo { action: Action::PromoteHeading, keys: "Alt+←", name: "Promote heading", description: "Raise the heading one level (children stay)", category: Category::Structure });
    v.push(CommandInfo { action: Action::DemoteHeading, keys: "Alt+→", name: "Demote heading", description: "Lower the heading one level (children stay)", category: Category::Structure });
    v.push(CommandInfo { action: Action::PromoteSubtree, keys: "Alt+Shift+←", name: "Promote subtree", description: "Raise the heading and its whole subtree", category: Category::Structure });
    v.push(CommandInfo { action: Action::DemoteSubtree, keys: "Alt+Shift+→", name: "Demote subtree", description: "Lower the heading and its whole subtree", category: Category::Structure });
    v.push(CommandInfo { action: Action::MoveSubtreeUp, keys: "Alt+↑", name: "Move subtree up", description: "Swap the subtree with the previous same-level sibling", category: Category::Structure });
    v.push(CommandInfo { action: Action::MoveSubtreeDown, keys: "Alt+↓", name: "Move subtree down", description: "Swap the subtree with the next same-level sibling", category: Category::Structure });
    v.push(CommandInfo { action: Action::InsertSibling, keys: "Alt+Enter", name: "Insert sibling", description: "Insert a sibling heading after the current subtree", category: Category::Structure });
    v.push(CommandInfo { action: Action::InsertTodoSibling, keys: "Alt+T", name: "Insert TODO sibling", description: "Insert a TODO sibling heading (also Alt+Shift+Enter)", category: Category::Structure });
    v.push(CommandInfo { action: Action::PriorityUp, keys: "Shift+↑", name: "Priority up", description: "Raise the [#A]-style priority (or shift a timestamp field)", category: Category::Structure });
    v.push(CommandInfo { action: Action::PriorityDown, keys: "Shift+↓", name: "Priority down", description: "Lower the priority (or shift a timestamp field)", category: Category::Structure });
    v.push(CommandInfo { action: Action::EditTags, keys: "Ctrl+G", name: "Edit tags", description: "Edit the heading's tags in a prompt", category: Category::Structure });
    v.push(CommandInfo { action: Action::ToggleCheckbox, keys: "Ctrl+Space", name: "Toggle checkbox", description: "Toggle the item's checkbox (Alt+X also works)", category: Category::Structure });
    v.push(CommandInfo { action: Action::SetScheduled, keys: "Alt+S", name: "Set SCHEDULED", description: "Set or edit the heading's SCHEDULED date (Org)", category: Category::Dates });
    v.push(CommandInfo { action: Action::SetDeadline, keys: "Alt+D", name: "Set DEADLINE", description: "Set or edit the heading's DEADLINE date (Org)", category: Category::Dates });
    v.push(CommandInfo { action: Action::InsertActiveTs, keys: "Alt+.", name: "Insert timestamp", description: "Insert an active timestamp at the cursor", category: Category::Dates });
    v.push(CommandInfo { action: Action::InsertInactiveTs, keys: "Alt+I", name: "Insert inactive timestamp", description: "Insert an inactive timestamp at the cursor", category: Category::Dates });
    v.push(CommandInfo { action: Action::Find, keys: "Ctrl+F", name: "Find", description: "Incremental search (Ctrl+F/Ctrl+R step while open)", category: Category::Search });
    v.push(CommandInfo { action: Action::ListBuffers, keys: "Ctrl+B", name: "Buffer list", description: "Pick from the open buffers", category: Category::Buffers });
    v.push(CommandInfo { action: Action::NextBuffer, keys: "Alt+N", name: "Next buffer", description: "Switch to the next buffer", category: Category::Buffers });
    v.push(CommandInfo { action: Action::PrevBuffer, keys: "Alt+P", name: "Previous buffer", description: "Switch to the previous buffer", category: Category::Buffers });
    v.push(CommandInfo { action: Action::CloseBuffer, keys: "Ctrl+W", name: "Close buffer", description: "Close the active buffer (asks when unsaved)", category: Category::Buffers });
    v.push(CommandInfo { action: Action::Help, keys: "Ctrl+H", name: "Help menu", description: "This menu (Ctrl+K also works)", category: Category::Help });
    v.push(CommandInfo { action: Action::Guide, keys: "Ctrl+U", name: "Guide", description: "Open the full guide in a buffer", category: Category::Help });
    assert(v@.map_values(|c: CommandInfo| row_key(c)) =~= command_table());
    assert forall|k: int| 0 <= k < v@.len() implies (#[trigger] v@[k]).keys@ == key_of(v@[k].action) by {
        assert(v@.map_values(|c: CommandInfo| row_key(c))[k] == command_table()[k]);
    }
    v
}

/// The rows of `t` among its first `n` that belong to `cat`, in order.
pub open spec fn rows_in(t: Seq<(Action, Category)>, cat: Category, n: int) -> Seq<(Action, Category)>
    decreases n,
{
    if n <= 0 || n > t.len() {
        seq![]
    } else {
        rows_in(t, cat, n - 1) + if t[n - 1].1 == cat {
            seq![t[n - 1]]
        } else {
            seq![]
        }
    }
}

/// The commands of one category, in table order.
pub fn commands_in(category: Category) -> (r: Vec<CommandInfo>)
    ensures
        r@.map_values(|c: CommandInfo| row_key(c)) == rows_in(
            command_table(),
            category,
            command_table().len() as int,
        ),
        forall|k: int| 0 <= k < r@.len() ==> (#[trigger] r@[k]).keys@ == key_of(r@[k].action),
        forall|a: int, b: int| 0 <= a < b < r@.len() ==> (#[trigger] r@[a]).keys@ != (#[trigger] r@[b]).keys@,
{
    let all = commands();
    let ghost t = command_table();
    proof {
        lemma_keys_unique();
    }
    let mut out: Vec<CommandInfo> = Vec::new();
    let mut i: usize = 0;
    while i < all.len()
        invariant
            all@.map_values(|c: CommandInfo| row_key(c)) == t,
            forall|k: int| 0 <= k < all@.len() ==> (#[trigger] all@[k]).keys@ == key_of(all@[k].action),
            forall|x: int, y: int| 0 <= x < y < t.len() ==> key_of(#[trigger] t[x].0) != key_of(#[trigger] t[y].0),
            t == command_table(),
            i <= all@.len(),
            out@.map_values(|c: CommandInfo| row_key(c)) == rows_in(t, category, i as int),
            forall|k: int| 0 <= k < out@.len() ==> (#[trigger] out@[k]).keys@ == key_of(out@[k].action),
            forall|a: int, b: int| 0 <= a < b < out@.len() ==> (#[trigger] out@[a]).keys@ != (#[trigger] out@[b]).keys@,
            forall|k: int, m: int| 0 <= k < out@.len() && i <= m < t.len() ==> (#[trigger] out@[k]).keys@ != key_of(#[trigger] t[m].0),
        decreases all@.len() - i,
    {
        let c = all[i];
        assert(row_key(c) == t[i as int]);
        assert(all@.map_values(|c: CommandInfo| row_key(c)).len() == all@.len());
        let ghost before = out@;
        if c.category == category {
            out.push(c);
            assert(out@.map_values(|c: CommandInfo| row_key(c)) =~= before.map_values(
                |c: CommandInfo| row_key(c),
            ).push(row_key(c)));
            assert(c.keys@ == key_of(t[i as int].0));
            assert forall|a: int, b: int| 0 <= a < b < out@.len() implies (#[trigger] out@[a]).keys@ != (#[trigger] out@[b]).keys@ by {
                assert(out@[a] == before[a]);
                if b < before.len() {
                    assert(out@[b] == before[b]);
                } else {
                    assert(out@[b] == c);
                    assert(before[a].keys@ != key_of(t[i as int].0));
                }
            }
        }
        i = i + 1;
        assert forall|k: int, m: int| 0 <= k < out@.len() && i <= m < t.len() implies (#[trigger] out@[k]).keys@ != key_of(#[trigger] t[m].0) by {
            if k < before.len() {
                assert(out@[k] == before[k]);
            } else {
                assert(out@[k] == c);
                assert(c.keys@ == key_of(t[i - 1].0));
            }
        }
    }
    out
}

// ---- the help menu ------------------------------------------------------------------------

/// `s` padded on the right with spaces to at least `w` chars.
pub open spec fn padded_right(s: Seq<char>, w: int) -> Seq<char> {
    if s.len() >= w {
        s
    } else {
        s + Seq::new((w - s.len()) as nat, |i: int| ' ')
    }
}

/// A help row: ` keys name description`, the keys padded to 14 chars and the name to 26.
pub open spec fn help_row_text(c: CommandInfo) -> Seq<char> {
    seq![' '] + padded_right(c.keys@, 14) + seq![' '] + padded_right(c.name@, 26) + seq![' '] + c.description@
}

/// Append `s` padded on the right to `w` chars.
fn push_padded_right(out: &mut Vec<char>, s: &str, w: usize)
    ensures
        final(out)@ == old(out)@ + padded_right(s@, w as int),
{
    let v = crate::text::chars_of(s);
    crate::text::append_chars(out, &v);
    let mut n = v.len();
    let ghost base = out@;
    while n < w
        invariant
            v@ == s@,
            v@.len() <= n <= w || (n == v@.len() && n >= w),
            base == old(out)@ + s@,
            out@ == base + Seq::new((n - v@.len()) as nat, |i: int| ' '),
        decreases w - n,
    {
        out.push(' ');
        n = n + 1;
        assert(out@ =~= base + Seq::new((n - v@.len()) as nat, |i: int| ' '));
    }
    assert(v@.len() >= w ==> out@ =~= old(out)@ + s@);
}

/// The help row of one command.
pub fn help_row(c: &CommandInfo) -> (r: String)
    ensures
        r@ == help_row_text(*c),
{
    let mut out: Vec<char> = vec![' '];
    push_padded_right(&mut out, c.keys, 14);
    out.push(' ');
    push_padded_right(&mut out, c.name, 26);
    out.push(' ');
    let d = crate::text::chars_of(c.description);
    crate::text::append_chars(&mut out, &d);
    assert(out@ =~= help_row_text(*c));
    crate::text::string_of(&out)
}

/// The help menu on category number `category` with row `selected` highlighted: each tab
/// (` title `) with whether it is the active one, then each command row of the category with
/// whether it is the selected one.
pub fn help_menu(category: usize, selected: usize) -> (r: (Vec<(String, bool)>, Vec<(String, bool)>))
    requires
        category < 7,
    ensures
        r.0@.len() == 7,
        forall|i: int| 0 <= i < 7 ==> (#[trigger] r.0@[i]).0@ == seq![' '] + category_title(category_at(i)) + seq![' ']
            && r.0@[i].1 == (i == category),
        help_rows_show(r.1@, rows_in(command_table(), category_at(category as int), command_table().len() as int), selected as int),
{
    let all = Category::all();
    let mut tabs: Vec<(String, bool)> = Vec::new();
    let mut i: usize = 0;
    while i < all.len()
        invariant
            all@ == seq![
                Category::File,
                Category::Navigate,
                Category::Structure,
                Category::Dates,
                Category::Search,
                Category::Buffers,
                Category::Help,
            ],
            i <= 7,
            tabs@.len() == i,
            forall|j: int| 0 <= j < i ==> (#[trigger] tabs@[j]).0@ == seq![' '] + category_title(category_at(j)) + seq![' ']
                && tabs@[j].1 == (j == category),
        decreases 7 - i,
    {
        let mut t: Vec<char> = vec![' '];
        let title = crate::text::chars_of(all[i].title());
        crate::text::append_chars(&mut t, &title);
        t.push(' ');
        assert(all@[i as int] == category_at(i as int));
        assert(t@ =~= seq![' '] + category_title(category_at(i as int)) + seq![' ']);
        tabs.push((crate::text::string_of(&t), i == category));
        i = i + 1;
    }
    let cat = all[category];
    assert(cat == category_at(category as int));
    let cmds = commands_in(cat);
    let ghost want = rows_in(command_table(), cat, command_table().len() as int);
    let mut rows: Vec<(String, bool)> = Vec::new();
    let mut k: usize = 0;
    while k < cmds.len()
        invariant
            cmds@.map_values(|c: CommandInfo| row_key(c)) == want,
            k <= cmds@.len(),
            rows@.len() == k,
            forall|j: int| 0 <= j < k ==> #[trigger] row_shows(rows@[j], want[j], j, selected as int),
        decreases cmds@.len() - k,
    {
        let c = cmds[k];
        assert(row_key(c) == want[k as int]);
        let row = help_row(&c);
        rows.push((row, k == selected));
        assert(row_shows(rows@[k as int], want[k as int], k as int, selected as int));
        k = k + 1;
    }
    assert(cmds@.map_values(|c: CommandInfo| row_key(c)).len() == cmds@.len());
    (tabs, rows)
}

/// Whether `row`, the `i`-th of the menu, shows a command with table entry `key`, highlighted
/// when it is the `selected` one.
pub open spec fn row_shows(row: (String, bool), key: (Action, Category), i: int, selected: int) -> bool {
    &&& exists|c: CommandInfo| row_key(c) == key && row.0@ == #[trigger] help_row_text(c)
    &&& row.1 == (i == selected)
}

/// Whether `rows` show the commands `want`, one row each in order, with row `selected`
/// highlighted.
pub open spec fn help_rows_show(rows: Seq<(String, bool)>, want: Seq<(Action, Category)>, selected: int) -> bool {
    &&& rows.len() == want.len()
    &&& forall|i: int| 0 <= i < rows.len() ==> #[trigger] row_shows(rows[i], want[i], i, selected)
}

/// Category number `i` in menu order.
pub open spec fn category_at(i: int) -> Category {
    if i == 0 {
        Category::File
    } else if i == 1 {
        Category::Navigate
    } else if i == 2 {
        Category::Structure
    } else if i == 3 {
        Category::Dates
    } else if i == 4 {
        Category::Search
    } else if i == 5 {
        Category::Buffers
    } else {
        Category::Help
    }
}

// ---- the menu and the actions ---------------------------------------------------------------

/// An action's row in the menu table (-1 for an action that has none).
pub open spec fn menu_row(a: Action) -> int {
    match a {
        Action::Save => 0,
        Action::OpenFile => 1,
        Action::Quit => 2,
        Action::NextHeading => 3,
        Action::PrevHeading => 4,
        Action::ToggleFold => 5,
        Action::CycleTodo => 6,
        Action::PromoteHeading => 7,
        Action::DemoteHeading => 8,
        Action::PromoteSubtree => 9,
        Action::DemoteSubtree => 10,
        Action::MoveSubtreeUp => 11,
        Action::MoveSubtreeDown => 12,
        Action::InsertSibling => 13,
        Action::InsertTodoSibling => 14,
        Action::PriorityUp => 15,
        Action::PriorityDown => 16,
        Action::EditTags => 17,
        Action::ToggleCheckbox => 18,
        Action::SetScheduled => 19,
        Action::SetDeadline => 20,
        Action::InsertActiveTs => 21,
        Action::InsertInactiveTs => 22,
        Action::Find => 23,
        Action::ListBuffers => 24,
        Action::NextBuffer => 25,
        Action::PrevBuffer => 26,
        Action::CloseBuffer => 27,
        Action::Help => 28,
        Action::Guide => 29,
        _ => -1,
    }
}

/// A key text's row in the command table, told apart by its length and last char.
spec fn key_rank(k: Seq<char>) -> int {
    if k.len() == 6 && k.last() == 'S' {
        0
    } else if k.len() == 6 && k.last() == 'O' {
        1
    } else if k.len() == 6 && k.last() == 'Q' {
        2
    } else if k.len() == 6 && k.last() == 'N' {
        3
    } else if k.len() == 6 && k.last() == 'P' {
        4
    } else if k.len() == 3 && k.last() == 'b' {
        5
    } else if k.len() == 6 && k.last() == 'T' {
        6
    } else if k.len() == 5 && k.last() == '←' {
        7
    } else if k.len() == 5 && k.last() == '→' {
        8
    } else if k.len() == 11 && k.last() == '←' {
        9
    } else if k.len() == 11 && k.last() == '→' {
        10
    } else if k.len() == 5 && k.last() == '↑' {
        11
    } else if k.len() == 5 && k.last() == '↓' {
        12
    } else if k.len() == 9 && k.last() == 'r' {
        13
    } else if k.len() == 5 && k.last() == 'T' {
        14
    } else if k.len() == 7 && k.last() == '↑' {
        15
    } else if k.len() == 7 && k.last() == '↓' {
        16
    } else if k.len() == 6 && k.last() == 'G' {
        17
    } else if k.len() == 10 && k.last() == 'e' {
        18
    } else if k.len() == 5 && k.last() == 'S' {
        19
    } else if k.len() == 5 && k.last() == 'D' {
        20
    } else if k.len() == 5 && k.last() == '.' {
        21
    } else if k.len() == 5 && k.last() == 'I' {
        22
    } else if k.len() == 6 && k.last() == 'F' {
        23
    } else if k.len() == 6 && k.last() == 'B' {
        24
    } else if k.len() == 5 && k.last() == 'N' {
        25
    } else if k.len() == 5 && k.last() == 'P' {
        26
    } else if k.len() == 6 && k.last() == 'W' {
        27
    } else if k.len() == 6 && k.last() == 'H' {
        28
    } else if k.len() == 6 && k.last() == 'U' {
        29
    } else {
        -1
    }
}

proof fn lemma_key_rank(a: Action)
    requires
        menu_row(a) >= 0,
    ensures
        key_rank(key_of(a)) == menu_row(a),
{
}

/// No two commands of the table share their keys, so neither do two of one category.
pub proof fn lemma_keys_unique()
    ensures
        forall|i: int, j: int|
            0 <= i < j < command_table().len() ==> key_of(#[trigger] command_table()[i].0) != key_of(
                #[trigger] command_table()[j].0,
            ),
{
    lemma_rows_in_place();
    let t = command_table();
    assert forall|i: int, j: int| 0 <= i < j < t.len() implies key_of(#[trigger] t[i].0) != key_of(#[trigger] t[j].0) by {
        lemma_key_rank(t[i].0);
        lemma_key_rank(t[j].0);
    }
}

/// Every row of the table is at the position [`menu_row`] gives its action.
proof fn lemma_rows_in_place()
    ensures
        command_table().len() == 30,
        forall|i: int| 0 <= i < 30 ==> menu_row(#[trigger] command_table()[i].0) == i,
{
    let t = command_table();
    assert forall|i: int| 0 <= i < 30 implies menu_row(#[trigger] t[i].0) == i by {
        if i == 0 {
            assert(t[0] == (Action::Save, t[0].1));
        }
        if i == 1 {
            assert(t[1] == (Action::OpenFile, t[1].1));
        }
        if i == 2 {
            assert(t[2] == (Action::Quit, t[2].1));
        }
        if i == 3 {
            assert(t[3] == (Action::NextHeading, t[3].1));
        }
        if i == 4 {
            assert(t[4] == (Action::PrevHeading, t[4].1));
        }
        if i == 5 {
            assert(t[5] == (Action::ToggleFold, t[5].1));
        }
        if i == 6 {
            assert(t[6] == (Action::CycleTodo, t[6].1));
        }
        if i == 7 {
            assert(t[7] == (Action::PromoteHeading, t[7].1));
        }
        if i == 8 {
            assert(t[8] == (Action::DemoteHeading, t[8].1));
        }
        if i == 9 {
            assert(t[9] == (Action::PromoteSubtree, t[9].1));
        }
        if i == 10 {
            assert(t[10] == (Action::DemoteSubtree, t[10].1));
        }
        if i == 11 {
            assert(t[11] == (Action::MoveSubtreeUp, t[11].1));
        }
        if i == 12 {
            assert(t[12] == (Action::MoveSubtreeDown, t[12].1));
        }
        if i == 13 {
            assert(t[13] == (Action::InsertSibling, t[13].1));
        }
        if i == 14 {
            assert(t[14] == (Action::InsertTodoSibling, t[14].1));
        }
        if i == 15 {
            assert(t[15] == (Action::PriorityUp, t[15].1));
        }
        if i == 16 {
            assert(t[16] == (Action::PriorityDown, t[16].1));
        }
        if i == 17 {
            assert(t[17] == (Action::EditTags, t[17].1));
        }
        if i == 18 {
            assert(t[18] == (Action::ToggleCheckbox, t[18].1));
        }
        if i == 19 {
            assert(t[19] == (Action::SetScheduled, t[19].1));
        }
        if i == 20 {
            assert(t[20] == (Action::SetDeadline, t[20].1));
        }
        if i == 21 {
            assert(t[21] == (Action::InsertActiveTs, t[21].1));
        }
        if i == 22 {
            assert(t[22] == (Action::InsertInactiveTs, t[22].1));
        }
        if i == 23 {
            assert(t[23] == (Action::Find, t[23].1));
        }
        if i == 24 {
            assert(t[24] == (Action::ListBuffers, t[24].1));
        }
        if i == 25 {
            assert(t[25] == (Action::NextBuffer, t[25].1));
        }
        if i == 26 {
            assert(t[26] == (Action::PrevBuffer, t[26].1));
        }
        if i == 27 {
            assert(t[27] == (Action::CloseBuffer, t[27].1));
        }
        if i == 28 {
            assert(t[28] == (Action::Help, t[28].1));
        }
        if i == 29 {
            assert(t[29] == (Action::Guide, t[29].1));
        }
    }
}

/// The help menu cannot drift from the actions: an action has a row exactly when it belongs
/// in the menu, and no action has two rows.
pub proof fn lemma_menu_matches_actions(a: Action)
    ensures
        needs_entry(a) <==> (exists|i: int| 0 <= i < command_table().len() && #[trigger] command_table()[i].0 == a),
        forall|i: int, j: int|
            0 <= i < j < command_table().len() ==> #[trigger] command_table()[i].0 != #[trigger] command_table()[j].0,
{
    lemma_rows_in_place();
    let t = command_table();
    if needs_entry(a) {
        let k = menu_row(a);
        assert(0 <= k < 30);
        assert(menu_row(t[k].0) == k);
        assert(t[k].0 == a);
    }
    if exists|i: int| 0 <= i < t.len() && #[trigger] t[i].0 == a {
        let i = choose|i: int| 0 <= i < t.len() && #[trigger] t[i].0 == a;
        assert(menu_row(t[i].0) == i);
    }
}

/// Every category of the menu has a command.
pub proof fn lemma_no_empty_category(c: Category)
    ensures
        rows_in(command_table(), c, command_table().len() as int).len() > 0,
{
    lemma_rows_in_place();
    let t = command_table();
    let k: int = match c {
        Category::File => 0,
        Category::Navigate => 3,
        Category::Structure => 5,
        Category::Dates => 19,
        Category::Search => 23,
        Category::Buffers => 24,
        Category::Help => 28,
    };
    assert(t[k].1 == c);
    lemma_rows_in_grow(t, c, k + 1, t.len() as int);
}

/// Once a row of category `c` is among the first `m`, the category is not empty up to `n`.
proof fn lemma_rows_in_grow(t: Seq<(Action, Category)>, c: Category, m: int, n: int)
    requires
        1 <= m <= n <= t.len(),
        t[m - 1].1 == c,
    ensures
        rows_in(t, c, n).len() > 0,
    decreases n,
{
    if n > m {
        lemma_rows_in_grow(t, c, m, n - 1);
    }
}

} // verus!
