//! One line at a time: whether a line is an Org or Markdown heading and what its headline
//! says (`TODO`/`DONE` keyword, `[#A]` priority cookie, title, `:tag:` run), and the fence
//! lines that open and close Markdown code blocks.
use vstd::prelude::*;

use crate::text::{
    all_ascii, alphanumeric, has_at, is_ascii_alpha, is_ascii_char, is_digit, has_char, index_of_from, is_alphanumeric, is_ws, lemma_skip_ws,
    lemma_skip_ws_back, skip_ws_back, skip_ws_back_exec, skip_ws_exec, slice_vec, strip_nl,
    strip_nl_exec, trim, trim_end, trim_start, whitespace,
};

verus! {

/// A TODO workflow keyword on a heading.
#[derive(Debug, Clone, Copy, PartialEq, Eq, Structural)]
pub enum TodoState {
    /// An open item (`TODO`).
    Todo,
    /// A completed item (`DONE`).
    Done,
}

/// The keyword's text.
pub open spec fn todo_word(t: TodoState) -> Seq<char> {
    match t {
        TodoState::Todo => seq!['T', 'O', 'D', 'O'],
        TodoState::Done => seq!['D', 'O', 'N', 'E'],
    }
}

/// Whether `s` opens with the keyword `t` as a whole word.
pub open spec fn opens_with_word(s: Seq<char>, t: TodoState) -> bool {
    has_at(s, 0, todo_word(t)) && (s.len() == 4 || s[4] == ' ')
}

/// A leading `TODO`/`DONE` keyword split off the headline text (it must be a whole word).
pub open spec fn split_todo(rest: Seq<char>) -> (Option<TodoState>, Seq<char>) {
    if opens_with_word(rest, TodoState::Todo) {
        (Some(TodoState::Todo), trim_start(rest.skip(4)))
    } else if opens_with_word(rest, TodoState::Done) {
        (Some(TodoState::Done), trim_start(rest.skip(4)))
    } else {
        (None, rest)
    }
}

/// Whether `s` opens with a `[#A]`/`[#B]`/`[#C]` cookie.
pub open spec fn opens_with_cookie(s: Seq<char>) -> bool {
    s.len() >= 4 && s[0] == '[' && s[1] == '#' && 'A' <= s[2] <= 'C' && s[3] == ']'
}

/// A leading priority cookie split off; it must be followed by a space or the end.
pub open spec fn split_priority(rest: Seq<char>) -> (Option<char>, Seq<char>) {
    if opens_with_cookie(rest) {
        let after = rest.skip(4);
        if after.len() == 0 {
            (Some(rest[2]), seq![])
        } else if after[0] == ' ' {
            (Some(rest[2]), trim_start(after.skip(1)))
        } else {
            (None, rest)
        }
    } else {
        (None, rest)
    }
}

/// A char allowed in a tag: letters, digits, `_ @ # %`.
pub open spec fn tag_char(c: char) -> bool {
    alphanumeric(c) || c == '_' || c == '@' || c == '#' || c == '%'
}

/// A tag char among ASCII chars: a letter, a digit, or one of `_ @ # %`.
pub open spec fn ascii_tag_char(c: char) -> bool {
    is_ascii_alpha(c) || is_digit(c) || c == '_' || c == '@' || c == '#' || c == '%'
}

/// Every char of `s` is an ASCII tag char.
pub open spec fn all_ascii_tag_chars(s: Seq<char>) -> bool {
    forall|i: int| 0 <= i < s.len() ==> ascii_tag_char(#[trigger] s[i])
}

/// Every char of `s` is a tag char.
pub open spec fn all_tag_chars(s: Seq<char>) -> bool {
    forall|i: int| 0 <= i < s.len() ==> tag_char(#[trigger] s[i])
}

/// `str::split(sep)` from index `i`, `cur` the piece in progress.
pub open spec fn split_acc(s: Seq<char>, sep: char, i: int, cur: Seq<char>) -> Seq<Seq<char>>
    decreases s.len() - i,
{
    if i < 0 || i >= s.len() {
        seq![cur]
    } else if s[i] == sep {
        seq![cur] + split_acc(s, sep, i + 1, seq![])
    } else {
        split_acc(s, sep, i + 1, cur.push(s[i]))
    }
}

/// `str::split(sep)`: the pieces between separators, empty ones included.
pub open spec fn pieces(s: Seq<char>, sep: char) -> Seq<Seq<char>> {
    split_acc(s, sep, 0, seq![])
}

/// A complete tag run like `:a:b:` — colon-delimited, every tag non-empty and of tag chars.
pub open spec fn tag_run(s: Seq<char>) -> bool {
    &&& s.len() >= 3
    &&& s[0] == ':'
    &&& s.last() == ':'
    &&& forall|k: int|
        0 <= k < pieces(s.subrange(1, s.len() - 1), ':').len() ==> {
            let p = #[trigger] pieces(s.subrange(1, s.len() - 1), ':')[k];
            p.len() > 0 && all_tag_chars(p)
        }
}

/// The index just past the last whitespace char before `j` (or 0).
pub open spec fn after_last_ws(t: Seq<char>, j: int) -> int
    decreases j,
{
    if j <= 0 || j > t.len() {
        0
    } else if is_ws(t[j - 1]) {
        j
    } else {
        after_last_ws(t, j - 1)
    }
}

/// Where a trailing tag run starts in `text` (after a trailing-whitespace trim), if the line
/// ends in one: the run is the last whitespace-free word.
pub open spec fn tag_start(text: Seq<char>) -> Option<int> {
    let t = trim_end(text);
    if t.len() == 0 || t.last() != ':' {
        None
    } else {
        let start = after_last_ws(t, t.len() as int);
        if tag_run(t.skip(start)) {
            Some(start)
        } else {
            None
        }
    }
}

/// A trailing tag run split off the title: the title (trimmed) and the tags.
pub open spec fn split_tags(rest: Seq<char>) -> (Seq<char>, Seq<Seq<char>>) {
    match tag_start(rest) {
        Some(start) => {
            let t = trim_end(rest);
            (trim_end(rest.take(start)), pieces(t.subrange(start + 1, t.len() - 1), ':'))
        },
        None => (trim_end(rest), seq![]),
    }
}

/// What a headline says after its markers: keyword, priority, title, tags.
pub open spec fn headline_rest(rest: Seq<char>) -> (
    Option<TodoState>,
    Option<char>,
    Seq<char>,
    Seq<Seq<char>>,
) {
    let (todo, r1) = split_todo(rest);
    let (prio, r2) = split_priority(r1);
    let (title, tags) = split_tags(r2);
    (todo, prio, title, tags)
}

/// The end of the run of `c` starting at `i`.
pub open spec fn run_end(s: Seq<char>, c: char, i: int) -> int
    decreases s.len() - i,
{
    if 0 <= i < s.len() && s[i] == c {
        run_end(s, c, i + 1)
    } else {
        i
    }
}

/// A heading line with marker `m` (`*` or `#`), at most `max` markers deep: its level and
/// the text after the markers, trimmed. The markers must be followed by a space and a
/// non-empty title.
pub open spec fn heading_rest(raw: Seq<char>, m: char, max: Option<int>) -> Option<(int, Seq<char>)> {
    let text = strip_nl(raw);
    let level = run_end(text, m, 0);
    if level == 0 {
        None
    } else if max is Some && level > max->0 {
        None
    } else if !(level < text.len() && text[level] == ' ') {
        None
    } else {
        let rest = trim_start(text.skip(level));
        if rest.len() == 0 {
            None
        } else {
            Some((level, rest))
        }
    }
}

/// The fence run opening `text` after at most 3 spaces: its char, length (3 or more of
/// `` ` `` or `~`) and what follows it.
pub open spec fn fence_run(text: Seq<char>) -> Option<(char, int, Seq<char>)> {
    let indent = run_end(text, ' ', 0);
    if indent > 3 {
        None
    } else {
        let body = text.skip(indent);
        if body.len() == 0 || (body[0] != '`' && body[0] != '~') {
            None
        } else {
            let ch = body[0];
            let run = run_end(body, ch, 0);
            if run < 3 {
                None
            } else {
                Some((ch, run, body.skip(run)))
            }
        }
    }
}

/// Whether `text` opens a fenced code block, and with what fence: a backtick fence's info
/// string may not hold a backtick.
pub open spec fn fence_opener(text: Seq<char>) -> Option<(char, int)> {
    match fence_run(text) {
        Some((ch, run, rest)) => if ch == '`' && has_char(rest, '`') {
            None
        } else {
            Some((ch, run))
        },
        None => None,
    }
}

/// Whether `text` closes the open fence `(ch, len)`: same char, a run at least as long, and
/// nothing but whitespace after it.
pub open spec fn fence_closer(text: Seq<char>, ch: char, len: int) -> bool {
    match fence_run(text) {
        Some((c, run, rest)) => c == ch && run >= len && trim(rest).len() == 0,
        None => false,
    }
}

// ---- exec ---------------------------------------------------------------------

/// What a headline says: its level, keyword, priority, title and tags.
pub struct HeadLine {
    pub level: usize,
    pub todo: Option<TodoState>,
    pub priority: Option<char>,
    pub title: Vec<char>,
    pub tags: Vec<Vec<char>>,
}

/// Whether `tags` holds the char sequences `spec`.
pub open spec fn tags_match(tags: Seq<Vec<char>>, spec: Seq<Seq<char>>) -> bool {
    tags.len() == spec.len() && forall|k: int| 0 <= k < tags.len() ==> #[trigger] tags[k]@ == spec[k]
}

/// Whether `h` is the headline `(level, rest)` parses to.
pub open spec fn headline_is(h: HeadLine, level: int, rest: Seq<char>) -> bool {
    let (todo, prio, title, tags) = headline_rest(rest);
    h.level == level && h.todo == todo && h.priority == prio && h.title@ == title && tags_match(
        h.tags@,
        tags,
    )
}

fn opens_with(s: &[char], w0: char, w1: char, w2: char, w3: char) -> (r: bool)
    ensures
        r == has_at(s@, 0, seq![w0, w1, w2, w3]),
{
    let r = s.len() >= 4 && s[0] == w0 && s[1] == w1 && s[2] == w2 && s[3] == w3;
    proof {
        if s@.len() >= 4 {
            let w = seq![w0, w1, w2, w3];
            if r {
                assert(s@.subrange(0, 4) =~= w);
            } else if s@.subrange(0, 4) == w {
                assert(s@.subrange(0, 4)[0] == w0);
                assert(s@.subrange(0, 4)[1] == w1);
                assert(s@.subrange(0, 4)[2] == w2);
                assert(s@.subrange(0, 4)[3] == w3);
            }
        }
    }
    r
}

/// The leading keyword, and the text after it.
pub fn split_todo_exec(rest: &[char]) -> (r: (Option<TodoState>, Vec<char>))
    ensures
        r.0 == split_todo(rest@).0,
        r.1@ == split_todo(rest@).1,
{
    let todo = opens_with(rest, 'T', 'O', 'D', 'O') && (rest.len() == 4 || rest[4] == ' ');
    if todo {
        let tail = slice_vec(rest, 4, rest.len());
        let i = skip_ws_exec(&tail, 0);
        return (Some(TodoState::Todo), slice_vec(&tail, i, tail.len()));
    }
    let done = opens_with(rest, 'D', 'O', 'N', 'E') && (rest.len() == 4 || rest[4] == ' ');
    if done {
        let tail = slice_vec(rest, 4, rest.len());
        let i = skip_ws_exec(&tail, 0);
        return (Some(TodoState::Done), slice_vec(&tail, i, tail.len()));
    }
    (None, slice_vec(rest, 0, rest.len()))
}

/// The leading priority cookie, and the text after it.
pub fn split_priority_exec(rest: &[char]) -> (r: (Option<char>, Vec<char>))
    ensures
        r.0 == split_priority(rest@).0,
        r.1@ == split_priority(rest@).1,
{
    if rest.len() >= 4 && rest[0] == '[' && rest[1] == '#' && 'A' <= rest[2] && rest[2] <= 'C'
        && rest[3] == ']' {
        if rest.len() == 4 {
            return (Some(rest[2]), Vec::new());
        } else if rest[4] == ' ' {
            let after = slice_vec(rest, 5, rest.len());
            assert(after@ =~= rest@.skip(4).skip(1));
            let i = skip_ws_exec(&after, 0);
            return (Some(rest[2]), slice_vec(&after, i, after.len()));
        }
    }
    (None, slice_vec(rest, 0, rest.len()))
}

/// Whether `c` may appear in a tag.
pub fn is_tag_char(c: char) -> (r: bool)
    ensures
        r == tag_char(c),
        is_ascii_char(c) ==> (r == ascii_tag_char(c)),
{
    is_alphanumeric(c) || c == '_' || c == '@' || c == '#' || c == '%'
}

/// Whether every char of `s` is a tag char.
pub fn all_tag_chars_exec(s: &[char]) -> (r: bool)
    ensures
        r == all_tag_chars(s@),
        all_ascii(s@) ==> (r == all_ascii_tag_chars(s@)),
{
    let mut i: usize = 0;
    while i < s.len()
        invariant
            i <= s@.len(),
            forall|k: int| 0 <= k < i ==> tag_char(#[trigger] s@[k]),
            forall|k: int| 0 <= k < i && is_ascii_char(s@[k]) ==> ascii_tag_char(#[trigger] s@[k]),
        decreases s@.len() - i,
    {
        if !is_tag_char(s[i]) {
            assert(!all_ascii_tag_chars(s@) || !is_ascii_char(s@[i as int]));
            return false;
        }
        i = i + 1;
    }
    true
}

/// `str::split(sep)` on chars.
pub fn split_pieces(s: &[char], sep: char) -> (r: Vec<Vec<char>>)
    ensures
        tags_match(r@, pieces(s@, sep)),
{
    let mut r: Vec<Vec<char>> = Vec::new();
    let ghost mut ps: Seq<Seq<char>> = seq![];
    let mut cur: Vec<char> = Vec::new();
    let mut i: usize = 0;
    while i < s.len()
        invariant
            i <= s@.len(),
            tags_match(r@, ps),
            pieces(s@, sep) == ps + split_acc(s@, sep, i as int, cur@),
        decreases s@.len() - i,
    {
        if s[i] == sep {
            proof {
                let old_ps = ps;
                ps = ps.push(cur@);
                assert(old_ps + (seq![cur@] + split_acc(s@, sep, i + 1, seq![])) =~= ps
                    + split_acc(s@, sep, i + 1, seq![]));
            }
            let w = cur;
            r.push(w);
            cur = Vec::new();
        } else {
            cur.push(s[i]);
        }
        i = i + 1;
    }
    proof {
        ps = ps.push(cur@);
    }
    r.push(cur);
    r
}

/// Whether `s` is a complete tag run like `:a:b:`.
pub fn is_tag_run(s: &[char]) -> (r: bool)
    ensures
        r == tag_run(s@),
{
    if s.len() < 3 || s[0] != ':' || s[s.len() - 1] != ':' {
        return false;
    }
    let inner = slice_vec(s, 1, s.len() - 1);
    let ps = split_pieces(&inner, ':');
    let mut k: usize = 0;
    while k < ps.len()
        invariant
            k <= ps@.len(),
            inner@ == s@.subrange(1, s@.len() - 1),
            tags_match(ps@, pieces(inner@, ':')),
            forall|j: int|
                0 <= j < k ==> {
                    let p = #[trigger] pieces(inner@, ':')[j];
                    p.len() > 0 && all_tag_chars(p)
                },
        decreases ps@.len() - k,
    {
        let p = &ps[k];
        assert(p@ == pieces(inner@, ':')[k as int]);
        if p.len() == 0 || !all_tag_chars_exec(p) {
            return false;
        }
        k = k + 1;
    }
    true
}

/// The index just past the last whitespace char before `j`, or 0.
fn after_last_ws_exec(t: &[char], j: usize) -> (r: usize)
    requires
        j <= t@.len(),
    ensures
        r as int == after_last_ws(t@, j as int),
        r <= j,
{
    let mut k = j;
    while k > 0 && !whitespace(t[k - 1])
        invariant
            k <= j <= t@.len(),
            after_last_ws(t@, j as int) == after_last_ws(t@, k as int),
        decreases k,
    {
        k = k - 1;
    }
    k
}

/// Where a trailing tag run starts in `text`, if the line ends in one.
pub fn tag_start_exec(text: &[char]) -> (r: Option<usize>)
    ensures
        match r {
            Some(i) => tag_start(text@) == Some(i as int) && i <= text@.len(),
            None => tag_start(text@) is None,
        },
{
    proof {
        lemma_skip_ws_back(text@, text@.len() as int);
        lemma_after_last_ws(trim_end(text@), trim_end(text@).len() as int);
    }
    let j = skip_ws_back_exec(text, text.len());
    let t = slice_vec(text, 0, j);
    if t.len() == 0 || t[t.len() - 1] != ':' {
        return None;
    }
    let start = after_last_ws_exec(&t, t.len());
    let run = slice_vec(&t, start, t.len());
    assert(run@ =~= t@.skip(start as int));
    if is_tag_run(&run) {
        Some(start)
    } else {
        None
    }
}

/// A trailing tag run split off the title.
pub fn split_tags_exec(rest: &[char]) -> (r: (Vec<char>, Vec<Vec<char>>))
    ensures
        r.0@ == split_tags(rest@).0,
        tags_match(r.1@, split_tags(rest@).1),
{
    proof {
        lemma_skip_ws_back(rest@, rest@.len() as int);
    }
    match tag_start_exec(rest) {
        Some(start) => {
            let j = skip_ws_back_exec(rest, rest.len());
            let t = slice_vec(rest, 0, j);
            proof {
                lemma_after_last_ws(t@, t@.len() as int);
            }
            let inner = slice_vec(&t, start + 1, t.len() - 1);
            let tags = split_pieces(&inner, ':');
            let head = slice_vec(rest, 0, start);
            let hj = skip_ws_back_exec(&head, head.len());
            proof {
                lemma_skip_ws_back(head@, head@.len() as int);
            }
            (slice_vec(&head, 0, hj), tags)
        },
        None => {
            let j = skip_ws_back_exec(rest, rest.len());
            (slice_vec(rest, 0, j), Vec::new())
        },
    }
}

proof fn lemma_after_last_ws(t: Seq<char>, j: int)
    requires
        0 <= j <= t.len(),
    ensures
        0 <= after_last_ws(t, j) <= j,
    decreases j,
{
    if j > 0 && !is_ws(t[j - 1]) {
        lemma_after_last_ws(t, j - 1);
    }
}

/// What a headline says after its markers.
pub fn headline_rest_exec(rest: &[char], level: usize) -> (h: HeadLine)
    ensures
        headline_is(h, level as int, rest@),
{
    let (todo, r1) = split_todo_exec(rest);
    let (priority, r2) = split_priority_exec(&r1);
    let (title, tags) = split_tags_exec(&r2);
    HeadLine { level, todo, priority, title, tags }
}

/// The end of the run of `c` starting at `i`.
pub fn run_end_exec(s: &[char], c: char, i: usize) -> (r: usize)
    requires
        i <= s@.len(),
    ensures
        r as int == run_end(s@, c, i as int),
        i <= r <= s@.len(),
        forall|k: int| i <= k < r ==> s@[k] == c,
        r < s@.len() ==> s@[r as int] != c,
{
    let mut k = i;
    while k < s.len() && s[k] == c
        invariant
            i <= k <= s@.len(),
            run_end(s@, c, i as int) == run_end(s@, c, k as int),
            forall|j: int| i <= j < k ==> s@[j] == c,
        decreases s@.len() - k,
    {
        k = k + 1;
    }
    k
}

/// The level and trimmed rest of a heading line with marker `m` and depth limit `max`.
pub fn heading_rest_exec(raw: &[char], m: char, max: Option<usize>) -> (r: Option<(usize, Vec<char>)>)
    ensures
        match r {
            Some((level, rest)) => heading_rest(raw@, m, match max {
                Some(x) => Some(x as int),
                None => None,
            }) == Some((level as int, rest@)),
            None => heading_rest(raw@, m, match max {
                Some(x) => Some(x as int),
                None => None,
            }) is None,
        },
{
    let text = strip_nl_exec(raw);
    let level = run_end_exec(&text, m, 0);
    if level == 0 {
        return None;
    }
    match max {
        Some(x) => {
            if level > x {
                return None;
            }
        },
        None => {},
    }
    if !(level < text.len() && text[level] == ' ') {
        return None;
    }
    let after = slice_vec(&text, level, text.len());
    let i = skip_ws_exec(&after, 0);
    let rest = slice_vec(&after, i, after.len());
    if rest.len() == 0 {
        return None;
    }
    Some((level, rest))
}

/// The fence run opening `text`, if any.
pub fn fence_run_exec(text: &[char]) -> (r: Option<(char, usize, Vec<char>)>)
    ensures
        match r {
            Some((ch, run, rest)) => fence_run(text@) == Some((ch, run as int, rest@)),
            None => fence_run(text@) is None,
        },
{
    let indent = run_end_exec(text, ' ', 0);
    if indent > 3 {
        return None;
    }
    let body = slice_vec(text, indent, text.len());
    if body.len() == 0 || (body[0] != '`' && body[0] != '~') {
        return None;
    }
    let ch = body[0];
    let run = run_end_exec(&body, ch, 0);
    if run < 3 {
        return None;
    }
    Some((ch, run, slice_vec(&body, run, body.len())))
}

/// Whether `text` opens a fenced code block, and with what fence.
pub fn fence_opener_exec(text: &[char]) -> (r: Option<(char, usize)>)
    ensures
        match r {
            Some((ch, run)) => fence_opener(text@) == Some((ch, run as int)),
            None => fence_opener(text@) is None,
        },
{
    match fence_run_exec(text) {
        Some((ch, run, rest)) => {
            if ch == '`' && crate::text::contains_char(&rest, '`') {
                None
            } else {
                Some((ch, run))
            }
        },
        None => None,
    }
}

/// Whether `text` closes the open fence `(ch, len)`.
pub fn fence_closer_exec(text: &[char], ch: char, len: usize) -> (r: bool)
    ensures
        r == fence_closer(text@, ch, len as int),
{
    match fence_run_exec(text) {
        Some((c, run, rest)) => {
            let t = crate::text::trim_exec(&rest);
            c == ch && run >= len && t.len() == 0
        },
        None => false,
    }
}

/// A run ends within the text, and covers only `c`.
pub proof fn lemma_run_end(s: Seq<char>, c: char, i: int)
    requires
        0 <= i <= s.len(),
    ensures
        i <= run_end(s, c, i) <= s.len(),
        forall|k: int| i <= k < run_end(s, c, i) ==> s[k] == c,
    decreases s.len() - i,
{
    if i < s.len() && s[i] == c {
        lemma_run_end(s, c, i + 1);
    }
}

} // verus!
