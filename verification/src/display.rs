//! What a line looks like on screen: tab stops, where a char column is drawn, and the
//! checkbox and statistics-cookie tokens a line gets styled by. Positions are char indices.
use vstd::prelude::*;

use crate::list::{digits_end, indent_end};
use crate::text::{chars_of, is_digit, parse_unsigned, string_of};

verus! {

/// How many columns a tab advances: to the next multiple of this.
pub const TAB_WIDTH: usize = 4;

/// The next tab stop strictly after display column `col`.
pub open spec fn next_stop(col: int) -> int {
    (col / 4 + 1) * 4
}

/// The display column reached after drawing the first `n` chars of `t`.
pub open spec fn cols_after(t: Seq<char>, n: int) -> int
    decreases n,
{
    if n <= 0 {
        0
    } else {
        let c = cols_after(t, n - 1);
        if t[n - 1] == '\t' {
            next_stop(c)
        } else {
            c + 1
        }
    }
}

/// `n` spaces.
pub open spec fn spaces(n: int) -> Seq<char> {
    Seq::new(n as nat, |i: int| ' ')
}

/// The first `n` chars of `t` with each tab replaced by spaces up to the next tab stop.
pub open spec fn expanded(t: Seq<char>, n: int) -> Seq<char>
    decreases n,
{
    if n <= 0 {
        seq![]
    } else {
        let c = cols_after(t, n - 1);
        expanded(t, n - 1) + if t[n - 1] == '\t' {
            spaces(next_stop(c) - c)
        } else {
            seq![t[n - 1]]
        }
    }
}

proof fn lemma_cols_after(t: Seq<char>, n: int)
    requires
        0 <= n <= t.len(),
    ensures
        n <= cols_after(t, n) <= 4 * n,
        expanded(t, n).len() == cols_after(t, n),
    decreases n,
{
    if n > 0 {
        lemma_cols_after(t, n - 1);
        let c = cols_after(t, n - 1);
        assert(c < next_stop(c) <= c + 4) by {
            assert(c == 4 * (c / 4) + c % 4);
        }
    }
}

proof fn lemma_cols_mono(t: Seq<char>, n: int, m: int)
    requires
        0 <= n <= m <= t.len(),
    ensures
        cols_after(t, n) <= cols_after(t, m),
    decreases m - n,
{
    if n < m {
        lemma_cols_mono(t, n, m - 1);
        lemma_cols_after(t, m);
        lemma_cols_after(t, m - 1);
    }
}

proof fn lemma_expanded_prefix(t: Seq<char>, n: int, m: int)
    requires
        0 <= n <= m <= t.len(),
    ensures
        expanded(t, m).take(expanded(t, n).len() as int) == expanded(t, n),
    decreases m - n,
{
    if n < m {
        lemma_expanded_prefix(t, n, m - 1);
        lemma_cols_after(t, n);
        lemma_cols_after(t, m - 1);
        lemma_cols_after(t, m);
        lemma_cols_mono(t, n, m - 1);
        assert(expanded(t, m).take(expanded(t, m - 1).len() as int) =~= expanded(t, m - 1));
        assert(expanded(t, m).take(expanded(t, n).len() as int) =~= expanded(t, m - 1).take(
            expanded(t, n).len() as int,
        ));
    }
}

/// Every char that is not a tab is drawn exactly at its display column: the expanded line
/// holds char `k` of `text` at column `display_col(text, k)`.
pub proof fn lemma_char_drawn_at_display_col(text: Seq<char>, k: int)
    requires
        0 <= k < text.len(),
        text[k] != '\t',
    ensures
        cols_after(text, k) < expanded(text, text.len() as int).len(),
        expanded(text, text.len() as int)[cols_after(text, k)] == text[k],
{
    lemma_cols_after(text, k);
    lemma_cols_after(text, k + 1);
    lemma_expanded_prefix(text, k + 1, text.len() as int);
    lemma_cols_after(text, text.len() as int);
    lemma_cols_mono(text, k + 1, text.len() as int);
    let full = expanded(text, text.len() as int);
    let upto = expanded(text, k + 1);
    assert(upto[cols_after(text, k)] == text[k]);
    assert(full.take(upto.len() as int)[cols_after(text, k)] == full[cols_after(text, k)]);
}

/// Expand tabs to spaces at [`TAB_WIDTH`]-column stops (a terminal renders a raw tab as a
/// zero-width cell).
pub fn expand_tabs(text: &str) -> (r: String)
    ensures
        r@ == expanded(text@, text@.len() as int),
{
    let t = chars_of(text);
    crate::text::char_vec_len_bound(&t);
    let mut out: Vec<char> = Vec::new();
    let mut col: usize = 0;
    let mut i: usize = 0;
    while i < t.len()
        invariant
            i <= t@.len(),
            t@ == text@,
            t@.len() <= (isize::MAX as nat) / 4,
            col as int == cols_after(t@, i as int),
            out@ == expanded(t@, i as int),
        decreases t@.len() - i,
    {
        proof {
            lemma_cols_after(t@, i as int);
            lemma_cols_after(t@, i + 1);
        }
        let c = t[i];
        let ghost before = out@;
        if c == '\t' {
            let stop = (col / TAB_WIDTH + 1) * TAB_WIDTH;
            let mut k = col;
            while k < stop
                invariant
                    col <= k <= stop,
                    out@ == before + spaces(k - col),
                decreases stop - k,
            {
                out.push(' ');
                k = k + 1;
                assert(out@ =~= before + spaces(k - col));
            }
            col = stop;
        } else {
            out.push(c);
            col = col + 1;
        }
        i = i + 1;
    }
    string_of(&out)
}

/// The display column of char index `char_col` in `text` (past the end: the line's full
/// display width) — the same tab-stop rule as [`expand_tabs`].
pub fn display_col(text: &str, char_col: usize) -> (r: usize)
    ensures
        r == cols_after(text@, if char_col < text@.len() {
            char_col as int
        } else {
            text@.len() as int
        }),
{
    let t = chars_of(text);
    crate::text::char_vec_len_bound(&t);
    let n = if char_col < t.len() {
        char_col
    } else {
        t.len()
    };
    let mut col: usize = 0;
    let mut i: usize = 0;
    while i < n
        invariant
            i <= n <= t@.len(),
            t@ == text@,
            t@.len() <= (isize::MAX as nat) / 4,
            col as int == cols_after(t@, i as int),
        decreases n - i,
    {
        proof {
            lemma_cols_after(t@, i as int);
            lemma_cols_after(t@, i + 1);
        }
        col = if t[i] == '\t' {
            (col / TAB_WIDTH + 1) * TAB_WIDTH
        } else {
            col + 1
        };
        i = i + 1;
    }
    col
}

// ---- checkbox tokens ------------------------------------------------------------------

/// The length of the bullet opening `after` (`-`, `+`, `*`, or digits then `.`/`)`).
pub open spec fn token_bullet_len(after: Seq<char>) -> Option<int> {
    if after.len() == 0 {
        None
    } else if after[0] == '-' || after[0] == '+' || after[0] == '*' {
        Some(1)
    } else if is_digit(after[0]) {
        let nd = digits_end(after, 0);
        if nd < after.len() && (after[nd] == '.' || after[nd] == ')') {
            Some(nd + 1)
        } else {
            None
        }
    } else {
        None
    }
}

/// A leading bullet-plus-checkbox token of `text` (after indentation): one space after the
/// bullet, then `[ ]`/`[X]`/`[x]`/`[-]` followed by a space or the end of the line. Its
/// char span and whether it reads as checked.
pub open spec fn checkbox_token(text: Seq<char>) -> Option<((int, int), bool)> {
    let indent = indent_end(text, 0);
    let after = text.skip(indent);
    match token_bullet_len(after) {
        None => None,
        Some(b) => if b < after.len() && after[b] == ' ' {
            let cs = indent + b + 1;
            let rest = text.skip(cs);
            if rest.len() >= 3 && rest[0] == '[' && rest[2] == ']' && (rest[1] == ' ' || rest[1]
                == '-' || rest[1] == 'X' || rest[1] == 'x') && (rest.len() == 3 || rest[3] == ' ') {
                Some(((cs, cs + 3), rest[1] == 'X' || rest[1] == 'x'))
            } else {
                None
            }
        } else {
            None
        },
    }
}

/// A checkbox token lies within the text and is not empty.
pub proof fn lemma_checkbox_bounds(t: Seq<char>)
    ensures
        checkbox_token(t) matches Some(((a, b), _)) ==> 0 <= a < b <= t.len(),
{
    lemma_indent_end(t, 0);
    let indent = indent_end(t, 0);
    let after = t.skip(indent);
    lemma_digits_end(after, 0);
}

/// A cookie token is no longer than the text it opens.
proof fn lemma_cookie_len(x: Seq<char>)
    ensures
        cookie_token(x) matches Some((len, _)) ==> len <= x.len(),
{
    lemma_digits_end(x, 1);
    let n_end = digits_end(x, 1);
    if n_end < x.len() {
        lemma_digits_end(x, n_end + 1);
    }
}

/// The cookie tokens scanned from `i` on lie within the text, each non-empty.
pub proof fn lemma_cookies_bounds(s: Seq<char>, i: int)
    requires
        0 <= i,
    ensures
        forall|k: int|
            0 <= k < cookies_from(s, i).len() ==> 0 <= (#[trigger] cookies_from(s, i)[k]).0.0
                < cookies_from(s, i)[k].0.1 <= s.len(),
    decreases s.len() - i,
{
    if i < s.len() {
        lemma_cookies_bounds(s, i + 1);
        let taken = s[i] == '[' && cookie_token(s.skip(i)) is Some && cookie_token(s.skip(i)).unwrap().0 > 0;
        if taken {
            let (len, c) = cookie_token(s.skip(i)).unwrap();
            lemma_cookie_len(s.skip(i));
            lemma_cookies_bounds(s, i + len);
            let rest = cookies_from(s, i + len);
            assert(cookies_from(s, i) == seq![((i, i + len), c)] + rest);
            assert forall|k: int| 0 <= k < cookies_from(s, i).len() implies 0 <= (
            #[trigger] cookies_from(s, i)[k]).0.0 < cookies_from(s, i)[k].0.1 <= s.len() by {
                if k > 0 {
                    assert(cookies_from(s, i)[k] == rest[k - 1]);
                }
            }
        } else {
            assert(cookies_from(s, i) == cookies_from(s, i + 1));
        }
    }
}

proof fn lemma_bounds(s: Seq<char>)
    ensures
        0 <= indent_end(s, 0) <= s.len(),
        0 <= digits_end(s, 0) <= s.len(),
{
    lemma_indent_end(s, 0);
    lemma_digits_end(s, 0);
}

proof fn lemma_indent_end(s: Seq<char>, i: int)
    requires
        0 <= i,
    ensures
        i <= s.len() ==> i <= indent_end(s, i) <= s.len(),
        i > s.len() ==> indent_end(s, i) == i,
    decreases s.len() - i,
{
    if i < s.len() && (s[i] == ' ' || s[i] == '\t') {
        lemma_indent_end(s, i + 1);
    }
}

proof fn lemma_digits_end(s: Seq<char>, i: int)
    requires
        0 <= i,
    ensures
        i <= s.len() ==> i <= digits_end(s, i) <= s.len(),
        i > s.len() ==> digits_end(s, i) == i,
    decreases s.len() - i,
{
    if i < s.len() && is_digit(s[i]) {
        lemma_digits_end(s, i + 1);
    }
}

fn run_while_digit(s: &[char], from: usize) -> (r: usize)
    requires
        from <= s@.len(),
    ensures
        r as int == digits_end(s@, from as int),
        from <= r <= s@.len(),
{
    proof {
        lemma_digits_end(s@, from as int);
    }
    let mut i = from;
    while i < s.len() && crate::text::digit(s[i])
        invariant
            from <= i <= s@.len(),
            digits_end(s@, from as int) == digits_end(s@, i as int),
        decreases s@.len() - i,
    {
        i = i + 1;
    }
    i
}

fn run_while_indent(s: &[char]) -> (r: usize)
    ensures
        r as int == indent_end(s@, 0),
        r <= s@.len(),
{
    proof {
        lemma_indent_end(s@, 0);
    }
    let mut i: usize = 0;
    while i < s.len() && (s[i] == ' ' || s[i] == '\t')
        invariant
            i <= s@.len(),
            indent_end(s@, 0) == indent_end(s@, i as int),
        decreases s@.len() - i,
    {
        i = i + 1;
    }
    i
}

/// The leading bullet-plus-checkbox token of `text`: its char span and whether it is
/// checked (`X`/`x`); unchecked and partial (`-`) read as unchecked.
pub fn find_checkbox_token(text: &str) -> (r: Option<((usize, usize), bool)>)
    ensures
        match r {
            Some(((a, b), c)) => checkbox_token(text@) == Some(((a as int, b as int), c)),
            None => checkbox_token(text@) is None,
        },
{
    let t = chars_of(text);
    crate::text::char_vec_len_bound(&t);
    let indent = run_while_indent(&t);
    let after = crate::text::slice_vec(&t, indent, t.len());
    assert(after@ =~= t@.skip(indent as int));
    if after.len() == 0 {
        return None;
    }
    let first = after[0];
    let b: usize = if first == '-' || first == '+' || first == '*' {
        1
    } else if crate::text::digit(first) {
        let nd = run_while_digit(&after, 0);
        if nd < after.len() && (after[nd] == '.' || after[nd] == ')') {
            nd + 1
        } else {
            return None;
        }
    } else {
        return None;
    };
    if !(b < after.len() && after[b] == ' ') {
        return None;
    }
    let cs = indent + b + 1;
    let rest = crate::text::slice_vec(&t, cs, t.len());
    assert(rest@ =~= t@.skip(cs as int));
    if rest.len() >= 3 && rest[0] == '[' && rest[2] == ']' && (rest[1] == ' ' || rest[1] == '-'
        || rest[1] == 'X' || rest[1] == 'x') && (rest.len() == 3 || rest[3] == ' ') {
        Some(((cs, cs + 3), rest[1] == 'X' || rest[1] == 'x'))
    } else {
        None
    }
}

// ---- statistics cookies ---------------------------------------------------------------

/// Whether `text` may carry styled cookies: after spaces and tabs it opens with a heading
/// marker run (`#` or `*`) or a bullet (`-`, `+`, digits then `.`/`)`), followed by a space.
pub open spec fn list_or_heading_prefix(text: Seq<char>) -> bool {
    let t = text.skip(indent_end(text, 0));
    if t.len() == 0 {
        false
    } else if t[0] == '#' || t[0] == '*' {
        let run = crate::headline::run_end(t, t[0], 0);
        run < t.len() && t[run] == ' '
    } else if t[0] == '-' || t[0] == '+' {
        t.len() > 1 && t[1] == ' '
    } else if is_digit(t[0]) {
        let nd = digits_end(t, 0);
        nd + 1 < t.len() && (t[nd] == '.' || t[nd] == ')') && t[nd + 1] == ' '
    } else {
        false
    }
}

/// Whether `text` is eligible for cookie styling at all.
pub fn line_has_list_or_heading_prefix(text: &str) -> (r: bool)
    ensures
        r == list_or_heading_prefix(text@),
{
    let s = chars_of(text);
    crate::text::char_vec_len_bound(&s);
    let indent = run_while_indent(&s);
    let t = crate::text::slice_vec(&s, indent, s.len());
    assert(t@ =~= s@.skip(indent as int));
    if t.len() == 0 {
        return false;
    }
    let lead = t[0];
    if lead == '#' || lead == '*' {
        let run = crate::headline::run_end_exec(&t, lead, 0);
        run < t.len() && t[run] == ' '
    } else if lead == '-' || lead == '+' {
        t.len() > 1 && t[1] == ' '
    } else if crate::text::digit(lead) {
        let nd = run_while_digit(&t, 0);
        nd + 1 < t.len() && (t[nd] == '.' || t[nd] == ')') && t[nd + 1] == ' '
    } else {
        false
    }
}

/// A cookie token opening `s` (`s[0] == '['`): `[n%]` or `[n/m]` with decimal `u64`
/// counts. Its length (both brackets included) and whether it reads as complete — `n == m`
/// with `m > 0`, or exactly `100%`.
pub open spec fn cookie_token(s: Seq<char>) -> Option<(int, bool)> {
    let n_end = digits_end(s, 1);
    if n_end == 1 {
        None
    } else {
        match parse_unsigned(s.subrange(1, n_end), u64::MAX as nat) {
            None => None,
            Some(n) => if n_end < s.len() && s[n_end] == '%' {
                if n_end + 1 < s.len() && s[n_end + 1] == ']' {
                    Some((n_end + 2, n == 100))
                } else {
                    None
                }
            } else if n_end < s.len() && s[n_end] == '/' {
                let m_end = digits_end(s, n_end + 1);
                if m_end == n_end + 1 {
                    None
                } else {
                    match parse_unsigned(s.subrange(n_end + 1, m_end), u64::MAX as nat) {
                        None => None,
                        Some(m) => if m_end < s.len() && s[m_end] == ']' {
                            Some((m_end + 1, m > 0 && n == m))
                        } else {
                            None
                        },
                    }
                }
            } else {
                None
            },
        }
    }
}

/// Parse a single cookie token at the start of `s`.
pub fn parse_cookie_token(s: &[char]) -> (r: Option<(usize, bool)>)
    requires
        s@.len() >= 1,
    ensures
        match r {
            Some((len, c)) => cookie_token(s@) == Some((len as int, c)) && 0 < len <= s@.len(),
            None => cookie_token(s@) is None,
        },
{
    let n_end = run_while_digit(s, 1);
    if n_end == 1 {
        return None;
    }
    let nd = crate::text::slice_vec(s, 1, n_end);
    let n = match crate::text::parse_unsigned_exec(&nd, u64::MAX) {
        Some(n) => n,
        None => {
            return None;
        },
    };
    if n_end < s.len() && s[n_end] == '%' {
        if n_end + 1 < s.len() && s[n_end + 1] == ']' {
            Some((n_end + 2, n == 100))
        } else {
            None
        }
    } else if n_end < s.len() && s[n_end] == '/' {
        let m_end = run_while_digit(s, n_end + 1);
        if m_end == n_end + 1 {
            return None;
        }
        let md = crate::text::slice_vec(s, n_end + 1, m_end);
        let m = match crate::text::parse_unsigned_exec(&md, u64::MAX) {
            Some(m) => m,
            None => {
                return None;
            },
        };
        if m_end < s.len() && s[m_end] == ']' {
            Some((m_end + 1, m > 0 && n == m))
        } else {
            None
        }
    } else {
        None
    }
}

/// The cookie tokens found scanning `s` from `i`: their char spans and completeness.
pub open spec fn cookies_from(s: Seq<char>, i: int) -> Seq<((int, int), bool)>
    decreases s.len() - i,
{
    if i < 0 || i >= s.len() {
        seq![]
    } else if s[i] == '[' && cookie_token(s.skip(i)) is Some {
        let (len, c) = cookie_token(s.skip(i)).unwrap();
        if len > 0 {
            seq![((i, i + len), c)] + cookies_from(s, i + len)
        } else {
            cookies_from(s, i + 1)
        }
    } else {
        cookies_from(s, i + 1)
    }
}

/// Every `[n/m]` / `[p%]` statistics-cookie token in `text`, left to right, as its char
/// span and whether it is complete.
pub fn find_cookie_tokens(text: &str) -> (r: Vec<((usize, usize), bool)>)
    ensures
        r@.map_values(|x: ((usize, usize), bool)| ((x.0.0 as int, x.0.1 as int), x.1)) == cookies_from(
            text@,
            0,
        ),
{
    let s = chars_of(text);
    crate::text::char_vec_len_bound(&s);
    let mut out: Vec<((usize, usize), bool)> = Vec::new();
    let mut i: usize = 0;
    while i < s.len()
        invariant
            i <= s@.len(),
            s@ == text@,
            s@.len() <= (isize::MAX as nat) / 4,
            cookies_from(s@, 0) == out@.map_values(
                |x: ((usize, usize), bool)| ((x.0.0 as int, x.0.1 as int), x.1),
            ) + cookies_from(s@, i as int),
        decreases s@.len() - i,
    {
        let ghost before = out@;
        if s[i] == '[' {
            let tail = crate::text::slice_vec(&s, i, s.len());
            assert(tail@ =~= s@.skip(i as int));
            match parse_cookie_token(&tail) {
                Some((len, c)) => {
                    out.push(((i, i + len), c));
                    proof {
                        let f = |x: ((usize, usize), bool)| ((x.0.0 as int, x.0.1 as int), x.1);
                        assert(out@.map_values(f) =~= before.map_values(f).push(
                            ((i as int, i + len), c),
                        ));
                        assert(cookies_from(s@, i as int) =~= seq![((i as int, i + len), c)]
                            + cookies_from(s@, i + len));
                    }
                    i = i + len;
                    continue;
                },
                None => {},
            }
        }
        i = i + 1;
    }
    proof {
        let f = |x: ((usize, usize), bool)| ((x.0.0 as int, x.0.1 as int), x.1);
        assert(cookies_from(s@, i as int) =~= seq![]);
        assert(out@.map_values(f) + seq![] =~= out@.map_values(f));
    }
    out
}

} // verus!
