//! In-buffer text search: smart-case literal matching within one line. Queries never hold
//! newlines (the prompt is single-line), so all matching is per line.
use vstd::prelude::*;

use crate::structure::ascii_lower;
use crate::text::{all_ascii, chars_of, is_ascii_char};

verus! {

/// A match position: `line` and char `col` of the first query char.
#[derive(Debug, Clone, Copy, PartialEq, Eq, Structural)]
pub struct Match {
    pub line: usize,
    pub col: usize,
}

/// The first char of `c`'s lowercase mapping (`c` itself when the mapping is empty).
pub uninterp spec fn lower_first(c: char) -> char;

/// `char::is_uppercase`: the Unicode `Uppercase` property.
pub uninterp spec fn uppercase(c: char) -> bool;

/// Case-fold one char the simple way: `c.to_lowercase().next().unwrap_or(c)`. Its result
/// is named; the contract also states what std documents for ASCII: `A`–`Z` map to
/// `a`–`z`, every other ASCII char maps to itself.
#[verifier::external_body]
fn fold(c: char) -> (r: char)
    ensures
        r == lower_first(c),
        is_ascii_char(c) ==> r == ascii_lower(c),
{
    c.to_lowercase().next().unwrap_or(c)
}

/// `char::is_uppercase`. Its result is named; on ASCII it is exactly `A`–`Z`.
#[verifier::external_body]
fn is_uppercase(c: char) -> (r: bool)
    ensures
        r == uppercase(c),
        is_ascii_char(c) ==> (r <==> ('A' <= c <= 'Z')),
{
    c.is_uppercase()
}

/// Smart case: an exact comparison, or both sides folded.
pub open spec fn smart_eq(a: char, b: char, exact: bool) -> bool {
    if exact {
        a == b
    } else {
        lower_first(a) == lower_first(b)
    }
}

/// Whether the query holds an uppercase char (which makes matching exact).
pub open spec fn has_upper(q: Seq<char>) -> bool {
    exists|i: int| 0 <= i < q.len() && uppercase(#[trigger] q[i])
}

/// Whether `needle` occurs in `hay` at `start`.
pub open spec fn occurs_at(hay: Seq<char>, needle: Seq<char>, start: int, exact: bool) -> bool {
    forall|i: int| 0 <= i < needle.len() ==> smart_eq(#[trigger] hay[start + i], needle[i], exact)
}

/// The starts below `k` where `needle` occurs, in increasing order.
pub open spec fn occurrences(hay: Seq<char>, needle: Seq<char>, exact: bool, k: int) -> Seq<usize>
    decreases k,
{
    if k <= 0 {
        seq![]
    } else {
        occurrences(hay, needle, exact, k - 1) + if occurs_at(hay, needle, k - 1, exact) {
            seq![(k - 1) as usize]
        } else {
            seq![]
        }
    }
}

/// Char cols of every occurrence of `query` in `text` (smart case, overlaps included).
pub open spec fn line_matches(text: Seq<char>, query: Seq<char>) -> Seq<usize> {
    if query.len() == 0 || query.len() > text.len() {
        seq![]
    } else {
        occurrences(text, query, has_upper(query), text.len() - query.len() + 1)
    }
}

/// Whether the query holds an ASCII capital.
pub open spec fn has_ascii_upper(q: Seq<char>) -> bool {
    exists|i: int| 0 <= i < q.len() && 'A' <= #[trigger] q[i] <= 'Z'
}

/// Every char of `s` lowered the ASCII way.
pub open spec fn ascii_lowered(s: Seq<char>) -> Seq<char> {
    s.map_values(|c: char| ascii_lower(c))
}

/// On ASCII text and query: the cols of every occurrence, a query with a capital matching
/// exactly, one without matching both sides lowered.
pub open spec fn ascii_line_matches(text: Seq<char>, query: Seq<char>) -> Seq<usize> {
    if query.len() == 0 || query.len() > text.len() {
        seq![]
    } else if has_ascii_upper(query) {
        occurrences(text, query, true, text.len() - query.len() + 1)
    } else {
        occurrences(ascii_lowered(text), ascii_lowered(query), true, text.len() - query.len() + 1)
    }
}

fn any_upper(q: &[char]) -> (r: bool)
    ensures
        r == has_upper(q@),
        all_ascii(q@) ==> (r == has_ascii_upper(q@)),
{
    let mut i: usize = 0;
    while i < q.len()
        invariant
            i <= q@.len(),
            forall|k: int| 0 <= k < i ==> !uppercase(#[trigger] q@[k]),
            forall|k: int| 0 <= k < i && is_ascii_char(q@[k]) ==> !('A' <= #[trigger] q@[k] <= 'Z'),
        decreases q@.len() - i,
    {
        if is_uppercase(q[i]) {
            return true;
        }
        i = i + 1;
    }
    false
}

/// Every char folded.
fn fold_all(s: &[char]) -> (r: Vec<char>)
    ensures
        r@.len() == s@.len(),
        forall|i: int| 0 <= i < s@.len() ==> #[trigger] r@[i] == lower_first(s@[i]),
        forall|i: int| 0 <= i < s@.len() && is_ascii_char(s@[i]) ==> #[trigger] r@[i] == ascii_lower(s@[i]),
{
    let mut out: Vec<char> = Vec::new();
    let mut i: usize = 0;
    while i < s.len()
        invariant
            i <= s@.len(),
            out@.len() == i,
            forall|k: int| 0 <= k < i ==> #[trigger] out@[k] == lower_first(s@[k]),
            forall|k: int| 0 <= k < i && is_ascii_char(s@[k]) ==> #[trigger] out@[k] == ascii_lower(s@[k]),
        decreases s@.len() - i,
    {
        out.push(fold(s[i]));
        i = i + 1;
    }
    out
}

fn occurs_at_exec(hay: &[char], needle: &[char], start: usize) -> (r: bool)
    requires
        start + needle@.len() <= hay@.len(),
    ensures
        r == occurs_at(hay@, needle@, start as int, true),
{
    let hl = hay.len();
    let mut i: usize = 0;
    while i < needle.len()
        invariant
            hl == hay@.len(),
            start + needle@.len() <= hay@.len(),
            i <= needle@.len(),
            forall|k: int| 0 <= k < i ==> smart_eq(#[trigger] hay@[start + k], needle@[k], true),
        decreases needle@.len() - i,
    {
        if hay[start + i] != needle[i] {
            assert(!smart_eq(hay@[start + i], needle@[i as int], true));
            return false;
        }
        i = i + 1;
    }
    true
}

/// Texts in which the needles occur at the same starts have the same occurrences.
proof fn lemma_occurrences_same(
    h1: Seq<char>,
    n1: Seq<char>,
    e1: bool,
    h2: Seq<char>,
    n2: Seq<char>,
    e2: bool,
    k: int,
)
    requires
        forall|st: int| 0 <= st < k ==> occurs_at(h1, n1, st, e1) == occurs_at(h2, n2, st, e2),
    ensures
        occurrences(h1, n1, e1, k) == occurrences(h2, n2, e2, k),
    decreases k,
{
    if k > 0 {
        lemma_occurrences_same(h1, n1, e1, h2, n2, e2, k - 1);
        assert(occurs_at(h1, n1, k - 1, e1) == occurs_at(h2, n2, k - 1, e2));
    }
}

/// Char cols of every occurrence of `query` in `text` (smart case, overlaps included). On
/// ASCII text and query that is the ASCII smart case of [`ascii_line_matches`].
pub fn matches_in_line(text: &str, query: &str) -> (r: Vec<usize>)
    ensures
        r@ == line_matches(text@, query@),
        all_ascii(text@) && all_ascii(query@) ==> r@ == ascii_line_matches(text@, query@),
{
    let hay0 = chars_of(text);
    let needle0 = chars_of(query);
    if needle0.len() == 0 || needle0.len() > hay0.len() {
        return Vec::new();
    }
    let exact = any_upper(&needle0);
    let (hay, needle) = if exact {
        (hay0, needle0)
    } else {
        (fold_all(&hay0), fold_all(&needle0))
    };
    let hl = hay.len();
    let last = hl - needle.len();
    let mut out: Vec<usize> = Vec::new();
    let mut start: usize = 0;
    while start <= last
        invariant
            hl == hay@.len(),
            needle@.len() >= 1,
            last + needle@.len() == hay@.len(),
            start <= last + 1,
            out@ == occurrences(hay@, needle@, true, start as int),
        decreases last + 1 - start,
    {
        if occurs_at_exec(&hay, &needle, start) {
            out.push(start);
        }
        start = start + 1;
    }
    proof {
        let k = last + 1;
        let t = text@;
        let q = query@;
        assert forall|st: int| 0 <= st < k implies occurs_at(t, q, st, exact) == occurs_at(hay@, needle@, st, true) by {
            if !exact {
                assert forall|i: int| 0 <= i < q.len() implies smart_eq(#[trigger] t[st + i], q[i], false) == smart_eq(hay@[st + i], needle@[i], true) by {
                    assert(hay@[st + i] == lower_first(t[st + i]));
                    assert(needle@[i] == lower_first(q[i]));
                }
                if occurs_at(hay@, needle@, st, true) {
                    assert forall|i: int| 0 <= i < q.len() implies smart_eq(#[trigger] t[st + i], q[i], false) by {
                        assert(smart_eq(hay@[st + i], needle@[i], true));
                    }
                }
                if occurs_at(t, q, st, false) {
                    assert forall|i: int| 0 <= i < needle@.len() implies smart_eq(#[trigger] hay@[st + i], needle@[i], true) by {
                        assert(smart_eq(t[st + i], q[i], false));
                    }
                }
            }
        }
        lemma_occurrences_same(t, q, exact, hay@, needle@, true, k);
        if all_ascii(t) && all_ascii(q) {
            if !exact {
                let at = ascii_lowered(t);
                let aq = ascii_lowered(q);
                assert forall|i: int| 0 <= i < t.len() implies #[trigger] hay@[i] == at[i] by {
                    assert(is_ascii_char(t[i]));
                }
                assert forall|i: int| 0 <= i < q.len() implies #[trigger] needle@[i] == aq[i] by {
                    assert(is_ascii_char(q[i]));
                }
                assert(hay@ =~= at);
                assert(needle@ =~= aq);
            }
        }
    }
    out
}

// ---- a line as shown while searching ------------------------------------------------------

/// What a piece of a line is while searching.
#[derive(Debug, Clone, Copy, PartialEq, Eq, Structural)]
pub enum Hit {
    /// Not part of a match.
    Plain,
    /// An occurrence of the query.
    Match,
    /// The occurrence the search is on.
    Current,
}

/// The starts found below `k` are below `k`.
proof fn lemma_occurrences_below(hay: Seq<char>, needle: Seq<char>, exact: bool, k: int)
    requires
        k <= usize::MAX + 1,
    ensures
        forall|j: int| 0 <= j < occurrences(hay, needle, exact, k).len() ==> (#[trigger] occurrences(hay, needle, exact, k)[j]) < k,
    decreases k,
{
    if k > 0 {
        lemma_occurrences_below(hay, needle, exact, k - 1);
        let prev = occurrences(hay, needle, exact, k - 1);
        let cur = occurrences(hay, needle, exact, k);
        assert forall|j: int| 0 <= j < cur.len() implies (#[trigger] cur[j]) < k by {
            if j < prev.len() {
                assert(cur[j] == prev[j]);
            }
        }
    }
}

/// The pieces emitted for the first `k` match columns, and where the last taken match ends:
/// a match that starts inside the one before it is skipped; the text between matches is
/// plain.
pub open spec fn hits_emitted(cols: Seq<usize>, qlen: int, current: Option<usize>, k: int) -> (Seq<(int, int, Hit)>, int)
    decreases k,
{
    if k <= 0 {
        (seq![], 0)
    } else {
        let (acc, at) = hits_emitted(cols, qlen, current, k - 1);
        let c = cols[k - 1] as int;
        if c < at {
            (acc, at)
        } else {
            let gap = if c > at {
                seq![(at, c, Hit::Plain)]
            } else {
                seq![]
            };
            let hit = if current == Some(cols[k - 1]) {
                Hit::Current
            } else {
                Hit::Match
            };
            (acc + gap + seq![(c, c + qlen, hit)], c + qlen)
        }
    }
}

/// The pieces of `text` while searching for `query`, the match at column `current` (if any)
/// set apart: one plain piece when nothing matches.
pub open spec fn search_pieces_of(text: Seq<char>, query: Seq<char>, current: Option<usize>) -> Seq<(int, int, Hit)> {
    let cols = line_matches(text, query);
    if cols.len() == 0 {
        seq![(0, text.len() as int, Hit::Plain)]
    } else {
        let (acc, at) = hits_emitted(cols, query.len() as int, current, cols.len() as int);
        if at < text.len() {
            acc.push((at, text.len() as int, Hit::Plain))
        } else {
            acc
        }
    }
}

/// The pieces as integers.
pub open spec fn hits_view(v: Seq<(usize, usize, Hit)>) -> Seq<(int, int, Hit)> {
    v.map_values(|p: (usize, usize, Hit)| (p.0 as int, p.1 as int, p.2))
}

/// The pieces of `text` while searching for `query`: `(start, end, hit)` char ranges, left to
/// right; the match at char column `current` is the current one.
pub fn search_pieces(text: &str, query: &str, current: Option<usize>) -> (r: Vec<(usize, usize, Hit)>)
    ensures
        hits_view(r@) == search_pieces_of(text@, query@, current),
{
    let cols = matches_in_line(text, query);
    let t = chars_of(text);
    let q = chars_of(query);
    let mut out: Vec<(usize, usize, Hit)> = Vec::new();
    if cols.len() == 0 {
        out.push((0, t.len(), Hit::Plain));
        assert(hits_view(out@) =~= seq![(0int, t@.len() as int, Hit::Plain)]);
        return out;
    }
    let tl = t.len();
    let ghost exact = has_upper(q@);
    let ghost kmax = t@.len() - q@.len() + 1;
    proof {
        assert(1 <= q@.len() <= t@.len());
        assert(cols@ == occurrences(t@, q@, exact, kmax));
        lemma_occurrences_below(t@, q@, exact, kmax);
    }
    let qlen = q.len();
    let mut at: usize = 0;
    let mut k: usize = 0;
    while k < cols.len()
        invariant
            cols@ == line_matches(text@, query@),
            cols@.len() > 0,
            t@ == text@,
            q@ == query@,
            qlen == q@.len(),
            tl == t@.len(),
            cols@ == occurrences(t@, q@, exact, kmax),
            exact == has_upper(q@),
            kmax == t@.len() - q@.len() + 1,
            1 <= q@.len() <= t@.len(),
            forall|j: int| 0 <= j < cols@.len() ==> (#[trigger] cols@[j]) < kmax,
            k <= cols@.len(),
            at <= t@.len(),
            (hits_view(out@), at as int) == hits_emitted(cols@, qlen as int, current, k as int),
        decreases cols@.len() - k,
    {
        let c = cols[k];
        assert(cols@[k as int] < kmax);
        if c >= at {
            if c > at {
                out.push((at, c, Hit::Plain));
            }
            let hit = match current {
                Some(x) => if x == c { Hit::Current } else { Hit::Match },
                None => Hit::Match,
            };
            out.push((c, c + qlen, hit));
            at = c + qlen;
        }
        proof {
            let (acc, a0) = hits_emitted(cols@, qlen as int, current, k as int);
            if c as int >= a0 {
                let gap = if c > a0 { seq![(a0, c as int, Hit::Plain)] } else { Seq::<(int, int, Hit)>::empty() };
                let hit = if current == Some(cols@[k as int]) { Hit::Current } else { Hit::Match };
                assert(hits_view(out@) =~= acc + gap + seq![(c as int, c + qlen as int, hit)]);
            }
        }
        k = k + 1;
    }
    if at < tl {
        out.push((at, tl, Hit::Plain));
        assert(hits_view(out@) =~= hits_emitted(cols@, qlen as int, current, cols@.len() as int).0.push((at as int, t@.len() as int, Hit::Plain)));
    }
    out
}

} // verus!

verus! {

// ---- finding in a document --------------------------------------------------------------

/// The cols where `q` occurs on line `l` of `s`.
pub open spec fn line_hits(s: Seq<char>, q: Seq<char>, l: int) -> Seq<usize> {
    line_matches(crate::document::line_body(s, l), q)
}

/// The first of `cols` from index `k` on that is at least `c0`.
pub open spec fn first_at_least(cols: Seq<usize>, c0: int, k: int) -> Option<usize>
    decreases cols.len() - k,
{
    if k < 0 || k >= cols.len() {
        None
    } else if cols[k] >= c0 {
        Some(cols[k])
    } else {
        first_at_least(cols, c0, k + 1)
    }
}

/// The last of the first `k` of `cols` that is at most `c1`.
pub open spec fn last_at_most(cols: Seq<usize>, c1: int, k: int) -> Option<usize>
    decreases k,
{
    if k <= 0 || k > cols.len() {
        None
    } else if cols[k - 1] <= c1 {
        Some(cols[k - 1])
    } else {
        last_at_most(cols, c1, k - 1)
    }
}

/// The first occurrence of `q` at or after col `c0` of line `l`, going down the lines.
pub open spec fn first_from(s: Seq<char>, q: Seq<char>, l: int, c0: int) -> Option<Match>
    decreases crate::document::line_count(s) - l,
{
    if l < 0 || l >= crate::document::line_count(s) {
        None
    } else {
        match first_at_least(line_hits(s, q, l), c0, 0) {
            Some(c) => Some(Match { line: l as usize, col: c }),
            None => first_from(s, q, l + 1, 0),
        }
    }
}

/// The last occurrence of `q` at or before col `c1` of line `l`, going up the lines.
pub open spec fn last_upto(s: Seq<char>, q: Seq<char>, l: int, c1: int) -> Option<Match>
    decreases l + 1,
{
    if l < 0 || l >= crate::document::line_count(s) {
        None
    } else {
        let cols = line_hits(s, q, l);
        match last_at_most(cols, c1, cols.len() as int) {
            Some(c) => Some(Match { line: l as usize, col: c }),
            None => last_upto(s, q, l - 1, usize::MAX as int),
        }
    }
}

/// The occurrence of `q` that a search from `(line, col)` lands on, and whether it wrapped:
/// going forward the first at or after the position, else the first in the text; going
/// backward the last at or before it, else the last in the text. An empty query finds
/// nothing.
pub open spec fn found(s: Seq<char>, q: Seq<char>, line: int, col: int, forward: bool) -> Option<(Match, bool)> {
    if q.len() == 0 {
        None
    } else if forward {
        match first_from(s, q, line, col) {
            Some(m) => Some((m, false)),
            None => match first_from(s, q, 0, 0) {
                Some(m) => Some((m, true)),
                None => None,
            },
        }
    } else {
        match last_upto(s, q, line, col) {
            Some(m) => Some((m, false)),
            None => match last_upto(s, q, crate::document::line_count(s) - 1, usize::MAX as int) {
                Some(m) => Some((m, true)),
                None => None,
            },
        }
    }
}

/// Whether `q` occurs (smart case) at col `c` of line `l` of `s`. An empty query occurs
/// nowhere.
pub open spec fn occurs_in(s: Seq<char>, q: Seq<char>, l: int, c: int) -> bool {
    &&& q.len() > 0
    &&& 0 <= l < crate::document::line_count(s)
    &&& 0 <= c
    &&& c + q.len() <= crate::document::line_body(s, l).len()
    &&& occurs_at(crate::document::line_body(s, l), q, c, has_upper(q))
}

/// Position `(l1, c1)` comes before `(l2, c2)` in the text: on an earlier line, or further
/// left on the same line.
pub open spec fn pos_before(l1: int, c1: int, l2: int, c2: int) -> bool {
    l1 < l2 || (l1 == l2 && c1 < c2)
}

/// The occurrences found below `k` are the starts below `k` where the needle occurs, in
/// increasing order.
proof fn lemma_occurrences_exact(hay: Seq<char>, needle: Seq<char>, exact: bool, k: int)
    requires
        0 <= k <= usize::MAX + 1,
    ensures
        forall|j: int| 0 <= j < occurrences(hay, needle, exact, k).len() ==> {
            let c = #[trigger] occurrences(hay, needle, exact, k)[j];
            c < k && occurs_at(hay, needle, c as int, exact)
        },
        forall|i: int, j: int| 0 <= i < j < occurrences(hay, needle, exact, k).len() ==> #[trigger] occurrences(hay, needle, exact, k)[i]
            < #[trigger] occurrences(hay, needle, exact, k)[j],
        forall|c: int| 0 <= c < k && #[trigger] occurs_at(hay, needle, c, exact) ==> exists|j: int|
            0 <= j < occurrences(hay, needle, exact, k).len() && #[trigger] occurrences(hay, needle, exact, k)[j] == c,
    decreases k,
{
    if k > 0 {
        lemma_occurrences_exact(hay, needle, exact, k - 1);
        let prev = occurrences(hay, needle, exact, k - 1);
        let cur = occurrences(hay, needle, exact, k);
        assert forall|j: int| 0 <= j < prev.len() implies #[trigger] cur[j] == prev[j] by {}
        assert forall|j: int| 0 <= j < cur.len() implies {
            let c = #[trigger] cur[j];
            c < k && occurs_at(hay, needle, c as int, exact)
        } by {
            if j < prev.len() {
                assert(cur[j] == prev[j]);
            }
        }
        assert forall|i: int, j: int| 0 <= i < j < cur.len() implies #[trigger] cur[i] < #[trigger] cur[j] by {
            assert(cur[i] == prev[i]);
            if j < prev.len() {
                assert(cur[j] == prev[j]);
            } else {
                assert(prev[i] < k - 1);
            }
        }
        assert forall|c: int| 0 <= c < k && #[trigger] occurs_at(hay, needle, c, exact) implies exists|j: int|
            0 <= j < cur.len() && #[trigger] cur[j] == c by {
            if c < k - 1 {
                let j = choose|j: int| 0 <= j < prev.len() && #[trigger] prev[j] == c;
                assert(cur[j] == prev[j]);
            } else {
                assert(cur[prev.len() as int] == c);
            }
        }
    }
}

/// The cols that line `l` reports are exactly the cols where the query occurs on it, in
/// increasing order.
proof fn lemma_line_hits(s: Seq<char>, q: Seq<char>, l: int)
    requires
        s.len() <= usize::MAX,
        q.len() > 0,
        0 <= l < crate::document::line_count(s),
    ensures
        forall|j: int| 0 <= j < line_hits(s, q, l).len() ==> occurs_in(s, q, l, #[trigger] line_hits(s, q, l)[j] as int),
        forall|i: int, j: int| 0 <= i < j < line_hits(s, q, l).len() ==> #[trigger] line_hits(s, q, l)[i]
            < #[trigger] line_hits(s, q, l)[j],
        forall|c: int| #[trigger] occurs_in(s, q, l, c) ==> exists|j: int|
            0 <= j < line_hits(s, q, l).len() && #[trigger] line_hits(s, q, l)[j] == c,
{
    let body = crate::document::line_body(s, l);
    crate::document::lemma_line_start_bounds(s, l);
    assert(body.len() <= s.len());
    if q.len() <= body.len() {
        let k = body.len() - q.len() + 1;
        lemma_occurrences_exact(body, q, has_upper(q), k);
        assert forall|c: int| #[trigger] occurs_in(s, q, l, c) implies exists|j: int|
            0 <= j < line_hits(s, q, l).len() && #[trigger] line_hits(s, q, l)[j] == c by {
            assert(occurs_at(body, q, c, has_upper(q)));
            let j = choose|j: int| 0 <= j < occurrences(body, q, has_upper(q), k).len()
                && #[trigger] occurrences(body, q, has_upper(q), k)[j] == c;
            assert(line_hits(s, q, l)[j] == c);
        }
    }
}

/// The first of sorted `cols` from index `k` on that is at least `c0`: none of the later ones
/// at least `c0` is smaller; when there is none, all from `k` on are below `c0`.
proof fn lemma_first_at_least(cols: Seq<usize>, c0: int, k: int)
    requires
        0 <= k <= cols.len(),
        forall|i: int, j: int| 0 <= i < j < cols.len() ==> #[trigger] cols[i] < #[trigger] cols[j],
    ensures
        match first_at_least(cols, c0, k) {
            Some(c) => c >= c0 && (exists|j: int| k <= j < cols.len() && #[trigger] cols[j] == c)
                && forall|i: int| k <= i < cols.len() && #[trigger] cols[i] >= c0 ==> c <= cols[i],
            None => forall|i: int| k <= i < cols.len() ==> #[trigger] cols[i] < c0,
        },
    decreases cols.len() - k,
{
    if k < cols.len() {
        if cols[k] >= c0 {
            assert forall|i: int| k <= i < cols.len() && #[trigger] cols[i] >= c0 implies cols[k] <= cols[i] by {
                if i > k {
                    assert(cols[k] < cols[i]);
                }
            }
        } else {
            lemma_first_at_least(cols, c0, k + 1);
        }
    }
}

/// Searching forward from col `c0` of line `l` lands on the first occurrence at or after
/// that position, or finds none there.
proof fn lemma_first_from(s: Seq<char>, q: Seq<char>, l: int, c0: int)
    requires
        s.len() <= usize::MAX,
        q.len() > 0,
        0 <= l,
    ensures
        match first_from(s, q, l, c0) {
            Some(m) => occurs_in(s, q, m.line as int, m.col as int) && !pos_before(m.line as int, m.col as int, l, c0)
                && forall|l2: int, c2: int| #[trigger] occurs_in(s, q, l2, c2) && !pos_before(l2, c2, l, c0)
                ==> !pos_before(l2, c2, m.line as int, m.col as int),
            None => forall|l2: int, c2: int| #[trigger] occurs_in(s, q, l2, c2) ==> pos_before(l2, c2, l, c0),
        },
    decreases crate::document::line_count(s) - l,
{
    crate::document::lemma_line_count_bounds(s);
    if l < crate::document::line_count(s) {
        let cols = line_hits(s, q, l);
        lemma_line_hits(s, q, l);
        lemma_first_at_least(cols, c0, 0);
        match first_at_least(cols, c0, 0) {
            Some(c) => {
                let j = choose|j: int| 0 <= j < cols.len() && #[trigger] cols[j] == c;
                assert(occurs_in(s, q, l, cols[j] as int));
                assert forall|l2: int, c2: int| #[trigger] occurs_in(s, q, l2, c2) && !pos_before(l2, c2, l, c0)
                    implies !pos_before(l2, c2, l, c as int) by {
                    if l2 == l {
                        let i = choose|i: int| 0 <= i < cols.len() && #[trigger] cols[i] == c2;
                        assert(cols[i] >= c0);
                    }
                }
            },
            None => {
                lemma_first_from(s, q, l + 1, 0);
                assert forall|l2: int, c2: int| #[trigger] occurs_in(s, q, l2, c2) && l2 == l implies c2 < c0 by {
                    let i = choose|i: int| 0 <= i < cols.len() && #[trigger] cols[i] == c2;
                    assert(cols[i] < c0);
                }
            },
        }
    }
}

/// A forward search lands on the first occurrence at or after `(line, col)` in the text — on
/// a later line whatever its col — and says it did not wrap; only when there is none there
/// does it wrap, to the first occurrence in the text; it finds nothing only when the query
/// occurs nowhere (an empty query occurs nowhere).
pub proof fn lemma_find_forward(s: Seq<char>, q: Seq<char>, line: int, col: int)
    requires
        s.len() <= usize::MAX,
        0 <= line,
    ensures
        match found(s, q, line, col, true) {
            Some((m, wrapped)) => {
                &&& occurs_in(s, q, m.line as int, m.col as int)
                &&& !wrapped ==> !pos_before(m.line as int, m.col as int, line, col)
                    && forall|l: int, c: int| #[trigger] occurs_in(s, q, l, c) && !pos_before(l, c, line, col)
                    ==> !pos_before(l, c, m.line as int, m.col as int)
                &&& wrapped ==> (forall|l: int, c: int| #[trigger] occurs_in(s, q, l, c) ==> pos_before(l, c, line, col))
                    && forall|l: int, c: int| #[trigger] occurs_in(s, q, l, c)
                    ==> !pos_before(l, c, m.line as int, m.col as int)
            },
            None => forall|l: int, c: int| !#[trigger] occurs_in(s, q, l, c),
        },
{
    if q.len() > 0 {
        lemma_first_from(s, q, line, col);
        lemma_first_from(s, q, 0, 0);
    }
}

/// The last of the first `k` of sorted `cols` that is at most `c1`: none of those at most
/// `c1` is larger; when there is none, all of the first `k` are above `c1`.
proof fn lemma_last_at_most(cols: Seq<usize>, c1: int, k: int)
    requires
        0 <= k <= cols.len(),
        forall|i: int, j: int| 0 <= i < j < cols.len() ==> #[trigger] cols[i] < #[trigger] cols[j],
    ensures
        match last_at_most(cols, c1, k) {
            Some(c) => c <= c1 && (exists|j: int| 0 <= j < k && #[trigger] cols[j] == c)
                && forall|i: int| 0 <= i < k && #[trigger] cols[i] <= c1 ==> cols[i] <= c,
            None => forall|i: int| 0 <= i < k ==> #[trigger] cols[i] > c1,
        },
    decreases k,
{
    if k > 0 {
        if cols[k - 1] <= c1 {
            assert forall|i: int| 0 <= i < k && #[trigger] cols[i] <= c1 implies cols[i] <= cols[k - 1] by {
                if i < k - 1 {
                    assert(cols[i] < cols[k - 1]);
                }
            }
        } else {
            lemma_last_at_most(cols, c1, k - 1);
        }
    }
}

/// Searching backward from col `c1` of line `l` lands on the last occurrence at or before
/// that position, or finds none there.
proof fn lemma_last_upto(s: Seq<char>, q: Seq<char>, l: int, c1: int)
    requires
        s.len() <= usize::MAX,
        q.len() > 0,
        l < crate::document::line_count(s),
    ensures
        match last_upto(s, q, l, c1) {
            Some(m) => occurs_in(s, q, m.line as int, m.col as int) && !pos_before(l, c1, m.line as int, m.col as int)
                && forall|l2: int, c2: int| #[trigger] occurs_in(s, q, l2, c2) && !pos_before(l, c1, l2, c2)
                ==> !pos_before(m.line as int, m.col as int, l2, c2),
            None => forall|l2: int, c2: int| #[trigger] occurs_in(s, q, l2, c2) ==> pos_before(l, c1, l2, c2),
        },
    decreases l + 1,
{
    crate::document::lemma_line_count_bounds(s);
    if l >= 0 {
        let cols = line_hits(s, q, l);
        lemma_line_hits(s, q, l);
        lemma_last_at_most(cols, c1, cols.len() as int);
        match last_at_most(cols, c1, cols.len() as int) {
            Some(c) => {
                let j = choose|j: int| 0 <= j < cols.len() && #[trigger] cols[j] == c;
                assert(occurs_in(s, q, l, cols[j] as int));
                assert forall|l2: int, c2: int| #[trigger] occurs_in(s, q, l2, c2) && !pos_before(l, c1, l2, c2)
                    implies !pos_before(l, c as int, l2, c2) by {
                    if l2 == l {
                        let i = choose|i: int| 0 <= i < cols.len() && #[trigger] cols[i] == c2;
                        assert(cols[i] <= c1);
                    }
                }
            },
            None => {
                lemma_last_upto(s, q, l - 1, usize::MAX as int);
                assert forall|c2: int| #[trigger] occurs_in(s, q, l, c2) implies c2 > c1 by {
                    let i = choose|i: int| 0 <= i < cols.len() && #[trigger] cols[i] == c2;
                    assert(cols[i] > c1);
                }
                if l > 0 {
                    assert forall|c2: int| #[trigger] occurs_in(s, q, l - 1, c2) implies c2 <= usize::MAX by {
                        crate::document::lemma_line_start_bounds(s, l - 1);
                        assert(crate::document::line_body(s, l - 1).len() <= s.len());
                    }
                }
            },
        }
    }
}

/// A backward search lands on the last occurrence at or before `(line, col)` in the text —
/// on an earlier line whatever its col — and says it did not wrap; only when there is none
/// there does it wrap, to the last occurrence in the text; it finds nothing only when the
/// query occurs nowhere. The line is one of the text's.
pub proof fn lemma_find_backward(s: Seq<char>, q: Seq<char>, line: int, col: int)
    requires
        s.len() <= usize::MAX,
        0 <= line < crate::document::line_count(s),
    ensures
        match found(s, q, line, col, false) {
            Some((m, wrapped)) => {
                &&& occurs_in(s, q, m.line as int, m.col as int)
                &&& !wrapped ==> !pos_before(line, col, m.line as int, m.col as int)
                    && forall|l: int, c: int| #[trigger] occurs_in(s, q, l, c) && !pos_before(line, col, l, c)
                    ==> !pos_before(m.line as int, m.col as int, l, c)
                &&& wrapped ==> (forall|l: int, c: int| #[trigger] occurs_in(s, q, l, c) ==> pos_before(line, col, l, c))
                    && forall|l: int, c: int| #[trigger] occurs_in(s, q, l, c)
                    ==> !pos_before(m.line as int, m.col as int, l, c)
            },
            None => forall|l: int, c: int| !#[trigger] occurs_in(s, q, l, c),
        },
{
    if q.len() > 0 {
        let last = crate::document::line_count(s) - 1;
        lemma_last_upto(s, q, line, col);
        lemma_last_upto(s, q, last, usize::MAX as int);
        crate::document::lemma_line_start_bounds(s, last);
        assert forall|l: int, c: int| #[trigger] occurs_in(s, q, l, c) implies !pos_before(last, usize::MAX as int, l, c) by {
            crate::document::lemma_line_start_bounds(s, l);
        }
    }
}

/// The cols where `q` occurs on line `l` of `doc`.
fn hits_on(doc: &crate::document::Document, q: &str, l: usize) -> (r: Vec<usize>)
    ensures
        r@ == line_hits(doc@, q@, l as int),
{
    let body = doc.line_body(l);
    let text = crate::text::string_of(&body);
    matches_in_line(text.as_str(), q)
}

fn first_at_least_exec(cols: &Vec<usize>, c0: usize) -> (r: Option<usize>)
    ensures
        r == first_at_least(cols@, c0 as int, 0),
{
    let mut k: usize = 0;
    while k < cols.len()
        invariant
            k <= cols@.len(),
            first_at_least(cols@, c0 as int, 0) == first_at_least(cols@, c0 as int, k as int),
        decreases cols@.len() - k,
    {
        if cols[k] >= c0 {
            return Some(cols[k]);
        }
        k = k + 1;
    }
    None
}

fn last_at_most_exec(cols: &Vec<usize>, c1: usize) -> (r: Option<usize>)
    ensures
        r == last_at_most(cols@, c1 as int, cols@.len() as int),
{
    let mut k: usize = cols.len();
    while k > 0
        invariant
            k <= cols@.len(),
            last_at_most(cols@, c1 as int, cols@.len() as int) == last_at_most(cols@, c1 as int, k as int),
        decreases k,
    {
        if cols[k - 1] <= c1 {
            return Some(cols[k - 1]);
        }
        k = k - 1;
    }
    None
}

fn first_from_exec(doc: &crate::document::Document, q: &str, line: usize, col: usize) -> (r: Option<Match>)
    ensures
        r == first_from(doc@, q@, line as int, col as int),
{
    let n = doc.line_count();
    let mut l = line;
    let mut c0 = col;
    while l < n
        invariant
            n as int == crate::document::line_count(doc@),
            first_from(doc@, q@, line as int, col as int) == first_from(doc@, q@, l as int, c0 as int),
        decreases n - l,
    {
        let hits = hits_on(doc, q, l);
        match first_at_least_exec(&hits, c0) {
            Some(c) => {
                return Some(Match { line: l, col: c });
            },
            None => {},
        }
        l = l + 1;
        c0 = 0;
    }
    None
}

#[verifier::spinoff_prover]
fn last_upto_exec(doc: &crate::document::Document, q: &str, line: usize, col: usize) -> (r: Option<Match>)
    ensures
        r == last_upto(doc@, q@, line as int, col as int),
{
    let n = doc.line_count();
    if line >= n {
        return None;
    }
    let mut l = line;
    let mut c1 = col;
    loop
        invariant
            l < n,
            n as int == crate::document::line_count(doc@),
            last_upto(doc@, q@, line as int, col as int) == last_upto(doc@, q@, l as int, c1 as int),
        decreases l,
    {
        let hits = hits_on(doc, q, l);
        match last_at_most_exec(&hits, c1) {
            Some(c) => {
                return Some(Match { line: l, col: c });
            },
            None => {},
        }
        if l == 0 {
            return None;
        }
        l = l - 1;
        c1 = usize::MAX;
    }
}

/// Find `query` from `(line, col)`: going forward the first occurrence at or after it, going
/// backward the last at or before it, wrapping once to the other end of the text; with
/// whether it wrapped. An empty query finds nothing.
pub fn find(doc: &crate::document::Document, query: &str, line: usize, col: usize, forward: bool) -> (r: Option<(Match, bool)>)
    ensures
        r == found(doc@, query@, line as int, col as int, forward),
{
    let qv = chars_of(query);
    if qv.len() == 0 {
        return None;
    }
    if forward {
        match first_from_exec(doc, query, line, col) {
            Some(m) => Some((m, false)),
            None => match first_from_exec(doc, query, 0, 0) {
                Some(m) => Some((m, true)),
                None => None,
            },
        }
    } else {
        match last_upto_exec(doc, query, line, col) {
            Some(m) => Some((m, false)),
            None => {
                let last = doc.line_count() - 1;
                match last_upto_exec(doc, query, last, usize::MAX) {
                    Some(m) => Some((m, true)),
                    None => None,
                }
            },
        }
    }
}

/// Find `query` going backward from just before `(line, col)`: the last occurrence before
/// it, wrapping once to the end of the text.
#[verifier::spinoff_prover]
pub fn find_before(doc: &crate::document::Document, query: &str, line: usize, col: usize) -> (r: Option<(Match, bool)>)
    ensures
        r == found(doc@, query@, line as int, col - 1, false),
{
    if col > 0 {
        return find(doc, query, line, col - 1, false);
    }
    let qv = chars_of(query);
    if qv.len() == 0 {
        return None;
    }
    let n = doc.line_count();
    proof {
        let s = doc@;
        let q = query@;
        if 0 <= line < crate::document::line_count(s) {
            let cols = line_hits(s, q, line as int);
            lemma_none_below_zero(cols, cols.len() as int);
        }
    }
    if line > 0 && line < n {
        return find(doc, query, line - 1, usize::MAX, false);
    }
    match last_upto_exec(doc, query, n - 1, usize::MAX) {
        Some(m) => Some((m, true)),
        None => None,
    }
}

/// No col is below zero.
proof fn lemma_none_below_zero(cols: Seq<usize>, k: int)
    ensures
        last_at_most(cols, -1, k) is None,
    decreases k,
{
    if 0 < k <= cols.len() {
        lemma_none_below_zero(cols, k - 1);
    }
}

} // verus!
