//! The text model: a buffer of chars with a modified flag, addressed by char index and by
//! line. A line is the text up to and including its `'\n'`; a text ending in `'\n'` has a
//! final empty line after it, as a rope counts lines.
use vstd::prelude::*;

use crate::text::{chars_of, index_of, index_of_from, lemma_index_of, slice_vec, string_of};

verus! {

/// Where line `line` of `s` starts: after the `line`-th newline, or at the end of the text
/// when there are fewer lines.
pub open spec fn line_start(s: Seq<char>, line: int) -> int
    decreases line,
{
    if line <= 0 {
        0
    } else {
        let p = line_start(s, line - 1);
        let e = index_of_from(s, '\n', p);
        if e < s.len() {
            e + 1
        } else {
            s.len() as int
        }
    }
}

/// Where line `line` ends: at its `'\n'`, or at the end of the text.
pub open spec fn line_end(s: Seq<char>, line: int) -> int {
    index_of_from(s, '\n', line_start(s, line))
}

/// The number of lines from position `p` on.
pub open spec fn lines_from(s: Seq<char>, p: int) -> int
    decreases s.len() - p,
{
    if p < 0 || p > s.len() {
        0
    } else {
        proof {
            lemma_index_of(s, '\n', p);
        }
        let e = index_of_from(s, '\n', p);
        if e < s.len() {
            1 + lines_from(s, e + 1)
        } else {
            1
        }
    }
}

/// The number of lines of `s`: one more than its newlines.
pub open spec fn line_count(s: Seq<char>) -> int {
    lines_from(s, 0)
}

/// Line `line` with its `'\n'`, or empty past the last line.
pub open spec fn line_of(s: Seq<char>, line: int) -> Seq<char> {
    if 0 <= line < line_count(s) {
        let e = line_end(s, line);
        s.subrange(line_start(s, line), if e < s.len() {
            e + 1
        } else {
            e
        })
    } else {
        seq![]
    }
}

/// Line `line` without its `'\n'`, or empty past the last line.
pub open spec fn line_body(s: Seq<char>, line: int) -> Seq<char> {
    if 0 <= line < line_count(s) {
        s.subrange(line_start(s, line), line_end(s, line))
    } else {
        seq![]
    }
}

/// The line holding char index `idx`: the number of newlines before it.
pub open spec fn line_at(s: Seq<char>, idx: int) -> int
    decreases idx,
{
    if idx <= 0 || s.len() == 0 {
        0
    } else {
        let k = if idx > s.len() {
            s.len() as int
        } else {
            idx
        };
        line_at(s, k - 1) + if s[k - 1] == '\n' {
            1int
        } else {
            0int
        }
    }
}

/// `s` with `t` inserted at `at`.
pub open spec fn spliced_in(s: Seq<char>, at: int, t: Seq<char>) -> Seq<char> {
    s.take(at) + t + s.skip(at)
}

/// `s` without the chars in `[start, end)`.
pub open spec fn spliced_out(s: Seq<char>, start: int, end: int) -> Seq<char> {
    s.take(start) + s.skip(end)
}

proof fn lemma_line_start_step(s: Seq<char>, k: int)
    requires
        k >= 0,
        0 <= line_start(s, k) <= s.len(),
    ensures
        0 <= line_start(s, k + 1) <= s.len(),
        line_start(s, k) <= line_end(s, k) <= s.len(),
        line_end(s, k) < s.len() ==> line_start(s, k + 1) == line_end(s, k) + 1,
        line_end(s, k) == s.len() ==> line_start(s, k + 1) == s.len(),
{
    lemma_index_of(s, '\n', line_start(s, k));
}

/// Line starts lie within the text and never go backwards.
pub proof fn lemma_line_start_bounds(s: Seq<char>, k: int)
    ensures
        0 <= line_start(s, k) <= s.len(),
        k >= 0 ==> line_start(s, k) <= line_end(s, k) <= s.len(),
        k >= 0 ==> line_start(s, k) <= line_start(s, k + 1),
        k >= 0 && line_end(s, k) < s.len() ==> line_start(s, k + 1) == line_end(s, k) + 1,
        k >= 0 && line_end(s, k) == s.len() ==> line_start(s, k + 1) == s.len(),
    decreases k,
{
    if k > 0 {
        lemma_line_start_bounds(s, k - 1);
    }
    if k >= 0 {
        lemma_line_start_step(s, k);
    }
}

proof fn lemma_lines_from_pos(s: Seq<char>, p: int)
    requires
        0 <= p <= s.len(),
    ensures
        lines_from(s, p) >= 1,
        lines_from(s, p) <= s.len() - p + 1,
    decreases s.len() - p,
{
    lemma_index_of(s, '\n', p);
    let e = index_of_from(s, '\n', p);
    if e < s.len() {
        lemma_lines_from_pos(s, e + 1);
    }
}

/// When the first `k` lines all end in a newline, the text has `k` lines before line `k`'s
/// start, so more than `k` in all.
pub proof fn lemma_lines_before(t: Seq<char>, k: int)
    requires
        0 <= k,
        forall|j: int| 0 <= j < k ==> #[trigger] line_end(t, j) < t.len(),
    ensures
        lines_from(t, 0) == k + lines_from(t, line_start(t, k)),
        line_count(t) >= k + 1,
    decreases k,
{
    lemma_line_start_bounds(t, k);
    lemma_lines_from_pos(t, line_start(t, k));
    if k > 0 {
        lemma_lines_before(t, k - 1);
        lemma_line_start_bounds(t, k - 1);
        assert(line_end(t, k - 1) < t.len());
    }
}

/// A text has at least one line and at most one more than its length.
pub proof fn lemma_line_count_bounds(s: Seq<char>)
    ensures
        1 <= line_count(s) <= s.len() + 1,
{
    lemma_lines_from_pos(s, 0);
}

/// Lines before the last end at a newline; the count of lines from a line's start is the
/// number of lines left.
pub proof fn lemma_lines_left(s: Seq<char>, k: int)
    requires
        0 <= k < line_count(s),
    ensures
        lines_from(s, line_start(s, k)) == line_count(s) - k,
        k < line_count(s) - 1 <==> line_end(s, k) < s.len(),
    decreases k,
{
    lemma_line_start_bounds(s, k);
    lemma_lines_from_pos(s, line_start(s, k));
    if k > 0 {
        lemma_lines_left(s, k - 1);
        lemma_line_start_bounds(s, k - 1);
        lemma_index_of(s, '\n', line_start(s, k - 1));
    }
    lemma_index_of(s, '\n', line_start(s, k));
    if line_end(s, k) < s.len() {
        lemma_lines_from_pos(s, line_end(s, k) + 1);
    }
}

/// The first `n` lines of `s`, line `l` replaced by `g(l, line)`, joined back together.
pub open spec fn mapped_lines(s: Seq<char>, g: spec_fn(int, Seq<char>) -> Seq<char>, n: int) -> Seq<char>
    decreases n,
{
    if n <= 0 {
        seq![]
    } else {
        mapped_lines(s, g, n - 1) + g(n - 1, line_of(s, n - 1))
    }
}

/// Every line of `s` passed through `g`, joined back together.
pub open spec fn with_lines(s: Seq<char>, g: spec_fn(int, Seq<char>) -> Seq<char>) -> Seq<char> {
    mapped_lines(s, g, line_count(s))
}

/// The last line runs to the end of the text.
pub proof fn lemma_last_line_end(s: Seq<char>)
    ensures
        line_start(s, line_count(s)) == s.len(),
        line_end(s, line_count(s) - 1) == s.len(),
{
    lemma_line_count_bounds(s);
    let k = line_count(s) - 1;
    lemma_lines_left(s, k);
    lemma_line_start_bounds(s, k);
}

/// Line `l` is the text from its start to the next line's start.
pub proof fn lemma_line_span(s: Seq<char>, l: int)
    requires
        0 <= l < line_count(s),
    ensures
        line_of(s, l) == s.subrange(line_start(s, l), line_start(s, l + 1)),
        line_start(s, l) <= line_start(s, l + 1) <= s.len(),
{
    lemma_line_start_bounds(s, l);
}

/// Lines that `g` leaves alone join back into the text they came from.
pub proof fn lemma_lines_join(s: Seq<char>, g: spec_fn(int, Seq<char>) -> Seq<char>, n: int)
    requires
        0 <= n <= line_count(s),
        forall|l: int| 0 <= l < n ==> #[trigger] g(l, line_of(s, l)) == line_of(s, l),
    ensures
        mapped_lines(s, g, n) == s.take(line_start(s, n)),
    decreases n,
{
    if n > 0 {
        lemma_lines_join(s, g, n - 1);
        lemma_line_span(s, n - 1);
        lemma_line_start_bounds(s, n - 1);
        assert(s.take(line_start(s, n - 1)) + line_of(s, n - 1) =~= s.take(line_start(s, n)));
    }
}

/// The text buffer.
pub struct Document {
    text: Vec<char>,
    modified: bool,
}

impl View for Document {
    type V = Seq<char>;

    closed spec fn view(&self) -> Seq<char> {
        self.text@
    }
}

impl Document {
    /// Whether the text changed since it was loaded or last marked saved.
    pub closed spec fn modified_flag(&self) -> bool {
        self.modified
    }

    /// An empty, unmodified buffer.
    pub fn new() -> (d: Document)
        ensures
            d@ == Seq::<char>::empty(),
            !d.modified_flag(),
    {
        Document { text: Vec::new(), modified: false }
    }

    /// A buffer holding `text`, unmodified.
    pub fn from_text(text: &str) -> (d: Document)
        ensures
            d@ == text@,
            !d.modified_flag(),
    {
        Document { text: chars_of(text), modified: false }
    }

    /// A buffer holding the chars `text`, unmodified.
    pub fn from_chars(text: Vec<char>) -> (d: Document)
        ensures
            d@ == text@,
            !d.modified_flag(),
    {
        Document { text, modified: false }
    }

    /// The whole text.
    pub fn text(&self) -> (r: String)
        ensures
            r@ == self@,
    {
        string_of(&self.text)
    }

    /// The whole text as chars.
    pub fn chars(&self) -> (r: &Vec<char>)
        ensures
            r@ == self@,
    {
        &self.text
    }

    /// Whether the text changed since it was loaded or last marked saved.
    pub fn is_modified(&self) -> (r: bool)
        ensures
            r == self.modified_flag(),
    {
        self.modified
    }

    /// Record that the text is now saved.
    pub fn mark_saved(&mut self)
        ensures
            final(self)@ == old(self)@,
            !final(self).modified_flag(),
    {
        self.modified = false;
    }

    /// The text is far shorter than `usize::MAX` (a `Vec` holds at most `isize::MAX` bytes).
    pub fn len_bound(&self)
        ensures
            self@.len() <= (isize::MAX as nat) / 4,
    {
        crate::text::char_vec_len_bound(&self.text);
    }

    /// The number of chars.
    pub fn char_count(&self) -> (r: usize)
        ensures
            r == self@.len(),
    {
        self.text.len()
    }

    /// The number of lines: one more than the number of newlines.
    pub fn line_count(&self) -> (r: usize)
        ensures
            r as int == line_count(self@),
            r >= 1,
    {
        crate::text::char_vec_len_bound(&self.text);
        let mut count: usize = 1;
        let mut p: usize = 0;
        loop
            invariant
                p <= self.text@.len(),
                self.text@.len() <= (isize::MAX as nat) / 4,
                1 <= count <= p + 1,
                line_count(self.text@) == count - 1 + lines_from(self.text@, p as int),
            decreases self.text@.len() - p,
        {
            let e = index_of(&self.text, '\n', p);
            if e >= self.text.len() {
                return count;
            }
            count = count + 1;
            p = e + 1;
        }
    }

    /// The char index where `line` starts, or the char count past the last line.
    pub fn line_to_char(&self, line: usize) -> (r: usize)
        ensures
            r as int == line_start(self@, line as int),
            r <= self@.len(),
    {
        let mut k: usize = 0;
        let mut p: usize = 0;
        while k < line
            invariant
                k <= line,
                p as int == line_start(self.text@, k as int),
                p <= self.text@.len(),
            decreases line - k,
        {
            proof {
                lemma_line_start_bounds(self.text@, k as int);
            }
            let e = index_of(&self.text, '\n', p);
            p = if e < self.text.len() {
                e + 1
            } else {
                self.text.len()
            };
            k = k + 1;
        }
        p
    }

    /// The char index where `line` ends (its `'\n'`, or the end of the text).
    pub fn line_end_char(&self, line: usize) -> (r: usize)
        ensures
            r as int == line_end(self@, line as int),
            line_start(self@, line as int) <= r <= self@.len(),
    {
        let p = self.line_to_char(line);
        proof {
            lemma_line_start_bounds(self@, line as int);
        }
        index_of(&self.text, '\n', p)
    }

    /// Line `line` with its `'\n'`, or empty past the last line.
    pub fn line_text(&self, line: usize) -> (r: Vec<char>)
        ensures
            r@ == line_of(self@, line as int),
    {
        let n = self.line_count();
        if line >= n {
            return Vec::new();
        }
        let p = self.line_to_char(line);
        let e = self.line_end_char(line);
        let stop = if e < self.text.len() {
            e + 1
        } else {
            e
        };
        slice_vec(&self.text, p, stop)
    }

    /// Line `line` without its `'\n'`, or empty past the last line.
    pub fn line_body(&self, line: usize) -> (r: Vec<char>)
        ensures
            r@ == line_body(self@, line as int),
    {
        let n = self.line_count();
        if line >= n {
            return Vec::new();
        }
        let p = self.line_to_char(line);
        let e = self.line_end_char(line);
        slice_vec(&self.text, p, e)
    }

    /// The number of chars on `line`, its `'\n'` excluded.
    pub fn line_len_chars(&self, line: usize) -> (r: usize)
        ensures
            r == line_body(self@, line as int).len(),
    {
        let n = self.line_count();
        if line >= n {
            return 0;
        }
        let p = self.line_to_char(line);
        let e = self.line_end_char(line);
        e - p
    }

    /// The line holding char index `idx` (the number of newlines before it).
    pub fn char_to_line(&self, idx: usize) -> (r: usize)
        ensures
            r == line_at(self@, idx as int),
            r <= self@.len(),
    {
        let k = if idx > self.text.len() {
            self.text.len()
        } else {
            idx
        };
        let mut i: usize = 0;
        let mut n: usize = 0;
        while i < k
            invariant
                i <= k <= self.text@.len(),
                n == line_at(self.text@, i as int),
                n <= i,
                k == (if idx > self.text@.len() {
                    self.text@.len() as int
                } else {
                    idx as int
                }),
            decreases k - i,
        {
            if self.text[i] == '\n' {
                n = n + 1;
            }
            i = i + 1;
        }
        assert(line_at(self.text@, idx as int) == line_at(self.text@, k as int)) by {
            if idx > self.text@.len() && self.text@.len() > 0 {
                assert(line_at(self.text@, idx as int) == line_at(
                    self.text@,
                    self.text@.len() - 1,
                ) + if self.text@[self.text@.len() - 1] == '\n' {
                    1int
                } else {
                    0int
                });
            }
        }
        n
    }

    /// Replace the whole text with `t`.
    pub fn set_chars(&mut self, t: Vec<char>)
        ensures
            final(self)@ == t@,
            final(self).modified_flag(),
    {
        self.text = t;
        self.modified = true;
    }

    /// Insert `t` at char index `at`.
    pub fn insert(&mut self, at: usize, t: &[char])
        requires
            at <= old(self)@.len(),
        ensures
            final(self)@ == spliced_in(old(self)@, at as int, t@),
            final(self).modified_flag(),
    {
        let mut out = slice_vec(&self.text, 0, at);
        crate::text::append_chars(&mut out, t);
        let tail = slice_vec(&self.text, at, self.text.len());
        crate::text::append_chars(&mut out, &tail);
        assert(out@ =~= spliced_in(self.text@, at as int, t@));
        self.text = out;
        self.modified = true;
    }

    /// Insert the text `t` at char index `at`.
    pub fn insert_str(&mut self, at: usize, t: &str)
        requires
            at <= old(self)@.len(),
        ensures
            final(self)@ == spliced_in(old(self)@, at as int, t@),
            final(self).modified_flag(),
    {
        let v = chars_of(t);
        self.insert(at, &v);
    }

    /// Remove the chars in `[start, end)`.
    pub fn remove(&mut self, start: usize, end: usize)
        requires
            start <= end <= old(self)@.len(),
        ensures
            final(self)@ == spliced_out(old(self)@, start as int, end as int),
            final(self).modified_flag(),
    {
        let mut out = slice_vec(&self.text, 0, start);
        let tail = slice_vec(&self.text, end, self.text.len());
        crate::text::append_chars(&mut out, &tail);
        assert(out@ =~= spliced_out(self.text@, start as int, end as int));
        self.text = out;
        self.modified = true;
    }
}

/// Across a stretch without a newline the line number of a position stays the same.
proof fn lemma_line_at_run(s: Seq<char>, p: int, j: int)
    requires
        0 <= p <= j <= s.len(),
        forall|i: int| p <= i < j ==> s[i] != '\n',
    ensures
        line_at(s, j) == line_at(s, p),
    decreases j - p,
{
    if j > p {
        lemma_line_at_run(s, p, j - 1);
    }
}

/// The line number of a position depends only on the text before it.
pub proof fn lemma_line_at_prefix(a: Seq<char>, b: Seq<char>, p: int)
    requires
        0 <= p <= a.len(),
        p <= b.len(),
        forall|i: int| 0 <= i < p ==> a[i] == b[i],
    ensures
        line_at(a, p) == line_at(b, p),
    decreases p,
{
    if p > 0 {
        lemma_line_at_prefix(a, b, p - 1);
    }
}

/// The start of line `l` is on line `l`.
pub proof fn lemma_line_at_start(s: Seq<char>, l: int)
    requires
        0 <= l < line_count(s),
    ensures
        line_at(s, line_start(s, l)) == l,
    decreases l,
{
    if l > 0 {
        lemma_line_at_start(s, l - 1);
        lemma_line_parts(s, l - 1);
        lemma_lines_left(s, l - 1);
        lemma_line_start_bounds(s, l - 1);
        lemma_line_at_run(s, line_start(s, l - 1), line_end(s, l - 1));
    }
}

/// The end of the text is on the last line.
pub proof fn lemma_line_at_end(s: Seq<char>)
    ensures
        line_at(s, s.len() as int) == line_count(s) - 1,
{
    lemma_line_count_bounds(s);
    let last = line_count(s) - 1;
    lemma_last_line_end(s);
    lemma_line_parts(s, last);
    lemma_line_at_start(s, last);
    lemma_line_at_run(s, line_start(s, last), s.len() as int);
}

/// A line is its body plus, before the last line, its newline.
pub proof fn lemma_line_parts(s: Seq<char>, l: int)
    requires
        0 <= l < line_count(s),
    ensures
        crate::text::strip_nl(line_of(s, l)) == line_body(s, l),
        line_start(s, l) + line_body(s, l).len() == line_end(s, l),
        0 <= line_start(s, l) <= line_end(s, l) <= s.len(),
        line_body(s, l) == s.subrange(line_start(s, l), line_end(s, l)),
        line_end(s, l) < s.len() ==> line_of(s, l) == line_body(s, l).push('\n'),
        line_end(s, l) == s.len() ==> line_of(s, l) == line_body(s, l),
        forall|k: int| line_start(s, l) <= k < line_end(s, l) ==> s[k] != '\n',
{
    lemma_line_start_bounds(s, l);
    lemma_index_of(s, '\n', line_start(s, l));
    let st = line_start(s, l);
    let e = line_end(s, l);
    if e < s.len() {
        assert(line_of(s, l) =~= line_body(s, l).push('\n'));
    } else {
        assert(line_of(s, l) =~= line_body(s, l));
        if line_body(s, l).len() > 0 {
            assert(line_body(s, l).last() == s[e - 1]);
        }
    }
}

} // verus!
