//! Facts about texts rebuilt line by line: when every rewritten line keeps its newline (and
//! gains no other), the new text has the same lines, each the rewritten one. Edits that stay
//! inside one line are such rewrites.
use vstd::prelude::*;

use crate::document::{
    lemma_last_line_end, lemma_line_count_bounds, lemma_line_parts, lemma_line_span,
    lemma_line_start_bounds, line_body, line_count, line_end, line_of, line_start, lines_from,
    mapped_lines, with_lines,
};
use crate::text::{index_of_from, lemma_index_of};

verus! {

/// Line starts never go backwards.
pub proof fn lemma_line_start_mono(s: Seq<char>, a: int, b: int)
    requires
        0 <= a <= b,
    ensures
        line_start(s, a) <= line_start(s, b) <= s.len(),
    decreases b - a,
{
    lemma_line_start_bounds(s, b);
    if a < b {
        lemma_line_start_mono(s, a, b - 1);
        lemma_line_start_bounds(s, b - 1);
    }
}

/// Lines `m..n` that `g` leaves alone join into the text between their starts.
pub proof fn lemma_lines_join_from(s: Seq<char>, g: spec_fn(int, Seq<char>) -> Seq<char>, m: int, n: int)
    requires
        0 <= m <= n <= line_count(s),
        forall|l: int| m <= l < n ==> #[trigger] g(l, line_of(s, l)) == line_of(s, l),
    ensures
        mapped_lines(s, g, n) == mapped_lines(s, g, m) + s.subrange(line_start(s, m), line_start(s, n)),
    decreases n - m,
{
    lemma_line_start_mono(s, m, n);
    lemma_line_start_bounds(s, m);
    if n > m {
        lemma_lines_join_from(s, g, m, n - 1);
        lemma_line_span(s, n - 1);
        lemma_line_start_mono(s, m, n - 1);
        assert(n - 1 + 1 == n);
        assert(line_of(s, n - 1) == s.subrange(line_start(s, n - 1), line_start(s, n)));
        assert(s.subrange(line_start(s, m), line_start(s, n - 1)) + line_of(s, n - 1) =~= s.subrange(
            line_start(s, m),
            line_start(s, n),
        ));
        assert(mapped_lines(s, g, n) == mapped_lines(s, g, n - 1) + g(n - 1, line_of(s, n - 1)));
    } else {
        assert(s.subrange(line_start(s, m), line_start(s, n)) =~= seq![]);
    }
}

/// Line `l` with its chars `[i, j)` replaced by `x`; other lines unchanged.
pub open spec fn line_replaced(line: int, i: int, j: int, x: Seq<char>) -> spec_fn(int, Seq<char>) -> Seq<char> {
    |l: int, t: Seq<char>|
        if l == line {
            t.take(i) + x + t.skip(j)
        } else {
            t
        }
}

/// An edit inside one line's body is that line rewritten.
pub proof fn lemma_edit_in_line(s: Seq<char>, line: int, a: int, b: int, x: Seq<char>)
    requires
        0 <= line < line_count(s),
        line_start(s, line) <= a <= b <= line_start(s, line) + line_body(s, line).len(),
    ensures
        s.take(a) + x + s.skip(b) == with_lines(
            s,
            line_replaced(line, a - line_start(s, line), b - line_start(s, line), x),
        ),
{
    let g = line_replaced(line, a - line_start(s, line), b - line_start(s, line), x);
    let n = line_count(s);
    let ls = line_start(s, line);
    lemma_line_parts(s, line);
    lemma_line_span(s, line);
    lemma_last_line_end(s);
    assert forall|l: int| 0 <= l < line implies #[trigger] g(l, line_of(s, l)) == line_of(s, l) by {}
    assert forall|l: int| line + 1 <= l < n implies #[trigger] g(l, line_of(s, l)) == line_of(s, l) by {}
    lemma_lines_join_from(s, g, 0, line);
    lemma_lines_join_from(s, g, line + 1, n);
    assert(mapped_lines(s, g, 0) =~= seq![]);
    let lo = line_of(s, line);
    assert(mapped_lines(s, g, line + 1) == mapped_lines(s, g, line) + g(line, lo));
    assert(s.subrange(0, ls) =~= s.take(ls));
    assert(s.subrange(line_start(s, line + 1), line_start(s, n)) =~= s.skip(line_start(s, line + 1)));
    assert(s.take(ls) + (lo.take(a - ls) + x + lo.skip(b - ls)) + s.skip(line_start(s, line + 1))
        =~= s.take(a) + x + s.skip(b));
}

/// Whether `p` could stand as line `l` of a text of `n` lines: before the last line it ends
/// in its only newline; the last line holds none.
pub open spec fn line_shaped(p: Seq<char>, l: int, n: int) -> bool {
    if l < n - 1 {
        p.len() > 0 && p.last() == '\n' && forall|i: int| 0 <= i < p.len() - 1 ==> p[i] != '\n'
    } else {
        forall|i: int| 0 <= i < p.len() ==> p[i] != '\n'
    }
}

/// The lines of a text are line-shaped.
pub proof fn lemma_lines_shaped(s: Seq<char>, l: int)
    requires
        0 <= l < line_count(s),
    ensures
        line_shaped(line_of(s, l), l, line_count(s)),
{
    lemma_line_parts(s, l);
    crate::document::lemma_lines_left(s, l);
    let lo = line_of(s, l);
    if l < line_count(s) - 1 {
        assert forall|i: int| 0 <= i < lo.len() - 1 implies lo[i] != '\n' by {
            assert(lo[i] == s[line_start(s, l) + i]);
        }
    } else {
        assert forall|i: int| 0 <= i < lo.len() implies lo[i] != '\n' by {
            assert(lo[i] == s[line_start(s, l) + i]);
        }
    }
}

proof fn lemma_mapped_prefix(s: Seq<char>, g: spec_fn(int, Seq<char>) -> Seq<char>, k: int, n: int)
    requires
        0 <= k <= n,
    ensures
        mapped_lines(s, g, k).len() <= mapped_lines(s, g, n).len(),
        mapped_lines(s, g, n).take(mapped_lines(s, g, k).len() as int) == mapped_lines(s, g, k),
    decreases n - k,
{
    if k < n {
        lemma_mapped_prefix(s, g, k, n - 1);
        assert(mapped_lines(s, g, n) == mapped_lines(s, g, n - 1) + g(n - 1, line_of(s, n - 1)));
        assert(mapped_lines(s, g, n).take(mapped_lines(s, g, k).len() as int) =~= mapped_lines(
            s,
            g,
            n - 1,
        ).take(mapped_lines(s, g, k).len() as int));
    }
}

/// Line `k` of the rewritten text sits at the combined length of the rewritten lines before
/// it, and the rewritten line `k` follows.
proof fn lemma_piece(s: Seq<char>, g: spec_fn(int, Seq<char>) -> Seq<char>, k: int)
    requires
        0 <= k < line_count(s),
    ensures
        ({
            let t = with_lines(s, g);
            let a = mapped_lines(s, g, k).len() as int;
            let b = mapped_lines(s, g, k + 1).len() as int;
            &&& a + g(k, line_of(s, k)).len() == b
            &&& b <= t.len()
            &&& forall|i: int| 0 <= i < b - a ==> #[trigger] t[a + i] == g(k, line_of(s, k))[i]
        }),
{
    let n = line_count(s);
    lemma_mapped_prefix(s, g, k + 1, n);
    let t = with_lines(s, g);
    let a = mapped_lines(s, g, k).len() as int;
    let b = mapped_lines(s, g, k + 1).len() as int;
    let p = g(k, line_of(s, k));
    assert(mapped_lines(s, g, k + 1) == mapped_lines(s, g, k) + p);
    assert forall|i: int| 0 <= i < b - a implies #[trigger] t[a + i] == p[i] by {
        assert(t.take(b)[a + i] == mapped_lines(s, g, k + 1)[a + i]);
    }
}

proof fn lemma_starts(s: Seq<char>, g: spec_fn(int, Seq<char>) -> Seq<char>, k: int)
    requires
        0 <= k < line_count(s),
        forall|l: int|
            0 <= l < line_count(s) ==> line_shaped(#[trigger] g(l, line_of(s, l)), l, line_count(s)),
    ensures
        line_start(with_lines(s, g), k) == mapped_lines(s, g, k).len(),
    decreases k,
{
    if k > 0 {
        lemma_starts(s, g, k - 1);
        let t = with_lines(s, g);
        let a = mapped_lines(s, g, k - 1).len() as int;
        let b = mapped_lines(s, g, k).len() as int;
        let p = g(k - 1, line_of(s, k - 1));
        lemma_piece(s, g, k - 1);
        assert(line_shaped(p, k - 1, line_count(s)));
        lemma_index_of(t, '\n', a);
        let e = index_of_from(t, '\n', a);
        assert(t[a + (b - 1 - a)] == p[b - 1 - a]);
        if e < b - 1 {
            assert(t[a + (e - a)] == p[e - a]);
        }
        assert(e == b - 1);
    }
}

proof fn lemma_lines_left_mapped(s: Seq<char>, g: spec_fn(int, Seq<char>) -> Seq<char>, k: int)
    requires
        0 <= k < line_count(s),
        forall|l: int|
            0 <= l < line_count(s) ==> line_shaped(#[trigger] g(l, line_of(s, l)), l, line_count(s)),
    ensures
        lines_from(with_lines(s, g), mapped_lines(s, g, k).len() as int) == line_count(s) - k,
        line_end(with_lines(s, g), k) == mapped_lines(s, g, k + 1).len() - (if k < line_count(s)
            - 1 {
            1int
        } else {
            0int
        }),
    decreases line_count(s) - k,
{
    let n = line_count(s);
    let t = with_lines(s, g);
    let a = mapped_lines(s, g, k).len() as int;
    let b = mapped_lines(s, g, k + 1).len() as int;
    let p = g(k, line_of(s, k));
    lemma_piece(s, g, k);
    lemma_starts(s, g, k);
    lemma_mapped_prefix(s, g, k + 1, n);
    assert(line_shaped(p, k, n));
    lemma_index_of(t, '\n', a);
    let e = index_of_from(t, '\n', a);
    if k < n - 1 {
        lemma_lines_left_mapped(s, g, k + 1);
        assert(t[a + (b - 1 - a)] == p[b - 1 - a]);
        if e < b - 1 {
            assert(t[a + (e - a)] == p[e - a]);
        }
        assert(e == b - 1);
    } else {
        assert(b == t.len());
        if e < b {
            assert(t[a + (e - a)] == p[e - a]);
        }
        assert(e == t.len());
    }
}

/// Rewriting every line into a line-shaped piece keeps the line structure: the new text has
/// as many lines, and line `l` is the rewritten line `l`.
pub proof fn lemma_rewritten_lines(s: Seq<char>, g: spec_fn(int, Seq<char>) -> Seq<char>)
    requires
        forall|l: int|
            0 <= l < line_count(s) ==> line_shaped(#[trigger] g(l, line_of(s, l)), l, line_count(s)),
    ensures
        line_count(with_lines(s, g)) == line_count(s),
        forall|l: int|
            0 <= l < line_count(s) ==> #[trigger] line_of(with_lines(s, g), l) == g(l, line_of(s, l)),
        forall|l: int|
            0 <= l < line_count(s) ==> #[trigger] line_start(with_lines(s, g), l) == mapped_lines(
                s,
                g,
                l,
            ).len(),
{
    let n = line_count(s);
    let t = with_lines(s, g);
    lemma_line_count_bounds(s);
    lemma_lines_left_mapped(s, g, 0);
    assert(mapped_lines(s, g, 0) =~= seq![]);
    assert forall|l: int| 0 <= l < n implies #[trigger] line_start(t, l) == mapped_lines(
        s,
        g,
        l,
    ).len() by {
        lemma_starts(s, g, l);
    }
    assert forall|l: int| 0 <= l < n implies #[trigger] line_of(t, l) == g(l, line_of(s, l)) by {
        lemma_starts(s, g, l);
        lemma_lines_left_mapped(s, g, l);
        lemma_piece(s, g, l);
        let a = mapped_lines(s, g, l).len() as int;
        let b = mapped_lines(s, g, l + 1).len() as int;
        let p = g(l, line_of(s, l));
        lemma_line_start_bounds(t, l);
        assert(line_of(t, l).len() == p.len());
        assert forall|i: int| 0 <= i < p.len() implies line_of(t, l)[i] == p[i] by {
            assert(t[a + i] == p[i]);
        }
        assert(line_of(t, l) =~= p);
    }
}

} // verus!
