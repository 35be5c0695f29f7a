//! What the edits promise together: demoting then promoting a heading or a whole subtree
//! (and, for a heading, the other way round) gives the text back, and so do cycling a
//! keyword-less heading's TODO state three times, raising then lowering a priority, and
//! typing a char then deleting it; tags written into a line read back as written; an
//! outline's headings run down the text, each subtree holding only deeper headings; and a new
//! sibling heading lands right below the subtree it follows.
use vstd::prelude::*;

use crate::document::{
    lemma_line_count_bounds, lemma_line_parts, lemma_line_start_bounds, lemma_lines_join,
    lemma_lines_left, line_body, line_count, line_end, line_of, line_start, spliced_in,
    spliced_out, with_lines,
};
use crate::edits::{
    after_markers, after_markers_at, cookie, cookie_at, demoted, done_word, enclosing_of,
    heading_start, lemma_enclosing_facts, lemma_heading_level_bound, lemma_heading_start,
    priority_cycled, promoted, retagged_line, subtree_at_max, subtree_demoted, subtree_marks, subtree_promoted,
    tag_tail, todo_cycled, todo_space, EditOutcome,
};
use crate::headline::{
    after_last_ws, all_tag_chars, fence_run, heading_rest, headline_rest, pieces, run_end, split_acc,
    split_priority, split_tags, split_todo, tag_run, tag_start, todo_word, TodoState,
};
use crate::rewrite::{
    lemma_edit_in_line, lemma_lines_shaped, lemma_rewritten_lines, line_replaced, line_shaped,
};
use crate::structure::{
    extent_of, fence_before, fence_step, heading_at, heading_lines, heading_lines_from,
    last_content_line, lemma_heading_lines, level_of, marker_of, max_level_of, next_not_deeper,
    Format,
};
use crate::text::{has_at, index_of_from, is_ws, lemma_index_of, skip_ws, skip_ws_back, strip_nl, trim_end, trim_start};

verus! {

/// Two texts with the same lines except line `at`, where neither line opens a fence run,
/// have the same open fence before every line.
proof fn lemma_fence_same(s: Seq<char>, t: Seq<char>, at: int, l: int)
    requires
        line_count(t) == line_count(s),
        forall|k: int| 0 <= k < line_count(s) && k != at ==> #[trigger] line_of(t, k) == line_of(s, k),
        fence_run(strip_nl(line_of(t, at))) is None,
        fence_run(strip_nl(line_of(s, at))) is None,
    ensures
        fence_before(t, l) == fence_before(s, l),
    decreases l,
{
    if l > 0 {
        lemma_fence_same(s, t, at, l - 1);
        let k = l - 1;
        if k == at {
            let st = fence_before(s, k);
            assert(fence_step(st, strip_nl(line_of(t, k))) == st);
            assert(fence_step(st, strip_nl(line_of(s, k))) == st);
        } else if k >= line_count(s) || k < 0 {
            assert(line_of(t, k) =~= line_of(s, k));
        }
    }
}

/// Texts whose lines are headings at the same places have the same heading lines.
proof fn lemma_heading_lines_same(f: Format, s: Seq<char>, t: Seq<char>, l: int)
    requires
        line_count(t) == line_count(s),
        forall|k: int|
            0 <= k < line_count(s) ==> (#[trigger] heading_at(f, t, k) is Some <==> heading_at(
                f,
                s,
                k,
            ) is Some),
    ensures
        heading_lines_from(f, t, l) == heading_lines_from(f, s, l),
    decreases line_count(s) - l,
{
    if 0 <= l < line_count(s) {
        lemma_heading_lines_same(f, s, t, l + 1);
    }
}

/// A text opening with a heading marker opens no fence.
proof fn lemma_marker_no_fence(x: Seq<char>)
    requires
        x.len() > 0,
        x[0] == '*' || x[0] == '#',
    ensures
        fence_run(x) is None,
{
    assert(run_end(x, ' ', 0) == 0);
}

/// One more leading marker makes the marker run one longer.
proof fn lemma_run_end_shift(x: Seq<char>, m: char, i: int)
    requires
        0 <= i <= x.len(),
    ensures
        run_end(seq![m] + x, m, i + 1) == run_end(x, m, i) + 1,
    decreases x.len() - i,
{
    let y = seq![m] + x;
    if i < x.len() {
        assert(y[i + 1] == x[i]);
        if x[i] == m {
            lemma_run_end_shift(x, m, i + 1);
        }
    }
}

/// A line with one more marker in front: its marker run is one longer and the headline after
/// it is the same. So it is a heading one level deeper exactly when the line was a heading
/// (below the format's limit), and a heading of two or more markers was one level shallower
/// without its first marker.
proof fn lemma_marker_prefix(x: Seq<char>, m: char, max: Option<int>)
    requires
        m == '*' || m == '#',
    ensures
        heading_rest(x, m, max) matches Some((lv, r)) ==> (max matches Some(mx) ==> lv < mx)
            ==> heading_rest(seq![m] + x, m, max) == Some((lv + 1, r)),
        heading_rest(seq![m] + x, m, max) matches Some((lv, r)) ==> lv >= 2 ==> heading_rest(
            x,
            m,
            max,
        ) == Some((lv - 1, r)),
        strip_nl(seq![m] + x) == seq![m] + strip_nl(x),
{
    let text = strip_nl(x);
    let y = seq![m] + x;
    let t2 = strip_nl(y);
    if x.len() > 0 && x.last() == '\n' {
        assert(t2 =~= seq![m] + text);
    } else {
        assert(t2 =~= seq![m] + text);
    }
    lemma_run_end_shift(text, m, 0);
    crate::headline::lemma_run_end(text, m, 0);
    assert(run_end(t2, m, 0) == run_end(t2, m, 1));
    let level = run_end(text, m, 0);
    assert(t2.skip(level + 1) =~= text.skip(level));
    if level < text.len() {
        assert(t2[level + 1] == text[level]);
    }
}

/// The heading enclosing `line`, its line and level, and where its line starts.
proof fn lemma_enclosing_heading(f: Format, s: Seq<char>, line: int)
    requires
        enclosing_of(f, s, line) is Some,
    ensures
        ({
            let k = enclosing_of(f, s, line).unwrap();
            let l = heading_lines(f, s)[k];
            &&& 0 <= k < heading_lines(f, s).len()
            &&& 0 <= l < line_count(s)
            &&& heading_at(f, s, l) is Some
            &&& level_of(f, s, k) == heading_at(f, s, l).unwrap().0
            &&& 1 <= level_of(f, s, k) < line_body(s, l).len()
            &&& heading_start(f, s, k) == line_start(s, l)
            &&& line_start(s, l) + line_body(s, l).len() <= s.len()
        }),
{
    lemma_enclosing_facts(f, s, line);
    let k = enclosing_of(f, s, line).unwrap();
    lemma_heading_lines(f, s);
    let l = heading_lines(f, s)[k];
    lemma_heading_level_bound(f, s, l);
    lemma_line_parts(s, l);
}

/// The text with line `l` rewritten by `g` (and every other line kept) has the same lines,
/// the same open fences, and the same headings off line `l`; line `l` starts where it did.
proof fn lemma_one_line_rewrite(f: Format, s: Seq<char>, g: spec_fn(int, Seq<char>) -> Seq<char>, l: int)
    requires
        0 <= l < line_count(s),
        forall|k: int| 0 <= k < line_count(s) && k != l ==> #[trigger] g(k, line_of(s, k)) == line_of(s, k),
        line_shaped(g(l, line_of(s, l)), l, line_count(s)),
        fence_run(strip_nl(g(l, line_of(s, l)))) is None,
        fence_run(strip_nl(line_of(s, l))) is None,
    ensures
        ({
            let t = with_lines(s, g);
            &&& line_count(t) == line_count(s)
            &&& line_of(t, l) == g(l, line_of(s, l))
            &&& line_start(t, l) == line_start(s, l)
            &&& forall|k: int| #[trigger] fence_before(t, k) == fence_before(s, k)
            &&& forall|k: int| 0 <= k < line_count(s) && k != l ==> #[trigger] heading_at(f, t, k) == heading_at(f, s, k)
        }),
{
    let t = with_lines(s, g);
    let n = line_count(s);
    assert forall|k: int| 0 <= k < n implies line_shaped(#[trigger] g(k, line_of(s, k)), k, n) by {
        if k != l {
            lemma_lines_shaped(s, k);
        }
    }
    lemma_rewritten_lines(s, g);
    assert forall|k: int| 0 <= k < n && k != l implies #[trigger] line_of(t, k) == line_of(s, k) by {
        assert(line_of(t, k) == g(k, line_of(s, k)));
    }
    assert forall|k: int| #[trigger] fence_before(t, k) == fence_before(s, k) by {
        lemma_fence_same(s, t, l, k);
    }
    assert forall|k: int| 0 <= k < n && k != l implies #[trigger] heading_at(f, t, k) == heading_at(f, s, k) by {
        assert(line_of(t, k) == line_of(s, k));
        assert(fence_before(t, k) == fence_before(s, k));
    }
    assert forall|k: int| 0 <= k < l implies #[trigger] g(k, line_of(s, k)) == line_of(s, k) by {}
    lemma_lines_join(s, g, l);
    crate::rewrite::lemma_line_start_mono(s, l, l);
    crate::document::lemma_line_start_bounds(s, l);
}

/// Demoting a heading and then promoting it gives the text back: whenever a demotion changes
/// the text, the promotion that follows undoes it and leaves the cursor where it was.
#[verifier::spinoff_prover]
#[verifier::rlimit(40)]
pub proof fn lemma_demote_then_promote(f: Format, s: Seq<char>, line: usize)
    requires
        demoted(f, s, line).0 is Changed,
    ensures
        promoted(f, demoted(f, s, line).1, line) == (EditOutcome::Changed { cursor_line: line }, s),
{
    lemma_enclosing_heading(f, s, line as int);
    let k = enclosing_of(f, s, line as int).unwrap();
    let l = heading_lines(f, s)[k];
    let (lv, rest) = heading_at(f, s, l).unwrap();
    let m = marker_of(f);
    let st = line_start(s, l);
    let lo = line_of(s, l);
    lemma_line_parts(s, l);
    lemma_heading_start(f, s, k);
    let g = line_replaced(l, 0, 0, seq![m]);
    lemma_edit_in_line(s, l, st, st, seq![m]);
    let t = with_lines(s, g);
    assert(spliced_in(s, st, seq![m]) =~= s.take(st) + seq![m] + s.skip(st));
    assert(demoted(f, s, line).1 == t);
    assert(g(l, lo) =~= seq![m] + lo);
    let max = match f {
        Format::Org => None,
        Format::Markdown => Some(6int),
    };
    lemma_marker_prefix(lo, m, max);
    crate::headline::lemma_run_end(strip_nl(lo), m, 0);
    // the rewritten line is shaped like a line and opens no fence
    lemma_lines_shaped(s, l);
    assert(line_shaped(g(l, lo), l, line_count(s))) by {
        let p = seq![m] + lo;
        assert forall|i: int| 0 <= i < p.len() && (l < line_count(s) - 1 ==> i < p.len() - 1) implies p[i] != '\n' by {
            if i > 0 {
                assert(p[i] == lo[i - 1]);
            }
        }
    }
    lemma_marker_no_fence(strip_nl(g(l, lo)));
    assert(strip_nl(lo)[0] == m);
    lemma_marker_no_fence(strip_nl(lo));
    lemma_one_line_rewrite(f, s, g, l);
    // line l is a heading one level deeper with the same headline
    assert(heading_at(f, t, l) == Some((lv + 1, rest)));
    assert forall|j: int| 0 <= j < line_count(s) implies (#[trigger] heading_at(f, t, j) is Some <==> heading_at(f, s, j) is Some) by {}
    lemma_heading_lines_same(f, s, t, 0);
    assert(heading_lines(f, t) == heading_lines(f, s));
    assert(enclosing_of(f, t, line as int) == Some(k));
    assert(level_of(f, t, k) == lv + 1);
    assert(heading_start(f, t, k) == st);
    assert(spliced_out(t, st, st + 1) =~= s);
}

/// Promoting a heading and then demoting it gives the text back: whenever a promotion changes
/// the text, the demotion that follows undoes it and leaves the cursor where it was.
#[verifier::spinoff_prover]
#[verifier::rlimit(40)]
pub proof fn lemma_promote_then_demote(f: Format, s: Seq<char>, line: usize)
    requires
        promoted(f, s, line).0 is Changed,
    ensures
        demoted(f, promoted(f, s, line).1, line) == (EditOutcome::Changed { cursor_line: line }, s),
{
    lemma_enclosing_heading(f, s, line as int);
    let k = enclosing_of(f, s, line as int).unwrap();
    let l = heading_lines(f, s)[k];
    let (lv, rest) = heading_at(f, s, l).unwrap();
    let m = marker_of(f);
    let st = line_start(s, l);
    let lo = line_of(s, l);
    lemma_line_parts(s, l);
    lemma_heading_start(f, s, k);
    let g = line_replaced(l, 0, 1, seq![]);
    lemma_edit_in_line(s, l, st, st + 1, seq![]);
    let t = with_lines(s, g);
    assert(spliced_out(s, st, st + 1) =~= s.take(st) + seq![] + s.skip(st + 1));
    assert(promoted(f, s, line).1 == t);
    let x = lo.skip(1);
    assert(lo[0] == s[st]);
    assert(lo =~= seq![m] + x);
    assert(g(l, lo) =~= x);
    let max = match f {
        Format::Org => None,
        Format::Markdown => Some(6int),
    };
    lemma_marker_prefix(x, m, max);
    crate::headline::lemma_run_end(strip_nl(lo), m, 0);
    lemma_lines_shaped(s, l);
    assert(line_shaped(x, l, line_count(s))) by {
        assert forall|i: int| 0 <= i < x.len() implies x[i] == lo[i + 1] by {}
    }
    assert(strip_nl(x)[0] == strip_nl(lo)[1]);
    assert(strip_nl(lo)[1] == m);
    lemma_marker_no_fence(strip_nl(x));
    assert(strip_nl(lo)[0] == m);
    lemma_marker_no_fence(strip_nl(lo));
    lemma_one_line_rewrite(f, s, g, l);
    assert(heading_at(f, t, l) == Some((lv - 1, rest)));
    assert forall|j: int| 0 <= j < line_count(s) implies (#[trigger] heading_at(f, t, j) is Some <==> heading_at(f, s, j) is Some) by {}
    lemma_heading_lines_same(f, s, t, 0);
    assert(heading_lines(f, t) == heading_lines(f, s));
    assert(enclosing_of(f, t, line as int) == Some(k));
    assert(level_of(f, t, k) == lv - 1);
    assert(heading_start(f, t, k) == st);
    assert(spliced_in(t, st, seq![m]) =~= s);
}

// ---- cycling TODO keywords ---------------------------------------------------------

/// A marker run of exactly `r - i` chars from `i`.
proof fn lemma_run_end_exact(x: Seq<char>, c: char, i: int, r: int)
    requires
        0 <= i <= r <= x.len(),
        forall|k: int| i <= k < r ==> #[trigger] x[k] == c,
        r < x.len() ==> x[r] != c,
    ensures
        run_end(x, c, i) == r,
    decreases r - i,
{
    if i < r {
        assert(x[i] == c);
        lemma_run_end_exact(x, c, i + 1, r);
    }
}

/// Leading whitespace of exactly `j` chars.
proof fn lemma_skip_ws_exact(x: Seq<char>, i: int, j: int)
    requires
        0 <= i <= j <= x.len(),
        forall|k: int| i <= k < j ==> is_ws(#[trigger] x[k]),
        j < x.len() ==> !is_ws(x[j]),
    ensures
        skip_ws(x, i) == j,
    decreases j - i,
{
    if i < j {
        lemma_skip_ws_exact(x, i + 1, j);
    }
}

/// The heading on `line` with the word `w` put right after its markers and their spaces: still
/// a heading of the same level, whose headline now opens with `w`.
#[verifier::spinoff_prover]
#[verifier::rlimit(80)]
proof fn lemma_word_after_markers(f: Format, s: Seq<char>, line: int, w: Seq<char>)
    requires
        heading_at(f, s, line) is Some,
        w.len() > 0,
        !is_ws(w[0]),
        forall|i: int| 0 <= i < w.len() ==> #[trigger] w[i] != '\n',
    ensures
        ({
            let (lv, rest) = heading_at(f, s, line).unwrap();
            let at = after_markers_at(s, line, lv);
            let t = spliced_in(s, at, w);
            &&& rest == after_markers(s, line, lv)
            &&& rest.len() > 0
            &&& 0 <= line_start(s, line)
            &&& 1 <= lv
            &&& line_start(s, line) + lv < at <= line_start(s, line) + line_body(s, line).len()
            &&& line_start(s, line) + line_body(s, line).len() <= s.len()
            &&& heading_at(f, t, line) == Some((lv, w + rest))
            &&& after_markers_at(t, line, lv) == at
            &&& after_markers(t, line, lv) == w + rest
        }),
{
    let (lv, rest) = heading_at(f, s, line).unwrap();
    let m = marker_of(f);
    assert(0 <= line < line_count(s)) by {
        if !(0 <= line < line_count(s)) {
            assert(line_of(s, line) =~= seq![]);
            assert(strip_nl(line_of(s, line)) =~= seq![]);
        }
    }
    lemma_heading_level_bound(f, s, line);
    lemma_line_parts(s, line);
    crate::edits::lemma_after_markers_pub(s, line, lv);
    let ls = line_start(s, line);
    let lo = line_of(s, line);
    let text = strip_nl(lo);
    let am = text.skip(lv);
    let ws = skip_ws(am, 0);
    lemma_ws_after_markers(text, m, lv);
    let at = after_markers_at(s, line, lv);
    let o = lv + ws;
    let t = spliced_in(s, at, w);
    let g = line_replaced(line, o, o, w);
    lemma_edit_in_line(s, line, at, at, w);
    assert(spliced_in(s, at, w) =~= s.take(at) + w + s.skip(at));
    let lo1 = lo.take(o) + w + lo.skip(o);
    assert(g(line, lo) == lo1);
    lemma_lines_shaped(s, line);
    lemma_inserted_line(lo, o, w, line, line_count(s));
    let text1 = text.take(o) + w + text.skip(o);
    assert(text1[0] == text[0]);
    crate::headline::lemma_run_end(text, m, 0);
    lemma_marker_no_fence(text1);
    lemma_marker_no_fence(text);
    lemma_one_line_rewrite(f, s, g, line);
    lemma_headline_after_word(text, m, lv, w);
    let max = match f {
        Format::Org => None,
        Format::Markdown => Some(6int),
    };
    assert(heading_rest(lo1, m, max) == Some((lv, w + rest)));
}

/// After a heading's markers come one or more spaces.
proof fn lemma_ws_after_markers(text: Seq<char>, m: char, lv: int)
    requires
        lv == run_end(text, m, 0),
        1 <= lv < text.len(),
        text[lv] == ' ',
    ensures
        1 <= skip_ws(text.skip(lv), 0) <= text.len() - lv,
        forall|k: int| 0 <= k < skip_ws(text.skip(lv), 0) ==> is_ws(#[trigger] text.skip(lv)[k]),
        skip_ws(text.skip(lv), 0) < text.len() - lv ==> !is_ws(text.skip(lv)[skip_ws(text.skip(lv), 0)]),
{
    let am = text.skip(lv);
    crate::text::lemma_skip_ws(am, 0);
    assert(am[0] == ' ');
    assert(is_ws(' '));
    crate::text::lemma_skip_ws(am, 1);
}

/// A line with `w` put in at `o` (within its body) keeps its shape, and its text without the
/// newline has `w` at the same place.
proof fn lemma_inserted_line(lo: Seq<char>, o: int, w: Seq<char>, l: int, n: int)
    requires
        line_shaped(lo, l, n),
        0 <= o <= strip_nl(lo).len(),
        forall|i: int| 0 <= i < w.len() ==> #[trigger] w[i] != '\n',
    ensures
        line_shaped(lo.take(o) + w + lo.skip(o), l, n),
        strip_nl(lo.take(o) + w + lo.skip(o)) == strip_nl(lo).take(o) + w + strip_nl(lo).skip(o),
{
    let lo1 = lo.take(o) + w + lo.skip(o);
    let text = strip_nl(lo);
    let text1 = text.take(o) + w + text.skip(o);
    assert forall|i: int| 0 <= i < lo1.len() && lo1[i] == '\n' implies i == lo1.len() - 1 && lo.len() > 0 && lo.last() == '\n' by {
        if i < o {
            assert(lo1[i] == lo[i]);
        } else if i < o + w.len() {
            assert(lo1[i] == w[i - o]);
        } else {
            assert(lo1[i] == lo[i - w.len()]);
        }
    }
    if lo.len() > 0 && lo.last() == '\n' {
        assert(o <= lo.len() - 1);
        assert(lo1.last() == '\n');
        assert(lo1.drop_last() =~= text1);
    } else {
        assert(lo =~= text);
        assert(lo1 =~= text1);
    }
}

/// The headline after a word put right behind the markers' spaces opens with that word.
proof fn lemma_headline_after_word(text: Seq<char>, m: char, lv: int, w: Seq<char>)
    requires
        m == '*' || m == '#',
        lv == run_end(text, m, 0),
        1 <= lv < text.len(),
        text[lv] == ' ',
        w.len() > 0,
        !is_ws(w[0]),
    ensures
        ({
            let ws = skip_ws(text.skip(lv), 0);
            let o = lv + ws;
            let text1 = text.take(o) + w + text.skip(o);
            &&& run_end(text1, m, 0) == lv
            &&& text1[lv] == ' '
            &&& skip_ws(text1.skip(lv), 0) == ws
            &&& trim_start(text1.skip(lv)) == w + trim_start(text.skip(lv))
            &&& text1.len() > lv
        }),
{
    let am = text.skip(lv);
    lemma_ws_after_markers(text, m, lv);
    let ws = skip_ws(am, 0);
    let o = lv + ws;
    let text1 = text.take(o) + w + text.skip(o);
    crate::headline::lemma_run_end(text, m, 0);
    assert forall|k: int| 0 <= k < lv implies #[trigger] text1[k] == m by {
        assert(text1[k] == text[k]);
    }
    assert(text1[lv] == text[lv]);
    lemma_run_end_exact(text1, m, 0, lv);
    let am1 = text1.skip(lv);
    assert forall|k: int| 0 <= k < ws implies is_ws(#[trigger] am1[k]) by {
        assert(am1[k] == am[k]);
    }
    assert(am1[ws] == w[0]);
    lemma_skip_ws_exact(am1, 0, ws);
    assert(am1.skip(ws) =~= w + am.skip(ws));
}

/// Cycling the TODO keyword of a heading without one three times gives the text back:
/// none → `TODO` → `DONE` → none.
#[verifier::spinoff_prover]
#[verifier::rlimit(40)]
pub proof fn lemma_cycle_todo_three_times(f: Format, s: Seq<char>, line: int)
    requires
        heading_at(f, s, line) is Some,
        split_todo(heading_at(f, s, line).unwrap().1).0 is None,
    ensures
        todo_cycled(f, s, line) is Some,
        todo_cycled(f, todo_cycled(f, s, line).unwrap(), line) is Some,
        todo_cycled(f, todo_cycled(f, todo_cycled(f, s, line).unwrap(), line).unwrap(), line)
            == Some(s),
{
    let (lv, rest) = heading_at(f, s, line).unwrap();
    let todo = seq!['T', 'O', 'D', 'O', ' '];
    let done = seq!['D', 'O', 'N', 'E', ' '];
    assert(todo == todo_space());
    lemma_word_after_markers(f, s, line, todo);
    lemma_word_after_markers(f, s, line, done);
    let at = after_markers_at(s, line, lv);
    let t1 = spliced_in(s, at, todo);
    let t2 = spliced_in(s, at, done);
    assert(todo_cycled(f, s, line) == Some(t1));
    // TODO → DONE
    assert(has_at(todo + rest, 0, todo_word(TodoState::Todo))) by {
        assert((todo + rest).subrange(0, 4) =~= todo_word(TodoState::Todo));
    }
    assert(split_todo(todo + rest).0 == Some(TodoState::Todo));
    assert(0 <= at <= s.len());
    assert(todo.len() == 5);
    let x = spliced_out(t1, at, at + 4);
    assert(t1.len() == s.len() + 5);
    assert(t1.take(at) =~= s.take(at));
    assert(todo[4] == ' ');
    assert(t1.skip(at + 4) =~= seq![' '] + s.skip(at));
    assert(x =~= s.take(at) + seq![' '] + s.skip(at));
    assert(x.take(at) =~= s.take(at));
    assert(x.skip(at) =~= seq![' '] + s.skip(at));
    assert(done_word() + seq![' '] =~= done);
    assert(spliced_in(x, at, done_word()) =~= t2);
    assert(todo_cycled(f, t1, line) == Some(t2));
    // DONE → none
    assert(!has_at(done + rest, 0, todo_word(TodoState::Todo))) by {
        assert((done + rest)[0] != 'T');
    }
    assert(has_at(done + rest, 0, todo_word(TodoState::Done))) by {
        assert((done + rest).subrange(0, 4) =~= todo_word(TodoState::Done));
    }
    assert(split_todo(done + rest).0 == Some(TodoState::Done));
    assert(done + rest != done_word()) by {
        assert((done + rest).len() != done_word().len());
    }
    assert(spliced_out(t2, at, at + 5) =~= s.take(at) + s.skip(at));
    assert(s.take(at) + s.skip(at) =~= s);
    assert(todo_cycled(f, t2, line) == Some(s));
}

// ---- editing a headline in place ------------------------------------------------------

/// A line with `d` chars from `o` (within its body) replaced by `w` keeps its shape, and its
/// text without the newline has the same edit.
proof fn lemma_replaced_line(lo: Seq<char>, o: int, d: int, w: Seq<char>, l: int, n: int)
    requires
        line_shaped(lo, l, n),
        0 <= o,
        0 <= d,
        o + d <= strip_nl(lo).len(),
        forall|i: int| 0 <= i < w.len() ==> #[trigger] w[i] != '\n',
    ensures
        line_shaped(lo.take(o) + w + lo.skip(o + d), l, n),
        strip_nl(lo.take(o) + w + lo.skip(o + d)) == strip_nl(lo).take(o) + w + strip_nl(lo).skip(o + d),
{
    let lo1 = lo.take(o) + w + lo.skip(o + d);
    let text = strip_nl(lo);
    let text1 = text.take(o) + w + text.skip(o + d);
    assert forall|i: int| 0 <= i < lo1.len() && lo1[i] == '\n' implies i == lo1.len() - 1 && lo.len() > 0 && lo.last() == '\n' by {
        if i < o {
            assert(lo1[i] == lo[i]);
        } else if i < o + w.len() {
            assert(lo1[i] == w[i - o]);
        } else {
            assert(lo1[i] == lo[i - w.len() + d]);
        }
    }
    if lo.len() > 0 && lo.last() == '\n' {
        assert(o + d <= lo.len() - 1);
        assert(lo1.last() == '\n');
        assert(lo1.drop_last() =~= text1);
    } else {
        assert(lo =~= text);
        assert(lo1 =~= text1);
    }
}

/// A heading's text with `d` chars from `o` replaced by `w`, where `o` lies in the headline
/// (after the markers and their spaces) and the headline's first char stays non-blank: the
/// same markers and spaces, and the headline edited the same way.
proof fn lemma_headline_edit(text: Seq<char>, m: char, lv: int, o: int, d: int, w: Seq<char>)
    requires
        m == '*' || m == '#',
        lv == run_end(text, m, 0),
        1 <= lv < text.len(),
        text[lv] == ' ',
        lv + skip_ws(text.skip(lv), 0) <= o,
        0 <= d,
        o + d <= text.len(),
        o == lv + skip_ws(text.skip(lv), 0) ==> w.len() > 0 && !is_ws(w[0]),
    ensures
        ({
            let ws = skip_ws(text.skip(lv), 0);
            let u = trim_start(text.skip(lv));
            let text1 = text.take(o) + w + text.skip(o + d);
            &&& run_end(text1, m, 0) == lv
            &&& text1.len() > lv
            &&& text1[lv] == ' '
            &&& skip_ws(text1.skip(lv), 0) == ws
            &&& trim_start(text1.skip(lv)) == u.take(o - lv - ws) + w + u.skip(o + d - lv - ws)
        }),
{
    let am = text.skip(lv);
    lemma_ws_after_markers(text, m, lv);
    let ws = skip_ws(am, 0);
    let text1 = text.take(o) + w + text.skip(o + d);
    crate::headline::lemma_run_end(text, m, 0);
    assert forall|k: int| 0 <= k < lv implies #[trigger] text1[k] == m by {
        assert(text1[k] == text[k]);
    }
    assert(text1[lv] == text[lv]);
    lemma_run_end_exact(text1, m, 0, lv);
    let am1 = text1.skip(lv);
    assert forall|k: int| 0 <= k < ws implies is_ws(#[trigger] am1[k]) by {
        assert(am1[k] == am[k]);
    }
    if o == lv + ws {
        assert(am1[ws] == w[0]);
    } else {
        assert(am1[ws] == am[ws]);
    }
    lemma_skip_ws_exact(am1, 0, ws);
    let u = am.skip(ws);
    assert(am1.skip(ws) =~= u.take(o - lv - ws) + w + u.skip(o + d - lv - ws));
}

/// The heading on `line` with `d` chars of its headline from offset `o` replaced by `w` (the
/// headline's first char staying non-blank): still a heading of the same level on the same
/// lines, whose headline has the same edit.
#[verifier::spinoff_prover]
#[verifier::rlimit(80)]
proof fn lemma_edit_after_markers(f: Format, s: Seq<char>, line: int, o: int, d: int, w: Seq<char>)
    requires
        heading_at(f, s, line) is Some,
        0 <= o,
        0 <= d,
        o + d <= heading_at(f, s, line).unwrap().1.len(),
        o == 0 ==> w.len() > 0 && !is_ws(w[0]),
        forall|i: int| 0 <= i < w.len() ==> #[trigger] w[i] != '\n',
    ensures
        ({
            let (lv, rest) = heading_at(f, s, line).unwrap();
            let at = after_markers_at(s, line, lv);
            let t = s.take(at + o) + w + s.skip(at + o + d);
            let rest1 = rest.take(o) + w + rest.skip(o + d);
            &&& rest == after_markers(s, line, lv)
            &&& 0 <= line < line_count(s)
            &&& 1 <= lv
            &&& line_start(s, line) + lv < at
            &&& at + rest.len() == line_start(s, line) + line_body(s, line).len()
            &&& line_start(s, line) + line_body(s, line).len() <= s.len()
            &&& forall|i: int| 0 <= i < rest.len() ==> #[trigger] rest[i] == s[at + i]
            &&& heading_at(f, t, line) == Some((lv, rest1))
            &&& after_markers_at(t, line, lv) == at
            &&& after_markers(t, line, lv) == rest1
            &&& line_start(t, line) == line_start(s, line)
            &&& line_start(t, line) + line_body(t, line).len() == line_start(s, line) + line_body(s, line).len() - d + w.len()
            &&& heading_lines(f, t) == heading_lines(f, s)
            &&& line_count(t) == line_count(s)
        }),
{
    let (lv, rest) = heading_at(f, s, line).unwrap();
    let m = marker_of(f);
    assert(0 <= line < line_count(s)) by {
        if !(0 <= line < line_count(s)) {
            assert(line_of(s, line) =~= seq![]);
            assert(strip_nl(line_of(s, line)) =~= seq![]);
        }
    }
    lemma_heading_level_bound(f, s, line);
    lemma_line_parts(s, line);
    crate::edits::lemma_after_markers_pub(s, line, lv);
    let ls = line_start(s, line);
    let lo = line_of(s, line);
    let text = strip_nl(lo);
    let am = text.skip(lv);
    let ws = skip_ws(am, 0);
    lemma_ws_after_markers(text, m, lv);
    let at = after_markers_at(s, line, lv);
    let q = lv + ws + o;
    let t = s.take(at + o) + w + s.skip(at + o + d);
    let g = line_replaced(line, q, q + d, w);
    lemma_edit_in_line(s, line, at + o, at + o + d, w);
    let lo1 = lo.take(q) + w + lo.skip(q + d);
    assert(g(line, lo) == lo1);
    lemma_lines_shaped(s, line);
    lemma_replaced_line(lo, q, d, w, line, line_count(s));
    let text1 = text.take(q) + w + text.skip(q + d);
    assert(text1[0] == text[0]);
    crate::headline::lemma_run_end(text, m, 0);
    lemma_marker_no_fence(text1);
    lemma_marker_no_fence(text);
    lemma_one_line_rewrite(f, s, g, line);
    lemma_headline_edit(text, m, lv, q, d, w);
    let max = match f {
        Format::Org => None,
        Format::Markdown => Some(6int),
    };
    let rest1 = rest.take(o) + w + rest.skip(o + d);
    assert(heading_rest(lo1, m, max) == Some((lv, rest1)));
    assert(heading_at(f, t, line) == Some((lv, rest1)));
    assert forall|j: int| 0 <= j < line_count(s) implies (#[trigger] heading_at(f, t, j) is Some <==> heading_at(f, s, j) is Some) by {}
    lemma_heading_lines_same(f, s, t, 0);
    assert forall|i: int| 0 <= i < rest.len() implies #[trigger] rest[i] == s[at + i] by {
        assert(rest[i] == text[lv + ws + i]);
        assert(text[lv + ws + i] == lo[lv + ws + i]);
    }
    lemma_line_parts(t, line);
    let lt = line_of(t, line);
    assert(strip_nl(lt) == text1);
}

// ---- priorities ----------------------------------------------------------------------------

/// Whether the heading enclosing `line` is nothing but a keyword (`* TODO`, `# DONE`).
pub open spec fn bare_keyword_heading(f: Format, s: Seq<char>, line: usize) -> bool {
    match enclosing_of(f, s, line as int) {
        Some(k) => {
            let rest = heading_at(f, s, heading_lines(f, s)[k]).unwrap().1;
            split_todo(rest).0 is Some && rest.len() == 4
        },
        None => false,
    }
}

/// Where the priority cookie sits in a headline: after the keyword and its spaces, if any.
pub open spec fn cookie_offset(rest: Seq<char>) -> int {
    if split_todo(rest).0 is Some {
        4 + skip_ws(rest.skip(4), 0)
    } else {
        0
    }
}

/// The text after a headline's keyword is the headline from the cookie's place on.
proof fn lemma_cookie_offset(rest: Seq<char>)
    ensures
        0 <= cookie_offset(rest) <= rest.len(),
        split_todo(rest).1 == rest.skip(cookie_offset(rest)),
{
    if split_todo(rest).0 is Some {
        crate::text::lemma_skip_ws(rest.skip(4), 0);
        assert(rest.skip(4).skip(skip_ws(rest.skip(4), 0)) =~= rest.skip(cookie_offset(rest)));
    }
}

/// Editing a headline from the cookie's place on, with an edit that opens with `[`, keeps its
/// keyword and the cookie's place; what follows the keyword is the edited text.
proof fn lemma_keyword_kept(rest: Seq<char>, d: int, w: Seq<char>)
    requires
        !(split_todo(rest).0 is Some && rest.len() == 4),
        0 <= d,
        cookie_offset(rest) + d <= rest.len(),
        w.len() > 0,
        w[0] == '[',
    ensures
        ({
            let off = cookie_offset(rest);
            let rest1 = rest.take(off) + w + rest.skip(off + d);
            &&& split_todo(rest1).0 == split_todo(rest).0
            &&& cookie_offset(rest1) == off
            &&& split_todo(rest1).1 == w + rest.skip(off + d)
        }),
{
    let off = cookie_offset(rest);
    let rest1 = rest.take(off) + w + rest.skip(off + d);
    lemma_cookie_offset(rest);
    if split_todo(rest).0 is Some {
        let x = rest.skip(4);
        let ws = skip_ws(x, 0);
        crate::text::lemma_skip_ws(x, 0);
        assert(rest.len() > 4);
        assert(rest[4] == ' ');
        assert(is_ws(' '));
        assert(ws >= 1) by {
            crate::text::lemma_skip_ws(x, 1);
        }
        assert(rest1.subrange(0, 4) =~= rest.subrange(0, 4));
        assert(rest1[4] == rest[4]);
        let x1 = rest1.skip(4);
        assert forall|k: int| 0 <= k < ws implies is_ws(#[trigger] x1[k]) by {
            assert(x1[k] == x[k]);
        }
        assert(x1[ws] == w[0]);
        assert(!is_ws('['));
        lemma_skip_ws_exact(x1, 0, ws);
        assert(rest1.skip(off) =~= w + rest.skip(off + d));
        assert(x1.skip(ws) =~= rest1.skip(off));
    } else {
        assert(rest1[0] == '[');
        assert(!has_at(rest1, 0, todo_word(TodoState::Todo)));
        assert(!has_at(rest1, 0, todo_word(TodoState::Done)));
        assert(rest1 =~= w + rest.skip(d));
    }
}

/// The headline of the heading enclosing `line`.
pub open spec fn enclosing_rest(f: Format, s: Seq<char>, line: usize) -> Seq<char> {
    heading_at(f, s, heading_lines(f, s)[enclosing_of(f, s, line as int).unwrap()]).unwrap().1
}

/// Raising the priority of a heading without one, then lowering it, gives the text back.
#[verifier::spinoff_prover]
#[verifier::rlimit(80)]
proof fn lemma_raise_from_none(f: Format, s: Seq<char>, line: usize)
    requires
        enclosing_of(f, s, line as int) is Some,
        !bare_keyword_heading(f, s, line),
        headline_rest(enclosing_rest(f, s, line)).1 is None,
    ensures
        priority_cycled(f, priority_cycled(f, s, line, true).1, line, false) == (
            EditOutcome::Changed { cursor_line: line },
            s,
        ),
{
    lemma_enclosing_heading(f, s, line as int);
    let k = enclosing_of(f, s, line as int).unwrap();
    let l = heading_lines(f, s)[k];
    let (lv, rest) = heading_at(f, s, l).unwrap();
    let off = cookie_offset(rest);
    lemma_cookie_offset(rest);
    let at = after_markers_at(s, l, lv);
    let st = cookie_at(s, l, lv);
    crate::document::lemma_line_start_bounds(s, l);
    let w = cookie('C').push(' ');
    lemma_edit_after_markers(f, s, l, off, 0, w);
    assert(st == at + off);
    assert(0 <= st <= s.len());
    let t = s.take(st) + w + s.skip(st);
    assert(priority_cycled(f, s, line, true).1 == t) by {
        assert(crate::document::spliced_in(s, st, w) =~= t);
    }
    lemma_keyword_kept(rest, 0, w);
    assert(split_priority(w + rest.skip(off)).0 == Some('C')) by {
        assert((w + rest.skip(off)).skip(4)[0] == ' ');
    }
    assert(enclosing_of(f, t, line as int) == Some(k));
    assert(cookie_at(t, l, lv) == st);
    assert(t[st + 4] == ' ');
    assert(crate::document::spliced_out(t, st, st + 5) =~= s);
}

/// Replacing the priority cookie of the heading enclosing `line` by `[#q]`: the heading keeps
/// its place, level and keyword, now with priority `q`, and a step of the priority that lands
/// on `q` is exactly this replacement.
#[verifier::spinoff_prover]
#[verifier::rlimit(100)]
proof fn lemma_cookie_replaced(f: Format, s: Seq<char>, line: usize, q: char, up: bool)
    requires
        enclosing_of(f, s, line as int) is Some,
        !bare_keyword_heading(f, s, line),
        headline_rest(enclosing_rest(f, s, line)).1 is Some,
        'A' <= q <= 'C',
    ensures
        ({
            let k = enclosing_of(f, s, line as int).unwrap();
            let l = heading_lines(f, s)[k];
            let lv = heading_at(f, s, l).unwrap().0;
            let st = cookie_at(s, l, lv);
            let c = headline_rest(enclosing_rest(f, s, line)).1.unwrap();
            let t = s.take(st) + cookie(q) + s.skip(st + 4);
            &&& 0 <= st && st + 4 <= s.len()
            &&& s == s.take(st) + cookie(c) + s.skip(st + 4)
            &&& t.take(st) == s.take(st)
            &&& t.skip(st + 4) == s.skip(st + 4)
            &&& enclosing_of(f, t, line as int) == Some(k)
            &&& heading_lines(f, t) == heading_lines(f, s)
            &&& heading_at(f, t, l).unwrap().0 == lv
            &&& cookie_at(t, l, lv) == st
            &&& !bare_keyword_heading(f, t, line)
            &&& headline_rest(enclosing_rest(f, t, line)).1 == Some(q)
            &&& crate::edits::priority_step(Some(c), up) == Some(Some(q)) ==> priority_cycled(f, s, line, up) == (
                EditOutcome::Changed { cursor_line: line },
                t,
            )
        }),
{
    lemma_enclosing_heading(f, s, line as int);
    let k = enclosing_of(f, s, line as int).unwrap();
    let l = heading_lines(f, s)[k];
    let (lv, rest) = heading_at(f, s, l).unwrap();
    let c = headline_rest(rest).1.unwrap();
    let off = cookie_offset(rest);
    lemma_cookie_offset(rest);
    let r1 = split_todo(rest).1;
    let at = after_markers_at(s, l, lv);
    let st = cookie_at(s, l, lv);
    crate::document::lemma_line_start_bounds(s, l);
    assert(crate::headline::opens_with_cookie(r1));
    let w = cookie(q);
    lemma_edit_after_markers(f, s, l, off, 4, w);
    assert(st == at + off);
    assert(off + 4 <= rest.len());
    let t = s.take(st) + w + s.skip(st + 4);
    lemma_keyword_kept(rest, 4, w);
    assert((w + rest.skip(off + 4)).skip(4) =~= r1.skip(4));
    assert(split_priority(w + rest.skip(off + 4)).0 == Some(q));
    assert forall|i: int| 0 <= i < 4 implies #[trigger] s[st + i] == cookie(c)[i] by {
        assert(s[st + i] == rest[off + i]);
        assert(rest[off + i] == r1[i]);
    }
    assert(s =~= s.take(st) + cookie(c) + s.skip(st + 4));
    assert(t.take(st) =~= s.take(st));
    assert(t.skip(st + 4) =~= s.skip(st + 4));
    assert(crate::document::spliced_in(crate::document::spliced_out(s, st, st + 4), st, w) =~= t);
}

/// Raising a `[#C]` or `[#B]` priority one step, then lowering it, gives the text back.
proof fn lemma_raise_cookie(f: Format, s: Seq<char>, line: usize)
    requires
        enclosing_of(f, s, line as int) is Some,
        !bare_keyword_heading(f, s, line),
        headline_rest(enclosing_rest(f, s, line)).1 == Some('C') || headline_rest(enclosing_rest(f, s, line)).1 == Some('B'),
    ensures
        priority_cycled(f, priority_cycled(f, s, line, true).1, line, false) == (
            EditOutcome::Changed { cursor_line: line },
            s,
        ),
{
    let c = headline_rest(enclosing_rest(f, s, line)).1.unwrap();
    let q = if c == 'C' { 'B' } else { 'A' };
    lemma_cookie_replaced(f, s, line, q, true);
    let k = enclosing_of(f, s, line as int).unwrap();
    let l = heading_lines(f, s)[k];
    let lv = heading_at(f, s, l).unwrap().0;
    let st = cookie_at(s, l, lv);
    let t = s.take(st) + cookie(q) + s.skip(st + 4);
    lemma_cookie_replaced(f, t, line, c, false);
}

/// Raising the priority of a heading and then lowering it gives the text back (`none → [#C]`,
/// `[#C] → [#B]`, `[#B] → [#A]`, and back), the cursor staying on its line. A heading that is
/// nothing but a keyword is left out: its raised cookie is glued to the keyword.
pub proof fn lemma_priority_up_then_down(f: Format, s: Seq<char>, line: usize)
    requires
        priority_cycled(f, s, line, true).0 is Changed,
        !bare_keyword_heading(f, s, line),
    ensures
        priority_cycled(f, priority_cycled(f, s, line, true).1, line, false) == (
            EditOutcome::Changed { cursor_line: line },
            s,
        ),
{
    let p = headline_rest(enclosing_rest(f, s, line)).1;
    if p is None {
        lemma_raise_from_none(f, s, line);
    } else {
        lemma_raise_cookie(f, s, line);
    }
}

// ---- shifting a whole subtree ------------------------------------------------------------

/// Whether line `l` is one of the headings of heading number `k`'s subtree.
pub open spec fn in_subtree(f: Format, s: Seq<char>, k: int, l: int) -> bool {
    heading_at(f, s, l) is Some && heading_lines(f, s)[k] <= l <= extent_of(f, s, k)
}

/// Texts whose lines differ only on lines that open no fence in either have the same open
/// fences.
proof fn lemma_fence_same_lines(s: Seq<char>, t: Seq<char>, changed: spec_fn(int) -> bool, l: int)
    requires
        line_count(t) == line_count(s),
        forall|k: int| 0 <= k < line_count(s) && !changed(k) ==> #[trigger] line_of(t, k) == line_of(s, k),
        forall|k: int|
            0 <= k < line_count(s) && #[trigger] changed(k) ==> fence_run(strip_nl(line_of(t, k))) is None
                && fence_run(strip_nl(line_of(s, k))) is None,
    ensures
        fence_before(t, l) == fence_before(s, l),
    decreases l,
{
    if l > 0 {
        lemma_fence_same_lines(s, t, changed, l - 1);
        let k = l - 1;
        if k >= line_count(s) || k < 0 {
            assert(line_of(t, k) =~= line_of(s, k));
        } else if changed(k) {
            let st = fence_before(s, k);
            assert(fence_step(st, strip_nl(line_of(t, k))) == st);
            assert(fence_step(st, strip_nl(line_of(s, k))) == st);
        }
    }
}

/// A heading line's text opens with its marker.
proof fn lemma_heading_opens_with_marker(f: Format, s: Seq<char>, l: int)
    requires
        heading_at(f, s, l) is Some,
    ensures
        strip_nl(line_of(s, l)).len() > 0,
        strip_nl(line_of(s, l))[0] == marker_of(f),
{
    let text = strip_nl(line_of(s, l));
    crate::headline::lemma_run_end(text, marker_of(f), 0);
}

/// Demoting a subtree puts one more marker in front of each of its headings and changes no
/// other line; those lines are headings one level deeper, the others are what they were.
#[verifier::spinoff_prover]
#[verifier::rlimit(80)]
proof fn lemma_subtree_demoted_lines(f: Format, s: Seq<char>, line: usize)
    requires
        subtree_demoted(f, s, line).0 is Changed,
    ensures
        ({
            let k = enclosing_of(f, s, line as int).unwrap();
            let t = subtree_demoted(f, s, line).1;
            let m = marker_of(f);
            &&& 0 <= k < heading_lines(f, s).len()
            &&& line_count(t) == line_count(s)
            &&& forall|l: int| 0 <= l < line_count(s) ==> #[trigger] line_of(t, l) == if in_subtree(f, s, k, l) {
                seq![m] + line_of(s, l)
            } else {
                line_of(s, l)
            }
            &&& forall|l: int| 0 <= l < line_count(s) ==> #[trigger] heading_at(f, t, l) == if in_subtree(f, s, k, l) {
                Some((heading_at(f, s, l).unwrap().0 + 1, heading_at(f, s, l).unwrap().1))
            } else {
                heading_at(f, s, l)
            }
            &&& heading_lines(f, t) == heading_lines(f, s)
        }),
{
    lemma_enclosing_facts(f, s, line as int);
    let k = enclosing_of(f, s, line as int).unwrap();
    lemma_heading_lines(f, s);
    let top = heading_lines(f, s)[k];
    let last = extent_of(f, s, k);
    let m = marker_of(f);
    let n = line_count(s);
    let g = subtree_marks(f, s, top, last, false);
    let t = crate::document::with_lines(s, g);
    assert(subtree_demoted(f, s, line).1 == t);
    let max = match f {
        Format::Org => None,
        Format::Markdown => Some(6int),
    };
    assert forall|l: int| 0 <= l < n implies line_shaped(#[trigger] g(l, line_of(s, l)), l, n) by {
        lemma_lines_shaped(s, l);
        if in_subtree(f, s, k, l) {
            let lo = line_of(s, l);
            let p = seq![m] + lo;
            assert(g(l, lo) == p);
            assert forall|i: int| 0 <= i < p.len() && (l < n - 1 ==> i < p.len() - 1) implies p[i] != '\n' by {
                if i > 0 {
                    assert(p[i] == lo[i - 1]);
                }
            }
        }
    }
    lemma_rewritten_lines(s, g);
    let changed = |l: int| in_subtree(f, s, k, l);
    assert forall|l: int| 0 <= l < n && #[trigger] changed(l) implies fence_run(strip_nl(line_of(t, l))) is None
        && fence_run(strip_nl(line_of(s, l))) is None by {
        lemma_heading_opens_with_marker(f, s, l);
        lemma_marker_prefix(line_of(s, l), m, max);
        assert(line_of(t, l) == seq![m] + line_of(s, l));
        lemma_marker_no_fence(strip_nl(line_of(t, l)));
        lemma_marker_no_fence(strip_nl(line_of(s, l)));
    }
    assert forall|l: int| 0 <= l < n && !changed(l) implies #[trigger] line_of(t, l) == line_of(s, l) by {
        assert(line_of(t, l) == g(l, line_of(s, l)));
    }
    assert forall|l: int| #[trigger] fence_before(t, l) == fence_before(s, l) by {
        lemma_fence_same_lines(s, t, changed, l);
    }
    assert forall|l: int| 0 <= l < n implies #[trigger] heading_at(f, t, l) == if in_subtree(f, s, k, l) {
        Some((heading_at(f, s, l).unwrap().0 + 1, heading_at(f, s, l).unwrap().1))
    } else {
        heading_at(f, s, l)
    } by {
        assert(line_of(t, l) == g(l, line_of(s, l)));
        assert(fence_before(t, l) == fence_before(s, l));
        if in_subtree(f, s, k, l) {
            let lo = line_of(s, l);
            lemma_marker_prefix(lo, m, max);
            lemma_heading_opens_with_marker(f, s, l);
            lemma_marker_no_fence(strip_nl(seq![m] + lo));
            if f is Markdown {
                lemma_line_in_heading(f, s, l);
                let j = choose|j: int| 0 <= j < heading_lines(f, s).len() && #[trigger] heading_lines(f, s)[j] == l;
                assert(!subtree_at_max(f, s, k));
                assert(level_of(f, s, j) != 6);
                assert(heading_at(f, s, l).unwrap().0 <= 6) by {
                    let text = strip_nl(lo);
                    crate::headline::lemma_run_end(text, m, 0);
                }
            }
        }
    }
    assert forall|l: int| 0 <= l < n implies (#[trigger] heading_at(f, t, l) is Some <==> heading_at(f, s, l) is Some) by {}
    lemma_heading_lines_same(f, s, t, 0);
}

/// Line `l` is a heading line: it is one of the heading lines.
proof fn lemma_line_in_heading(f: Format, s: Seq<char>, l: int)
    requires
        heading_at(f, s, l) is Some,
    ensures
        exists|j: int| 0 <= j < heading_lines(f, s).len() && #[trigger] heading_lines(f, s)[j] == l,
{
    assert(0 <= l < line_count(s)) by {
        if !(0 <= l < line_count(s)) {
            assert(line_of(s, l) =~= seq![]);
            assert(strip_nl(line_of(s, l)) =~= seq![]);
        }
    }
    crate::edits::lemma_line_in_heading_lines_pub(f, s, l);
}

/// Lines of `t` that `g` maps onto the lines of `s` join into `s`.
proof fn lemma_lines_onto(t: Seq<char>, s: Seq<char>, g: spec_fn(int, Seq<char>) -> Seq<char>, n: int)
    requires
        line_count(t) == line_count(s),
        0 <= n <= line_count(s),
        forall|l: int| 0 <= l < line_count(s) ==> #[trigger] g(l, line_of(t, l)) == line_of(s, l),
    ensures
        crate::document::mapped_lines(t, g, n) == s.take(line_start(s, n)),
    decreases n,
{
    if n > 0 {
        lemma_lines_onto(t, s, g, n - 1);
        crate::document::lemma_line_span(s, n - 1);
        crate::document::lemma_line_start_bounds(s, n - 1);
        assert(s.take(line_start(s, n - 1)) + line_of(s, n - 1) =~= s.take(line_start(s, n)));
    }
}

/// With the subtree's headings one level deeper and every other heading as it was, the search
/// for the next heading not deeper than number `k` ends where it did.
proof fn lemma_next_same(f: Format, s: Seq<char>, t: Seq<char>, k: int, j: int)
    requires
        heading_lines(f, t) == heading_lines(f, s),
        0 <= k < heading_lines(f, s).len(),
        k + 1 <= j,
        heading_lines(f, s)[k] <= extent_of(f, s, k),
        forall|a: int, b: int|
            0 <= a < b < heading_lines(f, s).len() ==> #[trigger] heading_lines(f, s)[a] < #[trigger] heading_lines(f, s)[b],
        forall|i: int|
            0 <= i < heading_lines(f, s).len() ==> #[trigger] level_of(f, t, i) == level_of(f, s, i) + if heading_lines(
                f,
                s,
            )[k] <= heading_lines(f, s)[i] <= extent_of(f, s, k) {
                1int
            } else {
                0int
            },
        match next_not_deeper(f, s, k, j) {
            Some(jj) => heading_lines(f, s)[jj] == extent_of(f, s, k) + 1,
            None => forall|i: int| j <= i < heading_lines(f, s).len() ==> #[trigger] heading_lines(f, s)[i] <= extent_of(f, s, k),
        },
    ensures
        next_not_deeper(f, t, k, j) == next_not_deeper(f, s, k, j),
    decreases heading_lines(f, s).len() - j,
{
    let hl = heading_lines(f, s);
    assert(level_of(f, t, k) == level_of(f, s, k) + 1);
    if j < hl.len() {
        assert(hl[k] < hl[j]);
        if level_of(f, s, j) <= level_of(f, s, k) {
            assert(next_not_deeper(f, s, k, j) == Some(j));
        } else {
            crate::edits::lemma_next_not_deeper(f, s, k, j + 1);
            match next_not_deeper(f, s, k, j) {
                Some(jj) => {
                    assert(hl[j] < hl[jj]);
                },
                None => {},
            }
            assert(level_of(f, t, j) == level_of(f, s, j) + 1);
            lemma_next_same(f, s, t, k, j + 1);
        }
    }
}

/// Demoting a subtree and then promoting it gives the text back: whenever the demotion
/// changes the text, the promotion that follows undoes it, the cursor staying on its line.
#[verifier::spinoff_prover]
#[verifier::rlimit(80)]
pub proof fn lemma_subtree_demote_then_promote(f: Format, s: Seq<char>, line: usize)
    requires
        subtree_demoted(f, s, line).0 is Changed,
    ensures
        subtree_promoted(f, subtree_demoted(f, s, line).1, line) == (EditOutcome::Changed { cursor_line: line }, s),
{
    lemma_subtree_demoted_lines(f, s, line);
    lemma_enclosing_facts(f, s, line as int);
    lemma_heading_lines(f, s);
    let k = enclosing_of(f, s, line as int).unwrap();
    let t = subtree_demoted(f, s, line).1;
    let hl = heading_lines(f, s);
    let top = hl[k];
    let last = extent_of(f, s, k);
    let n = line_count(s);
    let m = marker_of(f);
    // levels: one deeper inside the subtree
    assert forall|i: int| 0 <= i < hl.len() implies #[trigger] level_of(f, t, i) == level_of(f, s, i) + if top <= hl[i] <= last {
        1int
    } else {
        0int
    } by {
        assert(heading_at(f, t, hl[i]) == if in_subtree(f, s, k, hl[i]) {
            Some((heading_at(f, s, hl[i]).unwrap().0 + 1, heading_at(f, s, hl[i]).unwrap().1))
        } else {
            heading_at(f, s, hl[i])
        });
    }
    // the subtree keeps its extent
    assert(last_content_line(t) == last_content_line(s)) by {
        lemma_line_count_bounds(s);
        let ll = n - 1;
        if in_subtree(f, s, k, ll) {
            assert(line_of(t, ll) == seq![m] + line_of(s, ll));
            lemma_heading_opens_with_marker(f, s, ll);
        }
    }
    crate::edits::lemma_extent(f, s, k);
    match next_not_deeper(f, s, k, k + 1) {
        Some(jj) => {},
        None => {
            assert forall|i: int| k + 1 <= i < hl.len() implies #[trigger] hl[i] <= last by {
                lemma_heading_opens_with_marker(f, s, hl[i]);
                lemma_line_count_bounds(s);
                if hl[i] == n - 1 && n - 1 > 0 {
                    assert(line_of(s, n - 1).len() > 0);
                }
            }
        },
    }
    lemma_next_same(f, s, t, k, k + 1);
    assert(extent_of(f, t, k) == last);
    assert(enclosing_of(f, t, line as int) == Some(k));
    assert(level_of(f, t, k) == level_of(f, s, k) + 1);
    // promoting takes the marker off each heading of the subtree again
    let g2 = subtree_marks(f, t, top, last, true);
    assert forall|l: int| 0 <= l < n implies #[trigger] g2(l, line_of(t, l)) == line_of(s, l) by {
        if in_subtree(f, s, k, l) {
            assert((seq![m] + line_of(s, l)).skip(1) =~= line_of(s, l));
        }
    }
    lemma_lines_onto(t, s, g2, n);
    crate::document::lemma_last_line_end(s);
    assert(s.take(s.len() as int) =~= s);
}

} // verus!

verus! {

// ---- writing tags and reading them back --------------------------------------------------

/// A tag as the tags prompt writes it: non-empty, of tag chars, none a colon or whitespace.
pub open spec fn plain_tag(t: Seq<char>) -> bool {
    &&& t.len() > 0
    &&& all_tag_chars(t)
    &&& forall|i: int| 0 <= i < t.len() ==> #[trigger] t[i] != ':' && !is_ws(t[i])
}

/// The first `n` tags with a colon between each two.
pub open spec fn colon_joined(tags: Seq<String>, n: int) -> Seq<char>
    decreases n,
{
    if n <= 0 || n > tags.len() {
        seq![]
    } else if n == 1 {
        tags[0]@
    } else {
        colon_joined(tags, n - 1) + seq![':'] + tags[n - 1]@
    }
}

/// A separator-free stretch up to the end is split as one piece.
proof fn lemma_split_run(s: Seq<char>, sep: char, j: int, cur: Seq<char>)
    requires
        0 <= j <= s.len(),
        forall|k: int| j <= k < s.len() ==> s[k] != sep,
    ensures
        split_acc(s, sep, j, cur) == seq![cur + s.skip(j)],
    decreases s.len() - j,
{
    if j < s.len() {
        lemma_split_run(s, sep, j + 1, cur.push(s[j]));
        assert(cur.push(s[j]) + s.skip(j + 1) =~= cur + s.skip(j));
    } else {
        assert(cur + s.skip(j) =~= cur);
    }
}

/// Splitting `x`, a separator and a separator-free `y` gives the pieces of `x`, then `y`.
proof fn lemma_split_last(x: Seq<char>, y: Seq<char>, sep: char, i: int, cur: Seq<char>)
    requires
        0 <= i <= x.len(),
        forall|k: int| 0 <= k < y.len() ==> y[k] != sep,
    ensures
        split_acc(x + seq![sep] + y, sep, i, cur) == split_acc(x, sep, i, cur).push(y),
    decreases x.len() - i,
{
    let s = x + seq![sep] + y;
    if i == x.len() {
        assert(s[i] == sep);
        lemma_split_run(s, sep, i + 1, seq![]);
        assert(seq![] + s.skip(i + 1) =~= y);
        assert(split_acc(s, sep, i, cur) =~= seq![cur].push(y));
    } else {
        assert(s[i] == x[i]);
        if x[i] == sep {
            lemma_split_last(x, y, sep, i + 1, seq![]);
            assert(split_acc(s, sep, i, cur) =~= split_acc(x, sep, i, cur).push(y));
        } else {
            lemma_split_last(x, y, sep, i + 1, cur.push(x[i]));
        }
    }
}

/// Colon-joined plain tags split back into the tags; the tag tail is them with a colon after.
proof fn lemma_joined(tags: Seq<String>, n: int)
    requires
        1 <= n <= tags.len(),
        forall|i: int| 0 <= i < tags.len() ==> plain_tag(#[trigger] tags[i]@),
    ensures
        pieces(colon_joined(tags, n), ':') == tags.take(n).map_values(|t: String| t@),
        tag_tail(tags, n) == colon_joined(tags, n) + seq![':'],
        colon_joined(tags, n).len() > 0,
        forall|k: int| 0 <= k < colon_joined(tags, n).len() ==> !is_ws(#[trigger] colon_joined(tags, n)[k]),
    decreases n,
{
    let j = colon_joined(tags, n);
    assert(plain_tag(tags[n - 1]@));
    if n == 1 {
        lemma_split_run(j, ':', 0, seq![]);
        assert(seq![] + j.skip(0) =~= j);
        assert(tags.take(1).map_values(|t: String| t@) =~= seq![tags[0]@]);
        assert(tag_tail(tags, 0) =~= seq![]);
        assert(tag_tail(tags, 1) =~= j + seq![':']);
    } else {
        lemma_joined(tags, n - 1);
        let x = colon_joined(tags, n - 1);
        let y = tags[n - 1]@;
        lemma_split_last(x, y, ':', 0, seq![]);
        assert(tags.take(n).map_values(|t: String| t@) =~= tags.take(n - 1).map_values(|t: String| t@).push(y));
        assert(tag_tail(tags, n) =~= j + seq![':']);
        assert forall|k: int| 0 <= k < j.len() implies !is_ws(#[trigger] j[k]) by {
            if k < x.len() {
                assert(j[k] == x[k]);
            } else if k > x.len() {
                assert(j[k] == y[k - x.len() - 1]);
            }
        }
    }
}

/// Past a whitespace char at `p` and only non-whitespace after it, the last whitespace ends at
/// `p`.
proof fn lemma_after_last_ws(t: Seq<char>, p: int, j: int)
    requires
        0 <= p < j <= t.len(),
        is_ws(t[p]),
        forall|k: int| p < k < j ==> !is_ws(#[trigger] t[k]),
    ensures
        after_last_ws(t, j) == p + 1,
    decreases j,
{
    if j > p + 1 {
        lemma_after_last_ws(t, p, j - 1);
    }
}

/// Writing plain tags into a line and reading the line's tags back gives those tags, with the
/// part of the line before them what it was before the tags were written.
pub proof fn lemma_tags_read_back(text: Seq<char>, tags: Seq<String>)
    requires
        tags.len() > 0,
        forall|i: int| 0 <= i < tags.len() ==> plain_tag(#[trigger] tags[i]@),
    ensures
        split_tags(retagged_line(text, tags)) == (split_tags(text).0, tags.map_values(|t: String| t@)),
{
    let n = tags.len() as int;
    lemma_joined(tags, n);
    let x = match tag_start(text) {
        Some(i) => text.take(i),
        None => text,
    };
    let prefix = trim_end(x);
    crate::text::lemma_skip_ws_back(x, x.len() as int);
    let p = prefix.len() as int;
    let j = colon_joined(tags, n);
    let w = seq![':'] + j + seq![':'];
    let u = retagged_line(text, tags);
    assert(u =~= prefix + seq![' '] + w);
    // nothing trails the run
    assert(!is_ws(u[u.len() - 1]));
    assert(trim_end(u) =~= u);
    // the run starts just past the space
    assert forall|k: int| p < k < u.len() implies !is_ws(#[trigger] u[k]) by {
        if p + 1 < k < u.len() - 1 {
            assert(u[k] == j[k - p - 2]);
        }
    }
    lemma_after_last_ws(u, p, u.len() as int);
    assert(u.skip(p + 1) =~= w);
    assert(w.subrange(1, w.len() - 1) =~= j);
    assert forall|k: int| 0 <= k < pieces(j, ':').len() implies ({
        let q = #[trigger] pieces(j, ':')[k];
        q.len() > 0 && all_tag_chars(q)
    }) by {
        assert(pieces(j, ':')[k] == tags[k]@);
        assert(plain_tag(tags[k]@));
    }
    assert(tag_run(w));
    assert(tag_start(u) == Some(p + 1));
    assert(u.subrange(p + 2, u.len() - 1) =~= j);
    assert(tags.take(n) =~= tags);
    // the part before the run trims back to the prefix
    let v = u.take(p + 1);
    assert(v =~= prefix + seq![' ']);
    assert(skip_ws_back(v, p + 1) == skip_ws_back(v, p));
    if p > 0 {
        assert(v[p - 1] == prefix[p - 1]);
    }
    assert(trim_end(v) =~= prefix);
}

} // verus!

verus! {

// ---- the shape of an outline ---------------------------------------------------------------

/// The headings the search for the next heading not deeper than number `k` passes over, from
/// number `i` on, are all deeper than `k`.
proof fn lemma_passed_deeper(f: Format, s: Seq<char>, k: int, i: int, m: int)
    requires
        0 <= i <= m < heading_lines(f, s).len(),
        next_not_deeper(f, s, k, i) matches Some(jj) ==> m < jj,
    ensures
        level_of(f, s, m) > level_of(f, s, k),
    decreases m - i,
{
    if level_of(f, s, i) <= level_of(f, s, k) {
        assert(next_not_deeper(f, s, k, i) == Some(i));
    } else if i < m {
        lemma_passed_deeper(f, s, k, i + 1, m);
    }
}

/// Past only deeper headings from number `i`, the search stops at `j` when that one is not
/// deeper; with every heading from `i` on deeper, it finds none.
proof fn lemma_next_is(f: Format, s: Seq<char>, k: int, i: int, j: int)
    requires
        0 <= i <= j <= heading_lines(f, s).len(),
        forall|m: int| i <= m < j ==> level_of(f, s, m) > level_of(f, s, k),
        j < heading_lines(f, s).len() ==> level_of(f, s, j) <= level_of(f, s, k),
    ensures
        next_not_deeper(f, s, k, i) == if j < heading_lines(f, s).len() {
            Some(j)
        } else {
            None::<int>
        },
    decreases j - i,
{
    if i < j {
        lemma_next_is(f, s, k, i + 1, j);
    }
}

/// An outline's headings run down the text; each subtree starts at its heading and ends
/// within the text; the headings inside a subtree are deeper than its heading, and a heading
/// right after a subtree is not.
pub proof fn lemma_outline_shape(o: crate::structure::Outline, f: Format, s: Seq<char>)
    requires
        crate::structure::outline_is(o, f, s),
    ensures
        forall|a: int, b: int|
            0 <= a < b < o.headings@.len() ==> (#[trigger] o.headings@[a]).line < (#[trigger] o.headings@[b]).line,
        forall|k: int|
            0 <= k < o.headings@.len() ==> (#[trigger] o.headings@[k]).line <= o.headings@[k].last_line < line_count(s),
        forall|k: int, j: int|
            0 <= k < j < o.headings@.len() && (#[trigger] o.headings@[j]).line <= (#[trigger] o.headings@[k]).last_line
                ==> o.headings@[j].level > o.headings@[k].level,
        forall|k: int, j: int|
            0 <= k < j < o.headings@.len() && (#[trigger] o.headings@[j]).line == (#[trigger] o.headings@[k]).last_line + 1
                ==> o.headings@[j].level <= o.headings@[k].level,
        forall|k: int, j: int|
            0 <= k < j < o.headings@.len() && (#[trigger] o.headings@[j]).level <= (#[trigger] o.headings@[k]).level
                && (forall|m: int| k < m < j ==> (#[trigger] o.headings@[m]).level > o.headings@[k].level)
                ==> o.headings@[k].last_line == o.headings@[j].line - 1,
        forall|k: int|
            0 <= k < o.headings@.len() && (forall|m: int| k < m < o.headings@.len() ==> (#[trigger] o.headings@[m]).level
                > o.headings@[k].level) ==> (#[trigger] o.headings@[k]).last_line == last_content_line(s),
{
    let hs = o.headings@;
    let hl = heading_lines(f, s);
    lemma_heading_lines(f, s);
    assert forall|a: int, b: int| 0 <= a < b < hs.len() implies (#[trigger] hs[a]).line < (#[trigger] hs[b]).line by {
        assert(crate::structure::heading_is(hs[a], f, s, a));
        assert(crate::structure::heading_is(hs[b], f, s, b));
    }
    assert forall|k: int| 0 <= k < hs.len() implies (#[trigger] hs[k]).line <= hs[k].last_line < line_count(s) by {
        assert(crate::structure::heading_is(hs[k], f, s, k));
        crate::edits::lemma_extent(f, s, k);
    }
    assert forall|k: int, j: int|
        0 <= k < j < hs.len() && (#[trigger] hs[j]).line <= (#[trigger] hs[k]).last_line implies hs[j].level
            > hs[k].level by {
        assert(crate::structure::heading_is(hs[k], f, s, k));
        assert(crate::structure::heading_is(hs[j], f, s, j));
        crate::edits::lemma_next_not_deeper(f, s, k, k + 1);
        if let Some(jj) = next_not_deeper(f, s, k, k + 1) {
            if j >= jj {
                assert(hl[jj] <= hl[j]);
            }
        }
        lemma_passed_deeper(f, s, k, k + 1, j);
    }
    assert forall|k: int, j: int|
        0 <= k < j < hs.len() && (#[trigger] hs[j]).line == (#[trigger] hs[k]).last_line + 1 implies hs[j].level
            <= hs[k].level by {
        assert(crate::structure::heading_is(hs[k], f, s, k));
        assert(crate::structure::heading_is(hs[j], f, s, j));
        crate::edits::lemma_next_not_deeper(f, s, k, k + 1);
        match next_not_deeper(f, s, k, k + 1) {
            Some(jj) => {
                if j < jj {
                    assert(hl[j] < hl[jj]);
                } else if j > jj {
                    assert(hl[jj] < hl[j]);
                }
            },
            None => {
                lemma_heading_opens_with_marker(f, s, hl[j]);
                lemma_line_count_bounds(s);
                let n = line_count(s);
                if hl[j] == n - 1 {
                    assert(strip_nl(line_of(s, n - 1)).len() > 0);
                }
            },
        }
    }
    assert forall|k: int, j: int|
        0 <= k < j < hs.len() && (#[trigger] hs[j]).level <= (#[trigger] hs[k]).level && (forall|m: int|
            k < m < j ==> (#[trigger] hs[m]).level > hs[k].level) implies hs[k].last_line == hs[j].line - 1 by {
        assert(crate::structure::heading_is(hs[k], f, s, k));
        assert(crate::structure::heading_is(hs[j], f, s, j));
        assert forall|m: int| k + 1 <= m < j implies level_of(f, s, m) > level_of(f, s, k) by {
            assert(crate::structure::heading_is(hs[m], f, s, m));
            assert(hs[m].level > hs[k].level);
        }
        lemma_next_is(f, s, k, k + 1, j);
    }
    assert forall|k: int|
        0 <= k < hs.len() && (forall|m: int| k < m < hs.len() ==> (#[trigger] hs[m]).level > hs[k].level)
            implies (#[trigger] hs[k]).last_line == last_content_line(s) by {
        assert(crate::structure::heading_is(hs[k], f, s, k));
        assert forall|m: int| k + 1 <= m < hl.len() implies level_of(f, s, m) > level_of(f, s, k) by {
            assert(crate::structure::heading_is(hs[m], f, s, m));
            assert(hs[m].level > hs[k].level);
        }
        lemma_next_is(f, s, k, k + 1, hl.len() as int);
    }
}

} // verus!

verus! {

// ---- typing and taking it back -------------------------------------------------------------

/// An edit inside one line's body, bringing no newline: the same lines, the line starting
/// where it did, its body longer by what was put in less what was taken out.
proof fn lemma_in_line_edit(s: Seq<char>, line: int, a: int, d: int, w: Seq<char>)
    requires
        0 <= line < line_count(s),
        line_start(s, line) <= a,
        0 <= d,
        a + d <= line_start(s, line) + line_body(s, line).len(),
        forall|i: int| 0 <= i < w.len() ==> #[trigger] w[i] != '\n',
    ensures
        ({
            let t = s.take(a) + w + s.skip(a + d);
            &&& line_count(t) == line_count(s)
            &&& line_start(t, line) == line_start(s, line)
            &&& line_body(t, line).len() == line_body(s, line).len() - d + w.len()
        }),
{
    let ls = line_start(s, line);
    let lo = line_of(s, line);
    lemma_line_parts(s, line);
    let q = a - ls;
    let g = crate::rewrite::line_replaced(line, q, q + d, w);
    lemma_edit_in_line(s, line, a, a + d, w);
    lemma_lines_shaped(s, line);
    lemma_replaced_line(lo, q, d, w, line, line_count(s));
    let t = s.take(a) + w + s.skip(a + d);
    let n = line_count(s);
    assert forall|k: int| 0 <= k < n implies line_shaped(#[trigger] g(k, line_of(s, k)), k, n) by {
        if k != line {
            lemma_lines_shaped(s, k);
        }
    }
    lemma_rewritten_lines(s, g);
    assert forall|k: int| 0 <= k < line implies #[trigger] g(k, line_of(s, k)) == line_of(s, k) by {}
    lemma_lines_join(s, g, line);
    lemma_line_start_bounds(s, line);
    assert(line_start(t, line) == crate::document::mapped_lines(s, g, line).len());
    lemma_line_parts(t, line);
}

/// Typing a char other than a newline and then deleting the char before the caret gives the
/// text back, the caret where it was.
pub proof fn lemma_type_then_backspace(s: Seq<char>, line: int, col: int, goal: int, ch: char)
    requires
        0 <= line <= crate::view::last_line(s),
        0 <= col <= crate::view::line_len(s, line),
        ch != '\n',
    ensures
        ({
            let r1 = crate::session::typing_result(s, line, col, goal, crate::session::Typing::Char(ch));
            let r2 = crate::session::typing_result(r1.0, r1.1.0, r1.1.1, r1.1.2, crate::session::Typing::Backspace);
            &&& r1.1 == (line, col + 1, col + 1)
            &&& r2.0 == s
            &&& r2.1 == (line, col, col)
        }),
{
    let idx = line_start(s, line) + col;
    lemma_line_parts(s, line);
    lemma_in_line_edit(s, line, idx, 0, seq![ch]);
    let n = crate::document::spliced_in(s, idx, seq![ch]);
    assert(n == s.take(idx) + seq![ch] + s.skip(idx + 0));
    let idx1 = line_start(n, line) + col + 1;
    assert(crate::document::spliced_out(n, idx1 - 1, idx1) =~= s);
}

} // verus!

verus! {

// ---- the caret model: inserting and taking back ---------------------------------------------

/// Two texts that agree up to and including `e`, where the first `c` at or after `p` is at
/// `e`, find it there both.
proof fn lemma_same_first(a: Seq<char>, b: Seq<char>, c: char, p: int, e: int)
    requires
        0 <= p <= e < a.len(),
        e < b.len(),
        a[e] == c,
        forall|q: int| p <= q < e ==> a[q] != c,
        forall|q: int| p <= q <= e ==> a[q] == b[q],
    ensures
        index_of_from(a, c, p) == e,
        index_of_from(b, c, p) == e,
{
    lemma_index_of(a, c, p);
    lemma_index_of(b, c, p);
}

/// Breaking line `line` at column `col` of `s`: the lines above and the line's start stay,
/// the line now ends at the break, and a new line starts just after it.
proof fn lemma_newline_inserted(s: Seq<char>, line: int, col: int)
    requires
        0 <= line <= crate::view::last_line(s),
        0 <= col <= crate::view::line_len(s, line),
    ensures
        ({
            let idx = line_start(s, line) + col;
            let n = spliced_in(s, idx, seq!['\n']);
            &&& line_start(n, line) == line_start(s, line)
            &&& line_start(n, line + 1) == idx + 1
            &&& crate::view::line_len(n, line) == col
            &&& line + 1 <= crate::view::last_line(n)
        }),
{
    let idx = line_start(s, line) + col;
    let n = spliced_in(s, idx, seq!['\n']);
    lemma_line_parts(s, line);
    assert forall|q: int| 0 <= q < idx implies #[trigger] n[q] == s[q] by {}
    // the lines above end where they did, before the break
    assert forall|k: int| 0 <= k <= line implies #[trigger] line_start(n, k) == line_start(s, k)
        && (k < line ==> line_end(s, k) < line_start(s, line)) by {
        lemma_starts_kept(s, n, line, idx, k);
    }
    let ls = line_start(s, line);
    assert(n[idx] == '\n');
    lemma_same_first(n, n, '\n', ls, idx);
    lemma_lines_left(s, line);
    assert forall|j: int| 0 <= j < line + 1 implies #[trigger] line_end(n, j) < n.len() by {
        if j < line {
            lemma_starts_kept(s, n, line, idx, j);
            lemma_line_start_bounds(s, j);
            lemma_lines_left(s, j);
            lemma_index_of(s, '\n', line_start(s, j));
            lemma_same_first(s, n, '\n', line_start(s, j), line_end(s, j));
        }
    }
    crate::document::lemma_lines_before(n, line + 1);
    lemma_line_parts(n, line);
}

/// The line starts of `n`, which agrees with `s` before `idx` (at or after line `line`'s
/// start), are those of `s` up to line `line`.
proof fn lemma_starts_kept(s: Seq<char>, n: Seq<char>, line: int, idx: int, k: int)
    requires
        0 <= k <= line < line_count(s),
        line_start(s, line) <= idx <= n.len(),
        forall|q: int| 0 <= q < idx ==> #[trigger] n[q] == s[q],
    ensures
        line_start(n, k) == line_start(s, k),
        k < line ==> line_end(s, k) < line_start(s, line),
    decreases k,
{
    if k > 0 {
        lemma_starts_kept(s, n, line, idx, k - 1);
        let j = k - 1;
        lemma_line_start_bounds(s, j);
        lemma_lines_left(s, j);
        lemma_index_of(s, '\n', line_start(s, j));
        lemma_same_first(s, n, '\n', line_start(s, j), line_end(s, j));
    }
    if k < line {
        lemma_line_start_bounds(s, k);
        lemma_lines_left(s, k);
        crate::rewrite::lemma_line_start_mono(s, k + 1, line);
    }
}

/// Inserting a char at the caret (a newline included) and then deleting the char before the
/// caret gives the text back, the caret where it was — each step as the caret model's
/// `insert_char`/`insert_newline` and `backspace` state it.
pub proof fn lemma_insert_then_backspace(s: Seq<char>, line: int, col: int, ch: char)
    requires
        0 <= line <= crate::view::last_line(s),
        0 <= col <= crate::view::line_len(s, line),
    ensures
        ({
            let idx = line_start(s, line) + col;
            let n = spliced_in(s, idx, seq![ch]);
            let p = if ch == '\n' {
                crate::view::clamp_pos(n, line + 1, 0)
            } else {
                crate::view::clamp_pos(n, line, col + 1)
            };
            let idx1 = line_start(n, p.0) + p.1;
            &&& idx1 > 0
            &&& spliced_out(n, idx1 - 1, idx1) == s
            &&& (if p.1 > 0 {
                crate::view::clamp_pos(s, p.0, p.1 - 1)
            } else {
                crate::view::clamp_pos(s, p.0 - 1, crate::view::line_len(n, p.0 - 1))
            }) == (line, col)
        }),
{
    let idx = line_start(s, line) + col;
    let n = spliced_in(s, idx, seq![ch]);
    lemma_line_parts(s, line);
    if ch == '\n' {
        lemma_newline_inserted(s, line, col);
        assert(spliced_out(n, idx, idx + 1) =~= s);
    } else {
        lemma_in_line_edit(s, line, idx, 0, seq![ch]);
        assert(n == s.take(idx) + seq![ch] + s.skip(idx + 0));
        assert(spliced_out(n, idx, idx + 1) =~= s);
    }
}

} // verus!

verus! {

/// Text put in at the place `sibling_place` picks for line `target` starts that line, and
/// the text above that line stays as it was.
#[verifier::spinoff_prover]
#[verifier::rlimit(40)]
proof fn lemma_placed_line(s: Seq<char>, target: int, body: Seq<char>)
    requires
        0 <= target <= line_count(s),
        target == line_count(s) ==> s.len() > 0 && s.last() != '\n',
    ensures
        ({
            let (at, prefix) = crate::edits::sibling_place(s, target);
            let t = spliced_in(s, at, prefix + body);
            &&& crate::document::line_at(t, at + prefix.len()) == target
            &&& line_start(t, target) == at + prefix.len()
            &&& target < line_count(s) ==> at == line_start(s, target) && prefix.len() == 0
            &&& target == line_count(s) ==> at == s.len()
        }),
{
    let (at, prefix) = crate::edits::sibling_place(s, target);
    let t = spliced_in(s, at, prefix + body);
    if target < line_count(s) {
        lemma_line_start_bounds(s, target);
        crate::document::lemma_line_at_start(s, target);
        assert forall|i: int| 0 <= i < at implies #[trigger] t[i] == s[i] by {}
        crate::document::lemma_line_at_prefix(t, s, at);
        lemma_starts_kept(s, t, target, at, target);
    } else {
        assert(prefix == seq!['\n']);
        crate::document::lemma_line_at_end(s);
        assert forall|i: int| 0 <= i < s.len() implies #[trigger] t[i] == s[i] by {}
        crate::document::lemma_line_at_prefix(t, s, s.len() as int);
        assert(t[s.len() as int] == '\n');
        let last = target - 1;
        crate::document::lemma_last_line_end(s);
        lemma_line_parts(s, last);
        lemma_starts_kept(s, t, last, s.len() as int, last);
        let p = line_start(s, last);
        lemma_same_first(t, t, '\n', p, s.len() as int);
    }
}

/// With no heading above `line`, a new level-1 heading is appended at the end of the text,
/// behind a newline when the text does not end in one, and the cursor lands on it.
#[verifier::spinoff_prover]
#[verifier::rlimit(40)]
pub proof fn lemma_sibling_at_end(f: Format, s: Seq<char>, line: usize, todo: bool)
    requires
        enclosing_of(f, s, line as int) is None,
    ensures
        ({
            let (out, t) = crate::edits::sibling_inserted(f, s, line, todo);
            let h = seq![marker_of(f), ' '] + (if todo {
                todo_space()
            } else {
                seq![]
            }) + seq!['\n'];
            let open_end = s.len() > 0 && s.last() != '\n';
            &&& t == (if open_end {
                s.push('\n')
            } else {
                s
            }) + h
            &&& out == EditOutcome::Changed {
                cursor_line: (if open_end {
                    line_count(s)
                } else {
                    line_count(s) - 1
                }) as usize,
            }
        }),
{
    let open_end = s.len() > 0 && s.last() != '\n';
    let (at, prefix) = crate::edits::sibling_place(s, line_count(s));
    let body = crate::edits::repeated(marker_of(f), 1) + seq![' '] + (if todo {
        todo_space()
    } else {
        seq![]
    }) + seq!['\n'];
    let h = seq![marker_of(f), ' '] + (if todo {
        todo_space()
    } else {
        seq![]
    }) + seq!['\n'];
    assert(body =~= h);
    let new_line = prefix + crate::edits::repeated(marker_of(f), 1) + seq![' '] + (if todo {
        todo_space()
    } else {
        seq![]
    }) + seq!['\n'];
    assert(new_line =~= prefix + body);
    let t = spliced_in(s, at, new_line);
    assert(at == s.len());
    assert(t =~= (if open_end {
        s.push('\n')
    } else {
        s
    }) + h);
    lemma_line_count_bounds(s);
    if open_end {
        lemma_placed_line(s, line_count(s), body);
    } else {
        crate::document::lemma_line_at_end(s);
        assert forall|i: int| 0 <= i < s.len() implies #[trigger] t[i] == s[i] by {}
        crate::document::lemma_line_at_prefix(t, s, s.len() as int);
    }
}

/// When a subtree runs to the last line, that line holds text and the text does not end in
/// a newline.
proof fn lemma_subtree_to_end(f: Format, s: Seq<char>, k: int)
    requires
        0 <= k < heading_lines(f, s).len(),
        extent_of(f, s, k) == line_count(s) - 1,
    ensures
        s.len() > 0 && s.last() != '\n',
{
    lemma_heading_lines(f, s);
    lemma_line_count_bounds(s);
    let last = line_count(s) - 1;
    crate::edits::lemma_next_not_deeper(f, s, k, k + 1);
    crate::document::lemma_last_line_end(s);
    lemma_line_parts(s, last);
    if last == 0 {
        lemma_heading_level_bound(f, s, heading_lines(f, s)[k]);
    }
    assert(line_body(s, last).len() > 0);
    assert(s[s.len() - 1] == line_body(s, last).last());
}

/// A new sibling goes right below the whole subtree enclosing `line`: the cursor lands on
/// the line after the subtree's last line, and the text down to that line is kept as it
/// was.
#[verifier::spinoff_prover]
#[verifier::rlimit(40)]
pub proof fn lemma_sibling_after_subtree(f: Format, s: Seq<char>, line: usize, todo: bool)
    requires
        enclosing_of(f, s, line as int) is Some,
    ensures
        ({
            let k = enclosing_of(f, s, line as int).unwrap();
            let e = extent_of(f, s, k);
            let (out, t) = crate::edits::sibling_inserted(f, s, line, todo);
            let h = crate::edits::repeated(marker_of(f), level_of(f, s, k)) + seq![' '] + (if todo {
                todo_space()
            } else {
                seq![]
            }) + seq!['\n'];
            let p = line_start(t, e + 1);
            &&& out == EditOutcome::Changed { cursor_line: (e + 1) as usize }
            &&& p + h.len() <= t.len()
            &&& t.subrange(p, p + h.len()) == h
            &&& e + 1 < line_count(s) ==> p == line_start(s, e + 1) && t.take(p) == s.take(p)
                && t.skip(p + h.len()) == s.skip(p)
            &&& e + 1 == line_count(s) ==> t.take(p) == s.push('\n') && p + h.len() == t.len()
        }),
{
    let k = enclosing_of(f, s, line as int).unwrap();
    let e = extent_of(f, s, k);
    let level = level_of(f, s, k);
    lemma_enclosing_facts(f, s, line as int);
    crate::edits::lemma_extent(f, s, k);
    lemma_heading_lines(f, s);
    let target = e + 1;
    let (at, prefix) = crate::edits::sibling_place(s, target);
    let body = crate::edits::repeated(marker_of(f), level) + seq![' '] + (if todo {
        todo_space()
    } else {
        seq![]
    }) + seq!['\n'];
    let new_line = prefix + crate::edits::repeated(marker_of(f), level) + seq![' '] + (if todo {
        todo_space()
    } else {
        seq![]
    }) + seq!['\n'];
    assert(new_line =~= prefix + body);
    if target == line_count(s) {
        lemma_subtree_to_end(f, s, k);
    }
    lemma_placed_line(s, target, body);
    let t = spliced_in(s, at, new_line);
    let p = line_start(t, target);
    assert(t.subrange(p, p + body.len()) =~= body);
    if target < line_count(s) {
        assert(t.take(p) =~= s.take(p));
        assert(t.skip(p + body.len()) =~= s.skip(p));
    } else {
        assert(t.take(p) =~= s.push('\n'));
    }
}

} // verus!
