//! How a displayed line is marked up: planning keywords, timestamps, checkboxes and
//! statistics cookies get a mark of their own, the rest stays plain. The scans run one after
//! another; their ranges are taken left to right, and a range that overlaps one already taken
//! is dropped, so the earliest-starting (and, on a tie, the earliest-found) range wins.
use vstd::prelude::*;
use vstd::relations::{sorted_by, total_ordering};

use crate::display::{checkbox_token, cookies_from, find_checkbox_token, find_cookie_tokens, line_has_list_or_heading_prefix, list_or_heading_prefix};
use crate::text::{chars_of, find_chars, find_from};
use crate::timestamp::{find_timestamps_chars, spans_from};

verus! {

/// What a piece of a displayed line is.
#[derive(Debug, Clone, Copy, PartialEq, Eq, Structural)]
pub enum Mark {
    /// Nothing special.
    Plain,
    /// `SCHEDULED:` or `DEADLINE:`.
    Keyword,
    /// A timestamp.
    Stamp,
    /// A checked checkbox or a complete cookie.
    Done,
    /// An unchecked or partly checked checkbox.
    Dim,
    /// An incomplete cookie.
    Todo,
}

/// The mark a scan's rank stands for.
pub open spec fn rank_mark(r: int) -> Mark {
    if r == 0 {
        Mark::Keyword
    } else if r == 1 {
        Mark::Stamp
    } else if r == 2 {
        Mark::Done
    } else if r == 3 {
        Mark::Dim
    } else {
        Mark::Todo
    }
}

/// `SCHEDULED:`
pub open spec fn scheduled_kw() -> Seq<char> {
    seq!['S', 'C', 'H', 'E', 'D', 'U', 'L', 'E', 'D', ':']
}

/// `DEADLINE:`
pub open spec fn deadline_kw() -> Seq<char> {
    seq!['D', 'E', 'A', 'D', 'L', 'I', 'N', 'E', ':']
}

/// The first occurrence of keyword `kw`, as a range of rank `Keyword`.
pub open spec fn keyword_range(t: Seq<char>, kw: Seq<char>) -> Seq<(int, int, int)> {
    match find_from(t, kw, 0) {
        Some(i) => seq![(i, i + kw.len(), 0int)],
        None => seq![],
    }
}

/// The ranges the scans find, in the order they find them: the planning keywords, the
/// timestamps, the checkbox, and, on a list item or heading, the cookies. Each is
/// `(start, end, rank)`.
pub open spec fn found_ranges(t: Seq<char>) -> Seq<(int, int, int)> {
    let kws = keyword_range(t, scheduled_kw()) + keyword_range(t, deadline_kw());
    let stamps = spans_from(t, 0).map_values(|sp: (int, int)| (sp.0, sp.1, 1int));
    let boxes = match checkbox_token(t) {
        Some(((s, e), checked)) => seq![(s, e, if checked { 2int } else { 3int })],
        None => seq![],
    };
    let cookies = if list_or_heading_prefix(t) {
        cookies_from(t, 0).map_values(|c: ((int, int), bool)| (c.0.0, c.0.1, if c.1 { 2int } else { 4int }))
    } else {
        seq![]
    };
    kws + stamps + boxes + cookies
}

/// Each range keyed for ordering: `(start, position found, end, rank)`.
pub open spec fn keyed(r: Seq<(int, int, int)>) -> Seq<(int, int, int, int)> {
    Seq::new(r.len(), |i: int| (r[i].0, i, r[i].1, r[i].2))
}

/// Keys in order: by start, then by when they were found (then, never needed, the rest).
pub open spec fn key_le(x: (int, int, int, int), y: (int, int, int, int)) -> bool {
    x.0 < y.0 || (x.0 == y.0 && (x.1 < y.1 || (x.1 == y.1 && (x.2 < y.2 || (x.2 == y.2 && x.3 <= y.3)))))
}

/// The key order, as a relation.
pub open spec fn key_order() -> spec_fn((int, int, int, int), (int, int, int, int)) -> bool {
    |x: (int, int, int, int), y: (int, int, int, int)| key_le(x, y)
}

/// The found ranges, left to right.
pub open spec fn ordered_ranges(t: Seq<char>) -> Seq<(int, int, int, int)> {
    keyed(found_ranges(t)).sort_by(key_order())
}

/// The pieces emitted for the first `k` ordered ranges, and where the last taken one ends.
/// A range that starts before that end is dropped; one that starts after it is preceded by
/// the plain text in between.
pub open spec fn emitted(o: Seq<(int, int, int, int)>, k: int) -> (Seq<(int, int, Mark)>, int)
    decreases k,
{
    if k <= 0 {
        (seq![], 0)
    } else {
        let (acc, cut) = emitted(o, k - 1);
        let x = o[k - 1];
        if x.0 < cut {
            (acc, cut)
        } else {
            let gap = if cut < x.0 {
                seq![(cut, x.0, Mark::Plain)]
            } else {
                seq![]
            };
            (acc + gap + seq![(x.0, x.2, rank_mark(x.3))], x.2)
        }
    }
}

/// The pieces of line `t`: `(start, end, mark)` char ranges left to right, the marked
/// ranges with the plain text around them, no empty plain piece.
pub open spec fn highlight(t: Seq<char>) -> Seq<(int, int, Mark)> {
    let o = ordered_ranges(t);
    let (acc, cut) = emitted(o, o.len() as int);
    if cut < t.len() {
        acc.push((cut, t.len() as int, Mark::Plain))
    } else {
        acc
    }
}

/// Pieces that run without gap or overlap from `from` to `to`, each from its start to its
/// end.
pub open spec fn tiles(p: Seq<(int, int, Mark)>, from: int, to: int) -> bool {
    &&& p.len() == 0 ==> from == to
    &&& p.len() > 0 ==> p[0].0 == from && p[p.len() - 1].1 == to
    &&& forall|k: int| 0 <= k < p.len() ==> (#[trigger] p[k]).0 <= p[k].1
    &&& forall|k: int| 0 <= k < p.len() - 1 ==> (#[trigger] p[k]).1 == p[k + 1].0
}

/// The ranges the scans find lie within the line, each non-empty.
proof fn lemma_found_bounds(t: Seq<char>)
    ensures
        forall|k: int|
            0 <= k < found_ranges(t).len() ==> 0 <= (#[trigger] found_ranges(t)[k]).0 < found_ranges(
                t,
            )[k].1 <= t.len(),
{
    crate::text::lemma_find_from_bounds(t, scheduled_kw(), 0);
    crate::text::lemma_find_from_bounds(t, deadline_kw(), 0);
    crate::edits::lemma_spans_bounds(t, 0);
    crate::display::lemma_checkbox_bounds(t);
    crate::display::lemma_cookies_bounds(t, 0);
    let kws = keyword_range(t, scheduled_kw()) + keyword_range(t, deadline_kw());
    let stamps = spans_from(t, 0).map_values(|sp: (int, int)| (sp.0, sp.1, 1int));
    let boxes = match checkbox_token(t) {
        Some(((s, e), checked)) => seq![(s, e, if checked { 2int } else { 3int })],
        None => seq![],
    };
    let cookies = if list_or_heading_prefix(t) {
        cookies_from(t, 0).map_values(|c: ((int, int), bool)| (c.0.0, c.0.1, if c.1 { 2int } else { 4int }))
    } else {
        seq![]
    };
    let f = found_ranges(t);
    assert(f == kws + stamps + boxes + cookies);
    assert forall|k: int| 0 <= k < f.len() implies 0 <= (#[trigger] f[k]).0 < f[k].1 <= t.len() by {
        let a = kws.len() as int;
        let b = a + stamps.len();
        let c = b + boxes.len();
        if k < a {
            assert(f[k] == kws[k]);
        } else if k < b {
            assert(f[k] == stamps[k - a]);
        } else if k < c {
            assert(f[k] == boxes[k - b]);
        } else {
            assert(f[k] == cookies[k - c]);
        }
    }
}

/// What the ranges taken so far emit tiles the line from its start to where the last one
/// ends.
proof fn lemma_emitted_tiles(o: Seq<(int, int, int, int)>, k: int, n: int)
    requires
        0 <= k <= o.len(),
        0 <= n,
        forall|j: int| 0 <= j < o.len() ==> 0 <= (#[trigger] o[j]).0 <= o[j].2 <= n,
    ensures
        tiles(emitted(o, k).0, 0, emitted(o, k).1),
        0 <= emitted(o, k).1 <= n,
    decreases k,
{
    if k > 0 {
        lemma_emitted_tiles(o, k - 1, n);
        let (acc, cut) = emitted(o, k - 1);
        let x = o[k - 1];
        if x.0 < cut {
            assert(emitted(o, k) == emitted(o, k - 1));
        } else {
            let gap = if cut < x.0 {
                seq![(cut, x.0, Mark::Plain)]
            } else {
                seq![]
            };
            let p = acc + gap + seq![(x.0, x.2, rank_mark(x.3))];
            assert(emitted(o, k).0 == p);
            assert(emitted(o, k).1 == x.2);
            assert(0 <= x.0 <= x.2 <= n);
            let g = acc + gap;
            assert(tiles(g, 0, x.0)) by {
                if cut < x.0 {
                    assert(g == acc.push((cut, x.0, Mark::Plain)));
                    assert forall|j: int| 0 <= j < g.len() - 1 implies (#[trigger] g[j]).1 == g[j + 1].0 by {
                        if j < acc.len() - 1 {
                            assert(g[j] == acc[j] && g[j + 1] == acc[j + 1]);
                        }
                    }
                } else {
                    assert(g =~= acc);
                }
            }
            assert(p == g.push((x.0, x.2, rank_mark(x.3))));
            assert forall|j: int| 0 <= j < p.len() - 1 implies (#[trigger] p[j]).1 == p[j + 1].0 by {
                if j < g.len() - 1 {
                    assert(p[j] == g[j] && p[j + 1] == g[j + 1]);
                }
            }
            assert forall|j: int| 0 <= j < p.len() implies (#[trigger] p[j]).0 <= p[j].1 by {
                if j < g.len() {
                    assert(p[j] == g[j]);
                }
            }
        }
    }
}

/// The pieces of a line tile it: they run from its start to its end without gap or overlap,
/// so together they hold the line's text exactly once, in order.
pub proof fn lemma_highlight_tiles(t: Seq<char>)
    ensures
        tiles(highlight(t), 0, t.len() as int),
{
    lemma_found_bounds(t);
    lemma_key_order_total();
    let f = found_ranges(t);
    let kd = keyed(f);
    let o = ordered_ranges(t);
    kd.lemma_sort_by_ensures(key_order());
    assert forall|j: int| 0 <= j < o.len() implies 0 <= (#[trigger] o[j]).0 <= o[j].2 <= t.len() by {
        assert(o.contains(o[j]));
        assert(kd.contains(o[j]));
        let m = choose|m: int| 0 <= m < kd.len() && kd[m] == o[j];
        assert(kd[m] == (f[m].0, m, f[m].1, f[m].2));
    }
    lemma_emitted_tiles(o, o.len() as int, t.len() as int);
    let (acc, cut) = emitted(o, o.len() as int);
    if cut < t.len() {
        let p = acc.push((cut, t.len() as int, Mark::Plain));
        assert forall|j: int| 0 <= j < p.len() - 1 implies (#[trigger] p[j]).1 == p[j + 1].0 by {
            if j < acc.len() - 1 {
                assert(p[j] == acc[j] && p[j + 1] == acc[j + 1]);
            }
        }
        assert forall|j: int| 0 <= j < p.len() implies (#[trigger] p[j]).0 <= p[j].1 by {
            if j < acc.len() {
                assert(p[j] == acc[j]);
            }
        }
    }
}

/// A line with nothing to mark — no planning keyword, no timestamp, no checkbox, no cookie
/// on a list item or heading — is one plain piece (none when it is empty).
pub proof fn lemma_nothing_marked(t: Seq<char>)
    requires
        found_ranges(t).len() == 0,
    ensures
        highlight(t) == if t.len() > 0 {
            seq![(0int, t.len() as int, Mark::Plain)]
        } else {
            seq![]
        },
        forall|k: int| 0 <= k < highlight(t).len() ==> (#[trigger] highlight(t)[k]).2 == Mark::Plain,
{
    lemma_key_order_total();
    let kd = keyed(found_ranges(t));
    kd.lemma_sort_by_ensures(key_order());
    assert(kd.len() == 0);
    kd.to_multiset_ensures();
    ordered_ranges(t).to_multiset_ensures();
    assert(ordered_ranges(t).len() == 0);
    let r = highlight(t);
    if t.len() > 0 {
        assert(r == seq![].push((0int, t.len() as int, Mark::Plain)));
        assert(r =~= seq![(0int, t.len() as int, Mark::Plain)]);
    }
}

/// The key order is a total order.
proof fn lemma_key_order_total()
    ensures
        total_ordering(key_order()),
{
}

/// The pieces as integers.
pub open spec fn pieces_view(v: Seq<(usize, usize, Mark)>) -> Seq<(int, int, Mark)> {
    v.map_values(|p: (usize, usize, Mark)| (p.0 as int, p.1 as int, p.2))
}

/// The keys as integers.
pub open spec fn keys_view(v: Seq<(usize, usize, usize, usize)>) -> Seq<(int, int, int, int)> {
    v.map_values(|k: (usize, usize, usize, usize)| (k.0 as int, k.1 as int, k.2 as int, k.3 as int))
}

/// The ranges as integers.
pub open spec fn ranges_view(v: Seq<(usize, usize, usize)>) -> Seq<(int, int, int)> {
    v.map_values(|k: (usize, usize, usize)| (k.0 as int, k.1 as int, k.2 as int))
}

fn key_le_exec(x: (usize, usize, usize, usize), y: (usize, usize, usize, usize)) -> (r: bool)
    ensures
        r == key_le((x.0 as int, x.1 as int, x.2 as int, x.3 as int), (y.0 as int, y.1 as int, y.2 as int, y.3 as int)),
{
    x.0 < y.0 || (x.0 == y.0 && (x.1 < y.1 || (x.1 == y.1 && (x.2 < y.2 || (x.2 == y.2 && x.3 <= y.3)))))
}

/// The keys of `v` in key order.
fn sort_keys(v: &Vec<(usize, usize, usize, usize)>) -> (r: Vec<(usize, usize, usize, usize)>)
    ensures
        keys_view(r@) == keys_view(v@).sort_by(key_order()),
{
    let ghost leq = key_order();
    let ghost vv = keys_view(v@);
    let mut out: Vec<(usize, usize, usize, usize)> = Vec::new();
    let mut i: usize = 0;
    proof {
        lemma_key_order_total();
        assert(vv.take(0) =~= Seq::<(int, int, int, int)>::empty());
        assert(keys_view(out@) =~= Seq::<(int, int, int, int)>::empty());
    }
    while i < v.len()
        invariant
            i <= v@.len(),
            vv == keys_view(v@),
            leq == key_order(),
            total_ordering(leq),
            sorted_by(keys_view(out@), leq),
            keys_view(out@).to_multiset() == vv.take(i as int).to_multiset(),
        decreases v@.len() - i,
    {
        let e = v[i];
        let ghost ev = (e.0 as int, e.1 as int, e.2 as int, e.3 as int);
        assert(ev == vv[i as int]);
        let ghost ov = keys_view(out@);
        let mut p: usize = 0;
        while p < out.len()
            invariant
                p <= out@.len(),
                ov == keys_view(out@),
                ev == (e.0 as int, e.1 as int, e.2 as int, e.3 as int),
                forall|j: int| 0 <= j < p ==> key_le(#[trigger] ov[j], ev),
            ensures
                p <= out@.len(),
                forall|j: int| 0 <= j < p ==> key_le(#[trigger] ov[j], ev),
                p < out@.len() ==> !key_le(ov[p as int], ev),
            decreases out@.len() - p,
        {
            let before = key_le_exec(out[p], e);
            assert(ov[p as int] == (out@[p as int].0 as int, out@[p as int].1 as int, out@[p as int].2 as int, out@[p as int].3 as int));
            if !before {
                break;
            }
            p = p + 1;
        }
        proof {
            if p < out@.len() {
                assert(leq(ov[p as int], ev) || leq(ev, ov[p as int]));
            }
            assert forall|j: int| p <= j < ov.len() implies key_le(ev, #[trigger] ov[j]) by {
                assert(leq(ev, ov[p as int]));
                if j > p {
                    assert(leq(ov[p as int], ov[j]));
                }
            }
        }
        out.insert(p, e);
        proof {
            let nv = keys_view(out@);
            assert(nv =~= ov.insert(p as int, ev));
            vstd::seq_lib::to_multiset_insert(ov, p as int, ev);
            assert(vv.take(i + 1) =~= vv.take(i as int).push(ev));
            vstd::seq_lib::to_multiset_build(vv.take(i as int), ev);
            assert forall|a: int, b: int| 0 <= a < b < nv.len() implies #[trigger] leq(nv[a], nv[b]) by {
                if b < p {
                    assert(leq(ov[a], ov[b]));
                } else if b == p {
                    assert(key_le(ov[a], ev));
                } else if a < p {
                    assert(leq(ov[a], ov[b - 1]));
                } else if a == p {
                    assert(key_le(ev, ov[b - 1]));
                } else {
                    assert(leq(ov[a - 1], ov[b - 1]));
                }
            }
        }
        i = i + 1;
    }
    proof {
        assert(vv.take(vv.len() as int) =~= vv);
        vv.lemma_sort_by_ensures(leq);
        vstd::seq_lib::lemma_sorted_unique(keys_view(out@), vv.sort_by(leq), leq);
    }
    out
}

/// The mark of a scan's rank.
fn mark_of(r: usize) -> (m: Mark)
    ensures
        m == rank_mark(r as int),
{
    if r == 0 {
        Mark::Keyword
    } else if r == 1 {
        Mark::Stamp
    } else if r == 2 {
        Mark::Done
    } else if r == 3 {
        Mark::Dim
    } else {
        Mark::Todo
    }
}

/// The range of the first occurrence of `kw` in `t`, if any.
fn push_keyword(out: &mut Vec<(usize, usize, usize)>, t: &Vec<char>, kw: &Vec<char>)
    ensures
        ranges_view(final(out)@) == ranges_view(old(out)@) + keyword_range(t@, kw@),
{
    proof {
        crate::text::lemma_find_from_bounds(t@, kw@, 0);
    }
    match find_chars(t, kw, 0) {
        Some(i) => {
            assert(find_from(t@, kw@, 0) == Some(i as int));
            assert(i + kw@.len() <= t.len());
            let end = i + kw.len();
            out.push((i, end, 0));
            assert(ranges_view(out@) =~= ranges_view(old(out)@) + keyword_range(t@, kw@));
        },
        None => {
            assert(ranges_view(out@) =~= ranges_view(old(out)@) + keyword_range(t@, kw@));
        },
    }
}

/// The ranges the scans find on `text`.
fn found_ranges_exec(text: &str) -> (r: Vec<(usize, usize, usize)>)
    ensures
        ranges_view(r@) == found_ranges(text@),
{
    let t = chars_of(text);
    let mut out: Vec<(usize, usize, usize)> = Vec::new();
    let sched = vec!['S', 'C', 'H', 'E', 'D', 'U', 'L', 'E', 'D', ':'];
    let dead = vec!['D', 'E', 'A', 'D', 'L', 'I', 'N', 'E', ':'];
    assert(sched@ =~= scheduled_kw());
    assert(dead@ =~= deadline_kw());
    push_keyword(&mut out, &t, &sched);
    push_keyword(&mut out, &t, &dead);
    let ghost kws = ranges_view(out@);
    let stamps = find_timestamps_chars(&t);
    let ghost sv = spans_from(t@, 0).map_values(|sp: (int, int)| (sp.0, sp.1, 1int));
    let mut k: usize = 0;
    while k < stamps.len()
        invariant
            k <= stamps@.len(),
            stamps@.len() == spans_from(t@, 0).len(),
            forall|j: int| 0 <= j < stamps@.len() ==> (#[trigger] stamps@[j]).0 == spans_from(t@, 0)[j].0
                && stamps@[j].1 == spans_from(t@, 0)[j].1,
            sv == spans_from(t@, 0).map_values(|sp: (int, int)| (sp.0, sp.1, 1int)),
            ranges_view(out@) == kws + sv.take(k as int),
        decreases stamps@.len() - k,
    {
        let sp = stamps[k];
        let ghost prev = ranges_view(out@);
        out.push((sp.0, sp.1, 1));
        assert(sv[k as int] == (sp.0 as int, sp.1 as int, 1int));
        assert(ranges_view(out@) =~= prev.push((sp.0 as int, sp.1 as int, 1int)));
        assert(sv.take(k + 1) =~= sv.take(k as int).push(sv[k as int]));
        assert(ranges_view(out@) =~= kws + sv.take(k + 1));
        k = k + 1;
    }
    assert(sv.take(sv.len() as int) =~= sv);
    let ghost upto_stamps = ranges_view(out@);
    match find_checkbox_token(text) {
        Some(((a, b), checked)) => {
            out.push((a, b, if checked { 2 } else { 3 }));
        },
        None => {},
    }
    let ghost boxes = match checkbox_token(text@) {
        Some(((s, e), checked)) => seq![(s, e, if checked { 2int } else { 3int })],
        None => Seq::<(int, int, int)>::empty(),
    };
    assert(ranges_view(out@) =~= upto_stamps + boxes);
    let ghost upto_boxes = ranges_view(out@);
    let ghost cv = if list_or_heading_prefix(text@) {
        cookies_from(text@, 0).map_values(|c: ((int, int), bool)| (c.0.0, c.0.1, if c.1 { 2int } else { 4int }))
    } else {
        Seq::<(int, int, int)>::empty()
    };
    if line_has_list_or_heading_prefix(text) {
        let cookies = find_cookie_tokens(text);
        let mut j: usize = 0;
        while j < cookies.len()
            invariant
                j <= cookies@.len(),
                list_or_heading_prefix(text@),
                cookies@.map_values(|x: ((usize, usize), bool)| ((x.0.0 as int, x.0.1 as int), x.1)) == cookies_from(text@, 0),
                cv == cookies_from(text@, 0).map_values(|c: ((int, int), bool)| (c.0.0, c.0.1, if c.1 { 2int } else { 4int })),
                ranges_view(out@) == upto_boxes + cv.take(j as int),
            decreases cookies@.len() - j,
        {
            let c = cookies[j];
            assert(cookies_from(text@, 0)[j as int] == ((c.0.0 as int, c.0.1 as int), c.1));
            let ghost prev = ranges_view(out@);
            let rank: usize = if c.1 { 2 } else { 4 };
            out.push((c.0.0, c.0.1, rank));
            assert(cv[j as int] == (c.0.0 as int, c.0.1 as int, rank as int));
            assert(ranges_view(out@) =~= prev.push((c.0.0 as int, c.0.1 as int, rank as int)));
            assert(cv.take(j + 1) =~= cv.take(j as int).push(cv[j as int]));
            assert(ranges_view(out@) =~= upto_boxes + cv.take(j + 1));
            j = j + 1;
        }
        assert(cookies@.len() == cookies_from(text@, 0).len());
        assert(cv.take(cv.len() as int) =~= cv);
    } else {
        assert(ranges_view(out@) =~= upto_boxes + cv);
    }
    out
}

/// The pieces of the displayed line `text`: `(start, end, mark)` char ranges, left to right,
/// covering the line.
pub fn highlight_line(text: &str) -> (r: Vec<(usize, usize, Mark)>)
    ensures
        pieces_view(r@) == highlight(text@),
{
    let t = chars_of(text);
    let raw = found_ranges_exec(text);
    let ghost rv = ranges_view(raw@);
    let mut keys: Vec<(usize, usize, usize, usize)> = Vec::new();
    let mut i: usize = 0;
    while i < raw.len()
        invariant
            i <= raw@.len(),
            rv == ranges_view(raw@),
            keys_view(keys@) == keyed(rv).take(i as int),
        decreases raw@.len() - i,
    {
        let x = raw[i];
        let ghost prev = keys_view(keys@);
        keys.push((x.0, i, x.1, x.2));
        assert(rv[i as int] == (x.0 as int, x.1 as int, x.2 as int));
        assert(keyed(rv)[i as int] == (x.0 as int, i as int, x.1 as int, x.2 as int));
        assert(keys_view(keys@) =~= prev.push((x.0 as int, i as int, x.1 as int, x.2 as int)));
        assert(keys_view(keys@) =~= keyed(rv).take(i + 1));
        i = i + 1;
    }
    assert(keyed(rv).take(raw@.len() as int) =~= keyed(rv));
    let sorted = sort_keys(&keys);
    let ghost o = keys_view(sorted@);
    assert(o == ordered_ranges(text@));
    let mut out: Vec<(usize, usize, Mark)> = Vec::new();
    let mut cut: usize = 0;
    let mut k: usize = 0;
    while k < sorted.len()
        invariant
            k <= sorted@.len(),
            o == keys_view(sorted@),
            (pieces_view(out@), cut as int) == emitted(o, k as int),
        decreases sorted@.len() - k,
    {
        let x = sorted[k];
        assert(o[k as int] == (x.0 as int, x.1 as int, x.2 as int, x.3 as int));
        if x.0 >= cut {
            if cut < x.0 {
                out.push((cut, x.0, Mark::Plain));
            }
            out.push((x.0, x.2, mark_of(x.3)));
            cut = x.2;
        }
        proof {
            let (acc, c0) = emitted(o, k as int);
            if x.0 as int >= c0 {
                let gap = if c0 < x.0 { seq![(c0, x.0 as int, Mark::Plain)] } else { Seq::<(int, int, Mark)>::empty() };
                assert(pieces_view(out@) =~= acc + gap + seq![(x.0 as int, x.2 as int, rank_mark(x.3 as int))]);
            }
        }
        k = k + 1;
    }
    if cut < t.len() {
        out.push((cut, t.len(), Mark::Plain));
        assert(pieces_view(out@) =~= emitted(o, o.len() as int).0.push((cut as int, t@.len() as int, Mark::Plain)));
    }
    out
}

} // verus!
