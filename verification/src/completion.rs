//! Tab completion of a path typed into a prompt, over the listing of the directory it names:
//! which entries are offered, in what order, and what the input and status line become.
use vstd::prelude::*;
use vstd::relations::{sorted_by, total_ordering};

use crate::paths::{prefix_of, shared_len_exec};
use crate::text::{append_chars, chars_of, chars_of_string, digits_of, push_digits, slice_vec, starts_with, string_of};

verus! {

// ---- the order entries are listed in ------------------------------------------------

/// Names in code-point order, shorter first where one is a prefix of the other (the order
/// of their UTF-8 bytes).
pub open spec fn name_le(a: Seq<char>, b: Seq<char>) -> bool
    decreases a.len(),
{
    if a.len() == 0 {
        true
    } else if b.len() == 0 {
        false
    } else if a[0] != b[0] {
        (a[0] as int) < (b[0] as int)
    } else {
        name_le(a.drop_first(), b.drop_first())
    }
}

/// Entries by name, then files before directories.
pub open spec fn entry_le(x: (Seq<char>, bool), y: (Seq<char>, bool)) -> bool {
    if x.0 == y.0 {
        !x.1 || y.1
    } else {
        name_le(x.0, y.0)
    }
}

proof fn lemma_name_le_reflexive(a: Seq<char>)
    ensures
        name_le(a, a),
    decreases a.len(),
{
    if a.len() > 0 {
        lemma_name_le_reflexive(a.drop_first());
    }
}

proof fn lemma_name_le_antisymmetric(a: Seq<char>, b: Seq<char>)
    requires
        name_le(a, b),
        name_le(b, a),
    ensures
        a == b,
    decreases a.len(),
{
    if a.len() > 0 && b.len() > 0 {
        lemma_name_le_antisymmetric(a.drop_first(), b.drop_first());
        assert(a =~= seq![a[0]] + a.drop_first());
        assert(b =~= seq![b[0]] + b.drop_first());
    }
}

proof fn lemma_name_le_transitive(a: Seq<char>, b: Seq<char>, c: Seq<char>)
    requires
        name_le(a, b),
        name_le(b, c),
    ensures
        name_le(a, c),
    decreases a.len(),
{
    if a.len() > 0 && b.len() > 0 && c.len() > 0 && a[0] == b[0] && b[0] == c[0] {
        lemma_name_le_transitive(a.drop_first(), b.drop_first(), c.drop_first());
    }
}

proof fn lemma_name_le_total(a: Seq<char>, b: Seq<char>)
    ensures
        name_le(a, b) || name_le(b, a),
    decreases a.len(),
{
    if a.len() > 0 && b.len() > 0 && a[0] == b[0] {
        lemma_name_le_total(a.drop_first(), b.drop_first());
    }
}

/// The listing order is a total order.
pub proof fn lemma_entry_le_total_ordering()
    ensures
        total_ordering(|x: (Seq<char>, bool), y: (Seq<char>, bool)| entry_le(x, y)),
{
    let leq = |x: (Seq<char>, bool), y: (Seq<char>, bool)| entry_le(x, y);
    assert forall|x: (Seq<char>, bool)| #[trigger] leq(x, x) by {
        lemma_name_le_reflexive(x.0);
    }
    assert forall|x: (Seq<char>, bool), y: (Seq<char>, bool)| #[trigger] leq(x, y) && #[trigger] leq(y, x)
        implies x == y by {
        if x.0 != y.0 {
            lemma_name_le_antisymmetric(x.0, y.0);
        }
    }
    assert forall|x: (Seq<char>, bool), y: (Seq<char>, bool), z: (Seq<char>, bool)|
        #[trigger] leq(x, y) && #[trigger] leq(y, z) implies leq(x, z) by {
        if x.0 == y.0 && y.0 == z.0 {
        } else if x.0 == y.0 {
        } else if y.0 == z.0 {
        } else {
            lemma_name_le_transitive(x.0, y.0, z.0);
            if x.0 == z.0 {
                lemma_name_le_antisymmetric(x.0, y.0);
            }
        }
    }
    assert forall|x: (Seq<char>, bool), y: (Seq<char>, bool)| #[trigger] leq(x, y) || #[trigger] leq(y, x) by {
        lemma_name_le_total(x.0, y.0);
    }
}

/// Whether `a` comes no later than `b` in name order.
fn name_le_exec(a: &[char], b: &[char]) -> (r: bool)
    ensures
        r == name_le(a@, b@),
{
    let mut i: usize = 0;
    proof {
        assert(a@.subrange(0, a@.len() as int) =~= a@);
        assert(b@.subrange(0, b@.len() as int) =~= b@);
    }
    while i < a.len() && i < b.len() && a[i] == b[i]
        invariant
            i <= a@.len(),
            i <= b@.len(),
            a@.subrange(0, i as int) == b@.subrange(0, i as int),
            name_le(a@, b@) == name_le(a@.subrange(i as int, a@.len() as int), b@.subrange(i as int, b@.len() as int)),
        decreases a@.len() - i,
    {
        proof {
            let sa = a@.subrange(i as int, a@.len() as int);
            let sb = b@.subrange(i as int, b@.len() as int);
            assert(sa.drop_first() =~= a@.subrange(i + 1, a@.len() as int));
            assert(sb.drop_first() =~= b@.subrange(i + 1, b@.len() as int));
            assert(a@.subrange(0, i + 1) =~= a@.subrange(0, i as int).push(a@[i as int]));
            assert(b@.subrange(0, i + 1) =~= b@.subrange(0, i as int).push(b@[i as int]));
        }
        i = i + 1;
    }
    let ghost sa = a@.subrange(i as int, a@.len() as int);
    let ghost sb = b@.subrange(i as int, b@.len() as int);
    if i == a.len() {
        assert(sa.len() == 0);
        true
    } else if i == b.len() {
        assert(sb.len() == 0);
        false
    } else {
        assert(sa[0] == a@[i as int] && sb[0] == b@[i as int]);
        a[i] < b[i]
    }
}

/// Whether entry `x` comes no later than entry `y`.
fn entry_le_exec(x: &(Vec<char>, bool), y: &(Vec<char>, bool)) -> (r: bool)
    ensures
        r == entry_le((x.0@, x.1), (y.0@, y.1)),
{
    if crate::text::chars_eq(&x.0, &y.0) {
        !x.1 || y.1
    } else {
        name_le_exec(&x.0, &y.0)
    }
}

/// The entries as names and directory flags.
pub open spec fn entries_view(v: Seq<(Vec<char>, bool)>) -> Seq<(Seq<char>, bool)> {
    v.map_values(|e: (Vec<char>, bool)| (e.0@, e.1))
}

/// The listing order, as a relation.
pub open spec fn listing_order() -> spec_fn((Seq<char>, bool), (Seq<char>, bool)) -> bool {
    |x: (Seq<char>, bool), y: (Seq<char>, bool)| entry_le(x, y)
}

/// `v` in listing order.
fn sort_entries(v: &Vec<(Vec<char>, bool)>) -> (r: Vec<(Vec<char>, bool)>)
    ensures
        entries_view(r@) == entries_view(v@).sort_by(listing_order()),
{
    let ghost leq = listing_order();
    let ghost vv = entries_view(v@);
    let mut out: Vec<(Vec<char>, bool)> = Vec::new();
    let mut i: usize = 0;
    proof {
        lemma_entry_le_total_ordering();
        assert(vv.take(0) =~= Seq::<(Seq<char>, bool)>::empty());
        assert(entries_view(out@) =~= Seq::<(Seq<char>, bool)>::empty());
    }
    while i < v.len()
        invariant
            i <= v@.len(),
            vv == entries_view(v@),
            leq == listing_order(),
            total_ordering(leq),
            sorted_by(entries_view(out@), leq),
            entries_view(out@).to_multiset() == vv.take(i as int).to_multiset(),
        decreases v@.len() - i,
    {
        let e = (crate::text::slice_vec(&v[i].0, 0, v[i].0.len()), v[i].1);
        let ghost ev = (e.0@, e.1);
        assert(e.0@ =~= v@[i as int].0@);
        assert(ev == vv[i as int]);
        let ghost ov = entries_view(out@);
        let mut p: usize = 0;
        while p < out.len()
            invariant
                p <= out@.len(),
                ov == entries_view(out@),
                ev == (e.0@, e.1),
                forall|j: int| 0 <= j < p ==> entry_le(#[trigger] ov[j], ev),
            ensures
                p <= out@.len(),
                forall|j: int| 0 <= j < p ==> entry_le(#[trigger] ov[j], ev),
                p < out@.len() ==> !entry_le(ov[p as int], ev),
            decreases out@.len() - p,
        {
            let before = entry_le_exec(&out[p], &e);
            assert(ov[p as int] == (out@[p as int].0@, out@[p as int].1));
            if !before {
                break;
            }
            p = p + 1;
        }
        proof {
            if p < out@.len() {
                assert(!entry_le(ov[p as int], ev));
                assert(leq(ov[p as int], ev) || leq(ev, ov[p as int]));
            }
            assert forall|j: int| p <= j < ov.len() implies entry_le(ev, #[trigger] ov[j]) by {
                assert(leq(ev, ov[p as int]));
                if j > p {
                    assert(leq(ov[p as int], ov[j]));
                }
            }
        }
        out.insert(p, e);
        proof {
            let nv = entries_view(out@);
            assert(nv =~= ov.insert(p as int, ev));
            vstd::seq_lib::to_multiset_insert(ov, p as int, ev);
            assert(vv.take(i + 1) =~= vv.take(i as int).push(ev));
            vstd::seq_lib::to_multiset_build(vv.take(i as int), ev);
            assert forall|a: int, b: int| 0 <= a < b < nv.len() implies #[trigger] leq(nv[a], nv[b]) by {
                if b < p {
                    assert(leq(ov[a], ov[b]));
                } else if b == p {
                    assert(entry_le(ov[a], ev));
                } else if a < p {
                    assert(leq(ov[a], ov[b - 1]));
                } else if a == p {
                    assert(entry_le(ev, ov[b - 1]));
                } else {
                    assert(leq(ov[a - 1], ov[b - 1]));
                }
            }
        }
        i = i + 1;
    }
    proof {
        assert(vv.take(vv.len() as int) =~= vv);
        vv.lemma_sort_by_ensures(leq);
        vstd::seq_lib::lemma_sorted_unique(entries_view(out@), vv.sort_by(leq), leq);
    }
    out
}

// ---- what Tab does ----------------------------------------------------------------------

/// How many candidates the status line lists by name.
pub const LISTED: usize = 15;

/// The index after the last `/` among the first `i` chars of `s` (0 if there is none).
pub open spec fn dir_end(s: Seq<char>, i: int) -> int
    decreases i,
{
    if i <= 0 {
        0
    } else if s[i - 1] == '/' {
        i
    } else {
        dir_end(s, i - 1)
    }
}

/// The directory part of a typed path: everything up to and including its last `/`.
pub open spec fn input_dir(s: Seq<char>) -> Seq<char> {
    s.take(dir_end(s, s.len() as int))
}

/// The name being completed: everything after the last `/`.
pub open spec fn input_partial(s: Seq<char>) -> Seq<char> {
    s.skip(dir_end(s, s.len() as int))
}

/// Whether `s` begins with `p`.
pub open spec fn begins(s: Seq<char>, p: Seq<char>) -> bool {
    p.len() <= s.len() && s.take(p.len() as int) == p
}

/// Whether a directory entry is a candidate for `partial`: its name extends `partial`, and
/// a dotfile only when `partial` itself starts with a dot.
pub open spec fn offered(e: (Seq<char>, bool), partial: Seq<char>) -> bool {
    begins(e.0, partial) && (begins(partial, seq!['.']) || !begins(e.0, seq!['.']))
}

/// The candidates among the first `n` entries, in listing order of the directory.
pub open spec fn kept(entries: Seq<(Seq<char>, bool)>, partial: Seq<char>, n: int) -> Seq<(Seq<char>, bool)>
    decreases n,
{
    if n <= 0 {
        seq![]
    } else if offered(entries[n - 1], partial) {
        kept(entries, partial, n - 1).push(entries[n - 1])
    } else {
        kept(entries, partial, n - 1)
    }
}

/// The candidates for the typed path `input`, sorted.
pub open spec fn candidates(input: Seq<char>, entries: Seq<(Seq<char>, bool)>) -> Seq<(Seq<char>, bool)> {
    kept(entries, input_partial(input), entries.len() as int).sort_by(listing_order())
}

/// A candidate as completed or listed: a directory gets a trailing `/`.
pub open spec fn shown_name(e: (Seq<char>, bool)) -> Seq<char> {
    if e.1 {
        e.0.push('/')
    } else {
        e.0
    }
}

/// The candidates' names.
pub open spec fn names_of(m: Seq<(Seq<char>, bool)>) -> Seq<Seq<char>> {
    m.map_values(|e: (Seq<char>, bool)| e.0)
}

/// The items the status line lists: the first few candidates, then how many more there are.
pub open spec fn listed_items(m: Seq<(Seq<char>, bool)>) -> Seq<Seq<char>> {
    let k = if m.len() > LISTED { LISTED as int } else { m.len() as int };
    let firsts = Seq::new(k as nat, |i: int| shown_name(m[i]));
    if m.len() > LISTED {
        firsts.push(seq!['(', '+'] + digits_of((m.len() - LISTED) as nat) + seq![' ', 'm', 'o', 'r', 'e', ')'])
    } else {
        firsts
    }
}

/// The first `k` items, two spaces apart.
pub open spec fn spaced(items: Seq<Seq<char>>, k: int) -> Seq<char>
    decreases k,
{
    if k <= 0 {
        seq![]
    } else if k == 1 {
        items[0]
    } else {
        spaced(items, k - 1) + seq![' ', ' '] + items[k - 1]
    }
}

/// `N matches: a  b  c`.
pub open spec fn listing(m: Seq<(Seq<char>, bool)>) -> Seq<char> {
    digits_of(m.len()) + seq![' ', 'm', 'a', 't', 'c', 'h', 'e', 's', ':', ' '] + spaced(listed_items(m), listed_items(m).len() as int)
}

/// `(no match)`
pub open spec fn no_match() -> Seq<char> {
    seq!['(', 'n', 'o', ' ', 'm', 'a', 't', 'c', 'h', ')']
}

/// What Tab makes of the typed path `input`, given the entries of the directory it names:
/// the new input, and a message for the status line. One candidate completes (a directory
/// with a trailing `/`); several extend the input to their longest common prefix, or, where
/// that adds nothing, are listed; none leaves the input and says so.
pub open spec fn completion(input: Seq<char>, entries: Seq<(Seq<char>, bool)>) -> (Seq<char>, Option<Seq<char>>) {
    let m = candidates(input, entries);
    if m.len() == 0 {
        (input, Some(no_match()))
    } else if m.len() == 1 {
        (input_dir(input) + shown_name(m[0]), None)
    } else {
        let common = prefix_of(names_of(m), m.len() as int);
        if common.len() > input_partial(input).len() {
            (input_dir(input) + common, None)
        } else {
            (input, Some(listing(m)))
        }
    }
}

/// The directory entries, as names and directory flags.
pub open spec fn listing_view(entries: Seq<(String, bool)>) -> Seq<(Seq<char>, bool)> {
    entries.map_values(|e: (String, bool)| (e.0@, e.1))
}

/// The directory part of the typed path `input`, up to and including its last `/` (empty
/// where there is none): the directory whose entries complete it.
pub fn completion_dir(input: &str) -> (r: String)
    ensures
        r@ == input_dir(input@),
{
    let s = chars_of(input);
    let cut = dir_end_exec(&s);
    string_of(&slice_vec(&s, 0, cut))
}

fn dir_end_exec(s: &Vec<char>) -> (r: usize)
    ensures
        r as int == dir_end(s@, s@.len() as int),
        r <= s@.len(),
{
    let mut cut: usize = 0;
    let mut i: usize = 0;
    while i < s.len()
        invariant
            i <= s@.len(),
            cut as int == dir_end(s@, i as int),
            cut <= i,
        decreases s@.len() - i,
    {
        if s[i] == '/' {
            cut = i + 1;
        }
        i = i + 1;
    }
    cut
}

/// Whether a directory entry is offered for `partial`.
fn offered_exec(name: &Vec<char>, is_dir: bool, partial: &Vec<char>) -> (r: bool)
    ensures
        r == offered((name@, is_dir), partial@),
{
    let dot = vec!['.'];
    assert(dot@ =~= seq!['.']);
    starts_with(name, partial) && (starts_with(partial, &dot) || !starts_with(name, &dot))
}

/// Complete the typed path `input` against `entries`, the names of the entries of the
/// directory that [`completion_dir`] names, each with whether it is a directory: the new
/// input and a message for the status line.
pub fn complete_from(input: &str, entries: &[(String, bool)]) -> (r: (String, Option<String>))
    ensures
        r.0@ == completion(input@, listing_view(entries@)).0,
        crate::session::opt_view(r.1) == completion(input@, listing_view(entries@)).1,
{
    let ghost ev = listing_view(entries@);
    let s = chars_of(input);
    let cut = dir_end_exec(&s);
    let dir = slice_vec(&s, 0, cut);
    let partial = slice_vec(&s, cut, s.len());
    proof {
        assert(dir@ =~= input_dir(input@));
        assert(partial@ =~= input_partial(input@));
    }
    let mut found: Vec<(Vec<char>, bool)> = Vec::new();
    let mut i: usize = 0;
    while i < entries.len()
        invariant
            i <= entries@.len(),
            ev == listing_view(entries@),
            entries_view(found@) == kept(ev, partial@, i as int),
        decreases entries@.len() - i,
    {
        let name = chars_of_string(&entries[i].0);
        let is_dir = entries[i].1;
        assert(ev[i as int] == (name@, is_dir));
        if offered_exec(&name, is_dir, &partial) {
            found.push((name, is_dir));
            assert(entries_view(found@) =~= kept(ev, partial@, i as int).push(ev[i as int]));
        }
        i = i + 1;
    }
    let m = sort_entries(&found);
    let ghost mv = entries_view(m@);
    assert(mv == candidates(input@, ev));
    if m.len() == 0 {
        let msg = vec!['(', 'n', 'o', ' ', 'm', 'a', 't', 'c', 'h', ')'];
        assert(msg@ =~= no_match());
        return (string_of(&s), Some(string_of(&msg)));
    }
    if m.len() == 1 {
        let mut out = dir;
        append_chars(&mut out, &m[0].0);
        if m[0].1 {
            out.push('/');
        }
        assert(mv[0] == (m@[0].0@, m@[0].1));
        assert(out@ =~= input_dir(input@) + shown_name(mv[0]));
        return (string_of(&out), None);
    }
    let common = common_names(&m);
    if common.len() > partial.len() {
        let mut out = dir;
        append_chars(&mut out, &common);
        return (string_of(&out), None);
    }
    let text = listing_exec(&m);
    (string_of(&s), Some(string_of(&text)))
}

/// The longest common prefix of the names in `m`.
fn common_names(m: &Vec<(Vec<char>, bool)>) -> (r: Vec<char>)
    requires
        m@.len() >= 1,
    ensures
        r@ == prefix_of(names_of(entries_view(m@)), m@.len() as int),
{
    let ghost ns = names_of(entries_view(m@));
    let mut prefix = slice_vec(&m[0].0, 0, m[0].0.len());
    assert(prefix@ =~= ns[0]);
    let mut i: usize = 1;
    while i < m.len()
        invariant
            ns == names_of(entries_view(m@)),
            1 <= i <= m@.len(),
            prefix@ == prefix_of(ns, i as int),
        decreases m@.len() - i,
    {
        assert(ns[i as int] == m@[i as int].0@);
        let k = shared_len_exec(&prefix, &m[i].0);
        prefix = slice_vec(&prefix, 0, k);
        assert(prefix@ =~= prefix_of(ns, i + 1));
        i = i + 1;
    }
    prefix
}

/// `N matches: a  b  c` for the sorted candidates `m`.
fn listing_exec(m: &Vec<(Vec<char>, bool)>) -> (r: Vec<char>)
    requires
        m@.len() >= 2,
    ensures
        r@ == listing(entries_view(m@)),
{
    let ghost mv = entries_view(m@);
    let ghost items = listed_items(mv);
    let mut out: Vec<char> = Vec::new();
    push_digits(&mut out, m.len() as u64);
    let head = vec![' ', 'm', 'a', 't', 'c', 'h', 'e', 's', ':', ' '];
    append_chars(&mut out, &head);
    let ghost start = out@;
    assert(start =~= digits_of(mv.len()) + seq![' ', 'm', 'a', 't', 'c', 'h', 'e', 's', ':', ' ']);
    let k: usize = if m.len() > LISTED { LISTED } else { m.len() };
    let mut j: usize = 0;
    while j < k
        invariant
            mv == entries_view(m@),
            items == listed_items(mv),
            k == (if mv.len() > LISTED { LISTED as int } else { mv.len() as int }),
            2 <= k,
            j <= k,
            out@ == start + spaced(items, j as int),
        decreases k - j,
    {
        assert(items[j as int] == shown_name(mv[j as int]));
        assert(mv[j as int] == (m@[j as int].0@, m@[j as int].1));
        if j > 0 {
            out.push(' ');
            out.push(' ');
        }
        append_chars(&mut out, &m[j].0);
        if m[j].1 {
            out.push('/');
        }
        assert(out@ =~= start + spaced(items, j + 1));
        j = j + 1;
    }
    if m.len() > LISTED {
        let more = vec![' ', ' ', '(', '+'];
        append_chars(&mut out, &more);
        push_digits(&mut out, (m.len() - LISTED) as u64);
        let tail = vec![' ', 'm', 'o', 'r', 'e', ')'];
        append_chars(&mut out, &tail);
        assert(out@ =~= start + spaced(items, k + 1));
    }
    assert(items.len() == (if mv.len() > LISTED { k + 1 } else { k as int }));
    out
}

} // verus!
