//! The canonical text of a timestamp reads back as that timestamp: printing a timestamp and
//! parsing the result gives the timestamp and the whole text's length.
use vstd::prelude::*;

use crate::text::{
    all_digits, digit_char, digit_val, digits_of, digits_value, has_char, index_of_from,
    is_ascii_alpha, is_digit, is_ws, lemma_index_of, pad_zeros, padded, padded_signed,
    parse_unsigned, signed_value, unsigned_value,
};
use crate::timestamp::{
    all_alpha, count_unit_parse, date_parse, date_text, flush, parse_u8, skip_digits,
    split_once, time_parse, time_text, unit_letter, unit_of, valid_date, words, words_acc,
    Date, Time, Unit, apply_tokens, rep_part, repeat_mark, time_part, token_step, warn_part,
    weekday_index, weekday_name, RepeatKind, Repeater, Stamp, Timestamp, Warning, brackets,
    stamp_parse, stamp_text, timestamp_parse, timestamp_text,
};

verus! {

// ---- numbers ---------------------------------------------------------------------------

proof fn lemma_digit_char(d: nat)
    requires
        d < 10,
    ensures
        is_digit(digit_char(d)),
        digit_val(digit_char(d)) == d,
{
}

/// The decimal digits of `n` are digits, at least one, worth `n`.
proof fn lemma_digits_of(n: nat)
    ensures
        digits_of(n).len() >= 1,
        all_digits(digits_of(n)),
        digits_value(digits_of(n)) == n,
    decreases n,
{
    if n < 10 {
        lemma_digit_char(n);
        assert(digits_of(n).drop_last() =~= seq![]);
        assert(digits_value(digits_of(n).drop_last()) == 0);
    } else {
        lemma_digits_of(n / 10);
        lemma_digit_char(n % 10);
        let s = digits_of(n);
        assert(s.drop_last() =~= digits_of(n / 10));
        assert(s.last() == digit_char(n % 10));
        assert(n == (n / 10) * 10 + n % 10) by (nonlinear_arith);
        assert(digits_value(s) == digits_value(digits_of(n / 10)) * 10 + digit_val(digit_char(n % 10)));
        assert(all_digits(s)) by {
            assert forall|i: int| 0 <= i < s.len() implies is_digit(#[trigger] s[i]) by {
                if i < s.len() - 1 {
                    assert(s[i] == digits_of(n / 10)[i]);
                }
            }
        }
    }
}

/// Leading zeros change neither the digits' kind nor their value.
proof fn lemma_leading_zeros(k: nat, s: Seq<char>)
    requires
        all_digits(s),
    ensures
        all_digits(Seq::new(k, |i: int| '0') + s),
        digits_value(Seq::new(k, |i: int| '0') + s) == digits_value(s),
    decreases s.len() + k,
{
    let z = Seq::new(k, |i: int| '0');
    let t = z + s;
    assert(all_digits(t)) by {
        assert forall|i: int| 0 <= i < t.len() implies is_digit(#[trigger] t[i]) by {
            if i >= k {
                assert(t[i] == s[i - k]);
            }
        }
    }
    if s.len() > 0 {
        lemma_leading_zeros(k, s.drop_last());
        assert(t.drop_last() =~= z + s.drop_last());
        assert(all_digits(s.drop_last())) by {
            assert forall|i: int| 0 <= i < s.drop_last().len() implies is_digit(#[trigger] s.drop_last()[i]) by {
                assert(s.drop_last()[i] == s[i]);
            }
        }
    } else if k > 0 {
        lemma_leading_zeros((k - 1) as nat, s);
        assert(t.drop_last() =~= Seq::new((k - 1) as nat, |i: int| '0') + s);
        assert(t.last() == '0');
    } else {
        assert(t =~= seq![]);
    }
}

/// `n` zero-padded is a run of digits worth `n`, which `str::parse` reads back.
proof fn lemma_padded(n: nat, w: nat)
    ensures
        padded(n, w).len() >= 1,
        all_digits(padded(n, w)),
        digits_value(padded(n, w)) == n,
        unsigned_value(padded(n, w)) == Some(n),
{
    lemma_digits_of(n);
    let d = digits_of(n);
    if d.len() < w {
        lemma_leading_zeros((w - d.len()) as nat, d);
    }
    let p = padded(n, w);
    assert(is_digit(p[0]));
}

/// `n` written in decimal reads back as `n`.
proof fn lemma_digits_read(n: nat)
    ensures
        unsigned_value(digits_of(n)) == Some(n),
{
    lemma_digits_of(n);
    assert(is_digit(digits_of(n)[0]));
}

// ---- words -----------------------------------------------------------------------------

/// A whitespace-free stretch up to the end ends the words with one word.
proof fn lemma_words_run(s: Seq<char>, j: int, cur: Seq<char>)
    requires
        0 <= j <= s.len(),
        cur.len() + s.len() - j > 0,
        forall|k: int| j <= k < s.len() ==> !is_ws(#[trigger] s[k]),
    ensures
        words_acc(s, j, cur) == seq![cur + s.skip(j)],
    decreases s.len() - j,
{
    if j < s.len() {
        lemma_words_run(s, j + 1, cur.push(s[j]));
        assert(cur.push(s[j]) + s.skip(j + 1) =~= cur + s.skip(j));
    } else {
        assert(cur + s.skip(j) =~= cur);
    }
}

/// The words of `x`, a space and a non-empty whitespace-free `y` are those of `x`, then `y`.
proof fn lemma_words_last(x: Seq<char>, y: Seq<char>, i: int, cur: Seq<char>)
    requires
        0 <= i <= x.len(),
        y.len() > 0,
        forall|k: int| 0 <= k < y.len() ==> !is_ws(#[trigger] y[k]),
    ensures
        words_acc(x + seq![' '] + y, i, cur) == words_acc(x, i, cur).push(y),
    decreases x.len() - i,
{
    let s = x + seq![' '] + y;
    if i == x.len() {
        assert(s[i] == ' ');
        assert forall|k: int| i + 1 <= k < s.len() implies !is_ws(#[trigger] s[k]) by {
            assert(s[k] == y[k - i - 1]);
        }
        lemma_words_run(s, i + 1, seq![]);
        assert(seq![] + s.skip(i + 1) =~= y);
        assert(words_acc(s, i, cur) =~= flush(cur).push(y));
    } else {
        assert(s[i] == x[i]);
        if is_ws(x[i]) {
            lemma_words_last(x, y, i + 1, seq![]);
            assert(words_acc(s, i, cur) =~= words_acc(x, i, cur).push(y));
        } else {
            lemma_words_last(x, y, i + 1, cur.push(x[i]));
        }
    }
}

/// A non-empty whitespace-free text is one word.
proof fn lemma_one_word(x: Seq<char>)
    requires
        x.len() > 0,
        forall|k: int| 0 <= k < x.len() ==> !is_ws(#[trigger] x[k]),
    ensures
        words(x) == seq![x],
{
    lemma_words_run(x, 0, seq![]);
    assert(seq![] + x.skip(0) =~= x);
}

// ---- the chars of a stamp ---------------------------------------------------------------

/// A char that a stamp's words are made of.
pub open spec fn stamp_char(c: char) -> bool {
    is_digit(c) || is_ascii_alpha(c) || c == '-' || c == ':' || c == '+' || c == '.'
}

/// Every char of `s` is a stamp char.
pub open spec fn stamp_chars(s: Seq<char>) -> bool {
    forall|i: int| 0 <= i < s.len() ==> stamp_char(#[trigger] s[i])
}

proof fn lemma_stamp_chars_cat(a: Seq<char>, b: Seq<char>)
    requires
        stamp_chars(a),
        stamp_chars(b),
    ensures
        stamp_chars(a + b),
{
    assert forall|i: int| 0 <= i < (a + b).len() implies stamp_char(#[trigger] (a + b)[i]) by {
        if i < a.len() {
            assert((a + b)[i] == a[i]);
        } else {
            assert((a + b)[i] == b[i - a.len()]);
        }
    }
}

proof fn lemma_digits_stamp_chars(s: Seq<char>)
    requires
        all_digits(s),
    ensures
        stamp_chars(s),
        forall|k: int| 0 <= k < s.len() ==> !is_ws(#[trigger] s[k]),
{
    assert forall|k: int| 0 <= k < s.len() implies stamp_char(#[trigger] s[k]) by {
        assert(is_digit(s[k]));
    }
}

/// Stamp chars are no whitespace.
proof fn lemma_stamp_chars_no_ws(s: Seq<char>)
    requires
        stamp_chars(s),
    ensures
        forall|k: int| 0 <= k < s.len() ==> !is_ws(#[trigger] s[k]),
{
    assert forall|k: int| 0 <= k < s.len() implies !is_ws(#[trigger] s[k]) by {
        assert(stamp_char(s[k]));
    }
}

/// The first `c` is at `p` when `p` holds one and nothing before it does.
proof fn lemma_first_at(s: Seq<char>, c: char, p: int)
    requires
        0 <= p < s.len(),
        s[p] == c,
        forall|k: int| 0 <= k < p ==> s[k] != c,
    ensures
        index_of_from(s, c, 0) == p,
{
    lemma_index_of(s, c, 0);
}

/// Splitting `a`, a separator free of it, `sep` and `b` at the first `sep` gives `a` and `b`.
proof fn lemma_split_once_at(a: Seq<char>, b: Seq<char>, sep: char)
    requires
        forall|k: int| 0 <= k < a.len() ==> a[k] != sep,
    ensures
        split_once(a + seq![sep] + b, sep) == Some((a, b)),
{
    let s = a + seq![sep] + b;
    assert forall|k: int| 0 <= k < a.len() implies s[k] != sep by {
        assert(s[k] == a[k]);
    }
    lemma_first_at(s, sep, a.len() as int);
    assert(s.take(a.len() as int) =~= a);
    assert(s.skip(a.len() as int + 1) =~= b);
}

/// A run of digits holds no `sep` other than a digit.
proof fn lemma_digits_free_of(s: Seq<char>, sep: char)
    requires
        all_digits(s),
        !is_digit(sep),
    ensures
        forall|k: int| 0 <= k < s.len() ==> s[k] != sep,
{
    assert forall|k: int| 0 <= k < s.len() implies s[k] != sep by {
        assert(is_digit(s[k]));
    }
}

/// Splitting a run of digits at `sep` finds none.
proof fn lemma_split_once_none(s: Seq<char>, sep: char)
    requires
        forall|k: int| 0 <= k < s.len() ==> s[k] != sep,
    ensures
        split_once(s, sep) is None,
{
    lemma_index_of(s, sep, 0);
}

// ---- dates and times ---------------------------------------------------------------------

/// A real date with a year of no sign reads back from its text.
proof fn lemma_date_reads_back(d: Date)
    requires
        valid_date(d),
        d.year >= 0,
    ensures
        date_parse(date_text(d)) == Some(d),
        date_text(d).len() > 0,
        stamp_chars(date_text(d)),
{
    let y = padded_signed(d.year as int, 4);
    let m = padded(d.month as nat, 2);
    let dd = padded(d.day as nat, 2);
    lemma_padded(d.year as nat, 4);
    lemma_padded(d.month as nat, 2);
    lemma_padded(d.day as nat, 2);
    assert(y == padded(d.year as nat, 4));
    lemma_digits_free_of(y, '-');
    lemma_digits_free_of(m, '-');
    let t = date_text(d);
    assert(t =~= y + seq!['-'] + (m + seq!['-'] + dd));
    lemma_split_once_at(y, m + seq!['-'] + dd, '-');
    lemma_split_once_at(m, dd, '-');
    assert(signed_value(y) == Some(d.year as int)) by {
        assert(is_digit(y[0]));
    }
    assert(parse_u8(m) == Some(d.month as nat));
    assert(parse_u8(dd) == Some(d.day as nat));
    lemma_digits_stamp_chars(y);
    lemma_digits_stamp_chars(m);
    lemma_digits_stamp_chars(dd);
    assert(stamp_chars(seq!['-']));
    lemma_stamp_chars_cat(y, seq!['-']);
    lemma_stamp_chars_cat(y + seq!['-'], m);
    lemma_stamp_chars_cat(y + seq!['-'] + m, seq!['-']);
    lemma_stamp_chars_cat(y + seq!['-'] + m + seq!['-'], dd);
    assert(t =~= y + seq!['-'] + m + seq!['-'] + dd);
}

/// A real time of day.
pub open spec fn valid_time(t: Time) -> bool {
    t.hour <= 23 && t.min <= 59
}

/// A real time reads back from its text.
proof fn lemma_time_reads_back(t: Time)
    requires
        valid_time(t),
    ensures
        time_parse(time_text(t)) == Some(t),
        stamp_chars(time_text(t)),
        time_text(t).len() > 2,
        is_digit(time_text(t)[0]),
        time_text(t)[padded(t.hour as nat, 2).len() as int] == ':',
        forall|k: int| 0 <= k < time_text(t).len() ==> time_text(t)[k] != '-',
{
    let h = padded(t.hour as nat, 2);
    let m = padded(t.min as nat, 2);
    lemma_padded(t.hour as nat, 2);
    lemma_padded(t.min as nat, 2);
    lemma_digits_free_of(h, ':');
    lemma_split_once_at(h, m, ':');
    lemma_digits_stamp_chars(h);
    lemma_digits_stamp_chars(m);
    assert(stamp_chars(seq![':']));
    lemma_stamp_chars_cat(h, seq![':']);
    lemma_stamp_chars_cat(h + seq![':'], m);
    let tt = time_text(t);
    assert(tt[0] == h[0]);
    assert forall|k: int| 0 <= k < tt.len() implies tt[k] != '-' by {
        if k < h.len() {
            assert(tt[k] == h[k]);
            assert(is_digit(h[k]));
        } else if k > h.len() {
            assert(tt[k] == m[k - h.len() - 1]);
            assert(is_digit(m[k - h.len() - 1]));
        }
    }
}

// ---- counts with a unit --------------------------------------------------------------------

/// The digits of `n` and a unit letter read back as `n` and the unit.
proof fn lemma_count_unit_reads_back(n: u32, u: Unit)
    ensures
        count_unit_parse(digits_of(n as nat) + seq![unit_letter(u)]) == Some((n, u)),
        stamp_chars(digits_of(n as nat) + seq![unit_letter(u)]),
        is_digit((digits_of(n as nat) + seq![unit_letter(u)])[0]),
{
    let d = digits_of(n as nat);
    let s = d + seq![unit_letter(u)];
    lemma_digits_of(n as nat);
    lemma_digits_read(n as nat);
    assert forall|k: int| 0 <= k < d.len() implies is_digit(#[trigger] s[k]) by {
        assert(s[k] == d[k]);
    }
    lemma_skip_digits(s, 0, d.len() as int);
    assert(s.take(d.len() as int) =~= d);
    lemma_digits_stamp_chars(d);
    assert(stamp_chars(seq![unit_letter(u)]));
    lemma_stamp_chars_cat(d, seq![unit_letter(u)]);
    assert(s[0] == d[0]);
}

/// Digits from `i` up to a non-digit at `p` are skipped to `p`.
proof fn lemma_skip_digits(s: Seq<char>, i: int, p: int)
    requires
        0 <= i <= p < s.len(),
        !is_digit(s[p]),
        forall|k: int| i <= k < p ==> is_digit(#[trigger] s[k]),
    ensures
        skip_digits(s, i) == p,
    decreases p - i,
{
    if i < p {
        lemma_skip_digits(s, i + 1, p);
    }
}

// ---- the words of a stamp -----------------------------------------------------------------

/// The word a stamp's time makes: `HH:MM`, or `HH:MM-HH:MM` with an end time.
pub open spec fn time_word(t: Time, e: Option<Time>) -> Seq<char> {
    time_text(t) + match e {
        Some(x) => seq!['-'] + time_text(x),
        None => seq![],
    }
}

/// The word a repeater makes: `+1w`.
pub open spec fn repeater_word(r: Repeater) -> Seq<char> {
    repeat_mark(r.kind) + (digits_of(r.n as nat) + seq![unit_letter(r.unit)])
}

/// The word a warning makes: `-2d` or `--2d`.
pub open spec fn warning_word(w: Warning) -> Seq<char> {
    (if w.double {
        seq!['-', '-']
    } else {
        seq!['-']
    }) + (digits_of(w.n as nat) + seq![unit_letter(w.unit)])
}

/// The words between a stamp's brackets: date, weekday, then time, repeater and warning
/// where the stamp has them.
pub open spec fn stamp_words(st: Stamp) -> Seq<Seq<char>> {
    let w0 = seq![date_text(st.date), weekday_name(weekday_index(st.date))];
    let w1 = match st.time {
        Some(t) => w0.push(time_word(t, st.time_end)),
        None => w0,
    };
    let w2 = match st.repeater {
        Some(r) => w1.push(repeater_word(r)),
        None => w1,
    };
    match st.warning {
        Some(w) => w2.push(warning_word(w)),
        None => w2,
    }
}

/// The text between a stamp's brackets.
pub open spec fn stamp_inner(st: Stamp) -> Seq<char> {
    date_text(st.date) + seq![' '] + weekday_name(weekday_index(st.date)) + time_part(st) + rep_part(
        st,
    ) + warn_part(st)
}

/// A stamp that its text gives back: a real date with an unsigned year, real times, and an
/// end time only after a start time.
pub open spec fn readable(st: Stamp) -> bool {
    &&& valid_date(st.date)
    &&& st.date.year >= 0
    &&& match st.time {
        Some(t) => valid_time(t),
        None => st.time_end is None,
    }
    &&& match st.time_end {
        Some(e) => valid_time(e),
        None => true,
    }
}

/// A timestamp that its text gives back: readable stamps, both of one kind.
pub open spec fn readable_ts(ts: Timestamp) -> bool {
    &&& readable(ts.start)
    &&& match ts.end {
        Some(e) => readable(e) && e.active == ts.start.active,
        None => true,
    }
}

/// Every char of `s` is a space or a stamp char.
pub open spec fn spaced(s: Seq<char>) -> bool {
    forall|i: int| 0 <= i < s.len() ==> #[trigger] s[i] == ' ' || stamp_char(s[i])
}

proof fn lemma_spaced_cat(a: Seq<char>, b: Seq<char>)
    requires
        spaced(a),
        spaced(b),
    ensures
        spaced(a + b),
{
    assert forall|i: int| 0 <= i < (a + b).len() implies #[trigger] (a + b)[i] == ' ' || stamp_char((a + b)[i]) by {
        if i < a.len() {
            assert((a + b)[i] == a[i]);
        } else {
            assert((a + b)[i] == b[i - a.len()]);
        }
    }
}

proof fn lemma_spaced_word(a: Seq<char>)
    requires
        stamp_chars(a),
    ensures
        spaced(seq![' '] + a),
        spaced(a),
{
    assert forall|i: int| 0 <= i < a.len() implies #[trigger] a[i] == ' ' || stamp_char(a[i]) by {
        assert(stamp_char(a[i]));
    }
    assert(spaced(seq![' ']));
    lemma_spaced_cat(seq![' '], a);
}

/// The weekday word is three ASCII letters.
proof fn lemma_weekday_word(i: int)
    ensures
        weekday_name(i).len() == 3,
        all_alpha(weekday_name(i)),
        stamp_chars(weekday_name(i)),
{
    let w = weekday_name(i);
    assert(all_alpha(w)) by {
        assert forall|k: int| 0 <= k < w.len() implies is_ascii_alpha(#[trigger] w[k]) by {
            assert(0 <= k < 3);
        }
    }
    assert forall|k: int| 0 <= k < w.len() implies stamp_char(#[trigger] w[k]) by {
        assert(is_ascii_alpha(w[k]));
    }
}

/// Applying one more word after the others applies it to what they gave.
proof fn lemma_apply_push(st: Stamp, toks: Seq<Seq<char>>, tok: Seq<char>, i: int)
    requires
        0 <= i <= toks.len(),
    ensures
        apply_tokens(st, toks.push(tok), i) == match apply_tokens(st, toks, i) {
            Some(s1) => token_step(s1, tok),
            None => None,
        },
    decreases toks.len() - i,
{
    if i < toks.len() {
        assert(toks.push(tok)[i] == toks[i]);
        if let Some(st2) = token_step(st, toks[i]) {
            lemma_apply_push(st2, toks, tok, i + 1);
        }
    } else {
        assert(toks.push(tok)[i] == tok);
        if let Some(st2) = token_step(st, tok) {
            assert(apply_tokens(st2, toks.push(tok), i + 1) == Some(st2));
        }
    }
}

/// The weekday word leaves the stamp as it is.
proof fn lemma_weekday_step(st: Stamp, i: int)
    ensures
        token_step(st, weekday_name(i)) == Some(st),
{
    lemma_weekday_word(i);
    let w = weekday_name(i);
    assert(is_ascii_alpha(w[0]));
}

/// The time word sets the time and end time.
proof fn lemma_time_step(st: Stamp, t: Time, e: Option<Time>)
    requires
        valid_time(t),
        e matches Some(x) ==> valid_time(x),
    ensures
        token_step(st, time_word(t, e)) == Some(Stamp { time: Some(t), time_end: e, ..st }),
        time_word(t, e).len() > 0,
        stamp_chars(time_word(t, e)),
{
    lemma_time_reads_back(t);
    let tt = time_text(t);
    let tok = time_word(t, e);
    assert(tok[0] == tt[0]);
    let p = padded(t.hour as nat, 2).len() as int;
    assert(tok[p] == ':');
    assert(has_char(tok, ':'));
    match e {
        Some(x) => {
            lemma_time_reads_back(x);
            assert(tok =~= tt + seq!['-'] + time_text(x));
            lemma_split_once_at(tt, time_text(x), '-');
            assert(stamp_chars(seq!['-']));
            lemma_stamp_chars_cat(tt, seq!['-']);
            lemma_stamp_chars_cat(tt + seq!['-'], time_text(x));
        },
        None => {
            assert(tok =~= tt);
            lemma_split_once_none(tt, '-');
        },
    }
}

/// The repeater word sets the repeater.
proof fn lemma_repeater_step(st: Stamp, r: Repeater)
    ensures
        token_step(st, repeater_word(r)) == Some(Stamp { repeater: Some(r), ..st }),
        repeater_word(r).len() > 0,
        stamp_chars(repeater_word(r)),
{
    let cu = digits_of(r.n as nat) + seq![unit_letter(r.unit)];
    lemma_count_unit_reads_back(r.n, r.unit);
    let tok = repeater_word(r);
    let mk = repeat_mark(r.kind);
    assert(stamp_chars(mk));
    lemma_stamp_chars_cat(mk, cu);
    assert(tok[0] == mk[0]);
    match r.kind {
        RepeatKind::Plus => {
            assert(tok[1] == cu[0]);
            assert(tok.skip(1) =~= cu);
        },
        _ => {
            assert(tok.skip(2) =~= cu);
        },
    }
}

/// The warning word sets the warning.
proof fn lemma_warning_step(st: Stamp, w: Warning)
    ensures
        token_step(st, warning_word(w)) == Some(Stamp { warning: Some(w), ..st }),
        warning_word(w).len() > 0,
        stamp_chars(warning_word(w)),
{
    let cu = digits_of(w.n as nat) + seq![unit_letter(w.unit)];
    lemma_count_unit_reads_back(w.n, w.unit);
    let tok = warning_word(w);
    let mk = if w.double {
        seq!['-', '-']
    } else {
        seq!['-']
    };
    assert(stamp_chars(mk));
    lemma_stamp_chars_cat(mk, cu);
    assert(tok[0] == '-');
    if w.double {
        assert(tok.skip(2) =~= cu);
    } else {
        assert(tok[1] == cu[0]);
        assert(tok.skip(1) =~= cu);
    }
}

/// One more word after a space: the words, the chars and what the words give grow by it.
proof fn lemma_add_word(base: Stamp, x: Seq<char>, w: Seq<Seq<char>>, prev: Stamp, tok: Seq<char>, next: Stamp)
    requires
        words(x) == w,
        spaced(x),
        w.len() >= 1,
        apply_tokens(base, w, 1) == Some(prev),
        token_step(prev, tok) == Some(next),
        tok.len() > 0,
        stamp_chars(tok),
    ensures
        words(x + seq![' '] + tok) == w.push(tok),
        spaced(x + seq![' '] + tok),
        apply_tokens(base, w.push(tok), 1) == Some(next),
{
    lemma_stamp_chars_no_ws(tok);
    lemma_words_last(x, tok, 0, seq![]);
    lemma_apply_push(base, w, tok, 1);
    lemma_spaced_word(tok);
    assert(x + seq![' '] + tok =~= x + (seq![' '] + tok));
    lemma_spaced_cat(x, seq![' '] + tok);
}

/// The stamp that the date word starts from.
pub open spec fn bare(st: Stamp) -> Stamp {
    Stamp { active: st.active, date: st.date, time: None, time_end: None, repeater: None, warning: None }
}

/// A stamp's text between its brackets up to its weekday, then up to its time and its
/// repeater.
pub open spec fn inner_upto(st: Stamp, k: int) -> Seq<char> {
    let x0 = date_text(st.date) + seq![' '] + weekday_name(weekday_index(st.date));
    if k == 0 {
        x0
    } else if k == 1 {
        x0 + time_part(st)
    } else {
        x0 + time_part(st) + rep_part(st)
    }
}

/// The words of `inner_upto`.
pub open spec fn words_upto(st: Stamp, k: int) -> Seq<Seq<char>> {
    let w0 = seq![date_text(st.date), weekday_name(weekday_index(st.date))];
    let w1 = match st.time {
        Some(t) => w0.push(time_word(t, st.time_end)),
        None => w0,
    };
    if k == 0 {
        w0
    } else if k == 1 {
        w1
    } else {
        match st.repeater {
            Some(r) => w1.push(repeater_word(r)),
            None => w1,
        }
    }
}

/// What the words of `inner_upto` give.
pub open spec fn stamp_upto(st: Stamp, k: int) -> Stamp {
    if k == 0 {
        bare(st)
    } else if k == 1 {
        Stamp { time: st.time, time_end: st.time_end, ..bare(st) }
    } else {
        Stamp { time: st.time, time_end: st.time_end, repeater: st.repeater, ..bare(st) }
    }
}

/// What holds of a stamp's text up to stage `k`.
pub open spec fn stage_ok(st: Stamp, k: int) -> bool {
    &&& words(inner_upto(st, k)) == words_upto(st, k)
    &&& spaced(inner_upto(st, k))
    &&& words_upto(st, k).len() >= 1
    &&& apply_tokens(bare(st), words_upto(st, k), 1) == Some(stamp_upto(st, k))
}

proof fn lemma_stage_date(st: Stamp)
    requires
        readable(st),
    ensures
        stage_ok(st, 0),
{
    let base = bare(st);
    let dt = date_text(st.date);
    let wd = weekday_name(weekday_index(st.date));
    lemma_date_reads_back(st.date);
    lemma_weekday_word(weekday_index(st.date));
    lemma_stamp_chars_no_ws(dt);
    lemma_one_word(dt);
    lemma_spaced_word(dt);
    assert(apply_tokens(base, seq![dt], 1) == Some(base));
    lemma_weekday_step(base, weekday_index(st.date));
    lemma_add_word(base, dt, seq![dt], base, wd, base);
    assert(seq![dt].push(wd) =~= words_upto(st, 0));
}

proof fn lemma_stage_time(st: Stamp)
    requires
        readable(st),
        stage_ok(st, 0),
    ensures
        stage_ok(st, 1),
{
    let x0 = inner_upto(st, 0);
    match st.time {
        Some(t) => {
            lemma_time_step(bare(st), t, st.time_end);
            lemma_add_word(bare(st), x0, words_upto(st, 0), bare(st), time_word(t, st.time_end), stamp_upto(st, 1));
            assert(inner_upto(st, 1) =~= x0 + seq![' '] + time_word(t, st.time_end));
        },
        None => {
            assert(inner_upto(st, 1) =~= x0);
            assert(stamp_upto(st, 1) == bare(st));
        },
    }
}

proof fn lemma_stage_repeater(st: Stamp)
    requires
        readable(st),
        stage_ok(st, 1),
    ensures
        stage_ok(st, 2),
{
    let x1 = inner_upto(st, 1);
    match st.repeater {
        Some(r) => {
            lemma_repeater_step(stamp_upto(st, 1), r);
            lemma_add_word(bare(st), x1, words_upto(st, 1), stamp_upto(st, 1), repeater_word(r), stamp_upto(st, 2));
            assert(inner_upto(st, 2) =~= x1 + seq![' '] + repeater_word(r));
        },
        None => {
            assert(inner_upto(st, 2) =~= x1);
            assert(stamp_upto(st, 2) == stamp_upto(st, 1));
        },
    }
}

/// The text between a readable stamp's brackets splits into its words, is made of spaces and
/// stamp chars, and its words read back as the stamp.
#[verifier::spinoff_prover]
#[verifier::rlimit(40)]
proof fn lemma_inner_reads_back(st: Stamp)
    requires
        readable(st),
    ensures
        words(stamp_inner(st)) == stamp_words(st),
        spaced(stamp_inner(st)),
        stamp_words(st).len() >= 1,
        stamp_words(st)[0] == date_text(st.date),
        apply_tokens(bare(st), stamp_words(st), 1) == Some(st),
{
    lemma_stage_date(st);
    lemma_stage_time(st);
    lemma_stage_repeater(st);
    let x2 = inner_upto(st, 2);
    assert(stamp_inner(st) =~= x2 + warn_part(st));
    match st.warning {
        Some(w) => {
            lemma_warning_step(stamp_upto(st, 2), w);
            lemma_add_word(bare(st), x2, words_upto(st, 2), stamp_upto(st, 2), warning_word(w), st);
            assert(stamp_inner(st) =~= x2 + seq![' '] + warning_word(w));
            assert(stamp_words(st) == words_upto(st, 2).push(warning_word(w)));
        },
        None => {
            assert(stamp_inner(st) =~= x2);
            assert(stamp_words(st) == words_upto(st, 2));
            assert(stamp_upto(st, 2) == st);
        },
    }
    assert(stamp_words(st)[0] == words_upto(st, 0)[0]);
}

/// A readable stamp's text, whatever follows it, reads back as the stamp and its length.
#[verifier::spinoff_prover]
#[verifier::rlimit(40)]
proof fn lemma_stamp_reads_back(st: Stamp, rest: Seq<char>)
    requires
        readable(st),
    ensures
        stamp_parse(stamp_text(st) + rest) == Some((st, stamp_text(st).len() as int)),
{
    lemma_inner_reads_back(st);
    lemma_date_reads_back(st.date);
    let inner = stamp_inner(st);
    let (open, close) = brackets(st.active);
    let s = stamp_text(st) + rest;
    assert(stamp_text(st) =~= seq![open] + inner + seq![close]);
    let end = inner.len() as int + 1;
    assert(s[end] == close);
    assert forall|k: int| 0 <= k < end implies s[k] != close by {
        if k > 0 {
            assert(s[k] == inner[k - 1]);
            assert(inner[k - 1] == ' ' || stamp_char(inner[k - 1]));
        }
    }
    lemma_first_at(s, close, end);
    assert(s.subrange(1, end) =~= inner);
    assert(s[0] == open);
    assert(bare(st) == Stamp { active: st.active, date: st.date, time: None, time_end: None, repeater: None, warning: None });
}

/// Printing a readable timestamp and parsing the text gives the timestamp back, the parse
/// spanning the whole text.
pub proof fn lemma_timestamp_reads_back(ts: Timestamp)
    requires
        readable_ts(ts),
    ensures
        timestamp_parse(timestamp_text(ts)) == Some((ts, timestamp_text(ts).len() as int)),
{
    let a = stamp_text(ts.start);
    match ts.end {
        Some(e) => {
            let b = stamp_text(e);
            let rest = seq!['-', '-'] + b;
            assert(timestamp_text(ts) =~= a + rest);
            lemma_stamp_reads_back(ts.start, rest);
            assert((a + rest).skip(a.len() as int) =~= rest);
            lemma_stamp_reads_back(e, seq![]);
            assert(rest.skip(2) =~= b + seq![]);
        },
        None => {
            lemma_stamp_reads_back(ts.start, seq![]);
            assert(a + seq![] =~= a);
            assert(a.skip(a.len() as int) =~= seq![]);
        },
    }
}

// ---- what parses is readable ------------------------------------------------------------

/// A parsed date is a real date with an unsigned year: the year is the part before the first
/// dash, so it carries no minus sign.
proof fn lemma_parsed_date_readable(s: Seq<char>)
    ensures
        date_parse(s) matches Some(d) ==> valid_date(d) && d.year >= 0,
{
    lemma_index_of(s, '-', 0);
    let p = index_of_from(s, '-', 0);
    if p < s.len() {
        let a = s.take(p);
        if a.len() > 0 {
            assert(a[0] == s[0]);
        }
    }
}

/// Applying words to a readable stamp gives a readable stamp.
proof fn lemma_tokens_readable(st: Stamp, toks: Seq<Seq<char>>, i: int)
    requires
        readable(st),
    ensures
        apply_tokens(st, toks, i) matches Some(r) ==> readable(r),
    decreases toks.len() - i,
{
    if 0 <= i < toks.len() {
        if let Some(st2) = token_step(st, toks[i]) {
            lemma_tokens_readable(st2, toks, i + 1);
        }
    }
}

/// Every stamp that parses is readable.
proof fn lemma_parsed_stamp_readable(s: Seq<char>)
    ensures
        stamp_parse(s) matches Some((st, _)) ==> readable(st),
{
    if s.len() > 0 && (s[0] == '<' || s[0] == '[') {
        let active = s[0] == '<';
        let end = index_of_from(s, if active {
            '>'
        } else {
            ']'
        }, 0);
        if end < s.len() {
            let toks = words(s.subrange(1, end));
            if toks.len() > 0 {
                lemma_parsed_date_readable(toks[0]);
                if let Some(date) = date_parse(toks[0]) {
                    lemma_tokens_readable(
                        Stamp { active, date, time: None, time_end: None, repeater: None, warning: None },
                        toks,
                        1,
                    );
                }
            }
        }
    }
}

/// Every timestamp that parses is readable, so its text parses back to it
/// ([`lemma_timestamp_reads_back`]).
pub proof fn lemma_parsed_readable(s: Seq<char>)
    ensures
        timestamp_parse(s) matches Some((ts, _)) ==> readable_ts(ts),
{
    lemma_parsed_stamp_readable(s);
    if let Some((_, len)) = stamp_parse(s) {
        lemma_parsed_stamp_readable(s.skip(len).skip(2));
    }
}

/// Parse, print, parse: the canonical text of a parsed timestamp parses to that timestamp,
/// spanning the whole text.
pub proof fn lemma_parse_print_parse(s: Seq<char>)
    ensures
        timestamp_parse(s) matches Some((ts, _)) ==> timestamp_parse(timestamp_text(ts)) == Some(
            (ts, timestamp_text(ts).len() as int),
        ),
{
    lemma_parsed_readable(s);
    if let Some((ts, _)) = timestamp_parse(s) {
        lemma_timestamp_reads_back(ts);
    }
}

} // verus!
