//! Org timestamps as data — active `<2024-01-15 Mon 09:30>` and inactive `[…]` stamps,
//! optional time or time range, `--` date ranges, `+1w`/`++2d`/`.+1m` repeaters and `-2d`
//! warnings. The parser tolerates a weekday on input and drops it; `to_string` writes the
//! canonical form with the weekday recomputed.
//!
//! All offsets here count chars. Timestamps are ASCII, so on the ASCII text they are read
//! from they equal byte offsets.
use vstd::prelude::*;

use crate::text::{
    ascii_alpha, chars_of, digits_of, padded, padded_signed, push_digits, push_padded,
    push_padded_signed, string_of, contains_char, digit, has_char, index_of, index_of_from, is_ascii_alpha,
    is_digit, is_ws, lemma_index_of, parse_i32, parse_unsigned, parse_unsigned_exec, signed_value,
    slice_vec, whitespace, all_ascii,
};

verus! {

/// A calendar date.
#[derive(Debug, Clone, Copy, PartialEq, Eq, Structural)]
pub struct Date {
    pub year: i32,
    pub month: u8,
    pub day: u8,
}

/// A wall-clock time (24-hour).
#[derive(Debug, Clone, Copy, PartialEq, Eq, Structural)]
pub struct Time {
    pub hour: u8,
    pub min: u8,
}

/// A repeater/warning interval unit.
#[derive(Debug, Clone, Copy, PartialEq, Eq, Structural)]
pub enum Unit {
    Hour,
    Day,
    Week,
    Month,
    Year,
}

/// A repeater's flavour: `+` (cumulate), `++` (catch-up), `.+` (restart-from-today).
#[derive(Debug, Clone, Copy, PartialEq, Eq, Structural)]
pub enum RepeatKind {
    Plus,
    PlusPlus,
    DotPlus,
}

/// A repeater cookie like `+1w`.
#[derive(Debug, Clone, Copy, PartialEq, Eq, Structural)]
pub struct Repeater {
    pub kind: RepeatKind,
    pub n: u32,
    pub unit: Unit,
}

/// A warning/delay cookie like `-2d` (or `--2d`).
#[derive(Debug, Clone, Copy, PartialEq, Eq, Structural)]
pub struct Warning {
    pub double: bool,
    pub n: u32,
    pub unit: Unit,
}

/// One `<…>` (active) or `[…]` (inactive) stamp.
#[derive(Debug, Clone, Copy, PartialEq, Eq, Structural)]
pub struct Stamp {
    pub active: bool,
    pub date: Date,
    pub time: Option<Time>,
    pub time_end: Option<Time>,
    pub repeater: Option<Repeater>,
    pub warning: Option<Warning>,
}

/// A timestamp: one stamp, or a `<a>--<b>` range of two.
#[derive(Debug, Clone, Copy, PartialEq, Eq, Structural)]
pub struct Timestamp {
    pub start: Stamp,
    pub end: Option<Stamp>,
}

// ---- date arithmetic --------------------------------------------------------

/// Gregorian leap years.
pub open spec fn leap(year: int) -> bool {
    (year % 4 == 0 && year % 100 != 0) || year % 400 == 0
}

/// The length of `month` in `year`; 0 for a month outside 1–12.
pub open spec fn month_len(year: int, month: int) -> int {
    if month == 1 || month == 3 || month == 5 || month == 7 || month == 8 || month == 10
        || month == 12 {
        31
    } else if month == 4 || month == 6 || month == 9 || month == 11 {
        30
    } else if month == 2 {
        if leap(year) {
            29
        } else {
            28
        }
    } else {
        0
    }
}

/// A real calendar date: month 1–12 and a day within that month.
pub open spec fn valid_date(d: Date) -> bool {
    1 <= d.month <= 12 && 1 <= d.day <= month_len(d.year as int, d.month as int)
}

proof fn lemma_neg_divisible(x: int, k: int)
    requires
        k > 0,
    ensures
        (x % k == 0) == ((-x) % k == 0),
{
    vstd::arithmetic::div_mod::lemma_fundamental_div_mod(x, k);
    vstd::arithmetic::div_mod::lemma_fundamental_div_mod(-x, k);
    if x % k == 0 {
        let q = x / k;
        assert(-x == (-q) * k + 0) by (nonlinear_arith)
            requires
                x == k * q + 0,
        ;
        vstd::arithmetic::div_mod::lemma_fundamental_div_mod_converse(-x, k, -q, 0);
    }
    if (-x) % k == 0 {
        let q = (-x) / k;
        assert(x == (-q) * k + 0) by (nonlinear_arith)
            requires
                -x == k * q + 0,
        ;
        vstd::arithmetic::div_mod::lemma_fundamental_div_mod_converse(x, k, -q, 0);
    }
}

/// Whether `year` is a Gregorian leap year.
pub fn is_leap(year: i32) -> (r: bool)
    ensures
        r == leap(year as int),
{
    let a: i64 = if year < 0 {
        -(year as i64)
    } else {
        year as i64
    };
    proof {
        lemma_neg_divisible(year as int, 4);
        lemma_neg_divisible(year as int, 100);
        lemma_neg_divisible(year as int, 400);
    }
    (a % 4 == 0 && a % 100 != 0) || a % 400 == 0
}

/// The number of days in `month` (1–12) of `year`, 0 for any other month.
pub fn days_in_month(year: i32, month: u8) -> (r: u8)
    ensures
        r as int == month_len(year as int, month as int),
{
    match month {
        1 | 3 | 5 | 7 | 8 | 10 | 12 => 31,
        4 | 6 | 9 | 11 => 30,
        2 => if is_leap(year) {
            29
        } else {
            28
        },
        _ => 0,
    }
}

/// Integer division rounding toward zero, as Rust's `/` does on signed integers.
pub open spec fn tdiv(a: int, b: int) -> int {
    if a >= 0 {
        a / b
    } else {
        -((-a) / b)
    }
}

/// Sakamoto's month offsets.
pub open spec fn sakamoto_t(m: int) -> int {
    if m == 1 {
        0
    } else if m == 2 {
        3
    } else if m == 3 {
        2
    } else if m == 4 {
        5
    } else if m == 5 {
        0
    } else if m == 6 {
        3
    } else if m == 7 {
        5
    } else if m == 8 {
        1
    } else if m == 9 {
        4
    } else if m == 10 {
        6
    } else if m == 11 {
        2
    } else {
        4
    }
}

/// The day of the week of `d` by Sakamoto's method: 0 = Sunday … 6 = Saturday.
pub open spec fn weekday_index(d: Date) -> int {
    let y = if d.month < 3 {
        d.year - 1
    } else {
        d.year as int
    };
    (y + tdiv(y, 4) - tdiv(y, 100) + tdiv(y, 400) + sakamoto_t(d.month as int) + d.day) % 7
}

/// The three-letter English name of weekday `i` (0 = Sunday).
pub open spec fn weekday_name(i: int) -> Seq<char> {
    if i == 0 {
        seq!['S', 'u', 'n']
    } else if i == 1 {
        seq!['M', 'o', 'n']
    } else if i == 2 {
        seq!['T', 'u', 'e']
    } else if i == 3 {
        seq!['W', 'e', 'd']
    } else if i == 4 {
        seq!['T', 'h', 'u']
    } else if i == 5 {
        seq!['F', 'r', 'i']
    } else {
        seq!['S', 'a', 't']
    }
}

fn tdiv_exec(a: i64, b: i64) -> (r: i64)
    requires
        b > 0,
        a > i64::MIN,
    ensures
        r == tdiv(a as int, b as int),
{
    if a >= 0 {
        a / b
    } else {
        -((-a) / b)
    }
}

fn euclid_mod7(x: i64) -> (r: i64)
    requires
        x > i64::MIN,
    ensures
        r == x % 7,
        0 <= r < 7,
{
    if x >= 0 {
        x % 7
    } else {
        let r = (-x) % 7;
        if r == 0 {
            proof {
                assert(x % 7 == 0) by (nonlinear_arith)
                    requires
                        x < 0,
                        (-x) % 7 == 0,
                ;
            }
            0
        } else {
            proof {
                assert(x % 7 == 7 - r) by (nonlinear_arith)
                    requires
                        x < 0,
                        r == (-x) % 7,
                        r != 0,
                ;
            }
            7 - r
        }
    }
}

/// The index (0 = Sunday) of the weekday of `date`; the month must be 1–12.
pub fn weekday_number(date: Date) -> (r: u8)
    requires
        1 <= date.month <= 12,
    ensures
        r as int == weekday_index(date),
        r < 7,
{
    let m = date.month as i64;
    let y: i64 = if m < 3 {
        date.year as i64 - 1
    } else {
        date.year as i64
    };
    let t: i64 = match date.month {
        1 => 0,
        2 => 3,
        3 => 2,
        4 => 5,
        5 => 0,
        6 => 3,
        7 => 5,
        8 => 1,
        9 => 4,
        10 => 6,
        11 => 2,
        _ => 4,
    };
    let q4 = tdiv_exec(y, 4);
    let q100 = tdiv_exec(y, 100);
    let q400 = tdiv_exec(y, 400);
    assert(-2147483649 <= q4 <= 2147483647) by (nonlinear_arith)
        requires
            q4 == tdiv(y as int, 4),
            -2147483649 <= y <= 2147483647,
    ;
    assert(-2147483649 <= q100 <= 2147483647) by (nonlinear_arith)
        requires
            q100 == tdiv(y as int, 100),
            -2147483649 <= y <= 2147483647,
    ;
    assert(-2147483649 <= q400 <= 2147483647) by (nonlinear_arith)
        requires
            q400 == tdiv(y as int, 400),
            -2147483649 <= y <= 2147483647,
    ;
    let x = y + q4 - q100 + q400 + t + date.day as i64;
    let r = euclid_mod7(x);
    r as u8
}

/// The three-letter English weekday for `date`, via Sakamoto's algorithm. The month must
/// be 1–12 (the month table is indexed by it).
pub fn weekday(date: Date) -> (r: &'static str)
    requires
        1 <= date.month <= 12,
    ensures
        r@ == weekday_name(weekday_index(date)),
{
    let i = weekday_number(date);
    if i == 0 {
        proof {
            reveal_strlit("Sun");
        }
        "Sun"
    } else if i == 1 {
        proof {
            reveal_strlit("Mon");
        }
        "Mon"
    } else if i == 2 {
        proof {
            reveal_strlit("Tue");
        }
        "Tue"
    } else if i == 3 {
        proof {
            reveal_strlit("Wed");
        }
        "Wed"
    } else if i == 4 {
        proof {
            reveal_strlit("Thu");
        }
        "Thu"
    } else if i == 5 {
        proof {
            reveal_strlit("Fri");
        }
        "Fri"
    } else {
        proof {
            reveal_strlit("Sat");
        }
        "Sat"
    }
}

// ---- day ordinals -------------------------------------------------------------

/// The proleptic Gregorian day number of `d` (1970-01-01 is day 0), by Hinnant's
/// `days_from_civil`.
pub open spec fn day_number(d: Date) -> int {
    let y = d.year - (if d.month <= 2 {
        1int
    } else {
        0int
    });
    let era = y / 400;
    let yoe = y - era * 400;
    let m = d.month as int;
    let doy = (153 * (if m > 2 {
        m - 3
    } else {
        m + 9
    }) + 2) / 5 + d.day - 1;
    let doe = yoe * 365 + yoe / 4 - yoe / 100 + doy;
    era * 146097 + doe - 719468
}

/// The date with day number `z`, by Hinnant's `civil_from_days` (the year is stored with
/// `as i32`).
pub open spec fn date_of_day(z0: int) -> Date {
    let z = z0 + 719468;
    let era = z / 146097;
    let doe = z - era * 146097;
    let yoe = (doe - doe / 1460 + doe / 36524 - doe / 146096) / 365;
    let y = yoe + era * 400;
    let doy = doe - (365 * yoe + yoe / 4 - yoe / 100);
    let mp = (5 * doy + 2) / 153;
    let day = doy - (153 * mp + 2) / 5 + 1;
    let month = if mp < 10 {
        mp + 3
    } else {
        mp - 9
    };
    Date {
        year: (y + (if month <= 2 {
            1int
        } else {
            0int
        })) as i32,
        month: month as u8,
        day: day as u8,
    }
}

/// `delta` days after `d`, through day numbers.
pub open spec fn plus_days(d: Date, delta: int) -> Date {
    date_of_day(day_number(d) + delta)
}

fn floor_div(a: i64, b: i64) -> (r: i64)
    requires
        b > 0,
        a > i64::MIN + b,
    ensures
        r == a / b,
{
    if a >= 0 {
        a / b
    } else {
        let q = -((-a + b - 1) / b);
        assert(q == a / b) by (nonlinear_arith)
            requires
                a < 0,
                b > 0,
                q == -((-a + b - 1) as int / b as int),
        ;
        q
    }
}

#[verifier::spinoff_prover]
#[verifier::rlimit(40)]
fn days_from_civil(date: Date) -> (r: i64)
    ensures
        r == day_number(date),
        -785000000000 <= r <= 785000000000,
{
    let y: i64 = date.year as i64 - (if date.month <= 2 {
        1i64
    } else {
        0i64
    });
    let era = floor_div(y, 400);
    let yoe = y - era * 400;
    assert(0 <= yoe < 400) by (nonlinear_arith)
        requires
            era == y / 400,
            yoe == y - era * 400,
    ;
    assert(-5368710 <= era <= 5368710) by (nonlinear_arith)
        requires
            era == y / 400,
            -2147483649 <= y <= 2147483647,
    ;
    let m = date.month as i64;
    let mm: i64 = if m > 2 {
        m - 3
    } else {
        m + 9
    };
    let doy = (153 * mm + 2) / 5 + date.day as i64 - 1;
    let doe = yoe * 365 + yoe / 4 - yoe / 100 + doy;
    assert(-1 <= doe <= 200000) by (nonlinear_arith)
        requires
            0 <= yoe < 400,
            0 <= mm <= 264,
            doy == (153 * mm + 2) / 5 + date.day as i64 - 1,
            doe == yoe * 365 + yoe / 4 - yoe / 100 + doy,
    ;
    era * 146097 + doe - 719468
}

#[verifier::spinoff_prover]
#[verifier::rlimit(40)]
fn civil_from_days(z0: i64) -> (r: Date)
    requires
        -786000000000 <= z0 <= 786000000000,
    ensures
        r == date_of_day(z0 as int),
{
    let z = z0 + 719468;
    let era = floor_div(z, 146097);
    let doe = z - era * 146097;
    assert(0 <= doe < 146097) by (nonlinear_arith)
        requires
            era == z / 146097,
            doe == z - era * 146097,
    ;
    assert(-5380000 <= era <= 5380000) by (nonlinear_arith)
        requires
            era == z / 146097,
            -786000000000 + 719468 <= z <= 786000000000 + 719468,
    ;
    let yoe = (doe - doe / 1460 + doe / 36524 - doe / 146096) / 365;
    assert(0 <= yoe <= 400) by (nonlinear_arith)
        requires
            0 <= doe < 146097,
            yoe == (doe - doe / 1460 + doe / 36524 - doe / 146096) / 365,
    ;
    let y = yoe + era * 400;
    let doy = doe - (365 * yoe + yoe / 4 - yoe / 100);
    assert(-150000 <= doy <= 150000) by (nonlinear_arith)
        requires
            0 <= doe < 146097,
            0 <= yoe <= 400,
            doy == doe - (365 * yoe + yoe / 4 - yoe / 100),
    ;
    let mp = (5 * doy + 2) / 153;
    let day = doy - (153 * mp + 2) / 5 + 1;
    let month = if mp < 10 {
        mp + 3
    } else {
        mp - 9
    };
    let yy = y + (if month <= 2 {
        1i64
    } else {
        0i64
    });
    Date { year: yy as i32, month: month as u8, day: day as u8 }
}

/// Add `delta` days to a date (proleptic Gregorian, via day ordinals).
fn add_days(date: Date, delta: i64) -> (r: Date)
    requires
        -1000000000 <= delta <= 1000000000,
    ensures
        r == plus_days(date, delta as int),
{
    civil_from_days(days_from_civil(date) + delta)
}

// ---- shifting a field under the cursor --------------------------------------

/// A shiftable field of a stamp. The weekday is not a field — a cursor there shifts the day.
#[derive(Debug, Clone, Copy, PartialEq, Eq, Structural)]
pub enum Field {
    Year,
    Month,
    Day,
    Hour,
    Minute,
    EndHour,
    EndMinute,
    RepeaterN,
    WarningN,
}

/// `d` with its day clamped to the length of its month.
pub open spec fn clamped(d: Date) -> Date {
    let max = month_len(d.year as int, d.month as int);
    if d.day > max {
        Date { day: max as u8, ..d }
    } else {
        d
    }
}

/// The date reached from `d` by carrying a minute count `total` into whole days: each
/// day borrowed or carried moves the date by one.
pub open spec fn carry_days(d: Date, total: int) -> Date
    decreases (if total < 0 {
        1440 - total
    } else {
        total
    }),
{
    if total < 0 {
        carry_days(plus_days(d, -1), total + 1440)
    } else if total >= 1440 {
        carry_days(plus_days(d, 1), total - 1440)
    } else {
        d
    }
}

/// The stamp with `delta` minutes added to its start time (or end time when `end`),
/// carrying into the date; unchanged when that time is absent.
pub open spec fn with_minutes(s: Stamp, end: bool, delta: int) -> Stamp {
    let slot = if end {
        s.time_end
    } else {
        s.time
    };
    match slot {
        None => s,
        Some(t) => {
            let total = t.hour * 60 + t.min + delta;
            let m = total % 1440;
            let nt = Time { hour: (m / 60) as u8, min: (m % 60) as u8 };
            let date = carry_days(s.date, total);
            if end {
                Stamp { date, time_end: Some(nt), ..s }
            } else {
                Stamp { date, time: Some(nt), ..s }
            }
        },
    }
}

/// A repeater/warning count stepped by `d`, never below one (stored with `as u32`).
pub open spec fn stepped_count(n: u32, d: int) -> u32 {
    (if n + d < 1 {
        1
    } else {
        n + d
    }) as u32
}

/// The year change a month step makes: the month index `month - 1 + d` carried into years.
pub open spec fn month_step(date: Date, d: int) -> (int, int) {
    let m = date.month - 1 + d;
    (date.year + m / 12, m % 12 + 1)
}

/// `stamp` with `field` moved one step (`up` or down), by Org's rules: month and year clamp
/// the day to the month length; day, hour and minute carry.
pub open spec fn shifted(stamp: Stamp, field: Field, up: bool) -> Stamp {
    let d: int = if up {
        1
    } else {
        -1
    };
    match field {
        Field::Year => Stamp {
            date: clamped(Date { year: (stamp.date.year + d) as i32, ..stamp.date }),
            ..stamp
        },
        Field::Month => {
            let (y, m) = month_step(stamp.date, d);
            Stamp { date: clamped(Date { year: y as i32, month: m as u8, ..stamp.date }), ..stamp }
        },
        Field::Day => Stamp { date: plus_days(stamp.date, d), ..stamp },
        Field::Hour => with_minutes(stamp, false, d * 60),
        Field::Minute => with_minutes(stamp, false, d),
        Field::EndHour => with_minutes(stamp, true, d * 60),
        Field::EndMinute => with_minutes(stamp, true, d),
        Field::RepeaterN => match stamp.repeater {
            Some(r) => Stamp { repeater: Some(Repeater { n: stepped_count(r.n, d), ..r }), ..stamp },
            None => stamp,
        },
        Field::WarningN => match stamp.warning {
            Some(w) => Stamp { warning: Some(Warning { n: stepped_count(w.n, d), ..w }), ..stamp },
            None => stamp,
        },
    }
}

/// The shifts `shift_field` can make without its year leaving `i32`.
pub open spec fn shift_in_range(stamp: Stamp, field: Field, up: bool) -> bool {
    let d: int = if up {
        1
    } else {
        -1
    };
    match field {
        Field::Year => i32::MIN <= stamp.date.year + d <= i32::MAX,
        Field::Month => i32::MIN <= month_step(stamp.date, d).0 <= i32::MAX,
        _ => true,
    }
}

/// What a step of one field keeps and what it does to the rest: the kind of stamp stays; a
/// year or month step keeps the times, lands on a month 1–12 and clamps the day to that
/// month; a count step moves the count by one but never below one (an up step past
/// `u32::MAX` wraps, as the stored `as u32` does); every other field's step leaves the
/// repeater and the warning alone.
pub proof fn lemma_shift_keeps(stamp: Stamp, field: Field, up: bool)
    requires
        valid_date(stamp.date),
        shift_in_range(stamp, field, up),
    ensures
        ({
            let r = shifted(stamp, field, up);
            let d: int = if up { 1 } else { -1 };
            &&& r.active == stamp.active
            &&& (field is Year || field is Month) ==> {
                &&& r.time == stamp.time
                &&& r.time_end == stamp.time_end
                &&& 1 <= r.date.month <= 12
                &&& r.date.day == if stamp.date.day <= month_len(r.date.year as int, r.date.month as int) {
                    stamp.date.day as int
                } else {
                    month_len(r.date.year as int, r.date.month as int)
                }
            }
            &&& field is RepeaterN ==> r.repeater == match stamp.repeater {
                Some(x) => Some(Repeater { n: (if x.n + d < 1 { 1 } else { x.n + d }) as u32, ..x }),
                None => None,
            }
            &&& field is WarningN ==> r.warning == match stamp.warning {
                Some(x) => Some(Warning { n: (if x.n + d < 1 { 1 } else { x.n + d }) as u32, ..x }),
                None => None,
            }
            &&& (field is RepeaterN && stamp.repeater is Some && stamp.repeater.unwrap().n + d <= u32::MAX)
                ==> r.repeater.unwrap().n >= 1
            &&& !(field is RepeaterN) ==> r.repeater == stamp.repeater
            &&& !(field is WarningN) ==> r.warning == stamp.warning
        }),
{
}

/// A month step moves the count of months (twelve to a year) by exactly one, carrying into
/// the year at either end of it; a year step moves the year by one and keeps the month.
#[verifier::spinoff_prover]
#[verifier::rlimit(30)]
pub proof fn lemma_month_year_step(stamp: Stamp, field: Field, up: bool)
    requires
        valid_date(stamp.date),
        shift_in_range(stamp, field, up),
    ensures
        ({
            let r = shifted(stamp, field, up);
            let d: int = if up { 1 } else { -1 };
            &&& field is Month ==> r.date.year * 12 + r.date.month - 1 == stamp.date.year * 12
                + stamp.date.month - 1 + d
            &&& field is Year ==> r.date.year == stamp.date.year + d && r.date.month
                == stamp.date.month
        }),
{
    let d: int = if up { 1 } else { -1 };
    if field is Month {
        let m = stamp.date.month - 1 + d;
        vstd::arithmetic::div_mod::lemma_fundamental_div_mod(m, 12);
        assert(0 <= m % 12 < 12);
    }
}

/// Within an era, the year of the era comes back from the day of the era.
#[verifier::spinoff_prover]
#[verifier::rlimit(100)]
proof fn lemma_year_of_era_back(yoe: int, doy: int)
    requires
        0 <= yoe < 400,
        0 <= doy <= 365,
        doy == 365 ==> (yoe + 1) % 4 == 0 && ((yoe + 1) % 100 != 0 || yoe + 1 == 400),
    ensures
        ({
            let doe = 365 * yoe + yoe / 4 - yoe / 100 + doy;
            (doe - doe / 1460 + doe / 36524 - doe / 146096) / 365 == yoe
        }),
{
}

/// Within a (March-based) year, the month comes back from the day of the year.
#[verifier::spinoff_prover]
proof fn lemma_month_back(d: Date)
    requires
        valid_date(d),
    ensures
        ({
            let m = d.month as int;
            let mm = if m > 2 { m - 3 } else { m + 9 };
            let doy = (153 * mm + 2) / 5 + d.day - 1;
            &&& (5 * doy + 2) / 153 == mm
            &&& 0 <= doy <= 365
            &&& doy == 365 ==> m == 2 && d.day == 29
        }),
{
}

/// Day numbers name dates one to one: the date of a real date's day number is that date.
#[verifier::spinoff_prover]
#[verifier::rlimit(40)]
pub proof fn lemma_date_of_day_number(d: Date)
    requires
        valid_date(d),
    ensures
        date_of_day(day_number(d)) == d,
{
    let y = d.year - (if d.month <= 2 { 1int } else { 0int });
    let era = y / 400;
    let yoe = y - era * 400;
    let m = d.month as int;
    let mm = if m > 2 { m - 3 } else { m + 9 };
    let doy = (153 * mm + 2) / 5 + d.day - 1;
    let doe = yoe * 365 + yoe / 4 - yoe / 100 + doy;
    vstd::arithmetic::div_mod::lemma_fundamental_div_mod(y, 400);
    lemma_month_back(d);
    if doy == 365 {
        // only the 29th of February of a leap year ends a year of the era late
        assert(leap(d.year as int));
        assert(d.year == era * 400 + yoe + 1);
        assert((yoe + 1) % 4 == 0 && ((yoe + 1) % 100 != 0 || yoe + 1 == 400)) by {
            vstd::arithmetic::div_mod::lemma_fundamental_div_mod(d.year as int, 4);
            vstd::arithmetic::div_mod::lemma_fundamental_div_mod(d.year as int, 100);
            vstd::arithmetic::div_mod::lemma_fundamental_div_mod(d.year as int, 400);
        }
    }
    lemma_year_of_era_back(yoe, doy);
    assert(0 <= doe < 146097);
    let z = day_number(d) + 719468;
    assert(z == era * 146097 + doe);
    vstd::arithmetic::div_mod::lemma_fundamental_div_mod_converse(z, 146097, era, doe);
}

/// The day after `d` on the calendar: the next day of the month, else the first of the next
/// month, else the first of January of the next year.
pub open spec fn next_day(d: Date) -> Date {
    if d.day < month_len(d.year as int, d.month as int) {
        Date { day: (d.day + 1) as u8, ..d }
    } else if d.month < 12 {
        Date { month: (d.month + 1) as u8, day: 1, ..d }
    } else {
        Date { year: (d.year + 1) as i32, month: 1, day: 1 }
    }
}

/// Flooring `y / k` goes up by one from `y - 1` exactly when `k` divides `y`.
proof fn lemma_div_step(y: int, k: int)
    requires
        k > 0,
    ensures
        y / k - (y - 1) / k == if y % k == 0 {
            1int
        } else {
            0int
        },
{
    vstd::arithmetic::div_mod::lemma_fundamental_div_mod(y, k);
    let q = y / k;
    let r = y % k;
    if r > 0 {
        assert(y - 1 == q * k + (r - 1)) by (nonlinear_arith)
            requires
                y == k * q + r,
        ;
        vstd::arithmetic::div_mod::lemma_fundamental_div_mod_converse(y - 1, k, q, r - 1);
    } else {
        assert(y - 1 == (q - 1) * k + (k - 1)) by (nonlinear_arith)
            requires
                y == k * q + r,
                r == 0,
        ;
        vstd::arithmetic::div_mod::lemma_fundamental_div_mod_converse(y - 1, k, q - 1, k - 1);
    }
}

/// The count of leap days below year `y` moves by one exactly at a leap year.
#[verifier::spinoff_prover]
proof fn lemma_leap_count_step(y: int)
    ensures
        (y / 4 - y / 100 + y / 400) - ((y - 1) / 4 - (y - 1) / 100 + (y - 1) / 400) == if leap(y) {
            1int
        } else {
            0int
        },
{
    lemma_div_step(y, 4);
    lemma_div_step(y, 100);
    lemma_div_step(y, 400);
    assert(y % 400 == 0 ==> y % 100 == 0) by {
        if y % 400 == 0 {
            vstd::arithmetic::div_mod::lemma_fundamental_div_mod(y, 400);
            vstd::arithmetic::div_mod::lemma_fundamental_div_mod_converse(y, 100, (y / 400) * 4, 0);
        }
    }
    assert(y % 100 == 0 ==> y % 4 == 0) by {
        if y % 100 == 0 {
            vstd::arithmetic::div_mod::lemma_fundamental_div_mod(y, 100);
            vstd::arithmetic::div_mod::lemma_fundamental_div_mod_converse(y, 4, (y / 100) * 25, 0);
        }
    }
}

/// The day number in closed form: 365 days a year, the leap days before the (March-based)
/// year, and the day of that year.
#[verifier::spinoff_prover]
#[verifier::rlimit(30)]
proof fn lemma_day_number_closed(d: Date)
    ensures
        ({
            let y = d.year - (if d.month <= 2 { 1int } else { 0int });
            let m = d.month as int;
            let doy = (153 * (if m > 2 { m - 3 } else { m + 9 }) + 2) / 5 + d.day - 1;
            day_number(d) == 365 * y + y / 4 - y / 100 + y / 400 + doy - 719468
        }),
{
    let y = d.year - (if d.month <= 2 { 1int } else { 0int });
    let era = y / 400;
    let yoe = y - era * 400;
    vstd::arithmetic::div_mod::lemma_fundamental_div_mod(y, 400);
    vstd::arithmetic::div_mod::lemma_fundamental_div_mod(y, 4);
    vstd::arithmetic::div_mod::lemma_fundamental_div_mod(y, 100);
    vstd::arithmetic::div_mod::lemma_fundamental_div_mod(yoe, 4);
    vstd::arithmetic::div_mod::lemma_fundamental_div_mod(yoe, 100);
    assert(y / 4 == era * 100 + yoe / 4);
    assert(y / 100 == era * 4 + yoe / 100);
}

/// Day numbers count days: the day after a real date has the next day number.
#[verifier::spinoff_prover]
#[verifier::rlimit(30)]
pub proof fn lemma_next_day_number(d: Date)
    requires
        valid_date(d),
        d.month == 12 && d.day == 31 ==> d.year < i32::MAX,
    ensures
        valid_date(next_day(d)),
        day_number(next_day(d)) == day_number(d) + 1,
{
    let n = next_day(d);
    lemma_day_number_closed(d);
    lemma_day_number_closed(n);
    if d.month == 2 && d.day == month_len(d.year as int, 2) {
        lemma_leap_count_step(d.year as int);
    }
}

/// The weekday follows the day count, 1970-01-01 (day 0) being a Thursday: for every date
/// whose March-based year is not negative, the weekday is four past the day number, modulo
/// seven.
#[verifier::spinoff_prover]
#[verifier::rlimit(30)]
pub proof fn lemma_weekday_of_day_number(d: Date)
    requires
        1 <= d.month <= 12,
        d.year >= 1 || (d.year == 0 && d.month >= 3),
    ensures
        weekday_index(d) == (day_number(d) + 4) % 7,
{
    let y = d.year - (if d.month <= 2 { 1int } else { 0int });
    let m = d.month as int;
    let doy = (153 * (if m > 2 { m - 3 } else { m + 9 }) + 2) / 5 + d.day - 1;
    lemma_day_number_closed(d);
    assert(tdiv(y, 4) == y / 4 && tdiv(y, 100) == y / 100 && tdiv(y, 400) == y / 400);
    let x = y + y / 4 - y / 100 + y / 400 + sakamoto_t(m) + d.day;
    assert(weekday_index(d) == x % 7);
    let c = doy - d.day - sakamoto_t(m) - 719464;
    assert(c % 7 == 0);
    vstd::arithmetic::div_mod::lemma_fundamental_div_mod(c, 7);
    let j = 52 * y + c / 7;
    assert(day_number(d) + 4 == x + 7 * j);
    vstd::arithmetic::div_mod::lemma_mod_multiples_vanish(j, x, 7);
}

/// The weekday moves on by one each day, and 1970-01-01 is a Thursday.
#[verifier::spinoff_prover]
#[verifier::rlimit(30)]
pub proof fn lemma_weekday_steps(d: Date)
    requires
        valid_date(d),
        1 <= d.year < i32::MAX,
    ensures
        weekday_index(next_day(d)) == (weekday_index(d) + 1) % 7,
        weekday_index(Date { year: 1970, month: 1, day: 1 }) == 4,
{
    lemma_next_day_number(d);
    lemma_weekday_of_day_number(d);
    lemma_weekday_of_day_number(next_day(d));
    vstd::arithmetic::div_mod::lemma_add_mod_noop(day_number(d) + 4, 1, 7);
    lemma_epoch_thursday();
}

/// 1970-01-01 was a Thursday.
proof fn lemma_epoch_thursday()
    ensures
        weekday_index(Date { year: 1970, month: 1, day: 1 }) == 4,
{
}

/// The day before `d` on the calendar: the previous day of the month, else the last day of
/// the previous month, else the 31st of December of the year before.
pub open spec fn prev_day(d: Date) -> Date {
    if d.day > 1 {
        Date { day: (d.day - 1) as u8, ..d }
    } else if d.month > 1 {
        Date {
            month: (d.month - 1) as u8,
            day: month_len(d.year as int, d.month - 1) as u8,
            ..d
        }
    } else {
        Date { year: (d.year - 1) as i32, month: 12, day: 31 }
    }
}

/// One day on from a real date by day numbers is the calendar's next day.
proof fn lemma_plus_day_up(d: Date)
    requires
        valid_date(d),
        d.year < i32::MAX,
    ensures
        plus_days(d, 1) == next_day(d),
{
    lemma_next_day_number(d);
    lemma_date_of_day_number(next_day(d));
}

/// One day back from a real date by day numbers is the calendar's previous day, a real
/// date whose next day is the one we started from.
proof fn lemma_plus_day_down(d: Date)
    requires
        valid_date(d),
        i32::MIN < d.year,
    ensures
        plus_days(d, -1) == prev_day(d),
        valid_date(prev_day(d)),
        next_day(prev_day(d)) == d,
{
    let p = prev_day(d);
    assert(valid_date(p));
    assert(next_day(p) == d);
    lemma_next_day_number(p);
    lemma_date_of_day_number(p);
}

/// A day step moves the date to the calendar's next day (up) or previous day (down) and
/// leaves the rest of the stamp alone.
pub proof fn lemma_day_step(stamp: Stamp, up: bool)
    requires
        valid_date(stamp.date),
        up ==> stamp.date.year < i32::MAX,
        !up ==> i32::MIN < stamp.date.year,
    ensures
        ({
            let r = shifted(stamp, Field::Day, up);
            &&& r == Stamp { date: r.date, ..stamp }
            &&& up ==> r.date == next_day(stamp.date)
            &&& !up ==> r.date == prev_day(stamp.date) && next_day(r.date) == stamp.date
        }),
{
    if up {
        lemma_plus_day_up(stamp.date);
    } else {
        lemma_plus_day_down(stamp.date);
    }
}

/// A day step up and then down gives the stamp back.
#[verifier::spinoff_prover]
pub proof fn lemma_day_up_then_down(stamp: Stamp)
    requires
        valid_date(stamp.date),
        stamp.date.year < i32::MAX,
    ensures
        shifted(shifted(stamp, Field::Day, true), Field::Day, false) == stamp,
{
    let d = stamp.date;
    lemma_plus_day_up(d);
    let r = shifted(stamp, Field::Day, true);
    assert(r.date == next_day(d));
    lemma_next_day_number(d);
    lemma_date_of_day_number(d);
    assert(plus_days(next_day(d), -1) == d);
}

/// Carrying a minute count less than a day away from the day's range moves the date by at
/// most one day.
proof fn lemma_carry_one(d: Date, total: int)
    requires
        valid_date(d),
        -1440 <= total < 2880,
        total < 0 ==> i32::MIN < d.year,
        total >= 1440 ==> d.year < i32::MAX,
    ensures
        total < 0 ==> carry_days(d, total) == prev_day(d),
        total >= 1440 ==> carry_days(d, total) == next_day(d),
        0 <= total < 1440 ==> carry_days(d, total) == d,
{
    if total < 0 {
        lemma_plus_day_down(d);
        assert(carry_days(d, total) == carry_days(plus_days(d, -1), total + 1440));
        assert(carry_days(plus_days(d, -1), total + 1440) == plus_days(d, -1));
    } else if total >= 1440 {
        lemma_plus_day_up(d);
        assert(carry_days(d, total) == carry_days(plus_days(d, 1), total - 1440));
        assert(carry_days(plus_days(d, 1), total - 1440) == plus_days(d, 1));
    }
}

/// Adding `delta` minutes to a real time: the minute of the day moves around the clock, the
/// date moves a day when midnight is passed, and the rest of the stamp stays.
proof fn lemma_with_minutes(stamp: Stamp, end: bool, delta: int)
    requires
        valid_date(stamp.date),
        -60 <= delta <= 60,
        delta > 0 ==> stamp.date.year < i32::MAX,
        delta < 0 ==> i32::MIN < stamp.date.year,
    ensures
        ({
            let slot = if end { stamp.time_end } else { stamp.time };
            let r = with_minutes(stamp, end, delta);
            let rslot = if end { r.time_end } else { r.time };
            match slot {
                None => r == stamp,
                Some(t) => t.hour < 24 && t.min < 60 ==> {
                    let total = t.hour * 60 + t.min + delta;
                    &&& rslot matches Some(nt) && nt.hour < 24 && nt.min < 60 && nt.hour * 60 + nt.min
                        == (if total < 0 {
                        total + 1440
                    } else if total >= 1440 {
                        total - 1440
                    } else {
                        total
                    })
                    &&& total < 0 ==> r.date == prev_day(stamp.date)
                    &&& total >= 1440 ==> r.date == next_day(stamp.date)
                    &&& 0 <= total < 1440 ==> r.date == stamp.date
                    &&& end ==> r == Stamp { date: r.date, time_end: r.time_end, ..stamp }
                    &&& !end ==> r == Stamp { date: r.date, time: r.time, ..stamp }
                },
            }
        }),
{
    let slot = if end { stamp.time_end } else { stamp.time };
    if let Some(t) = slot {
        if t.hour < 24 && t.min < 60 {
            let total = t.hour * 60 + t.min + delta;
            lemma_carry_one(stamp.date, total);
            let m = total % 1440;
            assert(m == (if total < 0 {
                total + 1440
            } else if total >= 1440 {
                total - 1440
            } else {
                total
            }));
            assert((m / 60) * 60 + m % 60 == m && m / 60 < 24);
        }
    }
}

/// An hour or minute step on a real time moves the minute of the day by sixty or by one
/// around the clock, and a step past midnight moves the date to the next or the previous
/// calendar day; the other time of the stamp stays.
pub proof fn lemma_time_step(stamp: Stamp, field: Field, up: bool)
    requires
        valid_date(stamp.date),
        field is Hour || field is Minute || field is EndHour || field is EndMinute,
        up ==> stamp.date.year < i32::MAX,
        !up ==> i32::MIN < stamp.date.year,
    ensures
        ({
            let end = field is EndHour || field is EndMinute;
            let slot = if end { stamp.time_end } else { stamp.time };
            let r = shifted(stamp, field, up);
            let rslot = if end { r.time_end } else { r.time };
            let d: int = if up { 1 } else { -1 };
            let delta = if field is Hour || field is EndHour { 60 * d } else { d };
            match slot {
                None => r == stamp,
                Some(t) => t.hour < 24 && t.min < 60 ==> {
                    let total = t.hour * 60 + t.min + delta;
                    &&& rslot matches Some(nt) && nt.hour < 24 && nt.min < 60 && nt.hour * 60 + nt.min
                        == (if total < 0 {
                        total + 1440
                    } else if total >= 1440 {
                        total - 1440
                    } else {
                        total
                    })
                    &&& total < 0 ==> r.date == prev_day(stamp.date)
                    &&& total >= 1440 ==> r.date == next_day(stamp.date)
                    &&& 0 <= total < 1440 ==> r.date == stamp.date
                    &&& end ==> r == Stamp { date: r.date, time_end: r.time_end, ..stamp }
                    &&& !end ==> r == Stamp { date: r.date, time: r.time, ..stamp }
                },
            }
        }),
{
    let end = field is EndHour || field is EndMinute;
    let d: int = if up { 1 } else { -1 };
    let delta = if field is Hour || field is EndHour { 60 * d } else { d };
    lemma_with_minutes(stamp, end, delta);
}

/// Whether `shift_field` can step `field` of `stamp` without its year leaving `i32`.
pub fn in_range(stamp: Stamp, field: Field, up: bool) -> (r: bool)
    ensures
        r == shift_in_range(stamp, field, up),
{
    let d: i64 = if up {
        1
    } else {
        -1
    };
    match field {
        Field::Year => {
            let y = stamp.date.year as i64 + d;
            -2147483648i64 <= y && y <= 2147483647i64
        },
        Field::Month => {
            let m = stamp.date.month as i64 - 1 + d;
            let y = if m < 0 {
                stamp.date.year as i64 - 1
            } else {
                stamp.date.year as i64 + m / 12
            };
            -2147483648i64 <= y && y <= 2147483647i64
        },
        _ => true,
    }
}

fn clamp_day(date: Date) -> (r: Date)
    ensures
        r == clamped(date),
{
    let max = days_in_month(date.year, date.month);
    if date.day > max {
        Date { day: max, ..date }
    } else {
        date
    }
}

/// Add `delta` minutes to a stamp's `time` (or `time_end` when `end`), carrying into the date.
fn shift_time(stamp: Stamp, end: bool, delta: i64) -> (r: Stamp)
    requires
        -60 <= delta <= 60,
    ensures
        r == with_minutes(stamp, end, delta as int),
{
    let slot = if end {
        stamp.time_end
    } else {
        stamp.time
    };
    let t = match slot {
        Some(t) => t,
        None => {
            return stamp;
        },
    };
    let mut total: i64 = t.hour as i64 * 60 + t.min as i64 + delta;
    let ghost total0 = total as int;
    let ghost mut k: int = 0;
    let mut date = stamp.date;
    if total < 0 {
        total = total + 24 * 60;
        date = add_days(date, -1);
        proof {
            k = k + 1;
        }
    }
    while total >= 24 * 60
        invariant
            0 <= total <= 16000,
            total == total0 + 1440 * k,
            carry_days(date, total as int) == carry_days(stamp.date, total0),
        decreases total,
    {
        total = total - 24 * 60;
        date = add_days(date, 1);
        proof {
            k = k - 1;
        }
    }
    assert(total == total0 % 1440) by (nonlinear_arith)
        requires
            0 <= total < 1440,
            total == total0 + 1440 * k,
    ;
    let new = Time { hour: (total / 60) as u8, min: (total % 60) as u8 };
    if end {
        Stamp { date, time_end: Some(new), ..stamp }
    } else {
        Stamp { date, time: Some(new), ..stamp }
    }
}

fn step_count(n: u32, d: i64) -> (r: u32)
    requires
        d == 1 || d == -1,
    ensures
        r == stepped_count(n, d as int),
{
    let v = n as i64 + d;
    if v < 1 {
        1
    } else {
        v as u32
    }
}

/// Shift one `field` of `stamp` by one step up or down, with Org's rollover/clamp rules:
/// month and year clamp the day to the month length; day, hour, and minute carry.
pub fn shift_field(stamp: Stamp, field: Field, up: bool) -> (r: Stamp)
    requires
        shift_in_range(stamp, field, up),
    ensures
        r == shifted(stamp, field, up),
{
    let d: i64 = if up {
        1
    } else {
        -1
    };
    match field {
        Field::Year => {
            let y = (stamp.date.year as i64 + d) as i32;
            Stamp { date: clamp_day(Date { year: y, ..stamp.date }), ..stamp }
        },
        Field::Month => {
            let mut m: i64 = stamp.date.month as i64 - 1 + d;
            let mut year: i64 = stamp.date.year as i64;
            let ghost m0 = m as int;
            let ghost y0 = year as int;
            if m < 0 {
                m = m + 12;
                year = year - 1;
            }
            while m > 11
                invariant
                    i32::MIN <= y0 <= i32::MAX,
                    0 <= m <= 255,
                    year * 12 + m == y0 * 12 + m0,
                    y0 - 1 <= year <= y0 + 22 - m / 12,
                decreases m,
            {
                m = m - 12;
                year = year + 1;
            }
            assert(m == m0 % 12 && year == y0 + m0 / 12) by (nonlinear_arith)
                requires
                    0 <= m < 12,
                    year * 12 + m == y0 * 12 + m0,
            ;
            Stamp {
                date: clamp_day(Date { year: year as i32, month: (m + 1) as u8, ..stamp.date }),
                ..stamp
            }
        },
        Field::Day => Stamp { date: add_days(stamp.date, d), ..stamp },
        Field::Hour => shift_time(stamp, false, d * 60),
        Field::Minute => shift_time(stamp, false, d),
        Field::EndHour => shift_time(stamp, true, d * 60),
        Field::EndMinute => shift_time(stamp, true, d),
        Field::RepeaterN => match stamp.repeater {
            Some(r) => Stamp { repeater: Some(Repeater { n: step_count(r.n, d), ..r }), ..stamp },
            None => stamp,
        },
        Field::WarningN => match stamp.warning {
            Some(w) => Stamp { warning: Some(Warning { n: step_count(w.n, d), ..w }), ..stamp },
            None => stamp,
        },
    }
}

// ---- parsing ----------------------------------------------------------------

/// `cur` as a one-word list, or no words when it is empty.
pub open spec fn flush(cur: Seq<char>) -> Seq<Seq<char>> {
    if cur.len() > 0 {
        seq![cur]
    } else {
        seq![]
    }
}

/// The whitespace-separated words of `s` from index `i` on, `cur` being the word in
/// progress (`str::split_whitespace`).
pub open spec fn words_acc(s: Seq<char>, i: int, cur: Seq<char>) -> Seq<Seq<char>>
    decreases s.len() - i,
{
    if i < 0 || i >= s.len() {
        flush(cur)
    } else if is_ws(s[i]) {
        flush(cur) + words_acc(s, i + 1, seq![])
    } else {
        words_acc(s, i + 1, cur.push(s[i]))
    }
}

/// The whitespace-separated words of `s`.
pub open spec fn words(s: Seq<char>) -> Seq<Seq<char>> {
    words_acc(s, 0, seq![])
}

/// `s` split at the first `sep`: the parts before and after it, if there is one.
pub open spec fn split_once(s: Seq<char>, sep: char) -> Option<(Seq<char>, Seq<char>)> {
    let p = index_of_from(s, sep, 0);
    if p < s.len() {
        Some((s.take(p), s.skip(p + 1)))
    } else {
        None
    }
}

/// A `u8` field as `str::parse::<u8>` reads it.
pub open spec fn parse_u8(s: Seq<char>) -> Option<nat> {
    parse_unsigned(s, 255)
}

/// A `yyyy-mm-dd` date (the year may carry a sign, as `str::parse::<i32>` allows), checked
/// against the calendar.
pub open spec fn date_parse(s: Seq<char>) -> Option<Date> {
    match split_once(s, '-') {
        None => None,
        Some((a, rest)) => match split_once(rest, '-') {
            None => None,
            Some((b, c)) => match (signed_value(a), parse_u8(b), parse_u8(c)) {
                (Some(y), Some(m), Some(d)) => if i32::MIN <= y <= i32::MAX && 1 <= m <= 12 && 1
                    <= d <= month_len(y, m as int) {
                    Some(Date { year: y as i32, month: m as u8, day: d as u8 })
                } else {
                    None
                },
                _ => None,
            },
        },
    }
}

/// An `HH:MM` time, hour at most 23 and minute at most 59.
pub open spec fn time_parse(s: Seq<char>) -> Option<Time> {
    match split_once(s, ':') {
        None => None,
        Some((h, m)) => match (parse_u8(h), parse_u8(m)) {
            (Some(hour), Some(min)) => if hour <= 23 && min <= 59 {
                Some(Time { hour: hour as u8, min: min as u8 })
            } else {
                None
            },
            _ => None,
        },
    }
}

/// A time, or a `start-end` time range.
pub open spec fn time_field_parse(s: Seq<char>) -> Option<(Time, Option<Time>)> {
    match split_once(s, '-') {
        Some((a, b)) => match (time_parse(a), time_parse(b)) {
            (Some(t), Some(e)) => Some((t, Some(e))),
            _ => None,
        },
        None => match time_parse(s) {
            Some(t) => Some((t, None)),
            None => None,
        },
    }
}

/// The unit letter of a cookie.
pub open spec fn unit_of(c: char) -> Option<Unit> {
    if c == 'h' {
        Some(Unit::Hour)
    } else if c == 'd' {
        Some(Unit::Day)
    } else if c == 'w' {
        Some(Unit::Week)
    } else if c == 'm' {
        Some(Unit::Month)
    } else if c == 'y' {
        Some(Unit::Year)
    } else {
        None
    }
}

/// The first index at or after `i` that is not a digit (or `s.len()`).
pub open spec fn skip_digits(s: Seq<char>, i: int) -> int
    decreases s.len() - i,
{
    if 0 <= i < s.len() && is_digit(s[i]) {
        skip_digits(s, i + 1)
    } else {
        i
    }
}

/// A `<digits><unit>` cookie tail like `1w`: at least one digit, then exactly one unit letter.
pub open spec fn count_unit_parse(s: Seq<char>) -> Option<(u32, Unit)> {
    let split = skip_digits(s, 0);
    if split >= s.len() || split == 0 || split != s.len() - 1 {
        None
    } else {
        match (parse_unsigned(s.take(split), u32::MAX as nat), unit_of(s[split])) {
            (Some(n), Some(u)) => Some((n as u32, u)),
            _ => None,
        }
    }
}

/// A repeater cookie: `+`, `++` or `.+`, then a count and unit.
pub open spec fn repeater_parse(s: Seq<char>) -> Option<Repeater> {
    let (kind, rest) = if s.len() >= 2 && s[0] == '+' && s[1] == '+' {
        (Some(RepeatKind::PlusPlus), s.skip(2))
    } else if s.len() >= 2 && s[0] == '.' && s[1] == '+' {
        (Some(RepeatKind::DotPlus), s.skip(2))
    } else if s.len() >= 1 && s[0] == '+' {
        (Some(RepeatKind::Plus), s.skip(1))
    } else {
        (None, s)
    };
    match (kind, count_unit_parse(rest)) {
        (Some(k), Some((n, u))) => Some(Repeater { kind: k, n, unit: u }),
        _ => None,
    }
}

/// A warning cookie: `-` or `--`, then a count and unit.
pub open spec fn warning_parse(s: Seq<char>) -> Option<Warning> {
    let (double, rest) = if s.len() >= 2 && s[0] == '-' && s[1] == '-' {
        (true, s.skip(2))
    } else {
        (false, s.skip(1))
    };
    if s.len() >= 1 && s[0] == '-' {
        match count_unit_parse(rest) {
            Some((n, u)) => Some(Warning { double, n, unit: u }),
            None => None,
        }
    } else {
        None
    }
}

/// Every char of `s` is an ASCII letter.
pub open spec fn all_alpha(s: Seq<char>) -> bool {
    forall|i: int| 0 <= i < s.len() ==> is_ascii_alpha(#[trigger] s[i])
}

/// What one word after the date does to the stamp: a time, a repeater, a warning, or a
/// weekday word (ignored); anything else spoils the stamp.
pub open spec fn token_step(st: Stamp, tok: Seq<char>) -> Option<Stamp> {
    if tok.len() == 0 {
        None
    } else if is_digit(tok[0]) && has_char(tok, ':') {
        match time_field_parse(tok) {
            Some((t, e)) => Some(Stamp { time: Some(t), time_end: e, ..st }),
            None => None,
        }
    } else if tok[0] == '+' || tok[0] == '.' {
        match repeater_parse(tok) {
            Some(r) => Some(Stamp { repeater: Some(r), ..st }),
            None => None,
        }
    } else if tok[0] == '-' {
        match warning_parse(tok) {
            Some(w) => Some(Stamp { warning: Some(w), ..st }),
            None => None,
        }
    } else if all_alpha(tok) {
        Some(st)
    } else {
        None
    }
}

/// The stamp after applying words `toks[i..]` in order.
pub open spec fn apply_tokens(st: Stamp, toks: Seq<Seq<char>>, i: int) -> Option<Stamp>
    decreases toks.len() - i,
{
    if i < 0 || i >= toks.len() {
        Some(st)
    } else {
        match token_step(st, toks[i]) {
            Some(st2) => apply_tokens(st2, toks, i + 1),
            None => None,
        }
    }
}

/// The content between a stamp's brackets: `date [dow] [time[-time]] [repeater] [warning]`.
pub open spec fn inner_parse(inner: Seq<char>, active: bool) -> Option<Stamp> {
    let toks = words(inner);
    if toks.len() == 0 {
        None
    } else {
        match date_parse(toks[0]) {
            None => None,
            Some(date) => apply_tokens(
                Stamp { active, date, time: None, time_end: None, repeater: None, warning: None },
                toks,
                1,
            ),
        }
    }
}

/// One `<…>`/`[…]` stamp at the start of `s` and its length through the first closing
/// bracket of its kind.
pub open spec fn stamp_parse(s: Seq<char>) -> Option<(Stamp, int)> {
    if s.len() == 0 || (s[0] != '<' && s[0] != '[') {
        None
    } else {
        let active = s[0] == '<';
        let end = index_of_from(s, if active {
            '>'
        } else {
            ']'
        }, 0);
        if end >= s.len() {
            None
        } else {
            match inner_parse(s.subrange(1, end), active) {
                Some(st) => Some((st, end + 1)),
                None => None,
            }
        }
    }
}

/// A timestamp at the start of `s` with the length it spans: one stamp, or two stamps of
/// the same kind joined by `--`.
pub open spec fn timestamp_parse(s: Seq<char>) -> Option<(Timestamp, int)> {
    match stamp_parse(s) {
        None => None,
        Some((start, len)) => {
            let rest = s.skip(len);
            let single = Some((Timestamp { start, end: None }, len));
            if rest.len() >= 2 && rest[0] == '-' && rest[1] == '-' {
                match stamp_parse(rest.skip(2)) {
                    Some((end, end_len)) => if end.active == start.active {
                        Some((Timestamp { start, end: Some(end) }, len + 2 + end_len))
                    } else {
                        single
                    },
                    None => single,
                }
            } else {
                single
            }
        },
    }
}

/// The spans `[start, end)` of the timestamps found scanning `s` from `i`, left to right.
pub open spec fn spans_from(s: Seq<char>, i: int) -> Seq<(int, int)>
    decreases s.len() - i,
{
    if i < 0 || i >= s.len() {
        seq![]
    } else if s[i] == '<' || s[i] == '[' {
        match timestamp_parse(s.skip(i)) {
            Some((_, len)) => if len > 0 && i + len <= s.len() {
                seq![(i, i + len)] + spans_from(s, i + len)
            } else {
                spans_from(s, i + 1)
            },
            None => spans_from(s, i + 1),
        }
    } else {
        spans_from(s, i + 1)
    }
}

/// A timestamp that parses spans at least one char and no more than the text.
pub proof fn lemma_parse_len(s: Seq<char>)
    ensures
        timestamp_parse(s) matches Some((_, l)) ==> 0 < l <= s.len(),
{
    if s.len() > 0 && (s[0] == '<' || s[0] == '[') {
        lemma_index_of(s, if s[0] == '<' { '>' } else { ']' }, 0);
        if let Some((_, len)) = stamp_parse(s) {
            let r = s.skip(len).skip(2);
            if r.len() > 0 && (r[0] == '<' || r[0] == '[') {
                lemma_index_of(r, if r[0] == '<' { '>' } else { ']' }, 0);
            }
        }
    }
}

/// A found span sits on an opening bracket and is exactly what parses there.
pub open spec fn span_parses(s: Seq<char>, sp: (int, int)) -> bool {
    &&& 0 <= sp.0 < sp.1 <= s.len()
    &&& (s[sp.0] == '<' || s[sp.0] == '[')
    &&& timestamp_parse(s.skip(sp.0)) matches Some((_, l)) && l == sp.1 - sp.0
}

/// Each timestamp found from `i` on starts at or after `i` and is what parses there.
#[verifier::spinoff_prover]
pub proof fn lemma_spans_parse(s: Seq<char>, i: int)
    requires
        0 <= i,
    ensures
        forall|k: int| 0 <= k < spans_from(s, i).len() ==> i <= (#[trigger] spans_from(s, i)[k]).0
            && span_parses(s, spans_from(s, i)[k]),
    decreases s.len() - i,
{
    if i < s.len() {
        lemma_spans_parse(s, i + 1);
        let sp = spans_from(s, i);
        if (s[i] == '<' || s[i] == '[') && timestamp_parse(s.skip(i)) is Some {
            lemma_parse_len(s.skip(i));
            let len = timestamp_parse(s.skip(i)).unwrap().1;
            lemma_spans_parse(s, i + len);
            let rest = spans_from(s, i + len);
            assert(sp == seq![(i, i + len)] + rest);
            assert forall|k: int| 0 <= k < sp.len() implies i <= (#[trigger] sp[k]).0 && span_parses(s, sp[k]) by {
                if k > 0 {
                    assert(sp[k] == rest[k - 1]);
                }
            }
        } else {
            assert(sp == spans_from(s, i + 1));
        }
    }
}

/// The timestamps found from `i` on run left to right without overlapping.
#[verifier::spinoff_prover]
pub proof fn lemma_spans_ordered(s: Seq<char>, i: int)
    requires
        0 <= i,
    ensures
        forall|k: int| 0 <= k < spans_from(s, i).len() - 1 ==> (#[trigger] spans_from(s, i)[k]).1 <= spans_from(s, i)[k + 1].0,
    decreases s.len() - i,
{
    if i < s.len() {
        lemma_spans_ordered(s, i + 1);
        let sp = spans_from(s, i);
        if (s[i] == '<' || s[i] == '[') && timestamp_parse(s.skip(i)) is Some {
            lemma_parse_len(s.skip(i));
            let len = timestamp_parse(s.skip(i)).unwrap().1;
            lemma_spans_ordered(s, i + len);
            lemma_spans_parse(s, i + len);
            let rest = spans_from(s, i + len);
            assert(sp == seq![(i, i + len)] + rest);
            assert forall|k: int| 0 <= k < sp.len() - 1 implies (#[trigger] sp[k]).1 <= sp[k + 1].0 by {
                if k > 0 {
                    assert(sp[k] == rest[k - 1]);
                }
                assert(sp[k + 1] == rest[k]);
            }
        } else {
            assert(sp == spans_from(s, i + 1));
        }
    }
}

/// No timestamp is missed: every place at or after `i` where one parses starts one of the
/// found spans or lies inside one.
#[verifier::spinoff_prover]
pub proof fn lemma_spans_complete(s: Seq<char>, i: int, p: int)
    requires
        0 <= i <= p < s.len(),
        s[p] == '<' || s[p] == '[',
        timestamp_parse(s.skip(p)) is Some,
    ensures
        exists|k: int| 0 <= k < spans_from(s, i).len() && (#[trigger] spans_from(s, i)[k]).0 <= p < spans_from(s, i)[k].1,
    decreases s.len() - i,
{
    let sp = spans_from(s, i);
    if (s[i] == '<' || s[i] == '[') && timestamp_parse(s.skip(i)) is Some {
        lemma_parse_len(s.skip(i));
        let len = timestamp_parse(s.skip(i)).unwrap().1;
        let rest = spans_from(s, i + len);
        assert(sp == seq![(i, i + len)] + rest);
        if p < i + len {
            assert(sp[0].0 <= p < sp[0].1);
        } else {
            lemma_spans_complete(s, i + len, p);
            let k = choose|k: int| 0 <= k < rest.len() && (#[trigger] rest[k]).0 <= p < rest[k].1;
            assert(sp[k + 1] == rest[k]);
        }
    } else {
        assert(sp == spans_from(s, i + 1));
        assert(i != p);
        lemma_spans_complete(s, i + 1, p);
    }
}

/// The whitespace-separated words of `s`.
pub fn split_words(s: &[char]) -> (r: Vec<Vec<char>>)
    ensures
        r@.len() == words(s@).len(),
        forall|k: int| 0 <= k < r@.len() ==> #[trigger] r@[k]@ == words(s@)[k],
{
    let mut r: Vec<Vec<char>> = Vec::new();
    let ghost mut ws: Seq<Seq<char>> = seq![];
    let mut cur: Vec<char> = Vec::new();
    let mut i: usize = 0;
    while i < s.len()
        invariant
            i <= s@.len(),
            ws.len() == r@.len(),
            forall|k: int| 0 <= k < r@.len() ==> #[trigger] r@[k]@ == ws[k],
            words(s@) == ws + words_acc(s@, i as int, cur@),
        decreases s@.len() - i,
    {
        if whitespace(s[i]) {
            if cur.len() > 0 {
                proof {
                    let old_ws = ws;
                    ws = ws.push(cur@);
                    assert(old_ws + (flush(cur@) + words_acc(s@, i + 1, seq![])) =~= ws
                        + words_acc(s@, i + 1, seq![]));
                }
                let w = cur;
                r.push(w);
                cur = Vec::new();
            } else {
                assert(cur@ =~= seq![]);
                assert(flush(cur@) + words_acc(s@, i + 1, seq![]) =~= words_acc(s@, i + 1, seq![]));
            }
            i = i + 1;
        } else {
            cur.push(s[i]);
            i = i + 1;
        }
    }
    if cur.len() > 0 {
        proof {
            ws = ws.push(cur@);
        }
        r.push(cur);
    } else {
        assert(ws + flush(cur@) =~= ws);
    }
    r
}

/// `split_once` on chars.
fn split_once_exec(s: &[char], sep: char) -> (r: Option<(Vec<char>, Vec<char>)>)
    ensures
        match r {
            Some((a, b)) => split_once(s@, sep) == Some((a@, b@)),
            None => split_once(s@, sep) is None,
        },
{
    let p = index_of(s, sep, 0);
    if p < s.len() {
        Some((slice_vec(s, 0, p), slice_vec(s, p + 1, s.len())))
    } else {
        None
    }
}

fn parse_u8_exec(s: &[char]) -> (r: Option<u8>)
    ensures
        match r {
            Some(v) => parse_u8(s@) == Some(v as nat),
            None => parse_u8(s@) is None,
        },
{
    match parse_unsigned_exec(s, 255) {
        Some(v) => Some(v as u8),
        None => None,
    }
}

fn parse_date(s: &[char]) -> (r: Option<Date>)
    ensures
        r == date_parse(s@),
{
    let (a, rest) = match split_once_exec(s, '-') {
        Some(p) => p,
        None => {
            return None;
        },
    };
    let (b, c) = match split_once_exec(&rest, '-') {
        Some(p) => p,
        None => {
            return None;
        },
    };
    let year = match parse_i32(&a) {
        Some(y) => y,
        None => {
            return None;
        },
    };
    let month = match parse_u8_exec(&b) {
        Some(m) => m,
        None => {
            return None;
        },
    };
    let day = match parse_u8_exec(&c) {
        Some(d) => d,
        None => {
            return None;
        },
    };
    if month < 1 || month > 12 {
        return None;
    }
    if day < 1 || day > days_in_month(year, month) {
        return None;
    }
    Some(Date { year, month, day })
}

fn parse_time(s: &[char]) -> (r: Option<Time>)
    ensures
        r == time_parse(s@),
{
    let (h, m) = match split_once_exec(s, ':') {
        Some(p) => p,
        None => {
            return None;
        },
    };
    let hour = match parse_u8_exec(&h) {
        Some(v) => v,
        None => {
            return None;
        },
    };
    let min = match parse_u8_exec(&m) {
        Some(v) => v,
        None => {
            return None;
        },
    };
    if hour > 23 || min > 59 {
        return None;
    }
    Some(Time { hour, min })
}

fn parse_time_field(s: &[char]) -> (r: Option<(Time, Option<Time>)>)
    ensures
        r == time_field_parse(s@),
{
    match split_once_exec(s, '-') {
        Some((a, b)) => {
            let t = match parse_time(&a) {
                Some(t) => t,
                None => {
                    return None;
                },
            };
            let e = match parse_time(&b) {
                Some(e) => e,
                None => {
                    return None;
                },
            };
            Some((t, Some(e)))
        },
        None => match parse_time(s) {
            Some(t) => Some((t, None)),
            None => None,
        },
    }
}

fn parse_unit(c: char) -> (r: Option<Unit>)
    ensures
        r == unit_of(c),
{
    match c {
        'h' => Some(Unit::Hour),
        'd' => Some(Unit::Day),
        'w' => Some(Unit::Week),
        'm' => Some(Unit::Month),
        'y' => Some(Unit::Year),
        _ => None,
    }
}

fn parse_count_unit(s: &[char]) -> (r: Option<(u32, Unit)>)
    ensures
        r == count_unit_parse(s@),
{
    let mut split: usize = 0;
    while split < s.len() && digit(s[split])
        invariant
            split <= s@.len(),
            skip_digits(s@, 0) == skip_digits(s@, split as int),
        decreases s@.len() - split,
    {
        split = split + 1;
    }
    if split >= s.len() || split == 0 || split != s.len() - 1 {
        return None;
    }
    let head = slice_vec(s, 0, split);
    assert(head@ =~= s@.take(split as int));
    let n = match parse_unsigned_exec(&head, 4294967295) {
        Some(n) => n,
        None => {
            return None;
        },
    };
    let unit = match parse_unit(s[split]) {
        Some(u) => u,
        None => {
            return None;
        },
    };
    Some((n as u32, unit))
}

fn parse_repeater(s: &[char]) -> (r: Option<Repeater>)
    ensures
        r == repeater_parse(s@),
{
    let (kind, skip) = if s.len() >= 2 && s[0] == '+' && s[1] == '+' {
        (RepeatKind::PlusPlus, 2)
    } else if s.len() >= 2 && s[0] == '.' && s[1] == '+' {
        (RepeatKind::DotPlus, 2)
    } else if s.len() >= 1 && s[0] == '+' {
        (RepeatKind::Plus, 1)
    } else {
        return None;
    };
    let rest = slice_vec(s, skip, s.len());
    assert(rest@ =~= s@.skip(skip as int));
    match parse_count_unit(&rest) {
        Some((n, unit)) => Some(Repeater { kind, n, unit }),
        None => None,
    }
}

fn parse_warning(s: &[char]) -> (r: Option<Warning>)
    ensures
        r == warning_parse(s@),
{
    if s.len() == 0 || s[0] != '-' {
        return None;
    }
    let (double, skip) = if s.len() >= 2 && s[1] == '-' {
        (true, 2)
    } else {
        (false, 1)
    };
    let rest = slice_vec(s, skip, s.len());
    assert(rest@ =~= s@.skip(skip as int));
    match parse_count_unit(&rest) {
        Some((n, unit)) => Some(Warning { double, n, unit }),
        None => None,
    }
}

fn is_all_alpha(s: &[char]) -> (r: bool)
    ensures
        r == all_alpha(s@),
{
    let mut i: usize = 0;
    while i < s.len()
        invariant
            i <= s@.len(),
            forall|k: int| 0 <= k < i ==> is_ascii_alpha(#[trigger] s@[k]),
        decreases s@.len() - i,
    {
        if !ascii_alpha(s[i]) {
            return false;
        }
        i = i + 1;
    }
    true
}

fn apply_token(st: Stamp, tok: &[char]) -> (r: Option<Stamp>)
    ensures
        r == token_step(st, tok@),
{
    if tok.len() == 0 {
        return None;
    }
    let first = tok[0];
    if digit(first) && contains_char(tok, ':') {
        match parse_time_field(tok) {
            Some((t, e)) => Some(Stamp { time: Some(t), time_end: e, ..st }),
            None => None,
        }
    } else if first == '+' || first == '.' {
        match parse_repeater(tok) {
            Some(r) => Some(Stamp { repeater: Some(r), ..st }),
            None => None,
        }
    } else if first == '-' {
        match parse_warning(tok) {
            Some(w) => Some(Stamp { warning: Some(w), ..st }),
            None => None,
        }
    } else if is_all_alpha(tok) {
        Some(st)
    } else {
        None
    }
}

/// Parse the content between the brackets: `date [dow] [time[-time]] [repeater] [warning]`.
fn parse_stamp_inner(inner: &[char], active: bool) -> (r: Option<Stamp>)
    ensures
        r == inner_parse(inner@, active),
{
    let parts = split_words(inner);
    if parts.len() == 0 {
        return None;
    }
    let date = match parse_date(&parts[0]) {
        Some(d) => d,
        None => {
            return None;
        },
    };
    let ghost toks = words(inner@);
    assert(toks[0] == parts@[0]@);
    let mut stamp = Stamp { active, date, time: None, time_end: None, repeater: None, warning: None };
    let mut i: usize = 1;
    while i < parts.len()
        invariant
            1 <= i <= parts@.len(),
            toks == words(inner@),
            toks.len() == parts@.len(),
            forall|k: int| 0 <= k < parts@.len() ==> #[trigger] parts@[k]@ == toks[k],
            apply_tokens(stamp, toks, i as int) == inner_parse(inner@, active),
        decreases parts@.len() - i,
    {
        assert(toks[i as int] == parts@[i as int]@);
        match apply_token(stamp, &parts[i]) {
            Some(next) => {
                stamp = next;
            },
            None => {
                return None;
            },
        }
        i = i + 1;
    }
    Some(stamp)
}

/// Parse a single `<…>`/`[…]` stamp at the start of `s`.
fn parse_stamp(s: &[char]) -> (r: Option<(Stamp, usize)>)
    ensures
        match r {
            Some((st, len)) => stamp_parse(s@) == Some((st, len as int)),
            None => stamp_parse(s@) is None,
        },
{
    if s.len() == 0 {
        return None;
    }
    let active = if s[0] == '<' {
        true
    } else if s[0] == '[' {
        false
    } else {
        return None;
    };
    let close = if active {
        '>'
    } else {
        ']'
    };
    let end = index_of(s, close, 0);
    if end >= s.len() {
        return None;
    }
    proof {
        lemma_index_of(s@, close, 0);
    }
    assert(end >= 1);
    let inner = slice_vec(s, 1, end);
    match parse_stamp_inner(&inner, active) {
        Some(st) => Some((st, end + 1)),
        None => None,
    }
}

/// The number of chars the stamp at the start of `s` spans, if one starts there.
pub fn parse_stamp_len(s: &[char]) -> (r: Option<usize>)
    ensures
        match r {
            Some(len) => stamp_parse(s@) matches Some((_, l)) && l == len && 0 < len <= s@.len(),
            None => stamp_parse(s@) is None,
        },
{
    match parse_stamp(s) {
        Some((_, len)) => {
            proof {
                lemma_index_of(s@, if s@[0] == '<' { '>' } else { ']' }, 0);
            }
            Some(len)
        },
        None => None,
    }
}

/// The timestamp at the start of `s`, with the number of chars it spans.
pub fn parse_timestamp_chars(s: &[char]) -> (r: Option<(Timestamp, usize)>)
    ensures
        match r {
            Some((ts, len)) => timestamp_parse(s@) == Some((ts, len as int)) && 0 < len <= s@.len(),
            None => timestamp_parse(s@) is None,
        },
{
    let (start, len) = match parse_stamp(s) {
        Some(p) => p,
        None => {
            return None;
        },
    };
    proof {
        lemma_index_of(s@, if s@[0] == '<' { '>' } else { ']' }, 0);
    }
    let single = Some((Timestamp { start, end: None }, len));
    if len < s.len() && s.len() - len >= 2 && s[len] == '-' && s[len + 1] == '-' {
        let rest = slice_vec(s, len + 2, s.len());
        assert(rest@ =~= s@.skip(len as int).skip(2));
        match parse_stamp(&rest) {
            Some((end, end_len)) => {
                proof {
                    lemma_index_of(rest@, if rest@[0] == '<' { '>' } else { ']' }, 0);
                }
                if end.active == start.active {
                    Some((Timestamp { start, end: Some(end) }, len + 2 + end_len))
                } else {
                    single
                }
            },
            None => single,
        }
    } else {
        single
    }
}

/// Parse one timestamp at the start of `s`, returning it and the length it spans (in
/// chars; the same as bytes for the ASCII text a timestamp is), or `None` if `s` does not
/// begin with a valid stamp.
pub fn parse_timestamp(s: &str) -> (r: Option<(Timestamp, usize)>)
    ensures
        match r {
            Some((ts, len)) => timestamp_parse(s@) == Some((ts, len as int)) && 0 < len <= s@.len(),
            None => timestamp_parse(s@) is None,
        },
{
    let v = chars_of(s);
    parse_timestamp_chars(&v)
}

/// The spans of every timestamp in `s`, left to right and non-overlapping.
#[verifier::spinoff_prover]
#[verifier::rlimit(40)]
pub fn find_timestamps_chars(s: &[char]) -> (r: Vec<(usize, usize)>)
    ensures
        r@.len() == spans_from(s@, 0).len(),
        forall|k: int|
            0 <= k < r@.len() ==> (#[trigger] r@[k]).0 == spans_from(s@, 0)[k].0 && r@[k].1
                == spans_from(s@, 0)[k].1,
{
    let mut out: Vec<(usize, usize)> = Vec::new();
    let ghost mut got: Seq<(int, int)> = seq![];
    let mut i: usize = 0;
    while i < s.len()
        invariant
            i <= s@.len(),
            got.len() == out@.len(),
            forall|k: int|
                0 <= k < out@.len() ==> (#[trigger] out@[k]).0 == got[k].0 && out@[k].1
                    == got[k].1,
            spans_from(s@, 0) == got + spans_from(s@, i as int),
        decreases s@.len() - i,
    {
        if s[i] == '<' || s[i] == '[' {
            let rest = slice_vec(s, i, s.len());
            assert(rest@ =~= s@.skip(i as int));
            match parse_timestamp_chars(&rest) {
                Some((_, len)) => {
                    out.push((i, i + len));
                    proof {
                        let old_got = got;
                        got = got.push((i as int, i + len));
                        assert(old_got + (seq![(i as int, i + len)] + spans_from(s@, i + len))
                            =~= got + spans_from(s@, i + len));
                    }
                    i = i + len;
                    continue;
                },
                None => {},
            }
        }
        i = i + 1;
    }
    assert(got + spans_from(s@, i as int) =~= got);
    out
}

/// Spans of every timestamp in `text`, left to right and non-overlapping, as char offsets
/// (byte offsets too when the text is ASCII).
pub fn find_timestamps(text: &str) -> (r: Vec<(usize, usize)>)
    ensures
        r@.len() == spans_from(text@, 0).len(),
        forall|k: int|
            0 <= k < r@.len() ==> (#[trigger] r@[k]).0 == spans_from(text@, 0)[k].0 && r@[k].1
                == spans_from(text@, 0)[k].1,
{
    let v = chars_of(text);
    find_timestamps_chars(&v)
}

// ---- the canonical text ------------------------------------------------------

/// The letter of a unit.
pub open spec fn unit_letter(u: Unit) -> char {
    match u {
        Unit::Hour => 'h',
        Unit::Day => 'd',
        Unit::Week => 'w',
        Unit::Month => 'm',
        Unit::Year => 'y',
    }
}

/// `HH:MM`.
pub open spec fn time_text(t: Time) -> Seq<char> {
    padded(t.hour as nat, 2) + seq![':'] + padded(t.min as nat, 2)
}

/// The mark of a repeater kind.
pub open spec fn repeat_mark(k: RepeatKind) -> Seq<char> {
    match k {
        RepeatKind::Plus => seq!['+'],
        RepeatKind::PlusPlus => seq!['+', '+'],
        RepeatKind::DotPlus => seq!['.', '+'],
    }
}

/// `yyyy-mm-dd` (the year zero-padded to four places, a sign counting toward the width).
pub open spec fn date_text(d: Date) -> Seq<char> {
    padded_signed(d.year as int, 4) + seq!['-'] + padded(d.month as nat, 2) + seq!['-'] + padded(
        d.day as nat,
        2,
    )
}

/// The time part of a stamp's text: ` HH:MM` and `-HH:MM` for an end time.
pub open spec fn time_part(s: Stamp) -> Seq<char> {
    match s.time {
        Some(t) => seq![' '] + time_text(t) + match s.time_end {
            Some(e) => seq!['-'] + time_text(e),
            None => seq![],
        },
        None => seq![],
    }
}

/// The repeater part of a stamp's text: ` +1w`.
pub open spec fn rep_part(s: Stamp) -> Seq<char> {
    match s.repeater {
        Some(r) => seq![' '] + repeat_mark(r.kind) + digits_of(r.n as nat) + seq![
            unit_letter(r.unit),
        ],
        None => seq![],
    }
}

/// The warning part of a stamp's text: ` -2d` or ` --2d`.
pub open spec fn warn_part(s: Stamp) -> Seq<char> {
    match s.warning {
        Some(w) => seq![' '] + (if w.double {
            seq!['-', '-']
        } else {
            seq!['-']
        }) + digits_of(w.n as nat) + seq![unit_letter(w.unit)],
        None => seq![],
    }
}

/// The opening and closing bracket of a stamp.
pub open spec fn brackets(active: bool) -> (char, char) {
    if active {
        ('<', '>')
    } else {
        ('[', ']')
    }
}

/// The canonical text of a stamp: brackets by kind, the date with its weekday recomputed,
/// then time (and end time), repeater and warning, space-separated.
pub open spec fn stamp_text(s: Stamp) -> Seq<char> {
    seq![brackets(s.active).0] + date_text(s.date) + seq![' '] + weekday_name(
        weekday_index(s.date),
    ) + time_part(s) + rep_part(s) + warn_part(s) + seq![brackets(s.active).1]
}

/// The canonical text of a timestamp: the start stamp, then `--` and the end stamp if any.
pub open spec fn timestamp_text(t: Timestamp) -> Seq<char> {
    match t.end {
        Some(e) => stamp_text(t.start) + seq!['-', '-'] + stamp_text(e),
        None => stamp_text(t.start),
    }
}

/// A stamp whose date can be printed (the weekday table needs a month 1–12).
pub open spec fn printable(s: Stamp) -> bool {
    1 <= s.date.month <= 12
}

/// A timestamp whose stamps can be printed.
pub open spec fn printable_ts(t: Timestamp) -> bool {
    printable(t.start) && match t.end {
        Some(e) => printable(e),
        None => true,
    }
}

proof fn lemma_apply_tokens_date(st: Stamp, toks: Seq<Seq<char>>, i: int)
    ensures
        apply_tokens(st, toks, i) matches Some(r) ==> r.date == st.date,
    decreases toks.len() - i,
{
    if 0 <= i < toks.len() {
        if let Some(st2) = token_step(st, toks[i]) {
            lemma_apply_tokens_date(st2, toks, i + 1);
        }
    }
}

proof fn lemma_stamp_printable(s: Seq<char>)
    ensures
        stamp_parse(s) matches Some((st, _)) ==> printable(st),
{
    if s.len() > 0 && (s[0] == '<' || s[0] == '[') {
        let active = s[0] == '<';
        let end = index_of_from(s, if active {
            '>'
        } else {
            ']'
        }, 0);
        if end < s.len() {
            let toks = words(s.subrange(1, end));
            if toks.len() > 0 {
                if let Some(date) = date_parse(toks[0]) {
                    lemma_apply_tokens_date(
                        Stamp { active, date, time: None, time_end: None, repeater: None, warning: None },
                        toks,
                        1,
                    );
                }
            }
        }
    }
}

/// Every timestamp that parses can be printed.
pub proof fn lemma_parsed_printable(s: Seq<char>)
    ensures
        timestamp_parse(s) matches Some((ts, _)) ==> printable_ts(ts),
{
    lemma_stamp_printable(s);
    if let Some((_, len)) = stamp_parse(s) {
        lemma_stamp_printable(s.skip(len).skip(2));
    }
}

fn push_str_chars(out: &mut Vec<char>, s: &str)
    ensures
        final(out)@ == old(out)@ + s@,
{
    let v = chars_of(s);
    crate::text::append_chars(out, &v);
}

impl Unit {
    /// The unit's letter.
    pub fn letter(&self) -> (c: char)
        ensures
            c == unit_letter(*self),
    {
        match self {
            Unit::Hour => 'h',
            Unit::Day => 'd',
            Unit::Week => 'w',
            Unit::Month => 'm',
            Unit::Year => 'y',
        }
    }

    /// The unit as text: its letter.
    pub fn to_string(&self) -> (r: String)
        ensures
            r@ == seq![unit_letter(*self)],
    {
        let v = vec![self.letter()];
        string_of(&v)
    }
}

impl Time {
    fn push_text(&self, out: &mut Vec<char>)
        ensures
            final(out)@ == old(out)@ + time_text(*self),
    {
        push_padded(out, self.hour as u64, 2);
        out.push(':');
        push_padded(out, self.min as u64, 2);
        assert(final(out)@ =~= old(out)@ + time_text(*self));
    }

    /// `HH:MM`, zero-padded.
    pub fn to_string(&self) -> (r: String)
        ensures
            r@ == time_text(*self),
    {
        let mut v: Vec<char> = Vec::new();
        self.push_text(&mut v);
        assert(v@ =~= time_text(*self));
        string_of(&v)
    }
}

impl Stamp {
    fn push_time_part(&self, out: &mut Vec<char>)
        ensures
            final(out)@ == old(out)@ + time_part(*self),
    {
        if let Some(t) = self.time {
            out.push(' ');
            t.push_text(out);
            if let Some(e) = self.time_end {
                out.push('-');
                e.push_text(out);
            }
        }
        assert(final(out)@ =~= old(out)@ + time_part(*self));
    }

    fn push_rep_part(&self, out: &mut Vec<char>)
        ensures
            final(out)@ == old(out)@ + rep_part(*self),
    {
        if let Some(r) = self.repeater {
            out.push(' ');
            match r.kind {
                RepeatKind::Plus => {
                    out.push('+');
                },
                RepeatKind::PlusPlus => {
                    out.push('+');
                    out.push('+');
                },
                RepeatKind::DotPlus => {
                    out.push('.');
                    out.push('+');
                },
            }
            push_digits(out, r.n as u64);
            out.push(r.unit.letter());
        }
        assert(final(out)@ =~= old(out)@ + rep_part(*self));
    }

    fn push_warn_part(&self, out: &mut Vec<char>)
        ensures
            final(out)@ == old(out)@ + warn_part(*self),
    {
        if let Some(w) = self.warning {
            out.push(' ');
            out.push('-');
            if w.double {
                out.push('-');
            }
            push_digits(out, w.n as u64);
            out.push(w.unit.letter());
        }
        assert(final(out)@ =~= old(out)@ + warn_part(*self));
    }

    fn push_date_part(&self, out: &mut Vec<char>)
        requires
            printable(*self),
        ensures
            final(out)@ == old(out)@ + seq![brackets(self.active).0] + date_text(self.date) + seq![
                ' ',
            ] + weekday_name(weekday_index(self.date)),
    {
        out.push(if self.active {
            '<'
        } else {
            '['
        });
        push_padded_signed(out, self.date.year as i64, 4);
        out.push('-');
        push_padded(out, self.date.month as u64, 2);
        out.push('-');
        push_padded(out, self.date.day as u64, 2);
        out.push(' ');
        push_str_chars(out, weekday(self.date));
        assert(final(out)@ =~= old(out)@ + seq![brackets(self.active).0] + date_text(self.date)
            + seq![' '] + weekday_name(weekday_index(self.date)));
    }

    /// Appends the canonical text of the stamp.
    #[verifier::spinoff_prover]
    #[verifier::rlimit(40)]
    pub fn push_text(&self, out: &mut Vec<char>)
        requires
            printable(*self),
        ensures
            final(out)@ == old(out)@ + stamp_text(*self),
    {
        let ghost p1 = seq![brackets(self.active).0] + date_text(self.date) + seq![' ']
            + weekday_name(weekday_index(self.date));
        let ghost tp = time_part(*self);
        let ghost rp = rep_part(*self);
        let ghost wp = warn_part(*self);
        let ghost o0 = out@;
        self.push_date_part(out);
        assert(out@ == o0 + p1);
        self.push_time_part(out);
        assert(out@ == o0 + p1 + tp);
        self.push_rep_part(out);
        assert(out@ == o0 + p1 + tp + rp);
        self.push_warn_part(out);
        assert(out@ == o0 + p1 + tp + rp + wp);
        out.push(if self.active {
            '>'
        } else {
            ']'
        });
        assert(stamp_text(*self) == p1 + tp + rp + wp + seq![brackets(self.active).1]);
        assert(out@ =~= o0 + (p1 + tp + rp + wp + seq![brackets(self.active).1]));
    }

    /// The canonical text: `<2024-01-15 Mon 09:30 +1w -2d>`, weekday recomputed.
    pub fn to_string(&self) -> (r: String)
        requires
            printable(*self),
        ensures
            r@ == stamp_text(*self),
    {
        let mut v: Vec<char> = Vec::new();
        self.push_text(&mut v);
        assert(v@ =~= stamp_text(*self));
        string_of(&v)
    }
}

impl Timestamp {
    /// The canonical text as chars.
    pub fn to_chars(&self) -> (r: Vec<char>)
        requires
            printable_ts(*self),
        ensures
            r@ == timestamp_text(*self),
    {
        let mut v: Vec<char> = Vec::new();
        self.start.push_text(&mut v);
        if let Some(end) = self.end {
            v.push('-');
            v.push('-');
            end.push_text(&mut v);
        }
        assert(v@ =~= timestamp_text(*self));
        v
    }

    /// The canonical text: the start stamp, then `--` and the end stamp for a range.
    pub fn to_string(&self) -> (r: String)
        requires
            printable_ts(*self),
        ensures
            r@ == timestamp_text(*self),
    {
        let v = self.to_chars();
        string_of(&v)
    }
}

// ---- which field a cursor sits in ---------------------------------------------

/// A char that ends a stamp's date: a space or either closing bracket.
pub open spec fn ends_date(c: char) -> bool {
    c == ' ' || c == '>' || c == ']'
}

/// The first index at or after `i` holding a date-ending char (or `s.len()`).
pub open spec fn date_end_from(s: Seq<char>, i: int) -> int
    decreases s.len() - i,
{
    if i < 0 || i >= s.len() {
        s.len() as int
    } else if ends_date(s[i]) {
        i
    } else {
        date_end_from(s, i + 1)
    }
}

/// Where a stamp's date ends: the first space or closing bracket after the opening one.
pub open spec fn date_end(s: Seq<char>) -> int {
    date_end_from(s, 1)
}

/// The field holding `rel` among the date's year, month and day, when the date has two
/// dashes.
pub open spec fn date_field(s: Seq<char>, rel: int) -> Option<Field> {
    let de = date_end(s);
    let date = s.subrange(1, de);
    let i1 = index_of_from(date, '-', 0);
    let i2 = index_of_from(date, '-', i1 + 1);
    if i1 < date.len() && i2 < date.len() {
        let m0 = i1 + 1;
        let d0 = i2 + 1;
        if 1 <= rel < 1 + m0 {
            Some(Field::Year)
        } else if 1 + m0 <= rel < 1 + d0 {
            Some(Field::Month)
        } else if 1 + d0 <= rel < de {
            Some(Field::Day)
        } else {
            None
        }
    } else {
        None
    }
}

/// The field of a token with a colon (a time or time range) holding `rel`, the token
/// starting at `o` and its piece ending at `pend`.
pub open spec fn time_token_field(tok: Seq<char>, rel: int, o: int, pend: int) -> Option<Field> {
    let rel_in = rel - o;
    let (a, b) = match split_once(tok, '-') {
        Some((a, b)) => (a, Some(b)),
        None => (tok, None),
    };
    if rel_in <= a.len() {
        let colon = index_of_from(a, ':', 0);
        Some(
            if rel_in <= colon {
                Field::Hour
            } else {
                Field::Minute
            },
        )
    } else {
        match b {
            Some(e) => {
                let end_start = a.len() + 1;
                let c = index_of_from(e, ':', 0);
                let colon = if c < e.len() {
                    c + end_start
                } else {
                    pend
                };
                Some(
                    if rel_in <= colon {
                        Field::EndHour
                    } else {
                        Field::EndMinute
                    },
                )
            },
            None => None,
        }
    }
}

/// What the token `tok` (at `o`, its piece ending at `pend`) says of `rel`: `None` to go on
/// to the next token.
pub open spec fn token_field(tok: Seq<char>, rel: int, o: int, pend: int) -> Option<Field> {
    if all_alpha(tok) {
        Some(Field::Day)
    } else {
        let tf = if has_char(tok, ':') {
            time_token_field(tok, rel, o, pend)
        } else {
            None
        };
        if tf is Some {
            tf
        } else if tok[0] == '+' || tok[0] == '.' {
            Some(Field::RepeaterN)
        } else if tok[0] == '-' {
            Some(Field::WarningN)
        } else {
            None
        }
    }
}

/// The field under `rel` among the space-separated tokens of `s[o..stop]`.
pub open spec fn tokens_field(s: Seq<char>, o: int, stop: int, rel: int) -> Option<Field>
    decreases stop - o,
{
    if o < 0 || o >= stop || stop > s.len() {
        None
    } else {
        proof {
            lemma_index_of(s.take(stop), ' ', o);
        }
        let e = index_of_from(s.take(stop), ' ', o);
        let pend = if e < stop {
            e + 1
        } else {
            stop
        };
        let tok = s.subrange(o, e);
        if tok.len() == 0 || !(o <= rel < pend) {
            tokens_field(s, pend, stop, rel)
        } else {
            match token_field(tok, rel, o, pend) {
                Some(f) => Some(f),
                None => tokens_field(s, pend, stop, rel),
            }
        }
    }
}

/// Which field the char offset `rel` (into the whole `<…>`/`[…]` text `s`) sits in.
pub open spec fn field_of(s: Seq<char>, rel: int) -> Option<Field> {
    if rel < 0 || rel >= s.len() {
        None
    } else {
        match date_field(s, rel) {
            Some(f) => Some(f),
            None => tokens_field(s, date_end(s), s.len() - 1, rel),
        }
    }
}

/// The tokens hold no field outside `[o, stop)`.
proof fn lemma_tokens_outside(s: Seq<char>, o: int, stop: int, rel: int)
    requires
        rel < o || rel >= stop,
    ensures
        tokens_field(s, o, stop, rel) is None,
    decreases stop - o,
{
    if 0 <= o < stop <= s.len() {
        lemma_index_of(s.take(stop), ' ', o);
        let e = index_of_from(s.take(stop), ' ', o);
        let pend = if e < stop {
            e + 1
        } else {
            stop
        };
        lemma_tokens_outside(s, pend, stop, rel);
    }
}

/// A date ends at the latest on a closing bracket that ends the text.
proof fn lemma_date_end_before(s: Seq<char>, i: int)
    requires
        0 <= i <= s.len() - 1,
        ends_date(s[s.len() - 1]),
    ensures
        i <= date_end_from(s, i) <= s.len() - 1,
    decreases s.len() - i,
{
    if !ends_date(s[i]) {
        lemma_date_end_before(s, i + 1);
    }
}

/// No field sits on a stamp's brackets or past its end: at offset 0, at the closing bracket
/// that ends the text, and from its length on, [`field_of`] finds none.
pub proof fn lemma_no_field_at_edges(s: Seq<char>, rel: int)
    requires
        s.len() >= 1,
        s[s.len() - 1] == '>' || s[s.len() - 1] == ']',
        rel <= 0 || rel == s.len() - 1 || rel >= s.len(),
    ensures
        field_of(s, rel) is None,
{
    if 0 <= rel < s.len() {
        let de = date_end(s);
        if s.len() >= 2 {
            lemma_date_end_before(s, 1);
        }
        assert(1 <= de <= s.len() - 1 || s.len() == 1);
        let date = s.subrange(1, de);
        lemma_index_of(date, '-', 0);
        let i1 = index_of_from(date, '-', 0);
        if i1 < date.len() {
            lemma_index_of(date, '-', i1 + 1);
        }
        assert(date_field(s, rel) is None);
        lemma_tokens_outside(s, de, s.len() - 1, rel);
    }
}

/// The inputs `field_at` reads without running past its text: ASCII, and when `rel` lies
/// beyond the date fields, a date that ends before the last char.
pub open spec fn field_at_ok(s: Seq<char>, rel: int) -> bool {
    &&& all_ascii(s)
    &&& (0 <= rel < s.len() && date_field(s, rel) is None) ==> date_end(s) <= s.len() - 1
}

fn date_end_exec(s: &[char]) -> (r: usize)
    requires
        s@.len() >= 1,
    ensures
        r as int == date_end(s@),
        1 <= r <= s@.len(),
{
    let mut i: usize = 1;
    while i < s.len() && !(s[i] == ' ' || s[i] == '>' || s[i] == ']')
        invariant
            1 <= i <= s@.len(),
            date_end_from(s@, 1) == date_end_from(s@, i as int),
        decreases s@.len() - i,
    {
        i = i + 1;
    }
    i
}

fn time_token_field_exec(tok: &[char], rel: usize, o: usize, pend: usize) -> (r: Option<Field>)
    requires
        o <= rel,
    ensures
        r == time_token_field(tok@, rel as int, o as int, pend as int),
{
    let rel_in = rel - o;
    proof {
        lemma_index_of(tok@, '-', 0);
    }
    let (a, b) = match split_once_exec(tok, '-') {
        Some((a, b)) => (a, Some(b)),
        None => (slice_vec(tok, 0, tok.len()), None),
    };
    assert(match split_once(tok@, '-') {
        Some((x, y)) => a@ == x && b.is_some() && b.unwrap()@ == y,
        None => a@ == tok@ && b.is_none(),
    });
    if rel_in <= a.len() {
        let colon = index_of(&a, ':', 0);
        Some(
            if rel_in <= colon {
                Field::Hour
            } else {
                Field::Minute
            },
        )
    } else {
        match b {
            Some(e) => {
                assert(a@.len() + 1 + e@.len() == tok@.len());
                let end_start = a.len() + 1;
                let c = index_of(&e, ':', 0);
                let tl = tok.len();
                assert(c + end_start <= tl);
                let colon: usize = if c < e.len() {
                    c + end_start
                } else {
                    pend
                };
                Some(
                    if rel_in <= colon {
                        Field::EndHour
                    } else {
                        Field::EndMinute
                    },
                )
            },
            None => None,
        }
    }
}

fn token_field_exec(tok: &[char], rel: usize, o: usize, pend: usize) -> (r: Option<Field>)
    requires
        tok@.len() > 0,
        o <= rel,
    ensures
        r == token_field(tok@, rel as int, o as int, pend as int),
{
    if is_all_alpha(tok) {
        return Some(Field::Day);
    }
    let tf = if contains_char(tok, ':') {
        time_token_field_exec(tok, rel, o, pend)
    } else {
        None
    };
    if tf.is_some() {
        tf
    } else if tok[0] == '+' || tok[0] == '.' {
        Some(Field::RepeaterN)
    } else if tok[0] == '-' {
        Some(Field::WarningN)
    } else {
        None
    }
}

fn date_field_exec(s: &[char], rel: usize, de: usize) -> (r: Option<Field>)
    requires
        1 <= de <= s@.len(),
        de as int == date_end(s@),
    ensures
        r == date_field(s@, rel as int),
{
    let date = slice_vec(s, 1, de);
    let i1 = index_of(&date, '-', 0);
    if i1 >= date.len() {
        return None;
    }
    let i2 = index_of(&date, '-', i1 + 1);
    if i2 >= date.len() {
        return None;
    }
    let m0 = i1 + 1;
    let d0 = i2 + 1;
    if 1 <= rel && rel < 1 + m0 {
        Some(Field::Year)
    } else if 1 + m0 <= rel && rel < 1 + d0 {
        Some(Field::Month)
    } else if 1 + d0 <= rel && rel < de {
        Some(Field::Day)
    } else {
        None
    }
}

/// Which field the char offset `rel` (into the whole `<…>`/`[…]` text) sits in, if any.
/// Timestamps are ASCII, so char offsets equal byte offsets.
pub fn field_at(tsraw: &str, rel: usize) -> (r: Option<Field>)
    requires
        field_at_ok(tsraw@, rel as int),
    ensures
        r == field_of(tsraw@, rel as int),
{
    let s = chars_of(tsraw);
    field_at_chars(&s, rel)
}

/// Whether `rel` falls on one of the date's fields.
pub fn date_field_is_some(s: &[char], rel: usize) -> (r: bool)
    requires
        s@.len() >= 1,
    ensures
        r == (date_field(s@, rel as int) is Some),
{
    let de = date_end_exec(s);
    date_field_exec(s, rel, de).is_some()
}

/// Whether the date ends before the last char.
pub fn date_end_before_last(s: &[char]) -> (r: bool)
    requires
        s@.len() >= 1,
    ensures
        r == (date_end(s@) <= s@.len() - 1),
{
    let de = date_end_exec(s);
    de <= s.len() - 1
}

/// `field_at` on chars.
pub fn field_at_chars(s: &[char], rel: usize) -> (r: Option<Field>)
    requires
        field_at_ok(s@, rel as int),
    ensures
        r == field_of(s@, rel as int),
{
    if rel >= s.len() {
        return None;
    }
    let de = date_end_exec(s);
    match date_field_exec(s, rel, de) {
        Some(f) => {
            return Some(f);
        },
        None => {},
    }
    let stop = s.len() - 1;
    let head = slice_vec(s, 0, stop);
    assert(head@ =~= s@.take(stop as int));
    let mut o = de;
    while o < stop
        invariant
            de <= o,
            de as int == date_end(s@),
            date_field(s@, rel as int) is None,
            stop == s@.len() - 1,
            head@ == s@.take(stop as int),
            rel < s@.len(),
            tokens_field(s@, de as int, stop as int, rel as int) == tokens_field(
                s@,
                o as int,
                stop as int,
                rel as int,
            ),
        decreases stop - o,
    {
        let e = index_of(&head, ' ', o);
        proof {
            lemma_index_of(head@, ' ', o as int);
        }
        let pend = if e < stop {
            e + 1
        } else {
            stop
        };
        let tok = slice_vec(s, o, e);
        if tok.len() == 0 || !(o <= rel && rel < pend) {
            o = pend;
            continue;
        }
        let tf = token_field_exec(&tok, rel, o, pend);
        assert(tokens_field(s@, o as int, stop as int, rel as int) == match token_field(
            tok@,
            rel as int,
            o as int,
            pend as int,
        ) {
            Some(f) => Some(f),
            None => tokens_field(s@, pend as int, stop as int, rel as int),
        });
        match tf {
            Some(f) => {
                return Some(f);
            },
            None => {},
        }
        o = pend;
    }
    None
}

} // verus!
