//! Wall-clock dates at one-minute resolution.
//!
//! An instant is a calendar date with an hour and a minute; a `Dates` value
//! is either one instant or a pair of instants. The text form is
//! `day/month/year hour:minute` (two-digit day, month, hour and minute and a
//! four-digit year when formatting; one or two digits, and one to four year
//! digits, when parsing), and `"<start> - <end>"` for a pair.

use crate::text::{
    all_digits, digit_of, digits_val, find_char, find_from, is_digit, is_space,
    lemma_digits_val_bounds,
    lemma_digits_val_push, lemma_find_char, lemma_padded_digits, padded, padded_chars, pow10,
    string_of_chars, trim_from, trim_left, trim_right, trimmed,
};
use vstd::prelude::*;

verus! {

/// One instant: a proleptic Gregorian calendar date with hour and minute.
#[derive(Clone, Copy, PartialEq, Eq, Debug, Structural)]
pub struct DateTime {
    pub year: u16,
    pub month: u8,
    pub day: u8,
    pub hour: u8,
    pub minute: u8,
}

/// One point in time, or a timespan.
#[derive(Clone, Copy, PartialEq, Eq, Debug)]
pub struct Dates {
    pub start: DateTime,
    pub end: Option<DateTime>,
}

pub open spec fn is_leap(y: int) -> bool {
    (y % 4 == 0 && y % 100 != 0) || y % 400 == 0
}

pub open spec fn days_in_month(y: int, m: int) -> int {
    if m == 1 || m == 3 || m == 5 || m == 7 || m == 8 || m == 10 || m == 12 {
        31
    } else if m == 4 || m == 6 || m == 9 || m == 11 {
        30
    } else if is_leap(y) {
        29
    } else {
        28
    }
}

impl DateTime {
    /// A real calendar date in years 0 through 9999, at a real time of day.
    pub open spec fn wf(self) -> bool {
        &&& self.year <= 9999
        &&& 1 <= self.month <= 12
        &&& 1 <= self.day <= days_in_month(self.year as int, self.month as int)
        &&& self.hour <= 23
        &&& self.minute <= 59
    }
}

impl Dates {
    pub open spec fn wf(self) -> bool {
        self.start.wf() && match self.end {
            Some(e) => e.wf(),
            None => true,
        }
    }
}

/// Days from the epoch (1 January 1970) to the given calendar day,
/// by the standard civil-calendar formula over 400-year eras.
pub open spec fn days_from_civil(y: int, m: int, d: int) -> int {
    let ys = if m <= 2 {
        y + 399
    } else {
        y + 400
    };
    let era = ys / 400;
    let yoe = ys % 400;
    let mp = if m > 2 {
        m - 3
    } else {
        m + 9
    };
    let doy = (153 * mp + 2) / 5 + d - 1;
    let doe = yoe * 365 + yoe / 4 - yoe / 100 + doy;
    era * 146097 + doe - 865565
}

/// Seconds from the epoch to the instant (minute resolution).
pub open spec fn stamp_of(dt: DateTime) -> int {
    days_from_civil(dt.year as int, dt.month as int, dt.day as int) * 86400 + dt.hour as int * 3600
        + dt.minute as int * 60
}

/// Every instant's stamp lies in this range, whatever its fields hold.
pub const STAMP_LO: i64 = -75_000_000_000;

pub const STAMP_HI: i64 = 2_010_000_000_000;

pub proof fn lemma_stamp_bounds(dt: DateTime)
    ensures
        STAMP_LO <= stamp_of(dt) <= STAMP_HI,
{
    let y = dt.year as int;
    let m = dt.month as int;
    let d = dt.day as int;
    let ys = if m <= 2 {
        y + 399
    } else {
        y + 400
    };
    assert(399 <= ys <= 65935);
    let era = ys / 400;
    let yoe = ys % 400;
    assert(0 <= era <= 164);
    assert(0 <= yoe <= 399);
    let mp = if m > 2 {
        m - 3
    } else {
        m + 9
    };
    assert(0 <= mp <= 252);
    let doy = (153 * mp + 2) / 5 + d - 1;
    assert(-1 <= doy <= 7966);
    let doe = yoe * 365 + yoe / 4 - yoe / 100 + doy;
    assert(yoe * 365 <= 145635) by (nonlinear_arith)
        requires
            0 <= yoe <= 399,
    ;
    assert(-5 <= doe <= 153700);
    let days = era * 146097 + doe - 865565;
    assert(era * 146097 <= 23959908) by (nonlinear_arith)
        requires
            0 <= era <= 164,
    ;
    assert(-865570 <= days <= 23248043);
    assert(days * 86400 >= -865570 * 86400) by (nonlinear_arith)
        requires
            days >= -865570,
    ;
    assert(days * 86400 <= 23248043 * 86400) by (nonlinear_arith)
        requires
            days <= 23248043,
    ;
}

/// The stamps of well-formed instants: the first minute of year 0 and the
/// last minute of year 9999. A stamp `t` names a representable minute
/// exactly when `CIVIL_STAMP_LO <= t <= CIVIL_STAMP_HI + 59`.
pub const CIVIL_STAMP_LO: i64 = -62_167_219_200;

pub const CIVIL_STAMP_HI: i64 = 253_402_300_740;

pub proof fn lemma_wf_stamp_bounds(dt: DateTime)
    requires
        dt.wf(),
    ensures
        CIVIL_STAMP_LO <= stamp_of(dt) <= CIVIL_STAMP_HI,
{
    let y = dt.year as int;
    let m = dt.month as int;
    let d = dt.day as int;
    assert(1 <= d <= 31);
    let ys = if m <= 2 {
        y + 399
    } else {
        y + 400
    };
    assert(399 <= ys <= 10399);
    let era = ys / 400;
    let yoe = ys % 400;
    assert(0 <= era <= 25);
    assert(0 <= yoe <= 399);
    let mp = if m > 2 {
        m - 3
    } else {
        m + 9
    };
    assert(0 <= mp <= 11);
    let doy = (153 * mp + 2) / 5 + d - 1;
    assert(153 * mp + 2 <= 1685);
    assert(0 <= doy <= 367);
    let doe = yoe * 365 + yoe / 4 - yoe / 100 + doy;
    let days = era * 146097 + doe - 865565;
    if era == 25 && yoe == 399 {
        assert(ys == 10399) by {
            vstd::arithmetic::div_mod::lemma_fundamental_div_mod(ys, 400);
        }
        assert(m > 2);
        assert(mp <= 9);
        assert(153 * mp + 2 <= 1379);
        assert(doy <= 305);
        assert(doe <= 399 * 365 + 99 - 3 + 305);
        assert(days <= 2932896);
    } else if era == 25 {
        assert(yoe <= 398);
        assert(yoe * 365 <= 398 * 365) by (nonlinear_arith)
            requires
                0 <= yoe <= 398,
        ;
        assert(doe <= 398 * 365 + 99 + 367);
        assert(days <= 2932594);
    } else {
        assert(era <= 24);
        assert(yoe * 365 <= 399 * 365) by (nonlinear_arith)
            requires
                0 <= yoe <= 399,
        ;
        assert(doe <= 399 * 365 + 99 + 367);
        assert(era * 146097 <= 24 * 146097) by (nonlinear_arith)
            requires
                0 <= era <= 24,
        ;
        assert(days <= 2786864);
    }
    assert(days <= 2932896);
    if era == 0 {
        assert(ys == 399) by {
            vstd::arithmetic::div_mod::lemma_fundamental_div_mod(ys, 400);
        }
        assert(yoe == 399);
        assert(m <= 2);
        assert(mp >= 10);
        assert(153 * mp + 2 >= 1532);
        assert(doy >= 306);
        assert(doe >= 399 * 365 + 99 - 3 + 306);
        assert(days >= -719528);
    } else {
        assert(era >= 1);
        assert(yoe * 365 >= yoe) by (nonlinear_arith)
            requires
                yoe >= 0,
        ;
        assert(yoe / 100 <= yoe);
        assert(doe >= 0);
        assert(era * 146097 >= 146097) by (nonlinear_arith)
            requires
                era >= 1,
        ;
        assert(days >= -719468);
    }
    assert(days >= -719528);
    assert(days * 86400 >= -719528 * 86400) by (nonlinear_arith)
        requires
            days >= -719528,
    ;
    assert(days * 86400 <= 2932896 * 86400) by (nonlinear_arith)
        requires
            days <= 2932896,
    ;
}

impl DateTime {
    /// Seconds from the epoch, faithful to `stamp_of`.
    pub fn stamp(&self) -> (r: i64)
        ensures
            r == stamp_of(*self),
    {
        let y: i64 = self.year as i64;
        let m: i64 = self.month as i64;
        let d: i64 = self.day as i64;
        let ys: u64 = if m <= 2 {
            (y + 399) as u64
        } else {
            (y + 400) as u64
        };
        let era: u64 = ys / 400;
        let yoe: u64 = ys % 400;
        let mp: u64 = if m > 2 {
            (m - 3) as u64
        } else {
            (m + 9) as u64
        };
        let doy: i64 = ((153 * mp + 2) / 5) as i64 + d - 1;
        let doe: i64 = (yoe * 365 + yoe / 4) as i64 - (yoe / 100) as i64 + doy;
        let days: i64 = (era * 146097) as i64 + doe - 865565;
        days * 86400 + (self.hour as i64) * 3600 + (self.minute as i64) * 60
    }
}

/// How far the run of digit characters starting at `i` reaches.
pub open spec fn digit_end(s: Seq<char>, i: int) -> int
    decreases s.len() - i when 0 <= i <= s.len()
{
    if i < s.len() && is_digit(s[i]) {
        digit_end(s, i + 1)
    } else {
        i
    }
}

pub proof fn lemma_digit_end_is(s: Seq<char>, i: int, j: int)
    requires
        0 <= i <= j <= s.len(),
        forall|k: int| i <= k < j ==> is_digit(#[trigger] s[k]),
        j < s.len() ==> !is_digit(s[j]),
    ensures
        digit_end(s, i) == j,
    decreases j - i,
{
    if i < j {
        assert(is_digit(s[i]));
        lemma_digit_end_is(s, i + 1, j);
    }
}

/// The instant grammar: one- or two-digit day, `/`, one- or two-digit month,
/// `/`, one- to four-digit year, one space, one- or two-digit hour, `:`,
/// one- or two-digit minute, and nothing more; the calendar fields must name
/// a real date and time.
pub open spec fn instant_of_text(s: Seq<char>) -> Option<DateTime> {
    let e1 = digit_end(s, 0);
    let e2 = digit_end(s, e1 + 1);
    let e3 = digit_end(s, e2 + 1);
    let e4 = digit_end(s, e3 + 1);
    let e5 = digit_end(s, e4 + 1);
    if 1 <= e1 <= 2 && e1 < s.len() && s[e1] == '/' && 1 <= e2 - (e1 + 1) <= 2 && e2 < s.len()
        && s[e2] == '/' && 1 <= e3 - (e2 + 1) <= 4 && e3 < s.len() && s[e3] == ' ' && 1 <= e4 - (e3
        + 1) <= 2 && e4 < s.len() && s[e4] == ':' && 1 <= e5 - (e4 + 1) <= 2 && e5 == s.len() {
        let day = digits_val(s.subrange(0, e1));
        let month = digits_val(s.subrange(e1 + 1, e2));
        let year = digits_val(s.subrange(e2 + 1, e3));
        let hour = digits_val(s.subrange(e3 + 1, e4));
        let minute = digits_val(s.subrange(e4 + 1, e5));
        let dt = DateTime {
            year: year as u16,
            month: month as u8,
            day: day as u8,
            hour: hour as u8,
            minute: minute as u8,
        };
        if 1 <= month <= 12 && 1 <= day <= days_in_month(year, month) && hour <= 23 && minute
            <= 59 {
            Some(dt)
        } else {
            None
        }
    } else {
        None
    }
}

/// The `Dates` grammar: with a `-` anywhere, the halves around the first one
/// are trimmed and each must be an instant; otherwise the whole text must be
/// one instant.
pub open spec fn dates_of_text(s: Seq<char>) -> Option<Dates> {
    let d = find_char(s, '-');
    if d < s.len() {
        let a = instant_of_text(trimmed(s.take(d)));
        let b = instant_of_text(trimmed(s.subrange(d + 1, s.len() as int)));
        if a is Some && b is Some {
            Some(Dates { start: a->0, end: Some(b->0) })
        } else {
            None
        }
    } else {
        match instant_of_text(s) {
            Some(dt) => Some(Dates { start: dt, end: None }),
            None => None,
        }
    }
}

/// Canonical text of an instant: `dd/mm/yyyy hh:mm`.
pub open spec fn instant_text(dt: DateTime) -> Seq<char> {
    padded(dt.day as int, 2) + seq!['/'] + padded(dt.month as int, 2) + seq!['/'] + padded(
        dt.year as int,
        4,
    ) + seq![' '] + padded(dt.hour as int, 2) + seq![':'] + padded(dt.minute as int, 2)
}

/// Canonical text of a `Dates` value.
pub open spec fn dates_text(d: Dates) -> Seq<char> {
    match d.end {
        Some(e) => instant_text(d.start) + seq![' ', '-', ' '] + instant_text(e),
        None => instant_text(d.start),
    }
}

/// Shape of an instant's canonical text: sixteen characters, digits in the
/// five number fields, separators between them, and no `-` anywhere.
proof fn lemma_instant_text_shape(dt: DateTime)
    requires
        dt.wf(),
    ensures
        instant_text(dt).len() == 16,
        instant_text(dt).subrange(0, 2) == padded(dt.day as int, 2),
        instant_text(dt)[2] == '/',
        instant_text(dt).subrange(3, 5) == padded(dt.month as int, 2),
        instant_text(dt)[5] == '/',
        instant_text(dt).subrange(6, 10) == padded(dt.year as int, 4),
        instant_text(dt)[10] == ' ',
        instant_text(dt).subrange(11, 13) == padded(dt.hour as int, 2),
        instant_text(dt)[13] == ':',
        instant_text(dt).subrange(14, 16) == padded(dt.minute as int, 2),
        forall|i: int| 0 <= i < 16 ==> instant_text(dt)[i] != '-',
        is_digit(instant_text(dt)[0]),
        is_digit(instant_text(dt)[15]),
{
    let s = instant_text(dt);
    lemma_padded_digits(dt.day as int, 2);
    lemma_padded_digits(dt.month as int, 2);
    lemma_padded_digits(dt.year as int, 4);
    lemma_padded_digits(dt.hour as int, 2);
    lemma_padded_digits(dt.minute as int, 2);
    assert(s.subrange(0, 2) =~= padded(dt.day as int, 2));
    assert(s.subrange(3, 5) =~= padded(dt.month as int, 2));
    assert(s.subrange(6, 10) =~= padded(dt.year as int, 4));
    assert(s.subrange(11, 13) =~= padded(dt.hour as int, 2));
    assert(s.subrange(14, 16) =~= padded(dt.minute as int, 2));
    assert forall|i: int| 0 <= i < 16 implies s[i] != '-' by {
        if 0 <= i < 2 {
            assert(s[i] == s.subrange(0, 2)[i]);
            assert(is_digit(s[i]));
        } else if 3 <= i < 5 {
            assert(s[i] == s.subrange(3, 5)[i - 3]);
            assert(is_digit(s[i]));
        } else if 6 <= i < 10 {
            assert(s[i] == s.subrange(6, 10)[i - 6]);
            assert(is_digit(s[i]));
        } else if 11 <= i < 13 {
            assert(s[i] == s.subrange(11, 13)[i - 11]);
            assert(is_digit(s[i]));
        } else if 14 <= i < 16 {
            assert(s[i] == s.subrange(14, 16)[i - 14]);
            assert(is_digit(s[i]));
        }
    }
    assert(s[0] == s.subrange(0, 2)[0]);
    assert(s[15] == s.subrange(14, 16)[1]);
}

/// Parsing the canonical text of a well-formed instant yields it back.
proof fn lemma_instant_round_trip(dt: DateTime)
    requires
        dt.wf(),
    ensures
        instant_of_text(instant_text(dt)) == Some(dt),
{
    let s = instant_text(dt);
    lemma_instant_text_shape(dt);
    lemma_padded_digits(dt.day as int, 2);
    lemma_padded_digits(dt.month as int, 2);
    lemma_padded_digits(dt.year as int, 4);
    lemma_padded_digits(dt.hour as int, 2);
    lemma_padded_digits(dt.minute as int, 2);
    assert forall|k: int| 0 <= k < 2 implies is_digit(#[trigger] s[k]) by {
        assert(s[k] == s.subrange(0, 2)[k]);
    }
    assert forall|k: int| 3 <= k < 5 implies is_digit(#[trigger] s[k]) by {
        assert(s[k] == s.subrange(3, 5)[k - 3]);
    }
    assert forall|k: int| 6 <= k < 10 implies is_digit(#[trigger] s[k]) by {
        assert(s[k] == s.subrange(6, 10)[k - 6]);
    }
    assert forall|k: int| 11 <= k < 13 implies is_digit(#[trigger] s[k]) by {
        assert(s[k] == s.subrange(11, 13)[k - 11]);
    }
    assert forall|k: int| 14 <= k < 16 implies is_digit(#[trigger] s[k]) by {
        assert(s[k] == s.subrange(14, 16)[k - 14]);
    }
    lemma_digit_end_is(s, 0, 2);
    lemma_digit_end_is(s, 3, 5);
    lemma_digit_end_is(s, 6, 10);
    lemma_digit_end_is(s, 11, 13);
    lemma_digit_end_is(s, 14, 16);
    assert(pow10(2) == 100 && pow10(4) == 10000) by {
        reveal_with_fuel(pow10, 5);
    }
    assert(digits_val(s.subrange(0, 2)) == dt.day);
    assert(digits_val(s.subrange(3, 5)) == dt.month);
    assert(digits_val(s.subrange(6, 10)) == dt.year);
    assert(digits_val(s.subrange(11, 13)) == dt.hour);
    assert(digits_val(s.subrange(14, 16)) == dt.minute);
}

/// The dates round trip: parsing the canonical text of any well-formed
/// `Dates` value yields the value back, for a single instant and for a
/// span alike.
#[verifier::rlimit(100)]
pub proof fn lemma_dates_round_trip(d: Dates)
    requires
        d.wf(),
    ensures
        dates_of_text(dates_text(d)) == Some(d),
{
    let s = dates_text(d);
    let a = instant_text(d.start);
    lemma_instant_text_shape(d.start);
    lemma_instant_round_trip(d.start);
    lemma_find_char(s, '-');
    match d.end {
        None => {
            assert(s == a);
            if find_char(s, '-') < s.len() {
                assert(s[find_char(s, '-')] == '-');
            }
            assert(find_char(s, '-') == s.len());
        },
        Some(e) => {
            let b = instant_text(e);
            lemma_instant_text_shape(e);
            lemma_instant_round_trip(e);
            assert(s.len() == 35);
            assert forall|i: int| 0 <= i < 16 implies s[i] == a[i] by {}
            assert(s[16] == ' ' && s[17] == '-' && s[18] == ' ');
            if find_char(s, '-') < 17 {
                assert(s[find_char(s, '-')] == '-');
                if find_char(s, '-') < 16 {
                    assert(a[find_char(s, '-')] != '-');
                }
                assert(false);
            }
            assert(find_char(s, '-') == 17);
            let left = s.take(17);
            assert(left =~= a + seq![' ']);
            assert(!is_space(a[0]));
            assert(left[0] == a[0]);
            assert(trim_left(left) == left);
            assert(is_space(left.last()));
            assert(left.drop_last() =~= a);
            assert(!is_space(a.last()));
            assert(trim_right(left) == trim_right(a));
            assert(trim_right(a) == a);
            assert(trimmed(left) == a);
            let right = s.subrange(18, 35);
            assert(right =~= seq![' '] + b);
            assert(is_space(right[0]));
            assert(right.drop_first() =~= b);
            assert(!is_space(b[0]));
            assert(trim_left(right) == trim_left(b));
            assert(trim_left(b) == b);
            assert(!is_space(b.last()));
            assert(trim_right(b) == b);
            assert(trimmed(right) == b);
        },
    }
}

/// End of the run of digits that starts at `lo`, within `lo .. hi`.
fn scan_digit_run(v: &Vec<char>, lo: usize, hi: usize) -> (r: usize)
    requires
        lo <= hi <= v@.len(),
    ensures
        lo <= r <= hi,
        forall|k: int| lo <= k < r ==> is_digit(#[trigger] v@[k]),
        r < hi ==> !is_digit(v@[r as int]),
{
    let mut i: usize = lo;
    while i < hi
        invariant
            lo <= i <= hi <= v@.len(),
            forall|k: int| lo <= k < i ==> is_digit(#[trigger] v@[k]),
        decreases hi - i,
    {
        if digit_of(v[i]).is_none() {
            return i;
        }
        i = i + 1;
    }
    i
}

/// Value of a short run of digits.
fn read_uint(v: &Vec<char>, lo: usize, hi: usize) -> (r: u64)
    requires
        lo <= hi <= v@.len(),
        hi - lo <= 4,
        forall|k: int| lo <= k < hi ==> is_digit(#[trigger] v@[k]),
    ensures
        r == digits_val(v@.subrange(lo as int, hi as int)),
        r < pow10((hi - lo) as nat),
        r <= 9999,
{
    let ghost w = v@.subrange(lo as int, hi as int);
    proof {
        assert(all_digits(w));
        lemma_digits_val_bounds(w);
        assert(pow10(w.len()) <= 10000) by {
            reveal_with_fuel(pow10, 5);
        }
    }
    let mut acc: u64 = 0;
    let mut i: usize = lo;
    while i < hi
        invariant
            lo <= i <= hi <= v@.len(),
            hi - lo <= 4,
            w == v@.subrange(lo as int, hi as int),
            all_digits(w),
            acc == digits_val(w.take(i - lo)),
            acc <= 9999,
        decreases hi - i,
    {
        let ghost pref = w.take(i - lo);
        let d = match digit_of(v[i]) {
            Some(d) => d,
            None => {
                proof {
                    assert(is_digit(w[i - lo]));
                }
                0
            },
        };
        proof {
            assert(w.take(i + 1 - lo) =~= pref.push(w[i - lo]));
            lemma_digits_val_push(pref, w[i - lo]);
            assert(all_digits(w.take(i + 1 - lo)));
            lemma_digits_val_bounds(w.take(i + 1 - lo));
            assert(pow10(w.take(i + 1 - lo).len()) <= 10000) by {
                reveal_with_fuel(pow10, 5);
            }
        }
        acc = acc * 10 + (d as u64);
        i = i + 1;
    }
    proof {
        assert(w.take(hi - lo) =~= w);
    }
    acc
}

/// Length of the month, faithful to `days_in_month`.
pub fn month_len(year: u16, month: u8) -> (r: u8)
    ensures
        r == days_in_month(year as int, month as int),
{
    match month {
        1 | 3 | 5 | 7 | 8 | 10 | 12 => 31,
        4 | 6 | 9 | 11 => 30,
        2 => {
            if (year % 4 == 0 && year % 100 != 0) || year % 400 == 0 {
                29
            } else {
                28
            }
        },
        _ => {
            if (year % 4 == 0 && year % 100 != 0) || year % 400 == 0 {
                29
            } else {
                28
            }
        },
    }
}

/// Reads the window `lo .. hi` of `v` as one instant; faithful to
/// `instant_of_text` on that window.
#[verifier::rlimit(50)]
pub fn parse_instant(v: &Vec<char>, lo: usize, hi: usize) -> (r: Option<DateTime>)
    requires
        lo <= hi <= v@.len(),
    ensures
        r == instant_of_text(v@.subrange(lo as int, hi as int)),
{
    let ghost w = v@.subrange(lo as int, hi as int);
    let e1 = scan_digit_run(v, lo, hi);
    proof {
        lemma_digit_end_is(w, 0, e1 - lo);
    }
    if !(e1 > lo && e1 - lo <= 2 && e1 < hi && v[e1] == '/') {
        return None;
    }
    let e2 = scan_digit_run(v, e1 + 1, hi);
    proof {
        lemma_digit_end_is(w, e1 + 1 - lo, e2 - lo);
    }
    if !(e2 - e1 >= 2 && e2 - e1 <= 3 && e2 < hi && v[e2] == '/') {
        return None;
    }
    let e3 = scan_digit_run(v, e2 + 1, hi);
    proof {
        lemma_digit_end_is(w, e2 + 1 - lo, e3 - lo);
    }
    if !(e3 - e2 >= 2 && e3 - e2 <= 5 && e3 < hi && v[e3] == ' ') {
        return None;
    }
    let e4 = scan_digit_run(v, e3 + 1, hi);
    proof {
        lemma_digit_end_is(w, e3 + 1 - lo, e4 - lo);
    }
    if !(e4 - e3 >= 2 && e4 - e3 <= 3 && e4 < hi && v[e4] == ':') {
        return None;
    }
    let e5 = scan_digit_run(v, e4 + 1, hi);
    proof {
        lemma_digit_end_is(w, e4 + 1 - lo, e5 - lo);
    }
    if !(e5 - e4 >= 2 && e5 - e4 <= 3 && e5 == hi) {
        return None;
    }
    let day = read_uint(v, lo, e1);
    let month = read_uint(v, e1 + 1, e2);
    let year = read_uint(v, e2 + 1, e3);
    let hour = read_uint(v, e3 + 1, e4);
    let minute = read_uint(v, e4 + 1, e5);
    proof {
        assert(v@.subrange(lo as int, e1 as int) =~= w.subrange(0, e1 - lo));
        assert(v@.subrange(e1 + 1, e2 as int) =~= w.subrange(e1 + 1 - lo, e2 - lo));
        assert(v@.subrange(e2 + 1, e3 as int) =~= w.subrange(e2 + 1 - lo, e3 - lo));
        assert(v@.subrange(e3 + 1, e4 as int) =~= w.subrange(e3 + 1 - lo, e4 - lo));
        assert(v@.subrange(e4 + 1, e5 as int) =~= w.subrange(e4 + 1 - lo, e5 - lo));
        assert(pow10(2) == 100 && pow10(3) == 1000 && pow10(4) == 10000) by {
            reveal_with_fuel(pow10, 5);
        }
    }
    if 1 <= month && month <= 12 && 1 <= day && {
        let cap = month_len(year as u16, month as u8) as u64;
        day <= cap
    } && hour <= 23 && minute <= 59 {
        Some(
            DateTime {
                year: year as u16,
                month: month as u8,
                day: day as u8,
                hour: hour as u8,
                minute: minute as u8,
            },
        )
    } else {
        None
    }
}

impl Dates {
    /// Reads a `Dates` value from text; faithful to `dates_of_text`.
    pub fn parse(s: &str) -> (r: Option<Dates>)
        ensures
            r == dates_of_text(s@),
        returns
            dates_of_text(s@),
    {
        let v = crate::text::to_chars(s);
        let n = v.len();
        let d = find_from(&v, 0, n, '-');
        proof {
            assert(v@.subrange(0, n as int) =~= v@);
            lemma_find_char(v@, '-');
        }
        if d < n {
            let (a0, a1) = trim_from(&v, 0, d);
            let (b0, b1) = trim_from(&v, d + 1, n);
            proof {
                assert(v@.subrange(0, d as int) =~= v@.take(d as int));
            }
            let a = parse_instant(&v, a0, a1);
            let b = parse_instant(&v, b0, b1);
            match (a, b) {
                (Some(x), Some(y)) => Some(Dates { start: x, end: Some(y) }),
                _ => None,
            }
        } else {
            match parse_instant(&v, 0, n) {
                Some(x) => Some(Dates { start: x, end: None }),
                None => None,
            }
        }
    }

    /// Canonical text, faithful to `dates_text`.
    pub fn format(&self) -> (r: String)
        ensures
            r@ == dates_text(*self),
    {
        let mut chars = instant_chars(&self.start);
        match &self.end {
            Some(e) => {
                chars.push(' ');
                chars.push('-');
                chars.push(' ');
                let mut tail = instant_chars(e);
                chars.append(&mut tail);
                proof {
                    assert(chars@ =~= dates_text(*self));
                }
            },
            None => {},
        }
        string_of_chars(chars.as_slice())
    }

    /// The two stamps, in epoch seconds.
    pub fn stamps(&self) -> (r: (i64, Option<i64>))
        ensures
            r.0 == stamp_of(self.start),
            match self.end {
                Some(e) => r.1 matches Some(t) && t == stamp_of(e),
                None => r.1 is None,
            },
    {
        (
            self.start.stamp(),
            match &self.end {
                Some(e) => Some(e.stamp()),
                None => None,
            },
        )
    }

    /// Widens `(lo, hi)` so that it also covers this value's instants;
    /// an absent end neither lowers `lo` nor raises `hi`.
    pub fn expand_range(&self, range: (i64, i64)) -> (r: (i64, i64))
        ensures
            r.0 as int == expanded_lo(*self, range.0 as int),
            r.1 as int == expanded_hi(*self, range.1 as int),
    {
        let (lo, hi) = range;
        let s = self.start.stamp();
        let (e_lo, e_hi) = match &self.end {
            Some(e) => {
                let t = e.stamp();
                (t, t)
            },
            None => (i64::MAX, i64::MIN),
        };
        let a = if lo <= s {
            lo
        } else {
            s
        };
        let a = if e_lo <= a {
            e_lo
        } else {
            a
        };
        let b = if hi >= s {
            hi
        } else {
            s
        };
        let b = if e_hi >= b {
            e_hi
        } else {
            b
        };
        (a, b)
    }
}

/// The lower edge of a range after it absorbs a `Dates` value.
pub open spec fn expanded_lo(d: Dates, lo: int) -> int {
    let s = stamp_of(d.start);
    let a = if lo <= s {
        lo
    } else {
        s
    };
    match d.end {
        Some(e) => if stamp_of(e) <= a {
            stamp_of(e)
        } else {
            a
        },
        None => a,
    }
}

/// The upper edge of a range after it absorbs a `Dates` value.
pub open spec fn expanded_hi(d: Dates, hi: int) -> int {
    let s = stamp_of(d.start);
    let b = if hi >= s {
        hi
    } else {
        s
    };
    match d.end {
        Some(e) => if stamp_of(e) >= b {
            stamp_of(e)
        } else {
            b
        },
        None => b,
    }
}

/// Produced when text is not a date.
#[derive(Clone, Copy, Debug, PartialEq, Eq, Structural)]
pub struct DateParseError;

impl core::str::FromStr for Dates {
    type Err = DateParseError;

    fn from_str(s: &str) -> Result<Dates, DateParseError> {
        match Dates::parse(s) {
            Some(d) => Ok(d),
            None => Err(DateParseError),
        }
    }
}

/// The stamp rounded down to a whole minute.
pub open spec fn minute_floor(t: int) -> int {
    t - t % 60
}

/// The calendar instant of an epoch-second stamp, at minute resolution,
/// when it lands on a representable date (years 0 through 9999): any
/// instant that comes back stamps to exactly the minute-truncated input,
/// which is then necessarily inside the representable window.
fn civil_of_stamp(t: i64) -> (r: Option<DateTime>)
    ensures
        r matches Some(dt) ==> dt.wf() && stamp_of(dt) == minute_floor(t as int),
        r is Some ==> CIVIL_STAMP_LO <= t && t as int <= CIVIL_STAMP_HI + 59,
{
    let days: i64 = t.checked_div_euclid(86400).unwrap();
    let sod: i64 = t.checked_rem_euclid(86400).unwrap();
    let hh: i64 = sod / 3600;
    let mm: i64 = (sod % 3600) / 60;
    if days < -865565 || days > 2932896 {
        return None;
    }
    let z: i64 = days + 719468 + 146097;
    let era: i64 = z / 146097 - 1;
    let doe: i64 = z % 146097;
    let yoe: i64 = (doe - doe / 1460 + doe / 36524 - doe / 146096) / 365;
    let y0: i64 = yoe + era * 400;
    let doy: i64 = doe - (365 * yoe + yoe / 4 - yoe / 100);
    if doy < 0 || doy > 366 {
        return None;
    }
    let mp: i64 = (5 * doy + 2) / 153;
    if mp < 0 || mp > 11 {
        return None;
    }
    let d: i64 = doy - (153 * mp + 2) / 5 + 1;
    let m: i64 = if mp < 10 {
        mp + 3
    } else {
        mp - 9
    };
    let y: i64 = if m <= 2 {
        y0 + 1
    } else {
        y0
    };
    if !(0 <= y && y <= 9999 && 1 <= m && m <= 12 && 1 <= d && 0 <= hh && hh <= 23 && 0 <= mm
        && mm <= 59) {
        return None;
    }
    if d > month_len(y as u16, m as u8) as i64 {
        return None;
    }
    let dt = DateTime {
        year: y as u16,
        month: m as u8,
        day: d as u8,
        hour: hh as u8,
        minute: mm as u8,
    };
    let minute_start: i64 = t.checked_div_euclid(60).unwrap() * 60;
    if dt.stamp() == minute_start {
        proof {
            vstd::arithmetic::div_mod::lemma_fundamental_div_mod(t as int, 60);
            vstd::arithmetic::div_mod::lemma_mod_bound(t as int, 60);
            lemma_wf_stamp_bounds(dt);
        }
        Some(dt)
    } else {
        None
    }
}

impl Dates {
    /// Builds a `Dates` value from a pair of epoch-second stamps, at
    /// minute resolution. A start outside the representable window falls
    /// back to the epoch; an end outside it is dropped. Every instant
    /// that comes back is well-formed and stamps to exactly the
    /// minute-truncated input.
    pub fn from(range: (i64, i64)) -> (r: Dates)
        ensures
            r.start.wf(),
            r.start.year != 1970 || r.start.month != 1 || r.start.day != 1 ==> stamp_of(r.start)
                == minute_floor(range.0 as int),
            !(CIVIL_STAMP_LO <= range.0 && range.0 as int <= CIVIL_STAMP_HI + 59) ==> r.start == (
            DateTime { year: 1970, month: 1, day: 1, hour: 0, minute: 0 }),
            r.end matches Some(e) ==> e.wf() && stamp_of(e) == minute_floor(range.1 as int),
            !(CIVIL_STAMP_LO <= range.1 && range.1 as int <= CIVIL_STAMP_HI + 59) ==> r.end
                is None,
    {
        let start = match civil_of_stamp(range.0) {
            Some(dt) => dt,
            None => DateTime { year: 1970, month: 1, day: 1, hour: 0, minute: 0 },
        };
        Dates { start, end: civil_of_stamp(range.1) }
    }
}

/// The characters of `instant_text`.
pub fn instant_chars(dt: &DateTime) -> (r: Vec<char>)
    ensures
        r@ == instant_text(*dt),
{
    let mut out = padded_chars(dt.day as u64, 2);
    out.push('/');
    let mut m = padded_chars(dt.month as u64, 2);
    out.append(&mut m);
    out.push('/');
    let mut y = padded_chars(dt.year as u64, 4);
    out.append(&mut y);
    out.push(' ');
    let mut h = padded_chars(dt.hour as u64, 2);
    out.append(&mut h);
    out.push(':');
    let mut mi = padded_chars(dt.minute as u64, 2);
    out.append(&mut mi);
    proof {
        assert(out@ =~= instant_text(*dt));
    }
    out
}

} // verus!
