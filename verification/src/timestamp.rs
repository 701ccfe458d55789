//! Timestamps of the metadata layer: milliseconds since the Unix epoch,
//! stored and round-tripped in one unambiguous UTC textual form,
//! `YYYY-MM-DDTHH:MM:SS.mmmZ`. Writing always produces that form, and a
//! stored text that fails to parse on read is corrupt metadata.

use vstd::prelude::*;
use vstd::arithmetic::div_mod::{lemma_fundamental_div_mod, lemma_mod_bound, lemma_div_denominator, lemma_div_pos_is_pos};
use crate::arith::lemma_div_le;
use crate::error::MediaError;
use crate::text::{digit_char, digit_str};

verus! {

/// A UTC instant: non-negative milliseconds since 1970-01-01T00:00:00Z,
/// before year 10000.
#[derive(Clone, Copy, Debug, PartialEq, Eq, Structural)]
pub struct Timestamp {
    pub millis: i64,
}

pub const MILLIS_PER_DAY: i64 = 86_400_000;

/// Whether `y` is a leap year in the proleptic Gregorian calendar.
pub open spec fn is_leap_year(y: int) -> bool {
    (y % 4 == 0 && y % 100 != 0) || y % 400 == 0
}

/// Days in year `y`.
pub open spec fn days_in_year(y: int) -> int {
    if is_leap_year(y) {
        366
    } else {
        365
    }
}

/// Days in month `m` (1-based) of year `y`.
pub open spec fn days_in_month(y: int, m: int) -> int {
    if m == 2 {
        if is_leap_year(y) {
            29
        } else {
            28
        }
    } else if m == 4 || m == 6 || m == 9 || m == 11 {
        30
    } else {
        31
    }
}

/// Days from 1970-01-01 to `y`-01-01, for `y >= 1970`.
pub open spec fn days_before_year(y: int) -> int
    decreases y - 1970,
{
    if y <= 1970 {
        0
    } else {
        days_before_year(y - 1) + days_in_year(y - 1)
    }
}

/// Days from `y`-01-01 to `y`-`m`-01.
pub open spec fn days_before_month(y: int, m: int) -> int
    decreases m,
{
    if m <= 1 {
        0
    } else {
        days_before_month(y, m - 1) + days_in_month(y, m - 1)
    }
}

/// The day number (days since 1970-01-01) of the civil date `y`-`m`-`d`.
pub open spec fn civil_day_number(y: int, m: int, d: int) -> int {
    days_before_year(y) + days_before_month(y, m) + (d - 1)
}

/// The first millisecond the type does not represent: 10000-01-01T00:00:00Z.
pub open spec fn max_ts_millis() -> int {
    days_before_year(10000) * (MILLIS_PER_DAY as int)
}

/// The year holding day `d0` counted from `y0`-01-01, with the remaining
/// day-of-year.
pub open spec fn split_year_from(y0: int, d0: int) -> (int, int)
    decreases d0,
{
    if d0 < days_in_year(y0) {
        (y0, d0)
    } else {
        split_year_from(y0 + 1, d0 - days_in_year(y0))
    }
}

/// The month holding day `d0` counted from month `m0` of year `y`, with the
/// 1-based day-of-month.
pub open spec fn split_month_from(y: int, m0: int, d0: int) -> (int, int)
    decreases 12 - m0,
{
    if m0 >= 12 || d0 < days_in_month(y, m0) {
        (m0, d0 + 1)
    } else {
        split_month_from(y, m0 + 1, d0 - days_in_month(y, m0))
    }
}

/// A year's twelve months sum to its length.
pub proof fn lemma_year_months(y: int)
    ensures
        days_before_month(y, 13) == days_in_year(y),
{
    assert(days_before_month(y, 1) == 0);
    assert(days_before_month(y, 2) == days_before_month(y, 1) + days_in_month(y, 1));
    assert(days_before_month(y, 3) == days_before_month(y, 2) + days_in_month(y, 2));
    assert(days_before_month(y, 4) == days_before_month(y, 3) + days_in_month(y, 3));
    assert(days_before_month(y, 5) == days_before_month(y, 4) + days_in_month(y, 4));
    assert(days_before_month(y, 6) == days_before_month(y, 5) + days_in_month(y, 5));
    assert(days_before_month(y, 7) == days_before_month(y, 6) + days_in_month(y, 6));
    assert(days_before_month(y, 8) == days_before_month(y, 7) + days_in_month(y, 7));
    assert(days_before_month(y, 9) == days_before_month(y, 8) + days_in_month(y, 8));
    assert(days_before_month(y, 10) == days_before_month(y, 9) + days_in_month(y, 9));
    assert(days_before_month(y, 11) == days_before_month(y, 10) + days_in_month(y, 10));
    assert(days_before_month(y, 12) == days_before_month(y, 11) + days_in_month(y, 11));
    assert(days_before_month(y, 13) == days_before_month(y, 12) + days_in_month(y, 12));
}

/// `days_before_year` grows with the year.
pub proof fn lemma_dby_monotone(y1: int, y2: int)
    requires
        y1 <= y2,
    ensures
        days_before_year(y1) <= days_before_year(y2),
    decreases y2 - y1,
{
    if y1 < y2 {
        lemma_dby_monotone(y1, y2 - 1);
    }
}

/// A coarse upper bound: at most 366 days per year since 1970.
pub proof fn lemma_dby_upper(y: int)
    requires
        1970 <= y,
    ensures
        days_before_year(y) <= (y - 1970) * 366,
    decreases y - 1970,
{
    if y > 1970 {
        lemma_dby_upper(y - 1);
        assert((y - 1 - 1970) * 366 + 366 == (y - 1970) * 366) by (nonlinear_arith);
    }
}

/// `days_before_month` grows with the month.
pub proof fn lemma_dbm_monotone(y: int, m1: int, m2: int)
    requires
        m1 <= m2,
    ensures
        days_before_month(y, m1) <= days_before_month(y, m2),
    decreases m2 - m1,
{
    if m1 < m2 {
        lemma_dbm_monotone(y, m1, m2 - 1);
    }
}

/// What splitting off whole years yields: a year up to 9999, a day-of-year
/// within it, and a sum equal to the input.
pub proof fn lemma_split_year_props(y0: int, d0: int)
    requires
        1970 <= y0 <= 9999,
        0 <= d0,
        days_before_year(y0) + d0 < days_before_year(10000),
    ensures
        ({
            let (y, d) = split_year_from(y0, d0);
            &&& y0 <= y <= 9999
            &&& 0 <= d < days_in_year(y)
            &&& days_before_year(y) + d == days_before_year(y0) + d0
        }),
    decreases d0,
{
    if d0 >= days_in_year(y0) {
        assert(days_before_year(y0 + 1) == days_before_year(y0) + days_in_year(y0));
        if y0 == 9999 {
            assert(days_before_year(10000) == days_before_year(9999) + days_in_year(
                9999,
            ));
            assert(false);
        }
        lemma_split_year_props(y0 + 1, d0 - days_in_year(y0));
    }
}

/// What splitting off whole months yields: a month of the year, a day within
/// it, and a sum equal to the input.
pub proof fn lemma_split_month_props(y: int, m0: int, d0: int)
    requires
        1 <= m0 <= 12,
        0 <= d0,
        days_before_month(y, m0) + d0 < days_in_year(y),
    ensures
        ({
            let (m, d) = split_month_from(y, m0, d0);
            &&& m0 <= m <= 12
            &&& 1 <= d <= days_in_month(y, m)
            &&& days_before_month(y, m) + d - 1 == days_before_month(y, m0) + d0
        }),
    decreases 12 - m0,
{
    lemma_year_months(y);
    if !(m0 >= 12 || d0 < days_in_month(y, m0)) {
        assert(days_before_month(y, m0 + 1) == days_before_month(y, m0) + days_in_month(
            y,
            m0,
        ));
        lemma_split_month_props(y, m0 + 1, d0 - days_in_month(y, m0));
    } else if m0 >= 12 && d0 >= days_in_month(y, m0) {
        lemma_dbm_monotone(y, 12, 12);
        assert(days_before_month(y, 13) == days_before_month(y, 12) + days_in_month(
            y,
            12,
        ));
        assert(false);
    }
}

/// Days in year `y`.
fn days_in_year_x(y: u64) -> (r: u64)
    ensures
        r as int == days_in_year(y as int),
{
    if (y % 4 == 0 && y % 100 != 0) || y % 400 == 0 {
        366
    } else {
        365
    }
}

/// Days in month `m` of year `y`.
fn days_in_month_x(y: u64, m: u64) -> (r: u64)
    ensures
        r as int == days_in_month(y as int, m as int),
{
    if m == 2 {
        if (y % 4 == 0 && y % 100 != 0) || y % 400 == 0 {
            29
        } else {
            28
        }
    } else if m == 4 || m == 6 || m == 9 || m == 11 {
        30
    } else {
        31
    }
}

/// Days from 1970-01-01 to `y`-01-01.
fn days_before_year_x(y: u64) -> (r: u64)
    requires
        1970 <= y <= 10000,
    ensures
        r as int == days_before_year(y as int),
{
    let mut acc: u64 = 0;
    let mut i: u64 = 1970;
    while i < y
        invariant
            1970 <= i <= y,
            y <= 10000,
            acc as int == days_before_year(i as int),
            acc <= (i - 1970) * 366,
        decreases y - i,
    {
        proof {
            lemma_dby_upper(i as int + 1);
        }
        acc = acc + days_in_year_x(i);
        i = i + 1;
    }
    acc
}

/// Days from `y`-01-01 to `y`-`m`-01.
fn days_before_month_x(y: u64, m: u64) -> (r: u64)
    requires
        1 <= m <= 13,
    ensures
        r as int == days_before_month(y as int, m as int),
{
    let mut acc: u64 = 0;
    let mut i: u64 = 1;
    while i < m
        invariant
            1 <= i <= m,
            m <= 13,
            acc as int == days_before_month(y as int, i as int),
            acc <= i * 31,
        decreases m - i,
    {
        proof {
            assert((i + 1) * 31 == i * 31 + 31) by (nonlinear_arith);
        }
        acc = acc + days_in_month_x(y, i);
        i = i + 1;
    }
    acc
}

/// Splits a day number into its year and day-of-year.
fn year_and_day(days: u64) -> (r: (u64, u64))
    requires
        days < days_before_year(10000),
    ensures
        (r.0 as int, r.1 as int) == split_year_from(1970, days as int),
        1970 <= r.0 <= 9999,
        r.1 < days_in_year(r.0 as int),
{
    proof {
        lemma_split_year_props(1970, days as int);
    }
    let mut y: u64 = 1970;
    let mut d: u64 = days;
    loop
        invariant
            1970 <= y <= 9999,
            days_before_year(y as int) + d == days,
            days < days_before_year(10000),
            split_year_from(1970, days as int) == split_year_from(y as int, d as int),
        ensures
            1970 <= y <= 9999,
            d < days_in_year(y as int),
            split_year_from(1970, days as int) == split_year_from(y as int, d as int),
        decreases d,
    {
        let dy = days_in_year_x(y);
        if d < dy {
            break ;
        }
        proof {
            assert(days_before_year(y as int + 1) == days_before_year(y as int)
                + days_in_year(y as int));
            if y == 9999 {
                assert(days_before_year(10000) == days_before_year(9999) + days_in_year(
                    9999,
                ));
                assert(false);
            }
        }
        d = d - dy;
        y = y + 1;
    }
    (y, d)
}

/// Splits a day-of-year into its month and day-of-month.
fn month_and_day(y: u64, doy: u64) -> (r: (u64, u64))
    requires
        doy < days_in_year(y as int),
    ensures
        (r.0 as int, r.1 as int) == split_month_from(y as int, 1, doy as int),
        1 <= r.0 <= 12,
        1 <= r.1 <= days_in_month(y as int, r.0 as int),
{
    proof {
        lemma_split_month_props(y as int, 1, doy as int);
    }
    let mut m: u64 = 1;
    let mut d: u64 = doy;
    loop
        invariant
            1 <= m <= 12,
            days_before_month(y as int, m as int) + d == doy,
            doy < days_in_year(y as int),
            split_month_from(y as int, 1, doy as int) == split_month_from(
                y as int,
                m as int,
                d as int,
            ),
        ensures
            1 <= m <= 12,
            d < days_in_month(y as int, m as int),
            split_month_from(y as int, 1, doy as int) == split_month_from(
                y as int,
                m as int,
                d as int,
            ),
        decreases 12 - m,
    {
        let dm = days_in_month_x(y, m);
        if d < dm {
            break ;
        }
        proof {
            lemma_year_months(y as int);
            assert(days_before_month(y as int, m as int + 1) == days_before_month(
                y as int,
                m as int,
            ) + days_in_month(y as int, m as int));
            if m == 12 {
                lemma_dbm_monotone(y as int, 13, 13);
                assert(false);
            }
        }
        d = d - dm;
        m = m + 1;
    }
    (m, d + 1)
}

/// The two decimal digits of a value in `0..100`, high digit first.
pub open spec fn two_digits(n: int) -> Seq<char> {
    seq![digit_char(n / 10), digit_char(n % 10)]
}

/// The three decimal digits of a value in `0..1000`, high digit first.
pub open spec fn three_digits(n: int) -> Seq<char> {
    seq![digit_char(n / 100), digit_char((n / 10) % 10), digit_char(n % 10)]
}

/// The four decimal digits of a value in `0..10000`, high digit first.
pub open spec fn four_digits(n: int) -> Seq<char> {
    seq![
        digit_char(n / 1000),
        digit_char((n / 100) % 10),
        digit_char((n / 10) % 10),
        digit_char(n % 10),
    ]
}

fn push_two_digits(s: &mut String, n: u64)
    requires
        n < 100,
    ensures
        final(s)@ == old(s)@ + two_digits(n as int),
{
    s.append(digit_str((n / 10) as u8));
    s.append(digit_str((n % 10) as u8));
    proof {
        assert(old(s)@ + seq![digit_char(n as int / 10)] + seq![
            digit_char(n as int % 10),
        ] =~= old(s)@ + two_digits(n as int));
    }
}

fn push_three_digits(s: &mut String, n: u64)
    requires
        n < 1000,
    ensures
        final(s)@ == old(s)@ + three_digits(n as int),
{
    s.append(digit_str((n / 100) as u8));
    s.append(digit_str(((n / 10) % 10) as u8));
    s.append(digit_str((n % 10) as u8));
    proof {
        assert(old(s)@ + seq![digit_char(n as int / 100)] + seq![
            digit_char((n as int / 10) % 10),
        ] + seq![digit_char(n as int % 10)] =~= old(s)@ + three_digits(n as int));
    }
}

fn push_four_digits(s: &mut String, n: u64)
    requires
        n < 10000,
    ensures
        final(s)@ == old(s)@ + four_digits(n as int),
{
    s.append(digit_str((n / 1000) as u8));
    s.append(digit_str(((n / 100) % 10) as u8));
    s.append(digit_str(((n / 10) % 10) as u8));
    s.append(digit_str((n % 10) as u8));
    proof {
        assert(old(s)@ + seq![digit_char(n as int / 1000)] + seq![
            digit_char((n as int / 100) % 10),
        ] + seq![digit_char((n as int / 10) % 10)] + seq![
            digit_char(n as int % 10),
        ] =~= old(s)@ + four_digits(n as int));
    }
}

/// The canonical textual form of the instant `ms` milliseconds after the
/// epoch: `YYYY-MM-DDTHH:MM:SS.mmmZ`.
pub open spec fn spec_format_ts(ms: int) -> Seq<char> {
    let days = ms / (MILLIS_PER_DAY as int);
    let tod = ms % (MILLIS_PER_DAY as int);
    let yd = split_year_from(1970, days);
    let md = split_month_from(yd.0, 1, yd.1);
    four_digits(yd.0) + seq!['-'] + two_digits(md.0) + seq!['-'] + two_digits(md.1)
        + seq!['T'] + two_digits(tod / 3_600_000) + seq![':'] + two_digits(
        (tod / 60_000) % 60,
    ) + seq![':'] + two_digits((tod / 1_000) % 60) + seq!['.'] + three_digits(tod % 1_000)
        + seq!['Z']
}

impl Timestamp {
    /// The instant is representable: non-negative and before year 10000.
    pub open spec fn wf(&self) -> bool {
        0 <= self.millis < max_ts_millis()
    }

    /// Wraps `ms` when it is representable.
    pub fn from_unix_millis(ms: i64) -> (r: Option<Timestamp>)
        ensures
            match r {
                Some(t) => t.millis == ms && t.wf(),
                None => !(0 <= ms < max_ts_millis()),
            },
    {
        if ms < 0 {
            return None;
        }
        let limit_days = days_before_year_x(10000);
        proof {
            lemma_dby_upper(10000);
        }
        let limit: i64 = (limit_days as i64) * MILLIS_PER_DAY;
        if ms < limit {
            Some(Timestamp { millis: ms })
        } else {
            None
        }
    }

    /// Wraps `ms`, clamping it into the representable range.
    pub fn clamped_from_unix_millis(ms: i64) -> (r: Timestamp)
        ensures
            r.wf(),
            0 <= ms < max_ts_millis() ==> r.millis == ms,
            ms < 0 ==> r.millis == 0,
            ms >= max_ts_millis() ==> r.millis == max_ts_millis() - 1,
    {
        proof {
            lemma_dby_upper(10000);
            lemma_dby_monotone(1971, 10000);
            assert(days_before_year(1970) == 0);
            assert(days_before_year(1971) == days_before_year(1970) + days_in_year(1970));
        }
        if ms < 0 {
            return Timestamp { millis: 0 };
        }
        let limit_days = days_before_year_x(10000);
        let limit: i64 = (limit_days as i64) * MILLIS_PER_DAY;
        if ms < limit {
            Timestamp { millis: ms }
        } else {
            Timestamp { millis: limit - 1 }
        }
    }

    /// Renders the instant in the canonical textual form.
    pub fn format_rfc3339(&self) -> (r: String)
        requires
            self.wf(),
        ensures
            r@ == spec_format_ts(self.millis as int),
    {
        let ms = self.millis as u64;
        let days = ms / 86_400_000;
        let tod = ms % 86_400_000;
        proof {
            lemma_fundamental_div_mod(ms as int, 86_400_000);
            if days as int >= days_before_year(10000) {
                assert(86_400_000 * (days as int) >= 86_400_000 * days_before_year(
                    10000,
                ));
                assert(false);
            }
        }
        let (y, doy) = year_and_day(days);
        let (mo, dom) = month_and_day(y, doy);
        let hh = tod / 3_600_000;
        let mi = (tod / 60_000) % 60;
        let ss = (tod / 1_000) % 60;
        let ms3 = tod % 1_000;
        proof {
            crate::arith::lemma_div_le(tod as int, 3_600_000, 23);
        }
        let mut out = String::new();
        push_four_digits(&mut out, y);
        out.append("-");
        push_two_digits(&mut out, mo);
        out.append("-");
        push_two_digits(&mut out, dom);
        out.append("T");
        push_two_digits(&mut out, hh);
        out.append(":");
        push_two_digits(&mut out, mi);
        out.append(":");
        push_two_digits(&mut out, ss);
        out.append(".");
        push_three_digits(&mut out, ms3);
        out.append("Z");
        proof {
            reveal_strlit("-");
            reveal_strlit("T");
            reveal_strlit(":");
            reveal_strlit(".");
            reveal_strlit("Z");
            assert("-"@ =~= seq!['-']);
            assert("T"@ =~= seq!['T']);
            assert(":"@ =~= seq![':']);
            assert("."@ =~= seq!['.']);
            assert("Z"@ =~= seq!['Z']);
            assert(out@ =~= spec_format_ts(self.millis as int));
        }
        out
    }
}

/// Whether `c` is a decimal digit.
pub open spec fn is_digit(c: char) -> bool {
    48 <= (c as u32) <= 57
}

/// The value of a decimal digit character.
pub open spec fn digit_val(c: char) -> int {
    (c as u32) - 48
}

/// Whether the 24 characters have digits and separators where the canonical
/// form puts them.
pub open spec fn layout_ok(s: Seq<char>) -> bool {
    &&& s.len() == 24
    &&& is_digit(s[0]) && is_digit(s[1]) && is_digit(s[2]) && is_digit(s[3])
    &&& s[4] == '-'
    &&& is_digit(s[5]) && is_digit(s[6])
    &&& s[7] == '-'
    &&& is_digit(s[8]) && is_digit(s[9])
    &&& s[10] == 'T'
    &&& is_digit(s[11]) && is_digit(s[12])
    &&& s[13] == ':'
    &&& is_digit(s[14]) && is_digit(s[15])
    &&& s[16] == ':'
    &&& is_digit(s[17]) && is_digit(s[18])
    &&& s[19] == '.'
    &&& is_digit(s[20]) && is_digit(s[21]) && is_digit(s[22])
    &&& s[23] == 'Z'
}

pub open spec fn parsed_year(s: Seq<char>) -> int {
    digit_val(s[0]) * 1000 + digit_val(s[1]) * 100 + digit_val(s[2]) * 10 + digit_val(
        s[3],
    )
}

pub open spec fn parsed_month(s: Seq<char>) -> int {
    digit_val(s[5]) * 10 + digit_val(s[6])
}

pub open spec fn parsed_day(s: Seq<char>) -> int {
    digit_val(s[8]) * 10 + digit_val(s[9])
}

pub open spec fn parsed_hour(s: Seq<char>) -> int {
    digit_val(s[11]) * 10 + digit_val(s[12])
}

pub open spec fn parsed_minute(s: Seq<char>) -> int {
    digit_val(s[14]) * 10 + digit_val(s[15])
}

pub open spec fn parsed_second(s: Seq<char>) -> int {
    digit_val(s[17]) * 10 + digit_val(s[18])
}

pub open spec fn parsed_milli(s: Seq<char>) -> int {
    digit_val(s[20]) * 100 + digit_val(s[21]) * 10 + digit_val(s[22])
}

/// Whether the parsed fields name a real UTC instant the type represents.
pub open spec fn fields_in_range(s: Seq<char>) -> bool {
    &&& 1970 <= parsed_year(s)
    &&& 1 <= parsed_month(s) <= 12
    &&& 1 <= parsed_day(s) <= days_in_month(parsed_year(s), parsed_month(s))
    &&& parsed_hour(s) < 24
    &&& parsed_minute(s) < 60
    &&& parsed_second(s) < 60
}

/// The instant a canonical text names, when it is well-formed.
pub open spec fn spec_parse_ts(s: Seq<char>) -> Option<int> {
    if layout_ok(s) && fields_in_range(s) {
        Some(
            civil_day_number(parsed_year(s), parsed_month(s), parsed_day(s)) * (
            MILLIS_PER_DAY as int) + parsed_hour(s) * 3_600_000 + parsed_minute(s)
                * 60_000 + parsed_second(s) * 1_000 + parsed_milli(s),
        )
    } else {
        None
    }
}

fn read_digit(s: &str, i: usize) -> (r: Option<u64>)
    requires
        i < s@.len(),
    ensures
        match r {
            Some(v) => is_digit(s@[i as int]) && v == digit_val(s@[i as int]) && v <= 9,
            None => !is_digit(s@[i as int]),
        },
{
    let c = s.get_char(i) as u32;
    if 48 <= c && c <= 57 {
        Some((c - 48) as u64)
    } else {
        None
    }
}

impl Timestamp {
    /// Parses the canonical textual form back into an instant. Any other
    /// text is corrupt metadata: a prior write cannot have produced it.
    pub fn parse_rfc3339(s: &str) -> (r: Result<Timestamp, MediaError>)
        ensures
            match spec_parse_ts(s@) {
                Some(v) => r matches Ok(t) && t.millis == v && t.wf(),
                None => r == Err::<Timestamp, MediaError>(MediaError::CorruptMetadata),
            },
    {
        let n = s.unicode_len();
        if n != 24 {
            return Err(MediaError::CorruptMetadata);
        }
        if s.get_char(4) != '-' || s.get_char(7) != '-' || s.get_char(10) != 'T'
            || s.get_char(13) != ':' || s.get_char(16) != ':' || s.get_char(19) != '.'
            || s.get_char(23) != 'Z' {
            return Err(MediaError::CorruptMetadata);
        }
        let d0 = match read_digit(s, 0) {
            Some(v) => v,
            None => return Err(MediaError::CorruptMetadata),
        };
        let d1 = match read_digit(s, 1) {
            Some(v) => v,
            None => return Err(MediaError::CorruptMetadata),
        };
        let d2 = match read_digit(s, 2) {
            Some(v) => v,
            None => return Err(MediaError::CorruptMetadata),
        };
        let d3 = match read_digit(s, 3) {
            Some(v) => v,
            None => return Err(MediaError::CorruptMetadata),
        };
        let d5 = match read_digit(s, 5) {
            Some(v) => v,
            None => return Err(MediaError::CorruptMetadata),
        };
        let d6 = match read_digit(s, 6) {
            Some(v) => v,
            None => return Err(MediaError::CorruptMetadata),
        };
        let d8 = match read_digit(s, 8) {
            Some(v) => v,
            None => return Err(MediaError::CorruptMetadata),
        };
        let d9 = match read_digit(s, 9) {
            Some(v) => v,
            None => return Err(MediaError::CorruptMetadata),
        };
        let d11 = match read_digit(s, 11) {
            Some(v) => v,
            None => return Err(MediaError::CorruptMetadata),
        };
        let d12 = match read_digit(s, 12) {
            Some(v) => v,
            None => return Err(MediaError::CorruptMetadata),
        };
        let d14 = match read_digit(s, 14) {
            Some(v) => v,
            None => return Err(MediaError::CorruptMetadata),
        };
        let d15 = match read_digit(s, 15) {
            Some(v) => v,
            None => return Err(MediaError::CorruptMetadata),
        };
        let d17 = match read_digit(s, 17) {
            Some(v) => v,
            None => return Err(MediaError::CorruptMetadata),
        };
        let d18 = match read_digit(s, 18) {
            Some(v) => v,
            None => return Err(MediaError::CorruptMetadata),
        };
        let d20 = match read_digit(s, 20) {
            Some(v) => v,
            None => return Err(MediaError::CorruptMetadata),
        };
        let d21 = match read_digit(s, 21) {
            Some(v) => v,
            None => return Err(MediaError::CorruptMetadata),
        };
        let d22 = match read_digit(s, 22) {
            Some(v) => v,
            None => return Err(MediaError::CorruptMetadata),
        };
        let y = d0 * 1000 + d1 * 100 + d2 * 10 + d3;
        let mo = d5 * 10 + d6;
        let day = d8 * 10 + d9;
        let hh = d11 * 10 + d12;
        let mi = d14 * 10 + d15;
        let ss = d17 * 10 + d18;
        let ms3 = d20 * 100 + d21 * 10 + d22;
        if y < 1970 {
            return Err(MediaError::CorruptMetadata);
        }
        if mo < 1 || mo > 12 {
            return Err(MediaError::CorruptMetadata);
        }
        if day < 1 || day > days_in_month_x(y, mo) {
            return Err(MediaError::CorruptMetadata);
        }
        if hh > 23 || mi > 59 || ss > 59 {
            return Err(MediaError::CorruptMetadata);
        }
        let dby = days_before_year_x(y);
        let dbm = days_before_month_x(y, mo);
        proof {
            lemma_dby_upper(y as int);
            lemma_year_months(y as int);
            lemma_dbm_monotone(y as int, mo as int, 13);
            assert(days_before_month(y as int, mo as int + 1) == days_before_month(
                y as int,
                mo as int,
            ) + days_in_month(y as int, mo as int));
            lemma_dbm_monotone(y as int, mo as int + 1, 13);
            assert(days_before_year(y as int + 1) == days_before_year(y as int)
                + days_in_year(y as int));
            lemma_dby_monotone(y as int + 1, 10000);
        }
        let days_total = dby + dbm + (day - 1);
        let millis: u64 = days_total * 86_400_000 + hh * 3_600_000 + mi * 60_000 + ss
            * 1_000 + ms3;
        Ok(Timestamp { millis: millis as i64 })
    }
}

proof fn lemma_digit_round_trip(k: int)
    requires
        0 <= k <= 9,
    ensures
        is_digit(digit_char(k)),
        digit_val(digit_char(k)) == k,
{
}

proof fn lemma_two_digit_recompose(n: int)
    requires
        0 <= n < 100,
    ensures
        (n / 10) * 10 + (n % 10) == n,
        0 <= n / 10 <= 9,
        0 <= n % 10 <= 9,
{
    lemma_fundamental_div_mod(n, 10);
    lemma_mod_bound(n, 10);
    lemma_div_le(n, 10, 9);
    lemma_div_pos_is_pos(n, 10);
}

proof fn lemma_three_digit_recompose(n: int)
    requires
        0 <= n < 1000,
    ensures
        (n / 100) * 100 + ((n / 10) % 10) * 10 + (n % 10) == n,
        0 <= n / 100 <= 9,
        0 <= (n / 10) % 10 <= 9,
        0 <= n % 10 <= 9,
{
    lemma_fundamental_div_mod(n, 10);
    lemma_fundamental_div_mod(n / 10, 10);
    lemma_mod_bound(n, 10);
    lemma_mod_bound(n / 10, 10);
    lemma_div_denominator(n, 10, 10);
    lemma_div_le(n, 100, 9);
    lemma_div_pos_is_pos(n, 100);
    lemma_div_pos_is_pos(n, 10);
}

proof fn lemma_four_digit_recompose(n: int)
    requires
        0 <= n < 10000,
    ensures
        (n / 1000) * 1000 + ((n / 100) % 10) * 100 + ((n / 10) % 10) * 10 + (n % 10)
            == n,
        0 <= n / 1000 <= 9,
        0 <= (n / 100) % 10 <= 9,
        0 <= (n / 10) % 10 <= 9,
        0 <= n % 10 <= 9,
{
    lemma_fundamental_div_mod(n, 10);
    lemma_fundamental_div_mod(n / 10, 10);
    lemma_fundamental_div_mod(n / 100, 10);
    lemma_mod_bound(n, 10);
    lemma_mod_bound(n / 10, 10);
    lemma_mod_bound(n / 100, 10);
    lemma_div_denominator(n, 10, 10);
    lemma_div_denominator(n, 100, 10);
    lemma_div_le(n, 1000, 9);
    lemma_div_pos_is_pos(n, 1000);
    lemma_div_pos_is_pos(n, 100);
    lemma_div_pos_is_pos(n, 10);
}

proof fn lemma_tod_recompose(tod: int)
    requires
        0 <= tod < 86_400_000,
    ensures
        (tod / 3_600_000) * 3_600_000 + ((tod / 60_000) % 60) * 60_000 + ((tod / 1_000)
            % 60) * 1_000 + (tod % 1_000) == tod,
        0 <= tod / 3_600_000 < 24,
        0 <= (tod / 60_000) % 60 < 60,
        0 <= (tod / 1_000) % 60 < 60,
        0 <= tod % 1_000 < 1000,
{
    lemma_fundamental_div_mod(tod, 1_000);
    lemma_fundamental_div_mod(tod / 1_000, 60);
    lemma_fundamental_div_mod(tod / 60_000, 60);
    lemma_mod_bound(tod, 1_000);
    lemma_mod_bound(tod / 1_000, 60);
    lemma_mod_bound(tod / 60_000, 60);
    lemma_div_denominator(tod, 1_000, 60);
    lemma_div_denominator(tod, 60_000, 60);
    lemma_div_le(tod, 3_600_000, 23);
    lemma_div_pos_is_pos(tod, 3_600_000);
}

/// Law: the canonical textual form round-trips. Parsing what formatting
/// produces yields exactly the instant that was written; a stored timestamp
/// written by this library therefore never reads back as corrupt metadata.
pub proof fn lemma_format_parse_round_trip(ms: int)
    requires
        0 <= ms < max_ts_millis(),
    ensures
        spec_parse_ts(spec_format_ts(ms)) == Some(ms),
{
    let mpd = MILLIS_PER_DAY as int;
    let days = ms / mpd;
    let tod = ms % mpd;
    lemma_fundamental_div_mod(ms, mpd);
    lemma_mod_bound(ms, mpd);
    lemma_div_pos_is_pos(ms, mpd);
    if days >= days_before_year(10000) {
        assert(mpd * days >= mpd * days_before_year(10000));
        assert(false);
    }
    lemma_split_year_props(1970, days);
    let (y, doy) = split_year_from(1970, days);
    lemma_split_month_props(y, 1, doy);
    let (mo, dom) = split_month_from(y, 1, doy);
    let f = spec_format_ts(ms);
    lemma_four_digit_recompose(y);
    lemma_two_digit_recompose(mo);
    lemma_two_digit_recompose(dom);
    lemma_tod_recompose(tod);
    lemma_two_digit_recompose(tod / 3_600_000);
    lemma_two_digit_recompose((tod / 60_000) % 60);
    lemma_two_digit_recompose((tod / 1_000) % 60);
    lemma_three_digit_recompose(tod % 1_000);
    assert forall|k: int| 0 <= k <= 9 implies is_digit(digit_char(k)) && digit_val(
        digit_char(k),
    ) == k by {
        lemma_digit_round_trip(k);
    }
    assert(f.len() == 24);
    assert(f[0] == digit_char(y / 1000));
    assert(f[1] == digit_char((y / 100) % 10));
    assert(f[2] == digit_char((y / 10) % 10));
    assert(f[3] == digit_char(y % 10));
    assert(f[4] == '-');
    assert(f[5] == digit_char(mo / 10));
    assert(f[6] == digit_char(mo % 10));
    assert(f[7] == '-');
    assert(f[8] == digit_char(dom / 10));
    assert(f[9] == digit_char(dom % 10));
    assert(f[10] == 'T');
    assert(f[11] == digit_char((tod / 3_600_000) / 10));
    assert(f[12] == digit_char((tod / 3_600_000) % 10));
    assert(f[13] == ':');
    assert(f[14] == digit_char(((tod / 60_000) % 60) / 10));
    assert(f[15] == digit_char(((tod / 60_000) % 60) % 10));
    assert(f[16] == ':');
    assert(f[17] == digit_char(((tod / 1_000) % 60) / 10));
    assert(f[18] == digit_char(((tod / 1_000) % 60) % 10));
    assert(f[19] == '.');
    assert(f[20] == digit_char((tod % 1_000) / 100));
    assert(f[21] == digit_char(((tod % 1_000) / 10) % 10));
    assert(f[22] == digit_char((tod % 1_000) % 10));
    assert(f[23] == 'Z');
    assert(layout_ok(f));
    assert(parsed_year(f) == y);
    assert(parsed_month(f) == mo);
    assert(parsed_day(f) == dom);
    assert(parsed_hour(f) == tod / 3_600_000);
    assert(parsed_minute(f) == (tod / 60_000) % 60);
    assert(parsed_second(f) == (tod / 1_000) % 60);
    assert(parsed_milli(f) == tod % 1_000);
    assert(fields_in_range(f));
    assert(civil_day_number(y, mo, dom) == days);
    assert(spec_parse_ts(f) == Some(ms));
}

/// Relies on `chrono::Utc::now` and `DateTime::timestamp_millis`: a reading
/// of the system clock, of whose value nothing is promised.
#[verifier::external_body]
fn now_unix_millis() -> i64 {
    chrono::Utc::now().timestamp_millis()
}

impl Timestamp {
    /// The current instant per the system clock, clamped into range.
    pub fn now() -> (r: Timestamp)
        ensures
            r.wf(),
    {
        Timestamp::clamped_from_unix_millis(now_unix_millis())
    }
}

} // verus!
