//! The Gregorian calendar, and instants written as UTC dates.

use crate::number::{decimal, write_number};
use crate::text::{pad_left, padded_left};
use vstd::prelude::*;
use vstd::string::*;

verus! {

pub open spec fn is_leap(y: int) -> bool {
    y % 4 == 0 && (y % 100 != 0 || y % 400 == 0)
}

pub open spec fn year_len(y: int) -> int {
    if is_leap(y) {
        366
    } else {
        365
    }
}

pub open spec fn month_len(y: int, m: int) -> int {
    if m == 2 {
        if is_leap(y) {
            29
        } else {
            28
        }
    } else if m == 4 || m == 6 || m == 9 || m == 11 {
        30
    } else {
        31
    }
}

/// A day of the calendar from 1970 on.
pub open spec fn is_date(y: int, m: int, d: int) -> bool {
    &&& 1970 <= y
    &&& 1 <= m <= 12
    &&& 1 <= d <= month_len(y, m)
}

/// Days from 1970-01-01 to the first day of year `y`.
pub open spec fn days_before_year(y: int) -> int
    decreases y - 1970,
{
    if y <= 1970 {
        0
    } else {
        days_before_year(y - 1) + year_len(y - 1)
    }
}

/// Days from the first day of year `y` to the first day of its month `m`.
pub open spec fn days_before_month(y: int, m: int) -> int
    decreases m,
{
    if m <= 1 {
        0
    } else {
        days_before_month(y, m - 1) + month_len(y, m - 1)
    }
}

/// Days from 1970-01-01 to the given day.
pub open spec fn day_number(y: int, m: int, d: int) -> int {
    days_before_year(y) + days_before_month(y, m) + d - 1
}

/// The month and day that come `days` days after the first day of month `m` of year `y`.
pub open spec fn month_and_day(y: int, m: int, days: int) -> (int, int)
    decreases 12 - m,
{
    if m >= 12 || days < month_len(y, m) {
        (m, days + 1)
    } else {
        month_and_day(y, m + 1, days - month_len(y, m))
    }
}

/// The date that comes `days` days after the first day of year `y`.
pub open spec fn date_after(y: int, days: int) -> (int, int, int)
    decreases days,
{
    if days < year_len(y) {
        let (m, d) = month_and_day(y, 1, days);
        (y, m, d)
    } else {
        date_after(y + 1, days - year_len(y))
    }
}

/// The date that comes `days` days after 1970-01-01.
pub open spec fn date_of(days: int) -> (int, int, int) {
    date_after(1970, days)
}

/// `n` in decimal, with leading zeros up to `width` digits.
pub open spec fn zero_padded(n: int, width: int) -> Seq<char> {
    padded_left(decimal(n as nat), width, '0')
}

/// The date `days` days after 1970-01-01 as `YYYY-MM-DD`.
pub open spec fn date_text(days: int) -> Seq<char> {
    let (y, m, d) = date_of(days);
    zero_padded(y, 4) + "-"@ + zero_padded(m, 2) + "-"@ + zero_padded(d, 2)
}

/// The instant `secs` seconds after 1970-01-01 00:00 as `YYYY-MM-DD HH:MM`.
pub open spec fn minute_text(secs: int) -> Seq<char> {
    date_text(secs / 86400) + " "@ + zero_padded(secs % 86400 / 3600, 2) + ":"@ + zero_padded(
        secs % 3600 / 60,
        2,
    )
}

/// The instant `secs` seconds after 1970-01-01 00:00 as `YYYY-MM-DD HH:MM:SS`.
pub open spec fn second_text(secs: int) -> Seq<char> {
    minute_text(secs) + ":"@ + zero_padded(secs % 60, 2)
}

/// Leap years among the years 1 to `y`.
spec fn leaps(y: int) -> int {
    y / 4 - y / 100 + y / 400
}

proof fn lemma_leaps(y: int)
    requires
        y >= 1,
    ensures
        leaps(y) == leaps(y - 1) + (if is_leap(y) { 1int } else { 0int }),
{
}

proof fn lemma_days_before_year(y: int)
    requires
        y >= 1970,
    ensures
        days_before_year(y) == 365 * (y - 1970) + leaps(y - 1) - 477,
    decreases y,
{
    if y > 1970 {
        lemma_days_before_year(y - 1);
        lemma_leaps(y - 1);
    }
}

/// The day on which the year 10000 begins.
pub(crate) proof fn lemma_year_10000()
    ensures
        days_before_year(10000) == 2932897,
{
    lemma_days_before_year(10000);
}

proof fn lemma_days_before_month(y: int, m: int)
    requires
        1 <= m <= 13,
    ensures
        days_before_month(y, m) == (if m == 1 {
            0
        } else if m == 2 {
            31
        } else {
            (153 * (m - 3) + 2) / 5 + 59 + (if is_leap(y) { 1int } else { 0int })
        }),
    decreases m,
{
    if m > 1 {
        lemma_days_before_month(y, m - 1);
        assert(m == 2 || m == 3 || m == 4 || m == 5 || m == 6 || m == 7 || m == 8 || m == 9 || m
            == 10 || m == 11 || m == 12 || m == 13);
    }
}

proof fn lemma_days_before_month_grow(y: int, m: int, n: int)
    requires
        1 <= m < n,
    ensures
        days_before_month(y, m) + month_len(y, m) <= days_before_month(y, n),
    decreases n,
{
    if m + 1 < n {
        lemma_days_before_month_grow(y, m, n - 1);
    }
}

proof fn lemma_days_before_year_grow(y: int, z: int)
    requires
        1970 <= y < z,
    ensures
        days_before_year(y) + year_len(y) <= days_before_year(z),
    decreases z,
{
    if y + 1 < z {
        lemma_days_before_year_grow(y, z - 1);
    }
}

proof fn lemma_day_in_year(y: int, m: int, d: int)
    requires
        is_date(y, m, d),
    ensures
        0 <= days_before_month(y, m) + d - 1 < year_len(y),
{
    lemma_days_before_month(y, m);
    lemma_days_before_month(y, 13);
    if m < 13 {
        lemma_days_before_month_grow(y, m, 13);
    }
}

/// A later date has a greater day number, so no two dates share one.
pub proof fn day_numbers_follow_the_calendar(
    y1: int,
    m1: int,
    d1: int,
    y2: int,
    m2: int,
    d2: int,
)
    requires
        is_date(y1, m1, d1),
        is_date(y2, m2, d2),
    ensures
        day_number(y1, m1, d1) < day_number(y2, m2, d2) <==> (y1 < y2 || y1 == y2 && (m1 < m2 || m1
            == m2 && d1 < d2)),
        day_number(y1, m1, d1) == day_number(y2, m2, d2) <==> y1 == y2 && m1 == m2 && d1 == d2,
{
    lemma_day_in_year(y1, m1, d1);
    lemma_day_in_year(y2, m2, d2);
    if y1 < y2 {
        lemma_days_before_year_grow(y1, y2);
    } else if y2 < y1 {
        lemma_days_before_year_grow(y2, y1);
    } else if m1 < m2 {
        lemma_days_before_month_grow(y1, m1, m2);
    } else if m2 < m1 {
        lemma_days_before_month_grow(y1, m2, m1);
    }
}

proof fn lemma_month_and_day(y: int, m: int, days: int)
    requires
        1 <= m <= 12,
        0 <= days < days_before_month(y, 13) - days_before_month(y, m),
    ensures
        ({
            let (n, d) = month_and_day(y, m, days);
            &&& m <= n <= 12
            &&& 1 <= d <= month_len(y, n)
            &&& days_before_month(y, n) + d - 1 == days_before_month(y, m) + days
        }),
    decreases 12 - m,
{
    if m < 12 && days >= month_len(y, m) {
        lemma_month_and_day(y, m + 1, days - month_len(y, m));
    }
}

proof fn lemma_date_after(y: int, days: int)
    requires
        y >= 1970,
        days >= 0,
    ensures
        ({
            let (z, m, d) = date_after(y, days);
            &&& is_date(z, m, d)
            &&& day_number(z, m, d) == days_before_year(y) + days
        }),
    decreases days,
{
    if days < year_len(y) {
        lemma_days_before_month(y, 13);
        lemma_month_and_day(y, 1, days);
    } else {
        lemma_date_after(y + 1, days - year_len(y));
    }
}

/// Every number of days leads to a date, and that date lies that many days after 1970-01-01.
pub proof fn every_day_has_its_date(days: int)
    requires
        days >= 0,
    ensures
        ({
            let (y, m, d) = date_of(days);
            is_date(y, m, d) && day_number(y, m, d) == days
        }),
{
    lemma_date_after(1970, days);
}

/// Every date is the one that its day number leads to.
pub proof fn every_date_has_its_day(y: int, m: int, d: int)
    requires
        is_date(y, m, d),
    ensures
        date_of(day_number(y, m, d)) == (y, m, d),
        day_number(y, m, d) >= 0,
{
    lemma_day_in_year(y, m, d);
    lemma_days_before_year(y);
    if y > 1970 {
        lemma_days_before_year_grow(1970, y);
    }
    let n = day_number(y, m, d);
    every_day_has_its_date(n);
    let (y2, m2, d2) = date_of(n);
    day_numbers_follow_the_calendar(y, m, d, y2, m2, d2);
}

/// The year of a 400-year cycle that begins in March, from the day of the cycle.
proof fn lemma_year_of_era(doe: int, yoe: int)
    requires
        0 <= doe < 146097,
        yoe == (doe - doe / 1460 + doe / 36524 - doe / 146096) / 365,
    ensures
        0 <= yoe < 400,
        0 <= doe - (365 * yoe + yoe / 4 - yoe / 100),
        yoe < 399 ==> doe < 365 * (yoe + 1) + (yoe + 1) / 4 - (yoe + 1) / 100,
        yoe == 399 ==> doe - (365 * yoe + yoe / 4 - yoe / 100) <= 365,
{
    if doe == 146096 {
        assert(yoe == 399);
    } else {
        let b = doe / 36524;
        let r = doe % 36524;
        assert(0 <= b <= 3);
        let n = r / 1461;
        let s = r % 1461;
        assert(0 <= n <= 24);
        let e = (24 * b + n + s) / 1460;
        assert(doe / 1460 == 25 * b + n + e);
        assert(doe - doe / 1460 + b == 36500 * b + 1460 * n + (s - e));
        let q = (s - e) / 365;
        assert(0 <= q <= 3);
        assert(yoe == 100 * b + 4 * n + q);
        assert(s - 365 * q >= 0);
        assert(q < 3 ==> s - 365 * q < 365);
        assert(q == 3 ==> s - 365 * q <= 365);
        assert(yoe / 4 == 25 * b + n);
        assert(yoe / 100 == b) by {
            assert(4 * n + q < 100);
        }
        if q < 3 {
            assert((yoe + 1) / 4 == 25 * b + n);
            assert((yoe + 1) / 100 == b);
        } else {
            assert((yoe + 1) / 4 == 25 * b + n + 1);
            if n < 24 {
                assert((yoe + 1) / 100 == b);
            } else {
                assert((yoe + 1) / 100 == b + 1);
                assert(r < 36524);
            }
        }
    }
}

/// The date that comes `days` days after 1970-01-01, as year, month and day.
#[verifier::rlimit(50)]
pub fn civil_date(days: u64) -> (r: (u64, u64, u64))
    requires
        days <= u64::MAX / 86400,
    ensures
        (r.0 as int, r.1 as int, r.2 as int) == date_of(days as int),
        is_date(r.0 as int, r.1 as int, r.2 as int),
        day_number(r.0 as int, r.1 as int, r.2 as int) == days,
{
    let z: u64 = days + 719468;
    let era: u64 = z / 146097;
    let doe: u64 = z % 146097;
    let yoe: u64 = (doe - doe / 1460 + doe / 36524 - doe / 146096) / 365;
    proof {
        lemma_year_of_era(doe as int, yoe as int);
    }
    let y: u64 = yoe + era * 400;
    let doy: u64 = doe - (365 * yoe + yoe / 4 - yoe / 100);
    let mp: u64 = (5 * doy + 2) / 153;
    let d: u64 = doy - (153 * mp + 2) / 5 + 1;
    let m: u64 = if mp < 10 { mp + 3 } else { mp - 9 };
    let year: u64 = if m <= 2 { y + 1 } else { y };
    proof {
        assert(0 <= mp <= 11);
        assert(y / 4 == yoe / 4 + 100 * era);
        assert(y / 100 == yoe / 100 + 4 * era);
        assert(y / 400 == era);
        assert(z == 365 * y + leaps(y as int) + doy);
        lemma_leaps(y as int);
        lemma_leaps(y + 1);
        lemma_days_before_year(year as int);
        lemma_days_before_month(year as int, m as int);
        assert(day_number(year as int, m as int, d as int) == days);
        assert(is_date(year as int, m as int, d as int));
        every_date_has_its_day(year as int, m as int, d as int);
    }
    (year, m, d)
}

/// `n` in decimal, with leading zeros up to `width` digits.
fn write_padded(n: u64, width: usize) -> (r: String)
    ensures
        r@ == zero_padded(n as int, width as int),
{
    let digits = write_number(n);
    proof {
        reveal_strlit("0");
    }
    pad_left(digits.as_str(), width, "0")
}

/// The instant `secs` seconds after 1970-01-01 00:00 as `YYYY-MM-DD HH:MM`.
pub fn format_utc(secs: u64) -> (r: String)
    ensures
        r@ == minute_text(secs as int),
{
    let (y, m, d) = civil_date(secs / 86400);
    let mut r = write_padded(y, 4);
    r.append("-");
    r.append(write_padded(m, 2).as_str());
    r.append("-");
    r.append(write_padded(d, 2).as_str());
    r.append(" ");
    r.append(write_padded(secs % 86400 / 3600, 2).as_str());
    r.append(":");
    r.append(write_padded(secs % 3600 / 60, 2).as_str());
    r
}

/// The instant `secs` seconds after 1970-01-01 00:00 as `YYYY-MM-DD HH:MM:SS`.
pub fn format_utc_seconds(secs: u64) -> (r: String)
    ensures
        r@ == second_text(secs as int),
{
    let mut r = format_utc(secs);
    r.append(":");
    r.append(write_padded(secs % 60, 2).as_str());
    r
}

} // verus!
