//! The order of times and of the texts that they are written as.

use crate::calendar::{
    date_of, day_numbers_follow_the_calendar, days_before_month, every_date_has_its_day,
    every_day_has_its_date, is_date, lemma_year_10000, minute_text, zero_padded,
};
use crate::number::{decimal, digit, is_digit};
use crate::text::fill;
use vstd::prelude::*;

verus! {

/// `a` comes before `b` in the order of texts of the same length: where they first differ, its
/// character is the lesser.
pub open spec fn comes_before(a: Seq<char>, b: Seq<char>) -> bool {
    &&& a.len() == b.len()
    &&& exists|i: int|
        0 <= i < a.len() && (#[trigger] a[i] as int) < (b[i] as int) && a.take(i) == b.take(i)
}

proof fn lemma_before_with_tails(a: Seq<char>, b: Seq<char>, x: Seq<char>, y: Seq<char>)
    requires
        comes_before(a, b),
        x.len() == y.len(),
    ensures
        comes_before(a + x, b + y),
{
    let i = choose|i: int|
        0 <= i < a.len() && (#[trigger] a[i] as int) < (b[i] as int) && a.take(i) == b.take(i);
    assert((a + x)[i] == a[i] && (b + y)[i] == b[i]);
    assert((a + x).take(i) =~= a.take(i));
    assert((b + y).take(i) =~= b.take(i));
}

proof fn lemma_before_with_head(h: Seq<char>, a: Seq<char>, b: Seq<char>)
    requires
        comes_before(a, b),
    ensures
        comes_before(h + a, h + b),
{
    let i = choose|i: int|
        0 <= i < a.len() && (#[trigger] a[i] as int) < (b[i] as int) && a.take(i) == b.take(i);
    let k = h.len() + i;
    assert((h + a)[k] == a[i] && (h + b)[k] == b[i]);
    assert((h + a).take(k) =~= h + a.take(i));
    assert((h + b).take(k) =~= h + b.take(i));
}

proof fn lemma_two_digits(n: int)
    requires
        0 <= n < 100,
    ensures
        zero_padded(n, 2) == seq![digit(n / 10), digit(n % 10)],
{
    reveal_with_fuel(decimal, 3);
    if n < 10 {
        assert(decimal(n as nat) =~= seq![digit(n)]);
        assert(fill('0', 1) =~= seq![digit(0)]);
        assert(zero_padded(n, 2) =~= seq![digit(0), digit(n)]);
    } else {
        assert(decimal(n as nat) =~= seq![digit(n / 10), digit(n % 10)]);
    }
}

proof fn lemma_four_digits(n: int)
    requires
        1000 <= n < 10000,
    ensures
        zero_padded(n, 4) == zero_padded(n / 100, 2) + zero_padded(n % 100, 2),
{
    lemma_two_digits(n / 100);
    lemma_two_digits(n % 100);
    assert(decimal(n as nat) =~= decimal((n / 10) as nat).push(digit(n % 10)));
    assert(decimal((n / 10) as nat) =~= decimal((n / 100) as nat).push(digit(n / 10 % 10)));
    assert(decimal((n / 100) as nat) =~= decimal((n / 1000) as nat).push(digit(n / 100 % 10)));
    assert(decimal((n / 1000) as nat) =~= seq![digit(n / 1000)]);
    assert(n % 100 / 10 == n / 10 % 10 && n % 100 % 10 == n % 10);
    assert(n / 100 / 10 == n / 1000);
    assert(zero_padded(n, 4) =~= zero_padded(n / 100, 2) + zero_padded(n % 100, 2));
}

proof fn lemma_two_digits_in_order(m: int, n: int)
    requires
        0 <= m < n < 100,
    ensures
        comes_before(zero_padded(m, 2), zero_padded(n, 2)),
{
    lemma_two_digits(m);
    lemma_two_digits(n);
    let a = zero_padded(m, 2);
    let b = zero_padded(n, 2);
    let i: int = if m / 10 < n / 10 {
        0
    } else {
        1
    };
    assert(a.take(i) =~= b.take(i));
    assert((a[i] as int) < (b[i] as int));
}

proof fn lemma_four_digits_in_order(m: int, n: int)
    requires
        1000 <= m < n < 10000,
    ensures
        comes_before(zero_padded(m, 4), zero_padded(n, 4)),
{
    lemma_four_digits(m);
    lemma_four_digits(n);
    lemma_two_digits(m % 100);
    lemma_two_digits(n % 100);
    if m / 100 < n / 100 {
        lemma_two_digits_in_order(m / 100, n / 100);
        lemma_before_with_tails(
            zero_padded(m / 100, 2),
            zero_padded(n / 100, 2),
            zero_padded(m % 100, 2),
            zero_padded(n % 100, 2),
        );
    } else {
        lemma_two_digits_in_order(m % 100, n % 100);
        lemma_before_with_head(
            zero_padded(m / 100, 2),
            zero_padded(m % 100, 2),
            zero_padded(n % 100, 2),
        );
    }
}

/// The first second of the year 10000.
pub const YEAR_10000: u64 = 253402300800;

proof fn lemma_year_has_four_digits(days: int)
    requires
        0 <= days < YEAR_10000 / 86400,
    ensures
        1970 <= date_of(days).0 < 10000,
{
    let (y, m, d) = date_of(days);
    every_day_has_its_date(days);
    lemma_year_10000();
    every_date_has_its_day(10000, 1, 1);
    day_numbers_follow_the_calendar(y, m, d, 10000, 1, 1);
    assert(days_before_month(10000, 1) == 0);
}

/// The parts of a time text: the date, the hour and the minute.
proof fn lemma_parts(secs: int)
    requires
        0 <= secs < YEAR_10000,
    ensures
        ({
            let (y, m, d) = date_of(secs / 86400);
            &&& is_date(y, m, d) && y < 10000
            &&& zero_padded(y, 4).len() == 4
            &&& zero_padded(m, 2).len() == 2
            &&& zero_padded(d, 2).len() == 2
            &&& zero_padded(secs % 86400 / 3600, 2).len() == 2
            &&& zero_padded(secs % 3600 / 60, 2).len() == 2
            &&& minute_text(secs) == zero_padded(y, 4) + ("-"@ + (zero_padded(m, 2) + ("-"@ + (
            zero_padded(d, 2) + (" "@ + (zero_padded(secs % 86400 / 3600, 2) + (":"@ + zero_padded(
                secs % 3600 / 60,
                2,
            ))))))))
        }),
{
    let (y, m, d) = date_of(secs / 86400);
    every_day_has_its_date(secs / 86400);
    lemma_year_has_four_digits(secs / 86400);
    lemma_four_digits(y);
    lemma_two_digits(y / 100);
    lemma_two_digits(y % 100);
    lemma_two_digits(m);
    lemma_two_digits(d);
    lemma_two_digits(secs % 86400 / 3600);
    lemma_two_digits(secs % 3600 / 60);
    assert(minute_text(secs) =~= zero_padded(y, 4) + ("-"@ + (zero_padded(m, 2) + ("-"@ + (
    zero_padded(d, 2) + (" "@ + (zero_padded(secs % 86400 / 3600, 2) + (":"@ + zero_padded(
        secs % 3600 / 60,
        2,
    )))))))));
}

proof fn lemma_clock(t: int)
    requires
        0 <= t,
    ensures
        t / 60 == 1440 * (t / 86400) + 60 * (t % 86400 / 3600) + t % 3600 / 60,
        0 <= t / 86400,
        0 <= t % 86400 / 3600 < 24,
        0 <= t % 3600 / 60 < 60,
{
    let day = t / 86400;
    let rest = t % 86400;
    let hour = rest / 3600;
    let left = rest % 3600;
    assert(t == 3600 * (24 * day + hour) + left);
    assert(t % 3600 == left);
    let minute = left / 60;
    assert(t == 60 * (1440 * day + 60 * hour + minute) + left % 60);
}

proof fn lemma_clock_order(t: int, u: int)
    requires
        0 <= t,
        t / 60 < u / 60,
    ensures
        t / 86400 <= u / 86400,
        t / 86400 == u / 86400 ==> t % 86400 / 3600 < u % 86400 / 3600 || t % 86400 / 3600 == u
            % 86400 / 3600 && t % 3600 / 60 < u % 3600 / 60,
{
    lemma_clock(t);
    lemma_clock(u);
}

proof fn lemma_date_order(t: int, u: int)
    requires
        0 <= t <= u,
    ensures
        ({
            let (y1, m1, d1) = date_of(t);
            let (y2, m2, d2) = date_of(u);
            y1 < y2 || y1 == y2 && (m1 < m2 || m1 == m2 && (d1 < d2 || d1 == d2 && t == u))
        }),
{
    let (y1, m1, d1) = date_of(t);
    let (y2, m2, d2) = date_of(u);
    every_day_has_its_date(t);
    every_day_has_its_date(u);
    day_numbers_follow_the_calendar(y1, m1, d1, y2, m2, d2);
}

proof fn lemma_later_minute_comes_later(t: int, u: int)
    requires
        0 <= t,
        t / 60 < u / 60,
        u < YEAR_10000,
    ensures
        comes_before(minute_text(t), minute_text(u)),
{
    let (y1, m1, d1) = date_of(t / 86400);
    let (y2, m2, d2) = date_of(u / 86400);
    let (h1, n1) = (t % 86400 / 3600, t % 3600 / 60);
    let (h2, n2) = (u % 86400 / 3600, u % 3600 / 60);
    lemma_parts(t);
    lemma_parts(u);
    lemma_clock_order(t, u);
    lemma_date_order(t / 86400, u / 86400);
    let e1 = ":"@ + zero_padded(n1, 2);
    let e2 = ":"@ + zero_padded(n2, 2);
    let f1 = " "@ + (zero_padded(h1, 2) + e1);
    let f2 = " "@ + (zero_padded(h2, 2) + e2);
    let g1 = "-"@ + (zero_padded(d1, 2) + f1);
    let g2 = "-"@ + (zero_padded(d2, 2) + f2);
    let k1 = "-"@ + (zero_padded(m1, 2) + g1);
    let k2 = "-"@ + (zero_padded(m2, 2) + g2);
    if y1 < y2 {
        lemma_four_digits_in_order(y1, y2);
        lemma_before_with_tails(zero_padded(y1, 4), zero_padded(y2, 4), k1, k2);
    } else {
        assert(y1 == y2);
        if m1 < m2 {
            lemma_two_digits_in_order(m1, m2);
            lemma_before_with_tails(zero_padded(m1, 2), zero_padded(m2, 2), g1, g2);
        } else {
            assert(m1 == m2);
            if d1 < d2 {
                lemma_two_digits_in_order(d1, d2);
                lemma_before_with_tails(zero_padded(d1, 2), zero_padded(d2, 2), f1, f2);
            } else {
                assert(d1 == d2 && t / 86400 == u / 86400);
                if h1 < h2 {
                    lemma_two_digits_in_order(h1, h2);
                    lemma_before_with_tails(zero_padded(h1, 2), zero_padded(h2, 2), e1, e2);
                } else {
                    assert(h1 == h2 && n1 < n2);
                    lemma_two_digits_in_order(n1, n2);
                    lemma_before_with_head(":"@, zero_padded(n1, 2), zero_padded(n2, 2));
                    lemma_before_with_head(zero_padded(h1, 2), e1, e2);
                }
                lemma_before_with_head(" "@, zero_padded(h1, 2) + e1, zero_padded(h2, 2) + e2);
                lemma_before_with_head(zero_padded(d1, 2), f1, f2);
            }
            lemma_before_with_head("-"@, zero_padded(d1, 2) + f1, zero_padded(d2, 2) + f2);
            lemma_before_with_head(zero_padded(m1, 2), g1, g2);
        }
        lemma_before_with_head("-"@, zero_padded(m1, 2) + g1, zero_padded(m2, 2) + g2);
        lemma_before_with_head(zero_padded(y1, 4), k1, k2);
    }
}

proof fn lemma_same_minute(t: int, u: int)
    requires
        0 <= t,
        0 <= u,
        t / 60 == u / 60,
    ensures
        minute_text(t) == minute_text(u),
{
    lemma_clock(t);
    lemma_clock(u);
}

/// Before the year 10000, times compare as their texts do, and the same text means the same
/// minute.
pub proof fn times_compare_as_their_texts(t: int, u: int)
    requires
        0 <= t < YEAR_10000,
        0 <= u < YEAR_10000,
    ensures
        t / 60 < u / 60 <==> comes_before(minute_text(t), minute_text(u)),
        t / 60 == u / 60 <==> minute_text(t) == minute_text(u),
        t <= u ==> comes_before(minute_text(t), minute_text(u)) || minute_text(t) == minute_text(
            u,
        ),
{
    if t / 60 < u / 60 {
        lemma_later_minute_comes_later(t, u);
        lemma_not_both_ways(minute_text(t), minute_text(u));
    } else if u / 60 < t / 60 {
        lemma_later_minute_comes_later(u, t);
        lemma_not_both_ways(minute_text(u), minute_text(t));
    } else {
        lemma_same_minute(t, u);
        if comes_before(minute_text(t), minute_text(u)) {
            lemma_not_both_ways(minute_text(t), minute_text(u));
        }
    }
}

proof fn lemma_not_both_ways(a: Seq<char>, b: Seq<char>)
    requires
        comes_before(a, b),
    ensures
        a != b,
        !comes_before(b, a),
{
    let i = choose|i: int|
        0 <= i < a.len() && (#[trigger] a[i] as int) < (b[i] as int) && a.take(i) == b.take(i);
    if comes_before(b, a) {
        let j = choose|j: int|
            0 <= j < b.len() && (#[trigger] b[j] as int) < (a[j] as int) && b.take(j) == a.take(j);
        if i < j {
            assert(b.take(j)[i] == a.take(j)[i]);
        } else if j < i {
            assert(b.take(i)[j] == a.take(i)[j]);
        }
    }
}

/// Before the year 10000 a time is written in 16 characters of the shape `YYYY-MM-DD HH:MM`, and
/// they name a day of the calendar and a minute of that day.
pub proof fn times_have_one_shape(secs: int)
    requires
        0 <= secs < YEAR_10000,
    ensures
        minute_text(secs).len() == 16,
        forall|i: int|
            0 <= i < 16 ==> if i == 4 || i == 7 {
                #[trigger] minute_text(secs)[i] == '-'
            } else if i == 10 {
                minute_text(secs)[i] == ' '
            } else if i == 13 {
                minute_text(secs)[i] == ':'
            } else {
                is_digit(minute_text(secs)[i])
            },
        ({
            let (y, m, d) = date_of(secs / 86400);
            is_date(y, m, d) && y < 10000
        }),
        0 <= secs % 86400 / 3600 <= 23,
        0 <= secs % 3600 / 60 <= 59,
{
    let (y, m, d) = date_of(secs / 86400);
    lemma_parts(secs);
    lemma_four_digits(y);
    lemma_two_digits(y / 100);
    lemma_two_digits(y % 100);
    lemma_two_digits(m);
    lemma_two_digits(d);
    lemma_two_digits(secs % 86400 / 3600);
    lemma_two_digits(secs % 3600 / 60);
    reveal_strlit("-");
    reveal_strlit(" ");
    reveal_strlit(":");
    assert(minute_text(secs) =~= zero_padded(y, 4) + seq!['-'] + zero_padded(m, 2) + seq!['-']
        + zero_padded(d, 2) + seq![' '] + zero_padded(secs % 86400 / 3600, 2) + seq![':']
        + zero_padded(secs % 3600 / 60, 2));
}

} // verus!
