//! Civil dates as days and seconds of Unix time.

use vstd::prelude::*;

use crate::text;

verus! {

/// Whether a year of the Gregorian calendar has a leap day.
pub open spec fn is_leap(y: int) -> bool {
    y % 4 == 0 && (y % 100 != 0 || y % 400 == 0)
}

/// Days in the years before `y`, counted from the start of year 1.
pub open spec fn days_before_year(y: int) -> int {
    365 * (y - 1) + (y - 1) / 4 - (y - 1) / 100 + (y - 1) / 400
}

/// Days in the months before `m`.
pub open spec fn days_before_month(m: int, leap: bool) -> int {
    let l: int = if leap { 1 } else { 0 };
    if m <= 1 {
        0
    } else if m == 2 {
        31
    } else if m == 3 {
        59 + l
    } else if m == 4 {
        90 + l
    } else if m == 5 {
        120 + l
    } else if m == 6 {
        151 + l
    } else if m == 7 {
        181 + l
    } else if m == 8 {
        212 + l
    } else if m == 9 {
        243 + l
    } else if m == 10 {
        273 + l
    } else if m == 11 {
        304 + l
    } else {
        334 + l
    }
}

/// Days from 1970-01-01 to day `d` of month `m` of year `y`.
pub open spec fn civil_days(y: int, m: int, d: int) -> int {
    days_before_year(y) - days_before_year(1970) + days_before_month(m, is_leap(y)) + d - 1
}

/// Whether this is a date of the Gregorian calendar.
pub open spec fn is_date(y: int, m: int, d: int) -> bool {
    1 <= m <= 12 && 1 <= d <= if m == 12 {
        31
    } else {
        days_before_month(m + 1, is_leap(y)) - days_before_month(m, is_leap(y))
    }
}

/// The date that many days from 1970-01-01.
pub open spec fn date_of(days: int) -> (int, int, int) {
    choose|p: (int, int, int)| #[trigger]
        is_date(p.0, p.1, p.2) && civil_days(p.0, p.1, p.2) == days
}

/// Law: every day is exactly one date.
pub proof fn law_day_is_one_date(days: int, y: int, m: int, d: int)
    requires
        is_date(y, m, d),
        civil_days(y, m, d) == days,
    ensures
        date_of(days) == (y, m, d),
{
    lemma_date_exists(days);
    let (y2, m2, d2) = date_of(days);
    assert(is_date(y2, m2, d2) && civil_days(y2, m2, d2) == days);
    lemma_within_year(y, m, d);
    lemma_within_year(y2, m2, d2);
    if y < y2 {
        lemma_years_ascend(y + 1, y2);
    } else if y2 < y {
        lemma_years_ascend(y2 + 1, y);
    }
    assert(y == y2);
}

/// A date lies within its year.
proof fn lemma_within_year(y: int, m: int, d: int)
    requires
        is_date(y, m, d),
    ensures
        days_before_year(y) - days_before_year(1970) <= civil_days(y, m, d) < days_before_year(
            y + 1,
        ) - days_before_year(1970),
{
    lemma_year_length(y);
}

proof fn lemma_years_ascend(a: int, b: int)
    requires
        a <= b,
    ensures
        days_before_year(a) <= days_before_year(b),
    decreases b - a,
{
    if a < b {
        lemma_years_ascend(a, b - 1);
        lemma_year_length(b - 1);
    }
}

/// Every day is a date.
pub proof fn lemma_date_exists(days: int)
    ensures
        ({
            let (y, m, d) = date_of(days);
            is_date(y, m, d) && civil_days(y, m, d) == days
        }),
    decreases if days < 0 { -days } else { days },
{
    if days == 0 {
        let p = (1970int, 1int, 1int);
        assert(is_date(p.0, p.1, p.2) && civil_days(p.0, p.1, p.2) == 0);
    } else if days > 0 {
        lemma_date_exists(days - 1);
        let (y, m, d) = date_of(days - 1);
        lemma_year_length(y);
        let p = if is_date(y, m, d + 1) {
            (y, m, d + 1)
        } else if m < 12 {
            (y, m + 1, 1int)
        } else {
            (y + 1, 1int, 1int)
        };
        assert(is_date(p.0, p.1, p.2) && civil_days(p.0, p.1, p.2) == days);
    } else {
        lemma_date_exists(days + 1);
        let (y, m, d) = date_of(days + 1);
        lemma_year_length(y - 1);
        let p = if d > 1 {
            (y, m, d - 1)
        } else if m > 1 {
            (
                y,
                m - 1,
                days_before_month(m, is_leap(y)) - days_before_month(m - 1, is_leap(y)),
            )
        } else {
            (y - 1, 12int, 31int)
        };
        assert(is_date(p.0, p.1, p.2) && civil_days(p.0, p.1, p.2) == days);
    }
}

/// Month `m` counted from March: 0 for March and 11 for February. What lies
/// before the year wraps toward zero.
pub open spec fn march_month(m: int) -> int {
    if m >= -9 {
        (m + 9) % 12
    } else {
        -((-9 - m) % 12)
    }
}

/// Days before a month counted from March, rounded toward zero.
pub open spec fn days_before_march_month(mp: int) -> int {
    if mp >= 0 {
        (153 * mp + 2) / 5
    } else {
        -((-153 * mp - 2) / 5)
    }
}

/// Days from 1970-01-01, counting years from March: month `mp` is 0 for March
/// and 11 for February.
pub open spec fn march_days(y: int, mp: int, d: int) -> int {
    let era = y / 400;
    let yoe = y - era * 400;
    let doy = days_before_march_month(mp) + d - 1;
    era * 146097 + yoe * 365 + yoe / 4 - yoe / 100 + doy - 719468
}

/// The year and month counted from March, and back.
pub proof fn lemma_march_days(y: int, m: int, d: int)
    requires
        1 <= m <= 12,
    ensures
        civil_days(y, m, d) == march_days(
            if m <= 2 {
                y - 1
            } else {
                y
            },
            march_month(m),
            d,
        ),
{
    let p = if m <= 2 {
        y - 1
    } else {
        y
    };
    let era = p / 400;
    let yoe = p - era * 400;
    assert(0 <= yoe < 400);
    assert(p / 4 == 100 * era + yoe / 4);
    assert(p / 100 == 4 * era + yoe / 100);
    let cum = 365 * p + p / 4 - p / 100 + p / 400;
    assert(era * 146097 + yoe * 365 + yoe / 4 - yoe / 100 == cum);
    let leap: int = if is_leap(y) { 1 } else { 0 };
    assert(days_before_year(y + 1) - days_before_year(y) == 365 + leap) by {
        lemma_year_length(y);
    }
    assert(days_before_year(1970) == 719162);
}

proof fn lemma_year_length(y: int)
    ensures
        days_before_year(y + 1) - days_before_year(y) == if is_leap(y) {
            366int
        } else {
            365int
        },
{
    let k = y / 400;
    let r = y - k * 400;
    assert(0 <= r < 400);
    assert(y / 4 == 100 * k + r / 4);
    assert(y / 100 == 4 * k + r / 100);
    let (y1, r1) = (y - 1, r - 1);
    assert(y1 / 4 == 100 * k + r1 / 4);
    assert(y1 / 100 == 4 * k + r1 / 100);
    assert(y1 / 400 == k + r1 / 400);
}

fn march(y: i64, mp: i64, d: i64) -> (r: i64)
    requires
        -25_000_000_000_000_001 <= y <= 25_000_000_000_000_000,
        -12 < mp < 12,
        i64::MIN + 1000 <= d <= i64::MAX - 1_000_000,
        i64::MIN <= 86400 * march_days(y as int, mp as int, d as int) <= i64::MAX,
    ensures
        r == march_days(y as int, mp as int, d as int),
{
    let era: i64 = if y >= 0 {
        (y as u64 / 400) as i64
    } else {
        -(((399 - y) as u64 / 400) as i64)
    };
    proof {
        if y < 0 {
            let n = 399 - y;
            let q = n / 400;
            assert(400 * q <= n < 400 * q + 400);
            assert((y as int) / 400 == -q) by (nonlinear_arith)
                requires
                    400 * q <= 399 - y < 400 * q + 400,
            ;
        }
    }
    let yoe: i64 = y - era * 400;
    let before: i64 = if mp >= 0 {
        ((153 * mp + 2) as u64 / 5) as i64
    } else {
        -(((-153 * mp - 2) as u64 / 5) as i64)
    };
    let doy: i64 = before + d - 1;
    let doe: i64 = yoe * 365 + (yoe as u64 / 4) as i64 - (yoe as u64 / 100) as i64 + doy;
    era * 146097 + doe - 719468
}

/// Seconds of Unix time at the start of a day, for months counted 1 to 12.
/// The numbers are not checked; months beyond twelve wrap within the year.
pub fn date_to_unix(y: i64, m: i64, d: i64) -> (r: Option<i64>)
    requires
        -25_000_000_000_000_000 <= y <= 25_000_000_000_000_000,
        m <= i64::MAX - 9,
        i64::MIN + 1000 <= d <= i64::MAX - 1_000_000,
        i64::MIN <= 86400 * march_days(
            if m <= 2 {
                y - 1
            } else {
                y as int
            },
            march_month(m as int),
            d as int,
        ) <= i64::MAX,
    ensures
        r matches Some(t) && t == 86400 * march_days(
            if m <= 2 {
                y - 1
            } else {
                y as int
            },
            march_month(m as int),
            d as int,
        ),
        1 <= m <= 12 ==> r == Some((86400 * civil_days(y as int, m as int, d as int)) as i64),
{
    let y2: i64 = if m <= 2 {
        y - 1
    } else {
        y
    };
    let mp: i64 = if m >= -9 {
        ((m + 9) as u64 % 12) as i64
    } else {
        -(((-9 - m) as u64 % 12) as i64)
    };
    let days: i64 = march(y2, mp, d);
    proof {
        if 1 <= m <= 12 {
            lemma_march_days(y as int, m as int, d as int);
        }
    }
    Some(days * 86400)
}

/// The date an ISO 8601 text begins with, `YYYY-MM-DD` in digits, as `(year,
/// month, day)`.
pub open spec fn iso_date(s: Seq<char>) -> Option<(int, int, int)> {
    let t = text::trimmed(s);
    if t.len() < 10 || t[4] != '-' || t[7] != '-' {
        None
    } else {
        let (ys, ms, ds) = (t.subrange(0, 4), t.subrange(5, 7), t.subrange(8, 10));
        let (y, m, d) = (text::dec_value(ys), text::dec_value(ms), text::dec_value(ds));
        if text::is_digits(ys) && text::is_digits(ms) && text::is_digits(ds) && 1 <= m <= 12 && 1
            <= d <= 31 {
            Some((y as int, m as int, d as int))
        } else {
            None
        }
    }
}

/// Seconds of Unix time at the start of the day that an ISO 8601 text begins
/// with.
pub fn iso_date_to_unix(iso: &str) -> (r: Option<i64>)
    ensures
        match r {
            Some(t) => iso_date(iso@) matches Some((y, m, d)) && t == 86400 * civil_days(y, m, d),
            None => iso_date(iso@) is None,
        },
{
    let cs = text::chars(iso);
    let t = text::trim(cs.as_slice());
    if t.len() < 10 || t[4] != '-' || t[7] != '-' {
        return None;
    }
    let ys = text::cut(t.as_slice(), 0, 4);
    let ms = text::cut(t.as_slice(), 5, 7);
    let ds = text::cut(t.as_slice(), 8, 10);
    match (few_digits(ys.as_slice()), few_digits(ms.as_slice()), few_digits(ds.as_slice())) {
        (Some(y), Some(m), Some(d)) => {
            if m < 1 || m > 12 || d < 1 || d > 31 {
                return None;
            }
            date_to_unix(y, m, d)
        },
        _ => None,
    }
}

/// Reads up to four digits.
fn few_digits(s: &[char]) -> (r: Option<i64>)
    requires
        0 < s@.len() <= 4,
    ensures
        match r {
            Some(v) => text::is_digits(s@) && v == text::dec_value(s@) && v < 10000,
            None => !text::is_digits(s@),
        },
{
    if s[0] == '+' {
        assert(!text::is_digit(s@[0]));
        return None;
    }
    proof {
        if text::is_digits(s@) {
            lemma_dec_bound(s@);
            assert(pow10(0) == 1);
            assert(pow10(1) == 10);
            assert(pow10(2) == 100);
            assert(pow10(3) == 1000);
            assert(pow10(4) == 10000);
        }
    }
    match text::parse_number(s, 9999) {
        Some(v) => Some(v as i64),
        None => None,
    }
}

spec fn pow10(n: nat) -> nat
    decreases n,
{
    if n == 0 {
        1
    } else {
        10 * pow10((n - 1) as nat)
    }
}

proof fn lemma_dec_bound(s: Seq<char>)
    requires
        forall|i: int| 0 <= i < s.len() ==> text::is_digit(#[trigger] s[i]),
    ensures
        text::dec_value(s) < pow10(s.len()),
    decreases s.len(),
{
    if s.len() > 0 {
        assert(text::is_digit(s[s.len() - 1]));
        lemma_dec_bound(s.drop_last());
    }
}

/// Law: a year has 365 days, and one more where it is a leap year; every four
/// hundred years have the same days, with 97 leap years among them.
pub proof fn law_year_lengths(y: int)
    ensures
        days_before_year(y + 1) - days_before_year(y) == if is_leap(y) {
            366int
        } else {
            365
        },
        days_before_year(y + 400) - days_before_year(y) == 400 * 365 + 97,
        is_leap(y + 400) == is_leap(y),
{
    lemma_year_length(y);
    let p = y - 1;
    assert((p + 400) / 4 == p / 4 + 100);
    assert((p + 400) / 100 == p / 100 + 4);
    assert((p + 400) / 400 == p / 400 + 1);
}

/// Law: which years are leap years: every fourth, but of the hundredth years
/// only every fourth.
pub proof fn law_leap_years(k: int)
    ensures
        !is_leap(4 * k + 1) && !is_leap(4 * k + 2) && !is_leap(4 * k + 3),
        k % 25 != 0 ==> is_leap(4 * k),
        is_leap(100 * k) <==> k % 4 == 0,
{
    assert((100 * k) % 4 == 0 && (100 * k) % 100 == 0);
    assert((100 * k) % 400 == 0 <==> k % 4 == 0);
    assert((4 * k) % 100 == 0 <==> k % 25 == 0);
}

/// Law: the lengths of the months: thirty days have the fourth, the sixth, the
/// ninth and the eleventh, the second has 28 or in a leap year 29, and all
/// others have 31.
pub proof fn law_month_lengths(y: int, m: int, d: int)
    requires
        1 <= m <= 12,
    ensures
        is_date(y, m, d) <==> 1 <= d <= if m == 4 || m == 6 || m == 9 || m == 11 {
            30int
        } else if m == 2 {
            if is_leap(y) {
                29int
            } else {
                28
            }
        } else {
            31
        },
        !is_date(y, 0, d) && !is_date(y, 13, d),
{
}

/// Law: days count from the first of January 1970, and the next date is the
/// next day, over the ends of months and years.
pub proof fn law_next_day(y: int, m: int, d: int)
    requires
        is_date(y, m, d),
    ensures
        civil_days(1970, 1, 1) == 0,
        is_date(y, m, d + 1) ==> civil_days(y, m, d + 1) == civil_days(y, m, d) + 1,
        !is_date(y, m, d + 1) && m < 12 ==> civil_days(y, m + 1, 1) == civil_days(y, m, d) + 1,
        !is_date(y, m, d + 1) && m == 12 ==> civil_days(y + 1, 1, 1) == civil_days(y, m, d) + 1,
{
    lemma_year_length(y);
}

/// Law: a date in digits reads back: four for the year, two for the month and
/// two for the day, with dashes between; what follows does not count. A month
/// or a day out of range is no date.
pub proof fn law_iso_date_reads_back(
    ys: Seq<char>,
    ms: Seq<char>,
    ds: Seq<char>,
    tail: Seq<char>,
)
    requires
        ys.len() == 4 && text::is_digits(ys),
        ms.len() == 2 && text::is_digits(ms),
        ds.len() == 2 && text::is_digits(ds),
        tail.len() > 0 ==> !text::is_space(tail.last()),
    ensures
        iso_date(ys + seq!['-'] + ms + seq!['-'] + ds + tail) == if 1 <= text::dec_value(ms) <= 12
            && 1 <= text::dec_value(ds) <= 31 {
            Some(
                (
                    text::dec_value(ys) as int,
                    text::dec_value(ms) as int,
                    text::dec_value(ds) as int,
                ),
            )
        } else {
            None
        },
{
    let s = ys + seq!['-'] + ms + seq!['-'] + ds + tail;
    assert(s[0] == ys[0]);
    assert(text::is_digit(ys[0]));
    assert(!text::is_space(s[0]));
    assert(text::is_digit(ds[1]));
    assert(!text::is_space(s.last())) by {
        if tail.len() == 0 {
            assert(s.last() == ds[1]);
        } else {
            assert(s.last() == tail.last());
        }
    }
    assert(text::trimmed(s) == s);
    assert(s.subrange(0, 4) =~= ys);
    assert(s.subrange(5, 7) =~= ms);
    assert(s.subrange(8, 10) =~= ds);
}

} // verus!
