//! Unix seconds as calendar dates.
use crate::number::decimal;
use crate::number::digit_char;
use crate::number::is_digit;
use crate::number::law_next_digit_counts_tenfold;
use crate::number::law_one_digit_denotes_itself;
use crate::number::parsed_nat;
use crate::number::push_decimal;
use crate::text::lemma_text_less_at;
use crate::text::text_less;
use vstd::prelude::*;
use vstd::string::*;

verus! {

/// Whether `y` is a leap year of the Gregorian calendar.
pub open spec fn is_leap(y: int) -> bool {
    y % 4 == 0 && (y % 100 != 0 || y % 400 == 0)
}

/// How many leap years there are from the year 1 to before the year `y`.
pub open spec fn leap_years_before(y: int) -> int {
    (y - 1) / 4 - (y - 1) / 100 + (y - 1) / 400
}

/// The number of days from 1970-01-01 to the first day of the year `y`.
pub open spec fn days_before_year(y: int) -> int {
    365 * (y - 1970) + leap_years_before(y) - leap_years_before(1970)
}

/// The number of days of month `m`.
pub open spec fn days_in_month(y: int, m: int) -> int {
    if m == 2 {
        if is_leap(y) {
            29
        } else {
            28
        }
    } else if m == 4 || m == 6 || m == 9 || m == 11 {
        30
    } else {
        31
    }
}

/// The number of days of the year `y` before month `m`.
pub open spec fn days_before_month(y: int, m: int) -> int
    decreases m,
{
    if m <= 1 {
        0
    } else {
        days_before_month(y, m - 1) + days_in_month(y, m - 1)
    }
}

/// Whether there is such a day.
pub open spec fn valid_date(y: int, m: int, d: int) -> bool {
    1 <= m <= 12 && 1 <= d <= days_in_month(y, m)
}

/// The number of days from 1970-01-01 to a date.
pub open spec fn day_number(y: int, m: int, d: int) -> int {
    days_before_year(y) + days_before_month(y, m) + d - 1
}

/// Each year is as long as its months together.
pub proof fn law_year_lengths(y: int)
    ensures
        days_before_year(1970) == 0,
        days_before_year(y + 1) - days_before_year(y) == if is_leap(y) {
            366int
        } else {
            365
        },
        days_before_month(y, 12) + days_in_month(y, 12) == days_before_year(y + 1)
            - days_before_year(y),
{
    lemma_leap_step(y);
    lemma_month_starts(y);
}

proof fn lemma_leap_step(y: int)
    ensures
        leap_years_before(y + 1) == leap_years_before(y) + if is_leap(y) {
            1int
        } else {
            0
        },
{
    lemma_quotient_step(y, 4);
    lemma_quotient_step(y, 100);
    lemma_quotient_step(y, 400);
    assert(y % 400 == 0 ==> y % 100 == 0);
    assert(y % 100 == 0 ==> y % 4 == 0);
}

proof fn lemma_quotient_step(y: int, n: int)
    requires
        n == 4 || n == 100 || n == 400,
    ensures
        y / n == (y - 1) / n + if y % n == 0 {
            1int
        } else {
            0
        },
{
    if n == 4 {
        assert(y / 4 == (y - 1) / 4 + if y % 4 == 0 {
            1int
        } else {
            0
        });
    } else if n == 100 {
        assert(y / 100 == (y - 1) / 100 + if y % 100 == 0 {
            1int
        } else {
            0
        });
    } else {
        assert(y / 400 == (y - 1) / 400 + if y % 400 == 0 {
            1int
        } else {
            0
        });
    }
}

proof fn lemma_month_starts(y: int)
    ensures
        days_before_month(y, 1) == 0,
        days_before_month(y, 12) == 334 + if is_leap(y) {
            1int
        } else {
            0
        },
{
    let f = days_in_month(y, 2);
    assert(days_before_month(y, 1) == 0);
    assert(days_before_month(y, 2) == 31);
    assert(days_before_month(y, 3) == 31 + f);
    assert(days_before_month(y, 4) == 62 + f);
    assert(days_before_month(y, 5) == 92 + f);
    assert(days_before_month(y, 6) == 123 + f);
    assert(days_before_month(y, 7) == 153 + f);
    assert(days_before_month(y, 8) == 184 + f);
    assert(days_before_month(y, 9) == 215 + f);
    assert(days_before_month(y, 10) == 245 + f);
    assert(days_before_month(y, 11) == 276 + f);
    assert(days_before_month(y, 12) == 306 + f);
}

proof fn lemma_years_ordered(a: int, b: int)
    requires
        a <= b,
    ensures
        days_before_year(a) + 365 * (b - a) <= days_before_year(b),
    decreases b - a,
{
    if a < b {
        lemma_years_ordered(a, b - 1);
        law_year_lengths(b - 1);
    }
}

proof fn lemma_within_year(y: int, m: int, d: int)
    requires
        valid_date(y, m, d),
    ensures
        days_before_year(y) <= day_number(y, m, d) < days_before_year(y + 1),
{
    reveal_with_fuel(days_before_month, 13);
    law_year_lengths(y);
}

/// A day has one date.
pub proof fn law_date_is_unique(y1: int, m1: int, d1: int, y2: int, m2: int, d2: int)
    requires
        valid_date(y1, m1, d1),
        valid_date(y2, m2, d2),
        day_number(y1, m1, d1) == day_number(y2, m2, d2),
    ensures
        y1 == y2,
        m1 == m2,
        d1 == d2,
{
    lemma_within_year(y1, m1, d1);
    lemma_within_year(y2, m2, d2);
    if y1 < y2 {
        lemma_years_ordered(y1 + 1, y2);
    } else if y2 < y1 {
        lemma_years_ordered(y2 + 1, y1);
    }
    reveal_with_fuel(days_before_month, 13);
}

/// The date of a day, given by the number of days since 1970-01-01.
pub open spec fn date_of(days: int) -> (int, int, int) {
    choose|date: (int, int, int)| #[trigger]
        valid_date(date.0, date.1, date.2) && day_number(date.0, date.1, date.2) == days
}

proof fn lemma_date_of(days: int, y: int, m: int, d: int)
    requires
        valid_date(y, m, d),
        day_number(y, m, d) == days,
    ensures
        date_of(days) == (y, m, d),
{
    let date = (y, m, d);
    assert(valid_date(date.0, date.1, date.2));
    let other = date_of(days);
    law_date_is_unique(y, m, d, other.0, other.1, other.2);
}

/// The number of days before the month `mp` of a year that starts in March.
spec fn march_days(mp: int) -> int {
    (153 * mp + 2) / 5
}

/// Where the months from March to December lie in a year.
proof fn lemma_march_to_december(y: int, mp: int)
    requires
        0 <= mp <= 9,
    ensures
        days_before_month(y, mp + 3) == march_days(mp) + if is_leap(y) {
            60int
        } else {
            59
        },
        days_in_month(y, mp + 3) == march_days(mp + 1) - march_days(mp),
    decreases mp,
{
    if mp == 0 {
        reveal_with_fuel(days_before_month, 4);
    } else {
        lemma_march_to_december(y, mp - 1);
        assert(days_before_month(y, mp + 3) == days_before_month(y, mp + 2) + days_in_month(
            y,
            mp + 2,
        ));
    }
}

/// The day `doy` of a year that starts in March lies in the month `mp`.
proof fn lemma_month_of_day(doy: int, mp: int)
    requires
        0 <= doy <= 365,
        mp == (5 * doy + 2) / 153,
    ensures
        0 <= mp <= 11,
        march_days(mp) <= doy,
        mp < 11 ==> doy < march_days(mp + 1),
        march_days(10) == 306,
        march_days(11) == 337,
{
}

/// Where years that start in March lie among all days: how many days lie before
/// the 1st of March, and whether the February before the next one is long.
proof fn lemma_march_year_start(era: int, c: int, q: int, n: int)
    requires
        0 <= c <= 3,
        0 <= q <= 24,
        0 <= n <= 3,
    ensures
        ({
            let y = 400 * era + 100 * c + 4 * q + n;
            let start = 146097 * era + 36524 * c + 1461 * q + 365 * n - 719468;
            &&& days_before_year(y) + (if is_leap(y) {
                60int
            } else {
                59
            }) == start
            &&& days_before_year(y + 1) == start + 306
            &&& n == 3 && (q < 24 || c == 3) ==> is_leap(y + 1)
        }),
{
    let y = 400 * era + 100 * c + 4 * q + n;
    assert(y / 4 == 100 * era + 25 * c + q);
    assert(y / 100 == 4 * era + c);
    assert(y / 400 == era);
    assert(leap_years_before(1970) == 477);
    assert(leap_years_before(y + 1) == y / 4 - y / 100 + y / 400);
    law_year_lengths(y);
    if n == 3 {
        assert((y + 1) % 4 == 0);
        if q < 24 {
            assert((y + 1) % 100 != 0);
        } else if c == 3 {
            assert((y + 1) % 400 == 0);
        }
    }
}

/// The civil year in which the day `doy` of a year that starts in March falls,
/// and its place in that year.
proof fn lemma_march_year(era: int, c: int, q: int, n: int, doy: int, mp: int)
    requires
        0 <= c <= 3,
        0 <= q <= 24,
        0 <= n <= 3,
        0 <= doy <= 365,
        doy == 365 ==> n == 3 && (q < 24 || c == 3),
        mp == (5 * doy + 2) / 153,
    ensures
        ({
            let y = 400 * era + 100 * c + 4 * q + n;
            let d = doy - (153 * mp + 2) / 5 + 1;
            let m = if mp < 10 {
                mp + 3
            } else {
                mp - 9
            };
            let year = if m <= 2 {
                y + 1
            } else {
                y
            };
            &&& 0 <= mp <= 11
            &&& valid_date(year, m, d)
            &&& day_number(year, m, d) == 146097 * era + 36524 * c + 1461 * q + 365 * n + doy
                - 719468
        }),
{
    let y = 400 * era + 100 * c + 4 * q + n;
    lemma_march_year_start(era, c, q, n);
    lemma_month_of_day(doy, mp);
    if mp < 10 {
        lemma_march_to_december(y, mp);
    } else {
        assert(days_before_month(y + 1, 1) == 0);
        assert(days_before_month(y + 1, 2) == 31);
    }
}

/// The date of a day, given by the number of days since 1970-01-01.
#[verifier::rlimit(20)]
pub fn days_to_ymd(days: i64) -> (r: (i64, u32, u32))
    requires
        i64::MIN + 146096 <= days + 719468 <= i64::MAX,
    ensures
        valid_date(r.0 as int, r.1 as int, r.2 as int),
        day_number(r.0 as int, r.1 as int, r.2 as int) == days,
        (r.0 as int, r.1 as int, r.2 as int) == date_of(days as int),
{
    let z: i64 = days + 719468;
    let era: i64 = match z.checked_div_euclid(146097) {
        Some(e) => e,
        None => 0,
    };
    let doe: i64 = match z.checked_rem_euclid(146097) {
        Some(e) => e,
        None => 0,
    };
    assert(z == era * 146097 + doe && 0 <= doe < 146097);
    let doe: u64 = doe as u64;
    let c: u64 = if doe >= 3 * 36524 {
        3
    } else {
        doe / 36524
    };
    let in_century: u64 = doe - 36524 * c;
    let q: u64 = in_century / 1461;
    let in_four: u64 = in_century - 1461 * q;
    let n: u64 = if in_four >= 3 * 365 {
        3
    } else {
        in_four / 365
    };
    let doy: u64 = in_four - 365 * n;
    let mp: u64 = (5 * doy + 2) / 153;
    proof {
        lemma_march_year(era as int, c as int, q as int, n as int, doy as int, mp as int);
    }
    let d: u64 = doy - (153 * mp + 2) / 5 + 1;
    let m: u64 = if mp < 10 {
        mp + 3
    } else {
        mp - 9
    };
    let y: i64 = era * 400 + (100 * c + 4 * q + n) as i64;
    let year: i64 = if m <= 2 {
        y + 1
    } else {
        y
    };
    proof {
        lemma_date_of(days as int, year as int, m as int, d as int);
    }
    (year, m as u32, d as u32)
}

/// `n` zeros.
pub open spec fn zeros(n: nat) -> Seq<char> {
    Seq::new(n, |i: int| '0')
}

/// A number with leading zeros up to `width` characters; a sign counts as one
/// of them and stands first.
#[verifier::opaque]
pub open spec fn padded(n: int, width: nat) -> Seq<char> {
    if n < 0 {
        let digits = decimal((-n) as nat);
        seq!['-'] + zeros(
            if digits.len() + 1 < width {
                (width - digits.len() - 1) as nat
            } else {
                0
            },
        ) + digits
    } else {
        let digits = decimal(n as nat);
        zeros(
            if digits.len() < width {
                (width - digits.len()) as nat
            } else {
                0
            },
        ) + digits
    }
}

fn count_digits(n: u64) -> (r: u64)
    ensures
        r == decimal(n as nat).len(),
    decreases n,
{
    if n < 10 {
        1
    } else {
        proof {
            lemma_digit_bound((n / 10) as nat);
        }
        count_digits(n / 10) + 1
    }
}

proof fn lemma_digit_bound(n: nat)
    ensures
        decimal(n).len() <= n + 1,
    decreases n,
{
    if n >= 10 {
        lemma_digit_bound(n / 10);
    }
}

fn push_zeros(out: &mut String, n: usize)
    ensures
        final(out)@ == old(out)@ + zeros(n as nat),
{
    let mut i: usize = 0;
    assert(out@ + zeros(0) =~= out@);
    while i < n
        invariant
            i <= n,
            out@ == old(out)@ + zeros(i as nat),
        decreases n - i,
    {
        out.push('0');
        i += 1;
        assert(out@ =~= old(out)@ + zeros(i as nat));
    }
}

fn push_padded(out: &mut String, n: i64, width: usize)
    requires
        n > i64::MIN,
        width < 100,
    ensures
        final(out)@ == old(out)@ + padded(n as int, width as nat),
{
    let neg: bool = n < 0;
    let m: u64 = if neg {
        (-n) as u64
    } else {
        n as u64
    };
    let digits: u64 = count_digits(m);
    let taken: usize = if neg {
        out.push('-');
        1
    } else {
        0
    };
    let room: usize = width.saturating_sub(taken);
    if digits < room as u64 {
        push_zeros(out, room - digits as usize);
    } else {
        assert(zeros(0) =~= Seq::<char>::empty());
    }
    push_decimal(out, m);
    proof {
        reveal(padded);
    }
    assert(out@ =~= old(out)@ + padded(n as int, width as nat));
}

/// The text `YYYY-MM-DDTHH:MM:SSZ` of a moment, given by the seconds since
/// 1970-01-01T00:00:00Z.
pub open spec fn iso_text(unix_seconds: int) -> Seq<char> {
    let date = date_of(unix_seconds / 86400);
    let rem = unix_seconds % 86400;
    padded(date.0, 4) + "-"@ + padded(date.1, 2) + "-"@ + padded(date.2, 2) + "T"@ + padded(
        rem / 3600,
        2,
    ) + ":"@ + padded((rem % 3600) / 60, 2) + ":"@ + padded(rem % 60, 2) + "Z"@
}

/// The text of a moment, as ISO 8601 in UTC.
pub fn format_iso(unix_seconds: i64) -> (r: String)
    ensures
        r@ == iso_text(unix_seconds as int),
{
    let days: i64 = match unix_seconds.checked_div_euclid(86400) {
        Some(e) => e,
        None => 0,
    };
    let rem: i64 = match unix_seconds.checked_rem_euclid(86400) {
        Some(e) => e,
        None => 0,
    };
    assert(days == unix_seconds as int / 86400);
    assert(rem == unix_seconds as int % 86400);
    let rem: u64 = rem as u64;
    let (y, m, d) = days_to_ymd(days);
    proof {
        lemma_year_bound(days as int, y as int, m as int, d as int);
    }
    let mut out: String = String::new();
    push_padded(&mut out, y, 4);
    out.append("-");
    push_padded(&mut out, m as i64, 2);
    out.append("-");
    push_padded(&mut out, d as i64, 2);
    out.append("T");
    push_padded(&mut out, (rem / 3600) as i64, 2);
    out.append(":");
    push_padded(&mut out, ((rem % 3600) / 60) as i64, 2);
    out.append(":");
    push_padded(&mut out, (rem % 60) as i64, 2);
    out.append("Z");
    assert(out@ =~= iso_text(unix_seconds as int));
    out
}

/// Years of four hundred are leap years, other years of a hundred are not, and
/// of the rest every fourth is. Months have the lengths that they have.
pub proof fn law_lengths_of_months(y: int)
    ensures
        y % 400 == 0 ==> is_leap(y),
        y % 100 == 0 && y % 400 != 0 ==> !is_leap(y),
        y % 100 != 0 ==> (is_leap(y) <==> y % 4 == 0),
        days_in_month(y, 2) == 28 + if is_leap(y) {
            1int
        } else {
            0
        },
        days_in_month(y, 4) == 30 && days_in_month(y, 6) == 30,
        days_in_month(y, 9) == 30 && days_in_month(y, 11) == 30,
        days_in_month(y, 1) == 31 && days_in_month(y, 3) == 31 && days_in_month(y, 5) == 31,
        days_in_month(y, 7) == 31 && days_in_month(y, 8) == 31,
        days_in_month(y, 10) == 31 && days_in_month(y, 12) == 31,
{
}

/// Days are counted one by one from 1970-01-01: within a month, from the last
/// day of a month to the first of the next, and from year to year. The date of a
/// day is the one that is so counted.
pub proof fn law_days_are_counted_one_by_one(y: int, m: int, d: int, days: int)
    requires
        1 <= m <= 12,
    ensures
        day_number(1970, 1, 1) == 0,
        day_number(y, m, d + 1) == day_number(y, m, d) + 1,
        m < 12 ==> day_number(y, m + 1, 1) == day_number(y, m, days_in_month(y, m)) + 1,
        day_number(y + 1, 1, 1) == day_number(y, 12, 31) + 1,
        valid_date(y, m, d) <==> 1 <= d <= days_in_month(y, m),
        valid_date(date_of(days).0, date_of(days).1, date_of(days).2),
        1 <= date_of(days).1 <= 12,
        day_number(date_of(days).0, date_of(days).1, date_of(days).2) == days,
{
    law_year_lengths(y);
    lemma_date_exists(days);
    assert(days_before_month(y + 1, 1) == 0);
    assert(days_before_month(1970, 1) == 0);
    assert(days_before_month(y, m + 1) == days_before_month(y, m) + days_in_month(y, m));
}

/// The first second of the year 0.
pub const FIRST_FOUR_DIGIT_SECOND: i64 = -62_167_219_200;

/// The last second of the year 9999.
pub const LAST_FOUR_DIGIT_SECOND: i64 = 253_402_300_799;

/// Every day has a date.
proof fn lemma_date_exists(days: int)
    ensures
        ({
            let date = date_of(days);
            valid_date(date.0, date.1, date.2) && day_number(date.0, date.1, date.2) == days
        }),
{
    let z = days + 719468;
    let era = z / 146097;
    let doe = z % 146097;
    let c = if doe >= 3 * 36524 {
        3
    } else {
        doe / 36524
    };
    let in_century = doe - 36524 * c;
    let q = in_century / 1461;
    let in_four = in_century - 1461 * q;
    let n = if in_four >= 3 * 365 {
        3
    } else {
        in_four / 365
    };
    let doy = in_four - 365 * n;
    let mp = (5 * doy + 2) / 153;
    lemma_march_year(era, c, q, n, doy, mp);
    let y = 400 * era + 100 * c + 4 * q + n;
    let m = if mp < 10 {
        mp + 3
    } else {
        mp - 9
    };
    let year = if m <= 2 {
        y + 1
    } else {
        y
    };
    lemma_date_of(days, year, m, doy - (153 * mp + 2) / 5 + 1);
}

/// The date of a day of the years 0 to 9999.
proof fn lemma_four_digit_year(days: int)
    requires
        -719528 <= days <= 2932896,
    ensures
        0 <= date_of(days).0 <= 9999,
        1 <= date_of(days).1 <= 12,
        1 <= date_of(days).2 <= 31,
{
    lemma_date_exists(days);
    let date = date_of(days);
    lemma_within_year(date.0, date.1, date.2);
    assert(days_before_year(0) == -719528);
    assert(days_before_year(10000) == 2932897);
    if date.0 < 0 {
        lemma_years_ordered(date.0 + 1, 0);
    } else if date.0 > 9999 {
        lemma_years_ordered(10000, date.0);
    }
}

/// Dates are ordered as their days are.
proof fn lemma_dates_ordered(a: int, b: int)
    requires
        a < b,
    ensures
        ({
            let d = date_of(a);
            let e = date_of(b);
            d.0 < e.0 || (d.0 == e.0 && (d.1 < e.1 || (d.1 == e.1 && d.2 < e.2)))
        }),
{
    lemma_date_exists(a);
    lemma_date_exists(b);
    let d = date_of(a);
    let e = date_of(b);
    lemma_within_year(d.0, d.1, d.2);
    lemma_within_year(e.0, e.1, e.2);
    if e.0 < d.0 {
        lemma_years_ordered(e.0 + 1, d.0);
    } else if e.0 == d.0 && e.1 < d.1 {
        lemma_months_ordered(d.0, e.1, d.1);
    }
}

proof fn lemma_months_ordered(y: int, a: int, b: int)
    requires
        1 <= a < b,
    ensures
        days_before_month(y, a) + days_in_month(y, a) <= days_before_month(y, b),
    decreases b,
{
    if a < b - 1 {
        lemma_months_ordered(y, a, b - 1);
    }
}

proof fn lemma_two_digits(n: int)
    requires
        0 <= n < 100,
    ensures
        padded(n, 2) == seq![digit_char((n / 10) as nat), digit_char((n % 10) as nat)],
{
    reveal(padded);
    reveal_with_fuel(decimal, 2);
    assert(padded(n, 2) =~= seq![digit_char((n / 10) as nat), digit_char((n % 10) as nat)]);
}

proof fn lemma_four_digits(n: int)
    requires
        0 <= n < 10000,
    ensures
        padded(n, 4) == seq![
            digit_char((n / 1000) as nat),
            digit_char((n / 100 % 10) as nat),
            digit_char((n / 10 % 10) as nat),
            digit_char((n % 10) as nat),
        ],
{
    reveal(padded);
    reveal_with_fuel(decimal, 4);
    let d = seq![
        digit_char((n / 1000) as nat),
        digit_char((n / 100 % 10) as nat),
        digit_char((n / 10 % 10) as nat),
        digit_char((n % 10) as nat),
    ];
    assert((n / 10) / 10 == n / 100);
    assert((n / 100) / 10 == n / 1000);
    assert(padded(n, 4) =~= d);
}

/// The characters of the text of a moment in the years 0 to 9999.
proof fn lemma_iso_chars(s: int)
    requires
        FIRST_FOUR_DIGIT_SECOND <= s <= LAST_FOUR_DIGIT_SECOND,
    ensures
        ({
            let t = iso_text(s);
            let date = date_of(s / 86400);
            let rem = s % 86400;
            &&& t.len() == 20
            &&& t.subrange(0, 4) == padded(date.0, 4)
            &&& t[4] == '-'
            &&& t.subrange(5, 7) == padded(date.1, 2)
            &&& t[7] == '-'
            &&& t.subrange(8, 10) == padded(date.2, 2)
            &&& t[10] == 'T'
            &&& t.subrange(11, 13) == padded(rem / 3600, 2)
            &&& t[13] == ':'
            &&& t.subrange(14, 16) == padded((rem % 3600) / 60, 2)
            &&& t[16] == ':'
            &&& t.subrange(17, 19) == padded(rem % 60, 2)
            &&& t[19] == 'Z'
        }),
{
    let date = date_of(s / 86400);
    let rem = s % 86400;
    lemma_four_digit_year(s / 86400);
    lemma_four_digits(date.0);
    lemma_two_digits(date.1);
    lemma_two_digits(date.2);
    lemma_two_digits(rem / 3600);
    lemma_two_digits((rem % 3600) / 60);
    lemma_two_digits(rem % 60);
    lemma_iso_parts(
        padded(date.0, 4),
        padded(date.1, 2),
        padded(date.2, 2),
        padded(rem / 3600, 2),
        padded((rem % 3600) / 60, 2),
        padded(rem % 60, 2),
    );
}

/// Where the parts of a text `YYYY-MM-DDTHH:MM:SSZ` lie.
proof fn lemma_iso_parts(
    y: Seq<char>,
    m: Seq<char>,
    d: Seq<char>,
    h: Seq<char>,
    min: Seq<char>,
    s: Seq<char>,
)
    requires
        y.len() == 4,
        m.len() == 2 && d.len() == 2,
        h.len() == 2 && min.len() == 2 && s.len() == 2,
    ensures
        ({
            let t = y + "-"@ + m + "-"@ + d + "T"@ + h + ":"@ + min + ":"@ + s + "Z"@;
            &&& t.len() == 20
            &&& t.subrange(0, 4) == y
            &&& t[4] == '-'
            &&& t.subrange(5, 7) == m
            &&& t[7] == '-'
            &&& t.subrange(8, 10) == d
            &&& t[10] == 'T'
            &&& t.subrange(11, 13) == h
            &&& t[13] == ':'
            &&& t.subrange(14, 16) == min
            &&& t[16] == ':'
            &&& t.subrange(17, 19) == s
            &&& t[19] == 'Z'
        }),
{
    reveal_strlit("-");
    reveal_strlit("T");
    reveal_strlit(":");
    reveal_strlit("Z");
    let t = y + "-"@ + m + "-"@ + d + "T"@ + h + ":"@ + min + ":"@ + s + "Z"@;
    assert(t.subrange(0, 4) =~= y);
    assert(t.subrange(5, 7) =~= m);
    assert(t.subrange(8, 10) =~= d);
    assert(t.subrange(11, 13) =~= h);
    assert(t.subrange(14, 16) =~= min);
    assert(t.subrange(17, 19) =~= s);
}

/// The text of a moment in the years 0 to 9999 has the twenty characters
/// `YYYY-MM-DDTHH:MM:SSZ`, with digits in place of the letters but `T` and `Z`.
pub proof fn law_iso_text_has_one_form(s: int)
    requires
        FIRST_FOUR_DIGIT_SECOND <= s <= LAST_FOUR_DIGIT_SECOND,
    ensures
        iso_text(s).len() == 20,
        iso_text(s)[4] == '-' && iso_text(s)[7] == '-' && iso_text(s)[10] == 'T',
        iso_text(s)[13] == ':' && iso_text(s)[16] == ':' && iso_text(s)[19] == 'Z',
        forall|i: int|
            0 <= i < 19 && i != 4 && i != 7 && i != 10 && i != 13 && i != 16 ==> is_digit(
                #[trigger] iso_text(s)[i],
            ),
{
    let t = iso_text(s);
    let date = date_of(s / 86400);
    let rem = s % 86400;
    lemma_iso_chars(s);
    lemma_four_digit_year(s / 86400);
    lemma_four_digits(date.0);
    lemma_two_digits(date.1);
    lemma_two_digits(date.2);
    lemma_two_digits(rem / 3600);
    lemma_two_digits((rem % 3600) / 60);
    lemma_two_digits(rem % 60);
    assert forall|i: int|
        0 <= i < 19 && i != 4 && i != 7 && i != 10 && i != 13 && i != 16 implies is_digit(
        #[trigger] t[i],
    ) by {
        if i < 4 {
            assert(t[i] == t.subrange(0, 4)[i]);
        } else if i < 7 {
            assert(t[i] == t.subrange(5, 7)[i - 5]);
        } else if i < 10 {
            assert(t[i] == t.subrange(8, 10)[i - 8]);
        } else if i < 13 {
            assert(t[i] == t.subrange(11, 13)[i - 11]);
        } else if i < 16 {
            assert(t[i] == t.subrange(14, 16)[i - 14]);
        } else {
            assert(t[i] == t.subrange(17, 19)[i - 17]);
        }
    }
}

proof fn lemma_digits_read(a: int, b: int)
    requires
        0 <= a < 10,
        0 <= b < 10,
    ensures
        parsed_nat(seq![digit_char(a as nat), digit_char(b as nat)], 9999) == Some(
            (10 * a + b) as nat,
        ),
        '0' <= digit_char(a as nat) <= '9',
        '0' <= digit_char(b as nat) <= '9',
{
    let x = digit_char(a as nat);
    let y = digit_char(b as nat);
    law_one_digit_denotes_itself(x, 0, 9999);
    let one = seq![x];
    assert(one[0] == x);
    law_next_digit_counts_tenfold(one, y, 0, 9999);
    assert(one.push(y) =~= seq![x, y]);
}

proof fn lemma_two_digits_read(n: int)
    requires
        0 <= n < 100,
    ensures
        parsed_nat(padded(n, 2), 9999) == Some(n as nat),
{
    lemma_two_digits(n);
    lemma_digits_read(n / 10, n % 10);
}

proof fn lemma_four_digits_read(y: int)
    requires
        0 <= y < 10000,
    ensures
        parsed_nat(padded(y, 4), 9999) == Some(y as nat),
{
    lemma_four_digits(y);
    lemma_split_digits(y);
    lemma_digits_read(y / 1000, y / 100 % 10);
    lemma_digits_read(y / 10 % 10, y % 10);
    let top = seq![digit_char((y / 1000) as nat), digit_char((y / 100 % 10) as nat)];
    let c = digit_char((y / 10 % 10) as nat);
    let e = digit_char((y % 10) as nat);
    assert forall|i: int| 0 <= i < top.len() implies '0' <= #[trigger] top[i] <= '9' by {}
    law_next_digit_counts_tenfold(top, c, 0, 9999);
    let three = top.push(c);
    assert forall|i: int| 0 <= i < three.len() implies '0' <= #[trigger] three[i] <= '9' by {
        if i < 2 {
            assert(three[i] == top[i]);
        }
    }
    law_next_digit_counts_tenfold(three, e, 0, 9999);
    assert(three.push(e) =~= padded(y, 4));
}

/// The text of a moment in the years 0 to 9999 tells the moment: its numbers are
/// the year, month, day, hour, minute and second, and together they make up the
/// seconds.
pub proof fn law_iso_text_tells_the_moment(s: int) -> (parts: (int, int, int, int, int, int))
    requires
        FIRST_FOUR_DIGIT_SECOND <= s <= LAST_FOUR_DIGIT_SECOND,
    ensures
        iso_text(s).len() == 20,
        parsed_nat(iso_text(s).subrange(0, 4), 9999) == Some(parts.0 as nat),
        parsed_nat(iso_text(s).subrange(5, 7), 9999) == Some(parts.1 as nat),
        parsed_nat(iso_text(s).subrange(8, 10), 9999) == Some(parts.2 as nat),
        parsed_nat(iso_text(s).subrange(11, 13), 9999) == Some(parts.3 as nat),
        parsed_nat(iso_text(s).subrange(14, 16), 9999) == Some(parts.4 as nat),
        parsed_nat(iso_text(s).subrange(17, 19), 9999) == Some(parts.5 as nat),
        0 <= parts.0 <= 9999,
        1 <= parts.1 <= 12,
        1 <= parts.2 <= days_in_month(parts.0, parts.1),
        0 <= parts.3 < 24,
        0 <= parts.4 < 60,
        0 <= parts.5 < 60,
        s == 86400 * day_number(parts.0, parts.1, parts.2) + 3600 * parts.3 + 60 * parts.4
            + parts.5,
{
    let t = iso_text(s);
    let days = s / 86400;
    let rem = s % 86400;
    let date = date_of(days);
    let h = rem / 3600;
    let min = (rem % 3600) / 60;
    let sec = rem % 60;
    lemma_clock(rem);
    lemma_days_in_range(s);
    assert(t.len() == 20 && t.subrange(0, 4) == padded(date.0, 4) && t.subrange(5, 7) == padded(
        date.1,
        2,
    ) && t.subrange(8, 10) == padded(date.2, 2) && t.subrange(11, 13) == padded(h, 2)
        && t.subrange(14, 16) == padded(min, 2) && t.subrange(17, 19) == padded(sec, 2)) by {
        lemma_iso_chars(s);
    }
    assert(0 <= date.0 <= 9999 && 1 <= date.1 <= 12 && 1 <= date.2 <= 31) by {
        lemma_four_digit_year(days);
    }
    assert(1 <= date.2 <= days_in_month(date.0, date.1) && day_number(date.0, date.1, date.2)
        == days) by {
        lemma_date_exists(days);
    }
    assert(parsed_nat(padded(date.0, 4), 9999) == Some(date.0 as nat)) by {
        lemma_four_digits_read(date.0);
    }
    assert(parsed_nat(padded(date.1, 2), 9999) == Some(date.1 as nat)) by {
        lemma_two_digits_read(date.1);
    }
    assert(parsed_nat(padded(date.2, 2), 9999) == Some(date.2 as nat)) by {
        lemma_two_digits_read(date.2);
    }
    assert(parsed_nat(padded(h, 2), 9999) == Some(h as nat)) by {
        lemma_two_digits_read(h);
    }
    assert(parsed_nat(padded(min, 2), 9999) == Some(min as nat)) by {
        lemma_two_digits_read(min);
    }
    assert(parsed_nat(padded(sec, 2), 9999) == Some(sec as nat)) by {
        lemma_two_digits_read(sec);
    }
    (date.0, date.1, date.2, h, min, sec)
}

proof fn lemma_clock(rem: int)
    requires
        0 <= rem < 86400,
    ensures
        rem == 3600 * (rem / 3600) + 60 * ((rem % 3600) / 60) + rem % 60,
        0 <= rem / 3600 < 24,
        0 <= (rem % 3600) / 60 < 60,
        0 <= rem % 60 < 60,
{
}

proof fn lemma_days_in_range(s: int)
    requires
        FIRST_FOUR_DIGIT_SECOND <= s <= LAST_FOUR_DIGIT_SECOND,
    ensures
        -719528 <= s / 86400 <= 2932896,
        s == 86400 * (s / 86400) + s % 86400,
        0 <= s % 86400 < 86400,
{
}

proof fn lemma_two_digit_field(s: Seq<char>, t: Seq<char>, at: int, n: int, m: int)
    requires
        0 <= at,
        at + 2 <= s.len(),
        at + 2 <= t.len(),
        forall|i: int| 0 <= i < at ==> #[trigger] s[i] == t[i],
        s.subrange(at, at + 2) == padded(n, 2),
        t.subrange(at, at + 2) == padded(m, 2),
        0 <= n < m < 100,
    ensures
        text_less(s, t),
{
    lemma_two_digits(n);
    lemma_two_digits(m);
    assert(s[at] == s.subrange(at, at + 2)[0] && s[at + 1] == s.subrange(at, at + 2)[1]);
    assert(t[at] == t.subrange(at, at + 2)[0] && t[at + 1] == t.subrange(at, at + 2)[1]);
    if n / 10 < m / 10 {
        lemma_text_less_at(s, t, at);
    } else {
        lemma_text_less_at(s, t, at + 1);
    }
}

proof fn lemma_four_digit_field(s: Seq<char>, t: Seq<char>, n: int, m: int)
    requires
        4 <= s.len(),
        4 <= t.len(),
        s.subrange(0, 4) == padded(n, 4),
        t.subrange(0, 4) == padded(m, 4),
        0 <= n < m < 10000,
    ensures
        text_less(s, t),
{
    lemma_four_digits(n);
    lemma_four_digits(m);
    assert(s[0] == s.subrange(0, 4)[0] && s[1] == s.subrange(0, 4)[1]);
    assert(s[2] == s.subrange(0, 4)[2] && s[3] == s.subrange(0, 4)[3]);
    assert(t[0] == t.subrange(0, 4)[0] && t[1] == t.subrange(0, 4)[1]);
    assert(t[2] == t.subrange(0, 4)[2] && t[3] == t.subrange(0, 4)[3]);
    lemma_split_digits(n);
    lemma_split_digits(m);
    if n / 1000 != m / 1000 {
        lemma_text_less_at(s, t, 0);
    } else if n / 100 % 10 != m / 100 % 10 {
        lemma_text_less_at(s, t, 1);
    } else if n / 10 % 10 != m / 10 % 10 {
        lemma_text_less_at(s, t, 2);
    } else {
        lemma_text_less_at(s, t, 3);
    }
}

proof fn lemma_split_digits(n: int)
    requires
        0 <= n < 10000,
    ensures
        n == 1000 * (n / 1000) + 100 * (n / 100 % 10) + 10 * (n / 10 % 10) + n % 10,
        0 <= n / 1000 < 10,
{
    assert((n / 10) / 10 == n / 100);
    assert((n / 100) / 10 == n / 1000);
}

/// In the years 0 to 9999 the texts of moments are ordered as the moments are,
/// so that no two moments share one.
pub proof fn law_iso_texts_are_ordered(a: int, b: int)
    requires
        FIRST_FOUR_DIGIT_SECOND <= a < b <= LAST_FOUR_DIGIT_SECOND,
    ensures
        text_less(iso_text(a), iso_text(b)),
        iso_text(a) != iso_text(b),
{
    let s = iso_text(a);
    let t = iso_text(b);
    lemma_iso_chars(a);
    lemma_iso_chars(b);
    lemma_four_digit_year(a / 86400);
    lemma_four_digit_year(b / 86400);
    let d = date_of(a / 86400);
    let e = date_of(b / 86400);
    let p = a % 86400;
    let q = b % 86400;
    if a / 86400 < b / 86400 {
        lemma_dates_ordered(a / 86400, b / 86400);
    }
    if d.0 < e.0 {
        lemma_four_digit_field(s, t, d.0, e.0);
    } else {
        lemma_same_field(s, t, 0, 4);
        if d.1 < e.1 {
            lemma_two_digit_field(s, t, 5, d.1, e.1);
        } else {
            lemma_same_field(s, t, 5, 7);
            if d.2 < e.2 {
                lemma_two_digit_field(s, t, 8, d.2, e.2);
            } else {
                lemma_same_field(s, t, 8, 10);
                assert(p < q);
                if p / 3600 < q / 3600 {
                    lemma_two_digit_field(s, t, 11, p / 3600, q / 3600);
                } else {
                    lemma_same_field(s, t, 11, 13);
                    if (p % 3600) / 60 < (q % 3600) / 60 {
                        lemma_two_digit_field(s, t, 14, (p % 3600) / 60, (q % 3600) / 60);
                    } else {
                        lemma_same_field(s, t, 14, 16);
                        lemma_two_digit_field(s, t, 17, p % 60, q % 60);
                    }
                }
            }
        }
    }
    crate::text::lemma_text_less_total(s, s);
}

proof fn lemma_same_field(s: Seq<char>, t: Seq<char>, from: int, to: int)
    requires
        0 <= from <= to <= s.len(),
        to <= t.len(),
        s.subrange(from, to) == t.subrange(from, to),
    ensures
        forall|i: int| from <= i < to ==> #[trigger] s[i] == t[i],
{
    assert forall|i: int| from <= i < to implies #[trigger] s[i] == t[i] by {
        assert(s[i] == s.subrange(from, to)[i - from]);
        assert(t[i] == t.subrange(from, to)[i - from]);
    }
}

proof fn lemma_year_bound(days: int, y: int, m: int, d: int)
    requires
        valid_date(y, m, d),
        day_number(y, m, d) == days,
        days > -200_000_000_000_000,
    ensures
        y > i64::MIN,
{
    lemma_within_year(y, m, d);
    if y < -1_000_000_000_000 {
        lemma_years_ordered(y + 1, 1970);
        law_year_lengths(1969);
    }
}

} // verus!
