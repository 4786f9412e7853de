//! Labels for saved versions: a version id that is a millisecond timestamp is
//! shown as a UTC date and time. Dates are those of the Gregorian calendar;
//! the computation uses the Fliegel & Van Flandern conversion, which is
//! proved here to give them.

use vstd::prelude::*;
use crate::text::{decimal, parse_unsigned, push_decimal, spec_parse_u64, string_from_chars};

verus! {

/// (year, month, day) of the day `days` after 1970-01-01 by the Fliegel &
/// Van Flandern conversion from the Julian day number; for `days >= 0` this
/// is the Gregorian date (see `law_civil_date_is_gregorian`).
pub open spec fn civil_date(days: int) -> (int, int, int) {
    let jd = days + 2440588;
    let l1 = jd + 68569;
    let n = (4 * l1) / 146097;
    let l2 = l1 - (146097 * n + 3) / 4;
    let i = (4000 * (l2 + 1)) / 1461001;
    let l3 = l2 - (1461 * i) / 4 + 31;
    let j = (80 * l3) / 2447;
    let day = l3 - (2447 * j) / 80;
    let l4 = j / 11;
    let month = j + 2 - 12 * l4;
    let year = 100 * (n - 49) + i + l4;
    (year, month, day)
}

/// The most days a month has: 29 for February, 30 for April, June,
/// September and November, 31 for the others.
spec fn month_length(month: int) -> int {
    if month == 2 {
        29
    } else if month == 4 || month == 6 || month == 9 || month == 11 {
        30
    } else {
        31
    }
}

/// The conversion gives a month between 1 and 12 and a day between 1 and the
/// month's longest length.
proof fn lemma_civil_date_ranges(days: nat)
    ensures
        1 <= civil_date(days as int).1 <= 12,
        1 <= civil_date(days as int).2 <= month_length(civil_date(days as int).1),
{
    let jd = days + 2440588;
    let l1 = jd + 68569;
    let n = (4 * l1) / 146097;
    assert(146097 * n <= 4 * l1 < 146097 * n + 146097);
    let l2 = l1 - (146097 * n + 3) / 4;
    assert(0 <= l2 <= 36524);
    let i = (4000 * (l2 + 1)) / 1461001;
    assert(1461001 * i <= 4000 * (l2 + 1) < 1461001 * i + 1461001);
    assert(0 <= i <= 99);
    let l3 = l2 - (1461 * i) / 4 + 31;
    assert(31 <= l3 <= 396);
    let j = (80 * l3) / 2447;
    assert(2447 * j <= 80 * l3 < 2447 * j + 2447);
    assert(1 <= j <= 12);
    let day = l3 - (2447 * j) / 80;
    let l4 = j / 11;
    let month = j + 2 - 12 * l4;
    assert(civil_date(days as int).1 == month && civil_date(days as int).2 == day);
    if j == 1 {
        assert(month == 3 && 1 <= day <= 31);
    } else if j == 2 {
        assert(month == 4 && 1 <= day <= 30);
    } else if j == 3 {
        assert(month == 5 && 1 <= day <= 31);
    } else if j == 4 {
        assert(month == 6 && 1 <= day <= 30);
    } else if j == 5 {
        assert(month == 7 && 1 <= day <= 31);
    } else if j == 6 {
        assert(month == 8 && 1 <= day <= 31);
    } else if j == 7 {
        assert(month == 9 && 1 <= day <= 30);
    } else if j == 8 {
        assert(month == 10 && 1 <= day <= 31);
    } else if j == 9 {
        assert(month == 11 && 1 <= day <= 30);
    } else if j == 10 {
        assert(month == 12 && 1 <= day <= 31);
    } else if j == 11 {
        assert(month == 1 && 1 <= day <= 31);
    } else {
        assert(month == 2 && 1 <= day <= 29);
    }
}

/// A Gregorian leap year.
pub open spec fn is_leap(y: int) -> bool {
    y % 4 == 0 && (y % 100 != 0 || y % 400 == 0)
}

/// Days in month `m` (1 to 12) of year `y`.
pub open spec fn days_in_month(y: int, m: int) -> int {
    if m == 2 {
        if is_leap(y) {
            29
        } else {
            28
        }
    } else if m == 4 || m == 6 || m == 9 || m == 11 {
        30
    } else {
        31
    }
}

pub open spec fn year_length(y: int) -> int {
    if is_leap(y) {
        366
    } else {
        365
    }
}

/// Days from 1 January 1970 to 1 January of year `y` (negative before 1970).
pub open spec fn days_before_year(y: int) -> int
    decreases (if y >= 1970 {
        y - 1970
    } else {
        1970 - y
    }),
{
    if y > 1970 {
        days_before_year(y - 1) + year_length(y - 1)
    } else if y < 1970 {
        days_before_year(y + 1) - year_length(y)
    } else {
        0
    }
}

/// Days from 1 January of year `y` to the first of month `m`.
pub open spec fn days_before_month(y: int, m: int) -> int
    decreases m,
{
    if m <= 1 {
        0
    } else {
        days_before_month(y, m - 1) + days_in_month(y, m - 1)
    }
}

/// Days from 1970-01-01 to the date `y`-`m`-`d`.
pub open spec fn epoch_day(y: int, m: int, d: int) -> int {
    days_before_year(y) + days_before_month(y, m) + d - 1
}

/// Leap years from year 1 to year `x`.
spec fn leap_count(x: int) -> int {
    x / 4 - x / 100 + x / 400
}

proof fn lemma_leap_count_step(y: int)
    ensures
        leap_count(y) - leap_count(y - 1) == if is_leap(y) {
            1int
        } else {
            0int
        },
{
    assert(y / 4 - (y - 1) / 4 == if y % 4 == 0 { 1int } else { 0int });
    assert(y / 100 - (y - 1) / 100 == if y % 100 == 0 { 1int } else { 0int });
    assert(y / 400 - (y - 1) / 400 == if y % 400 == 0 { 1int } else { 0int });
    if y % 100 == 0 {
        assert(y % 4 == 0);
    }
    if y % 400 == 0 {
        assert(y % 100 == 0);
    }
}

proof fn lemma_days_before_year(y: int)
    ensures
        days_before_year(y) == 365 * (y - 1970) + leap_count(y - 1) - 477,
    decreases (if y >= 1970 {
        y - 1970
    } else {
        1970 - y
    }),
{
    if y > 1970 {
        lemma_days_before_year(y - 1);
        lemma_leap_count_step(y - 1);
    } else if y < 1970 {
        lemma_days_before_year(y + 1);
        lemma_leap_count_step(y);
    } else {
        assert(leap_count(1969) == 477);
    }
}

proof fn lemma_days_before_month(y: int, m: int)
    requires
        1 <= m <= 12,
    ensures
        days_before_month(y, m) == if m == 1 {
            0
        } else if m == 2 {
            31
        } else {
            59 + (153 * (m - 3) + 2) / 5 + if is_leap(y) {
                1int
            } else {
                0int
            }
        },
    decreases m,
{
    if m > 1 {
        lemma_days_before_month(y, m - 1);
    }
}

proof fn lemma_century_split(k: int, i: int)
    requires
        0 <= i < 100,
    ensures
        (100 * k + i) / 4 == 25 * k + i / 4,
        (100 * k + i) / 100 == k,
        (100 * k + i) / 400 == k / 4,
{
    let q = k / 4;
    let r = k % 4;
    assert(k == 4 * q + r);
    assert(100 * k + i == 400 * q + (100 * r + i));
    assert(0 <= 100 * r + i < 400);
}

/// The date that the label of a day shows is that day's date in the
/// Gregorian calendar: a valid date (leap years included) lying exactly
/// `days` days after 1970-01-01.
pub proof fn law_civil_date_is_gregorian(days: nat)
    ensures
        ({
            let (y, m, d) = civil_date(days as int);
            &&& 1 <= m <= 12
            &&& 1 <= d <= days_in_month(y, m)
            &&& epoch_day(y, m, d) == days
        }),
{
    let jd = days + 2440588;
    let l1 = jd + 68569;
    let n = (4 * l1) / 146097;
    assert(146097 * n <= 4 * l1 < 146097 * n + 146097);
    let l2 = l1 - (146097 * n + 3) / 4;
    assert(0 <= l2 <= 36524);
    let i = (4000 * (l2 + 1)) / 1461001;
    assert(1461001 * i <= 4000 * (l2 + 1) < 1461001 * i + 1461001);
    assert(0 <= i <= 99);
    let l3 = l2 - (1461 * i) / 4 + 31;
    assert(31 <= l3 <= 396);
    let j = (80 * l3) / 2447;
    assert(2447 * j <= 80 * l3 < 2447 * j + 2447);
    assert(1 <= j <= 12);
    let day = l3 - (2447 * j) / 80;
    let l4 = j / 11;
    let month = j + 2 - 12 * l4;
    let k = n - 49;
    let year = 100 * k + i + l4;
    assert(civil_date(days as int) == (year, month, day));
    // The century and year within it.
    assert((146097 * n + 3) / 4 == 36524 * n + (n + 3) / 4);
    assert((n + 3) / 4 == k / 4 + 13);
    assert((1461 * i) / 4 == 365 * i + i / 4);
    let yp = 100 * k + i;
    lemma_century_split(k, i);
    assert(leap_count(yp) == 24 * k + i / 4 + k / 4);
    lemma_days_before_year(year);
    lemma_days_before_month(year, month);
    lemma_leap_count_step(yp);
    lemma_civil_date_ranges(days);
    if j == 12 && day == 29 {
        // The last day of a February: the century-relative year is one
        // before a multiple of four, and a century end only in a 400-year.
        assert(l2 == 365 * i + i / 4 + 365);
        assert(i % 4 == 3);
        if i == 99 {
            let q = n / 4;
            let r = n % 4;
            assert(n == 4 * q + r);
            assert(r == 0);
            assert((k + 1) % 4 == 0);
            assert(year == 100 * (k + 1));
        }
    }
}

/// A valid calendar date: a month from 1 to 12 and a day within the month.
pub open spec fn valid_date(y: int, m: int, d: int) -> bool {
    1 <= m <= 12 && 1 <= d <= days_in_month(y, m)
}

/// The Gregorian calendar date (year, month, day) `days` days after
/// 1970-01-01.
pub open spec fn gregorian_date(days: int) -> (int, int, int) {
    choose|date: (int, int, int)|
        valid_date(date.0, date.1, date.2) && epoch_day(date.0, date.1, date.2) == days
}

proof fn lemma_days_before_year_step(y: int)
    ensures
        days_before_year(y + 1) == days_before_year(y) + year_length(y),
{
}

proof fn lemma_days_before_year_increasing(a: int, b: int)
    requires
        a < b,
    ensures
        days_before_year(a) + year_length(a) <= days_before_year(b),
    decreases b - a,
{
    lemma_days_before_year_step(a);
    if a + 1 < b {
        lemma_days_before_year_increasing(a + 1, b);
    }
}

proof fn lemma_days_before_month_increasing(y: int, a: int, b: int)
    requires
        1 <= a < b,
    ensures
        days_before_month(y, a) + days_in_month(y, a) <= days_before_month(y, b),
    decreases b - a,
{
    if a + 1 < b {
        lemma_days_before_month_increasing(y, a + 1, b);
    }
}

/// A valid date lies in its year, and in its month of that year.
proof fn lemma_date_within(y: int, m: int, d: int)
    requires
        valid_date(y, m, d),
    ensures
        days_before_year(y) <= epoch_day(y, m, d) < days_before_year(y) + year_length(y),
        days_before_month(y, m) <= days_before_month(y, m) + d - 1 < days_before_month(y, m)
            + days_in_month(y, m),
{
    lemma_days_before_month(y, m);
    if m < 12 {
        lemma_days_before_month(y, m + 1);
    }
}

/// Two valid dates with the same day count are the same date.
proof fn lemma_date_unique(a: (int, int, int), b: (int, int, int))
    requires
        valid_date(a.0, a.1, a.2),
        valid_date(b.0, b.1, b.2),
        epoch_day(a.0, a.1, a.2) == epoch_day(b.0, b.1, b.2),
    ensures
        a == b,
{
    lemma_date_within(a.0, a.1, a.2);
    lemma_date_within(b.0, b.1, b.2);
    if a.0 < b.0 {
        lemma_days_before_year_increasing(a.0, b.0);
    } else if b.0 < a.0 {
        lemma_days_before_year_increasing(b.0, a.0);
    }
    assert(a.0 == b.0);
    if a.1 < b.1 {
        lemma_days_before_month_increasing(a.0, a.1, b.1);
    } else if b.1 < a.1 {
        lemma_days_before_month_increasing(a.0, b.1, a.1);
    }
}

/// The conversion the label uses gives the Gregorian date.
pub proof fn lemma_gregorian_is_civil(days: nat)
    ensures
        gregorian_date(days as int) == civil_date(days as int),
{
    law_civil_date_is_gregorian(days);
    let c = civil_date(days as int);
    assert(valid_date(c.0, c.1, c.2) && epoch_day(c.0, c.1, c.2) == days);
    let g = gregorian_date(days as int);
    lemma_date_unique(g, c);
}

/// `n` in decimal, padded with leading zeros to at least `w` digits.
pub open spec fn padded(n: nat, w: nat) -> Seq<char> {
    if decimal(n).len() >= w {
        decimal(n)
    } else {
        Seq::new((w - decimal(n).len()) as nat, |i: int| '0') + decimal(n)
    }
}

/// `YYYY-MM-DD HH:MM:SS` (UTC) for `secs` seconds after the Unix epoch.
pub open spec fn spec_format_unix_secs(secs: nat) -> Seq<char> {
    let days = secs / 86400;
    let t = secs % 86400;
    let date = gregorian_date(days as int);
    padded(date.0 as nat, 4) + seq!['-'] + padded(date.1 as nat, 2) + seq!['-'] + padded(
        date.2 as nat,
        2,
    ) + seq![' '] + padded(t / 3600, 2) + seq![':'] + padded((t % 3600) / 60, 2) + seq![':']
        + padded(t % 60, 2)
}

fn push_padded(out: &mut Vec<char>, n: u64, w: usize)
    ensures
        final(out)@ == old(out)@ + padded(n as nat, w as nat),
{
    let mut digits: Vec<char> = Vec::new();
    push_decimal(&mut digits, n as u128);
    assert(digits@ =~= decimal(n as nat));
    if digits.len() < w {
        let mut k: usize = digits.len();
        while k < w
            invariant
                digits@ == decimal(n as nat),
                digits.len() <= k <= w,
                out@ == old(out)@ + Seq::new((k - digits.len()) as nat, |i: int| '0'),
            decreases w - k,
        {
            out.push('0');
            k = k + 1;
            assert(out@ =~= old(out)@ + Seq::new((k - digits.len()) as nat, |i: int| '0'));
        }
    }
    let ghost before = out@;
    let mut i: usize = 0;
    while i < digits.len()
        invariant
            i <= digits.len(),
            out@ == before + digits@.take(i as int),
        decreases digits.len() - i,
    {
        out.push(digits[i]);
        i = i + 1;
        assert(out@ =~= before + digits@.take(i as int));
    }
    assert(digits@.take(digits.len() as int) =~= digits@);
    assert(out@ =~= old(out)@ + padded(n as nat, w as nat));
}

/// Formats seconds since the Unix epoch as `YYYY-MM-DD HH:MM:SS` (UTC).
pub fn format_unix_secs(secs: u64) -> (s: String)
    ensures
        s@ == spec_format_unix_secs(secs as nat),
{
    let days = secs / 86400;
    let time = secs % 86400;
    let h = time / 3600;
    let m = (time % 3600) / 60;
    let sec = time % 60;
    let jd = days + 2440588;
    let l1 = jd + 68569;
    assert(l1 <= 0x4000_0000_0000_0000);
    let n = (4 * l1) / 146097;
    assert(146097 * n <= 4 * l1);
    assert(4 * l1 < 146097 * n + 146097);
    let l2 = l1 - (146097 * n + 3) / 4;
    assert(l2 <= 36525);
    let i = (4000 * (l2 + 1)) / 1461001;
    assert(1461001 * i <= 4000 * (l2 + 1));
    assert(4000 * (l2 + 1) < 1461001 * i + 1461001);
    assert(i <= 100);
    assert(1461 * i < 4 * (l2 + 1));
    let l3 = l2 - (1461 * i) / 4 + 31;
    assert(l3 <= 396);
    let j = (80 * l3) / 2447;
    assert(j <= 12);
    let day = l3 - (2447 * j) / 80;
    let l4 = j / 11;
    let month = j + 2 - 12 * l4;
    assert(n >= 49);
    let year = 100 * (n - 49) + i + l4;
    let ghost date = civil_date(days as int);
    assert(date == (year as int, month as int, day as int));
    proof {
        lemma_gregorian_is_civil(days as nat);
    }
    let mut out: Vec<char> = Vec::new();
    push_padded(&mut out, year, 4);
    out.push('-');
    push_padded(&mut out, month, 2);
    out.push('-');
    push_padded(&mut out, day, 2);
    out.push(' ');
    push_padded(&mut out, h, 2);
    out.push(':');
    push_padded(&mut out, m, 2);
    out.push(':');
    push_padded(&mut out, sec, 2);
    assert(out@ =~= spec_format_unix_secs(secs as nat));
    string_from_chars(&out)
}

/// The label of a saved version: a version id that is a `u64` count of
/// milliseconds is shown as the UTC date and time of its whole second;
/// any other id is shown as is.
pub open spec fn spec_version_label(version_id: Seq<char>) -> Seq<char> {
    match spec_parse_u64(version_id) {
        Some(ms) => spec_format_unix_secs(ms / 1000),
        None => version_id,
    }
}

/// The human-readable label of a version id.
pub fn version_label(version_id: &str) -> (label: String)
    ensures
        label@ == spec_version_label(version_id@),
{
    match parse_unsigned(version_id, u64::MAX) {
        Some(ms) => format_unix_secs(ms / 1000),
        None => String::from_str(version_id),
    }
}

} // verus!
