//! Civil dates (proleptic Gregorian, UTC) of Unix timestamps.
use vstd::prelude::*;

verus! {

pub open spec fn is_leap(y: int) -> bool {
    y % 4 == 0 && (y % 100 != 0 || y % 400 == 0)
}

pub open spec fn year_len(y: int) -> int {
    if is_leap(y) { 366 } else { 365 }
}

/// Days from 1970-01-01 to January 1st of year `y`.
pub open spec fn days_before_year(y: int) -> int
    decreases y - 1970,
{
    if y <= 1970 {
        0
    } else {
        days_before_year(y - 1) + year_len(y - 1)
    }
}

/// Length of month `m` (0 for January) of year `y`.
pub open spec fn month_len(y: int, m: int) -> int {
    if m == 1 {
        if is_leap(y) { 29 } else { 28 }
    } else if m == 3 || m == 5 || m == 8 || m == 10 {
        30
    } else {
        31
    }
}

/// Days from January 1st to the first day of month `m` (0 for January) of year `y`.
pub open spec fn days_before_month(y: int, m: int) -> int
    decreases m,
{
    if m <= 0 {
        0
    } else {
        days_before_month(y, m - 1) + month_len(y, m - 1)
    }
}

/// `(year, month, day, hour)` is the UTC date and hour of `secs` seconds after the epoch.
pub open spec fn is_date_of(secs: int, date: (u64, u64, u64, u64)) -> bool {
    let (year, month, day, hour) = date;
    let days = secs / 86400;
    let in_year = days - days_before_year(year as int);
    &&& hour == (secs / 3600) % 24
    &&& year >= 1970
    &&& days_before_year(year as int) <= days < days_before_year(year as int + 1)
    &&& 1 <= month <= 12
    &&& days_before_month(year as int, month - 1) <= in_year < days_before_month(year as int, month as int)
    &&& day == in_year - days_before_month(year as int, month - 1) + 1
}

proof fn lemma_days_before_year(y: int)
    requires
        y >= 1970,
    ensures
        days_before_year(y) >= 365 * (y - 1970),
    decreases y - 1970,
{
    if y > 1970 {
        lemma_days_before_year(y - 1);
    }
}

proof fn lemma_year_months(y: int)
    ensures
        days_before_month(y, 12) == year_len(y),
{
    reveal_with_fuel(days_before_month, 13);
}

fn days_in_year(y: u64) -> (d: u64)
    ensures
        d == year_len(y as int),
{
    if y % 4 == 0 && (y % 100 != 0 || y % 400 == 0) {
        366
    } else {
        365
    }
}

fn days_in_month(leap: bool, m: u64) -> (d: u64)
    requires
        m < 12,
    ensures
        forall|y: int| is_leap(y) == leap ==> d == month_len(y, m as int),
{
    if m == 1 {
        if leap { 29 } else { 28 }
    } else if m == 3 || m == 5 || m == 8 || m == 10 {
        30
    } else {
        31
    }
}

/// The UTC `(year, month, day, hour)` of a Unix timestamp in seconds.
pub fn unix_secs_to_ymdh(secs: u64) -> (date: (u64, u64, u64, u64))
    ensures
        is_date_of(secs as int, date),
{
    let hour = (secs / 3600) % 24;
    let days = secs / 86400;
    let mut y: u64 = 1970;
    let mut remaining: u64 = days;
    loop
        invariant
            1970 <= y,
            y - 1970 <= days,
            days_before_year(y as int) + remaining == days,
        ensures
            days_before_year(y as int) + remaining == days,
            remaining < year_len(y as int),
            1970 <= y,
        decreases remaining,
    {
        let len = days_in_year(y);
        if remaining < len {
            break;
        }
        proof {
            lemma_days_before_year(y + 1);
        }
        remaining = remaining - len;
        y = y + 1;
    }
    let leap = y % 4 == 0 && (y % 100 != 0 || y % 400 == 0);
    assert(leap == is_leap(y as int));
    proof {
        lemma_year_months(y as int);
    }
    let mut m: u64 = 0;
    while m < 12 && remaining >= days_in_month(leap, m)
        invariant
            m <= 12,
            leap == is_leap(y as int),
            days_before_year(y as int) + days_before_month(y as int, m as int) + remaining == days,
            days_before_month(y as int, m as int) + remaining < year_len(y as int),
            days_before_month(y as int, 12) == year_len(y as int),
        decreases 12 - m,
    {
        remaining = remaining - days_in_month(leap, m);
        m = m + 1;
    }
    assert(m < 12);
    assert(days_before_month(y as int, m + 1) == days_before_month(y as int, m as int) + month_len(y as int, m as int));
    (y, m + 1, remaining + 1, hour)
}

} // verus!
