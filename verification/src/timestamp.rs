//! Time stamps in the form `yyyyMMddHHmmss`.
use crate::text;
use vstd::prelude::*;

verus! {

/// Whether a year of the Gregorian calendar is a leap year.
pub open spec fn leap(y: int) -> bool {
    (y % 4 == 0 && y % 100 != 0) || y % 400 == 0
}

/// The number of days in a year.
pub open spec fn days_in_year(y: int) -> int {
    if leap(y) {
        366
    } else {
        365
    }
}

/// The number of days in a month, counted from 1.
pub open spec fn days_in_month(y: int, m: int) -> int {
    if m == 2 {
        if leap(y) {
            29
        } else {
            28
        }
    } else if m == 4 || m == 6 || m == 9 || m == 11 {
        30
    } else {
        31
    }
}

/// The year, at or after `y`, that a day counted from the first day of `y` lies in, and the day
/// counted from the first day of that year.
pub open spec fn year_from(y: int, days: nat) -> (int, nat)
    decreases days,
{
    if days < days_in_year(y) {
        (y, days)
    } else {
        year_from(y + 1, (days - days_in_year(y)) as nat)
    }
}

/// The month, at or after `m`, that a day counted from the first day of `m` lies in, and the day
/// counted from the first day of that month.
pub open spec fn month_from(y: int, m: int, days: nat) -> (int, nat)
    decreases days,
{
    if m >= 12 || days < days_in_month(y, m) {
        (m, days)
    } else {
        month_from(y, m + 1, (days - days_in_month(y, m)) as nat)
    }
}

/// A moment as year, month, day, hour, minute and second.
#[verifier::ext_equal]
pub struct Moment {
    pub year: int,
    pub month: int,
    pub day: int,
    pub hour: int,
    pub minute: int,
    pub second: int,
}

/// The moment that lies a number of seconds after the beginning of 1970.
pub open spec fn moment_of(secs: nat) -> Moment {
    let (year, day_of_year) = year_from(1970, secs / 86400);
    let (month, day) = month_from(year, 1, day_of_year);
    let rest = secs % 86400;
    Moment {
        year,
        month,
        day: day as int + 1,
        hour: rest as int / 3600,
        minute: (rest % 3600) as int / 60,
        second: rest as int % 60,
    }
}

/// The digits of a moment.
pub open spec fn moment_text(t: Moment) -> Seq<char> {
    text::padded_of(t.year as nat, 4) + text::padded_of(t.month as nat, 2) + text::padded_of(
        t.day as nat,
        2,
    ) + text::padded_of(t.hour as nat, 2) + text::padded_of(t.minute as nat, 2) + text::padded_of(
        t.second as nat,
        2,
    )
}

/// Whether a year is a leap year.
pub fn is_leap(y: i64) -> (r: bool)
    ensures
        r == leap(y as int),
{
    (y % 4 == 0 && y % 100 != 0) || y % 400 == 0
}

fn year_length(y: u64) -> (r: u64)
    requires
        y <= i64::MAX,
    ensures
        r == days_in_year(y as int),
{
    if is_leap(y as i64) {
        366
    } else {
        365
    }
}

fn month_length(y: u64, m: u64) -> (r: u64)
    requires
        y <= i64::MAX,
    ensures
        r == days_in_month(y as int, m as int),
{
    if m == 2 {
        if is_leap(y as i64) {
            29
        } else {
            28
        }
    } else if m == 4 || m == 6 || m == 9 || m == 11 {
        30
    } else {
        31
    }
}

/// The time stamp of the moment a number of seconds after the beginning of 1970.
pub fn timestamp(secs: u64) -> (r: String)
    ensures
        r@ == moment_text(moment_of(secs as nat)),
{
    let days: u64 = secs / 86400;
    let rest: u64 = secs % 86400;
    let mut year: u64 = 1970;
    let mut left: u64 = days;
    loop
        invariant
            year_from(1970, days as nat) == year_from(year as int, left as nat),
            year + left <= 1970 + days,
            days <= 1000000000000000,
        ensures
            year_from(1970, days as nat) == (year as int, left as nat),
            left < days_in_year(year as int),
            year <= 1000000000001970,
        decreases left,
    {
        let length = year_length(year);
        if left < length {
            break;
        }
        left -= length;
        year += 1;
    }
    let mut month: u64 = 1;
    let ghost day_of_year = left as nat;
    while month < 12 && left >= month_length(year, month)
        invariant
            1 <= month <= 12,
            year <= 1000000000001970,
            left <= 366,
            month_from(year as int, 1, day_of_year) == month_from(
                year as int,
                month as int,
                left as nat,
            ),
        decreases left,
    {
        left -= month_length(year, month);
        month += 1;
    }
    let mut out = text::padded(year, 4);
    out.append(text::padded(month, 2).as_str());
    out.append(text::padded(left + 1, 2).as_str());
    out.append(text::padded(rest / 3600, 2).as_str());
    out.append(text::padded((rest % 3600) / 60, 2).as_str());
    out.append(text::padded(rest % 60, 2).as_str());
    out
}

/// The seconds since the beginning of 1970, by `std::time::SystemTime::elapsed`. Nothing is said
/// of the result, which the clock decides.
#[verifier::external_body]
fn seconds_since_epoch() -> (r: Option<u64>) {
    match std::time::UNIX_EPOCH.elapsed() {
        Ok(elapsed) => Some(elapsed.as_secs()),
        Err(_) => None,
    }
}

/// The time stamp of the present; that of the beginning of 1970 where the clock stands before
/// it.
pub fn now_timestamp() -> (r: String)
    ensures
        exists|secs: u64| r@ == #[trigger] moment_text(moment_of(secs as nat)),
{
    match seconds_since_epoch() {
        Some(secs) => timestamp(secs),
        None => timestamp(0),
    }
}

} // verus!
