//! Laws of the calendar and of the digits of a time stamp.
use crate::laws::timestamp as timestamp_laws;
use crate::laws::words;
use crate::text;
use crate::timestamp;
use crate::timestamp::Moment;
use crate::version;
use vstd::prelude::*;

verus! {

/// Every fourth year is a leap year, except for full centuries, of which every fourth one is. A
/// leap year has a day more than the 365 of other years, at the end of February; four months have
/// thirty days, and the other seven have thirty-one.
pub proof fn years_and_months_have_their_days(y: int, m: int)
    requires
        1 <= m <= 12,
    ensures
        y % 4 != 0 ==> timestamp::days_in_year(y) == 365,
        y % 100 == 0 && y % 400 != 0 ==> timestamp::days_in_year(y) == 365,
        y % 4 == 0 && (y % 100 != 0 || y % 400 == 0) ==> timestamp::days_in_year(y) == 366,
        timestamp::leap(y) <==> timestamp::days_in_year(y) == 366,
        m == 2 ==> timestamp::days_in_month(y, m) == timestamp::days_in_year(y) - 337,
        m == 4 || m == 6 || m == 9 || m == 11 ==> timestamp::days_in_month(y, m) == 30,
        m == 1 || m == 3 || m == 5 || m == 7 || m == 8 || m == 10 || m == 12 ==>
            timestamp::days_in_month(y, m) == 31,
{
}

proof fn lemma_padded_len(n: nat, width: nat, limit: nat)
    requires
        n < limit,
        (width == 2 && limit == 100) || (width == 4 && limit == 10000),
    ensures
        text::padded_of(n, width).len() == width,
        version::digits_value(text::padded_of(n, width)) == n,
{
    reveal_with_fuel(text::decimal_of, 5);
    words::numbers_are_written_in_decimal(n, width);
    if n < 10 {
        assert(text::decimal_of(n).len() == 1);
    } else if n < 100 {
        assert(text::decimal_of(n).len() == 2);
    } else if n < 1000 {
        assert(text::decimal_of(n).len() == 3);
    } else {
        assert(text::decimal_of(n).len() == 4);
    }
}

/// Up to the year 9999 the digits of a time stamp are four for the year and two each for the
/// month, the day, the hour, the minute and the second.
pub proof fn time_stamps_name_their_fields(t: Moment)
    requires
        timestamp_laws::is_valid(t),
        t.year < 10000,
    ensures
        ({
            let s = timestamp::moment_text(t);
            &&& s.len() == 14
            &&& version::digits_value(s.subrange(0, 4)) == t.year
            &&& version::digits_value(s.subrange(4, 6)) == t.month
            &&& version::digits_value(s.subrange(6, 8)) == t.day
            &&& version::digits_value(s.subrange(8, 10)) == t.hour
            &&& version::digits_value(s.subrange(10, 12)) == t.minute
            &&& version::digits_value(s.subrange(12, 14)) == t.second
        }),
{
    lemma_padded_len(t.year as nat, 4, 10000);
    lemma_padded_len(t.month as nat, 2, 100);
    lemma_padded_len(t.day as nat, 2, 100);
    lemma_padded_len(t.hour as nat, 2, 100);
    lemma_padded_len(t.minute as nat, 2, 100);
    lemma_padded_len(t.second as nat, 2, 100);
    let s = timestamp::moment_text(t);
    assert(s.subrange(0, 4) =~= text::padded_of(t.year as nat, 4));
    assert(s.subrange(4, 6) =~= text::padded_of(t.month as nat, 2));
    assert(s.subrange(6, 8) =~= text::padded_of(t.day as nat, 2));
    assert(s.subrange(8, 10) =~= text::padded_of(t.hour as nat, 2));
    assert(s.subrange(10, 12) =~= text::padded_of(t.minute as nat, 2));
    assert(s.subrange(12, 14) =~= text::padded_of(t.second as nat, 2));
}

} // verus!
