//! Laws of time stamps.
use crate::text;
use crate::text::Order;
use crate::timestamp;
use crate::timestamp::Moment;
use vstd::prelude::*;

verus! {

// ---------------------------------------------------------------------------
// The calendar
// ---------------------------------------------------------------------------

/// The days from the beginning of 1970 to the beginning of a year.
pub open spec fn days_before(year: int) -> int
    decreases year - 1970,
{
    if year <= 1970 {
        0
    } else {
        days_before(year - 1) + timestamp::days_in_year(year - 1)
    }
}

/// The days from the beginning of a year to the beginning of a month of it.
pub open spec fn days_before_month(year: int, month: int) -> int
    decreases month,
{
    if month <= 1 {
        0
    } else {
        days_before_month(year, month - 1) + timestamp::days_in_month(year, month - 1)
    }
}

/// The seconds from the beginning of 1970 to a moment.
pub open spec fn seconds_of(t: Moment) -> int {
    (days_before(t.year) + days_before_month(t.year, t.month) + t.day - 1) * 86400 + t.hour * 3600
        + t.minute * 60 + t.second
}

/// Whether a moment is one that a calendar and a clock show.
pub open spec fn is_valid(t: Moment) -> bool {
    &&& 1970 <= t.year
    &&& 1 <= t.month <= 12
    &&& 1 <= t.day <= timestamp::days_in_month(t.year, t.month)
    &&& 0 <= t.hour < 24
    &&& 0 <= t.minute < 60
    &&& 0 <= t.second < 60
}

proof fn lemma_year(y: int, days: nat)
    requires
        y >= 1970,
    ensures
        timestamp::year_from(y, days).0 >= y,
        timestamp::year_from(y, days).1 < timestamp::days_in_year(
            timestamp::year_from(y, days).0,
        ),
        days_before(y) + days == days_before(timestamp::year_from(y, days).0)
            + timestamp::year_from(y, days).1,
    decreases days,
{
    if days >= timestamp::days_in_year(y) {
        lemma_year(y + 1, (days - timestamp::days_in_year(y)) as nat);
    }
}

proof fn lemma_month(y: int, m: int, days: nat)
    requires
        1 <= m <= 12,
    ensures
        m <= timestamp::month_from(y, m, days).0 <= 12,
        timestamp::month_from(y, m, days).0 < 12 ==> timestamp::month_from(y, m, days).1
            < timestamp::days_in_month(y, timestamp::month_from(y, m, days).0),
        days_before_month(y, m) + days == days_before_month(
            y,
            timestamp::month_from(y, m, days).0,
        ) + timestamp::month_from(y, m, days).1,
    decreases days,
{
    if m < 12 && days >= timestamp::days_in_month(y, m) {
        lemma_month(y, m + 1, (days - timestamp::days_in_month(y, m)) as nat);
    }
}

proof fn lemma_months_fill_year(y: int)
    ensures
        days_before_month(y, 12) + 31 == timestamp::days_in_year(y),
{
    reveal_with_fuel(days_before_month, 13);
}

/// The moment of a number of seconds is one that a calendar and a clock show, and it lies that
/// many seconds after the beginning of 1970.
pub proof fn moment_is_read_back(secs: nat)
    ensures
        is_valid(timestamp::moment_of(secs)),
        seconds_of(timestamp::moment_of(secs)) == secs,
{
    let days = secs / 86400;
    let (year, day_of_year) = timestamp::year_from(1970, days);
    lemma_year(1970, days);
    lemma_month(year, 1, day_of_year);
    lemma_months_fill_year(year);
}

proof fn lemma_days_before_grow(a: int, b: int)
    requires
        1970 <= a < b,
    ensures
        days_before(a) + timestamp::days_in_year(a) <= days_before(b),
    decreases b - a,
{
    if a + 1 < b {
        lemma_days_before_grow(a, b - 1);
    }
}

proof fn lemma_months_grow(y: int, a: int, b: int)
    requires
        1 <= a < b <= 12,
    ensures
        days_before_month(y, a) + timestamp::days_in_month(y, a) <= days_before_month(y, b),
    decreases b - a,
{
    if a + 1 < b {
        lemma_months_grow(y, a, b - 1);
    }
}

/// Whether a moment comes before another by its first field that differs.
pub open spec fn comes_before(a: Moment, b: Moment) -> bool {
    ||| a.year < b.year
    ||| a.year == b.year && a.month < b.month
    ||| a.year == b.year && a.month == b.month && a.day < b.day
    ||| a.year == b.year && a.month == b.month && a.day == b.day && a.hour < b.hour
    ||| a.year == b.year && a.month == b.month && a.day == b.day && a.hour == b.hour && a.minute
        < b.minute
    ||| a.year == b.year && a.month == b.month && a.day == b.day && a.hour == b.hour && a.minute
        == b.minute && a.second < b.second
}

proof fn lemma_day_within_year(t: Moment)
    requires
        is_valid(t),
    ensures
        0 <= days_before_month(t.year, t.month) + t.day - 1 < timestamp::days_in_year(t.year),
{
    lemma_months_fill_year(t.year);
    if t.month < 12 {
        lemma_months_grow(t.year, t.month, 12);
    }
    if t.month > 1 {
        lemma_months_grow(t.year, 1, t.month);
    }
}

/// A moment that comes before another by its fields comes before it in time.
pub proof fn fields_order_time(a: Moment, b: Moment)
    requires
        is_valid(a),
        is_valid(b),
        comes_before(a, b),
    ensures
        seconds_of(a) < seconds_of(b),
{
    lemma_day_within_year(a);
    lemma_day_within_year(b);
    if a.year < b.year {
        lemma_days_before_grow(a.year, b.year);
    } else if a.month < b.month {
        lemma_months_grow(a.year, a.month, b.month);
    }
}

// ---------------------------------------------------------------------------
// Text
// ---------------------------------------------------------------------------

proof fn lemma_two_digits(n: nat)
    requires
        n < 100,
    ensures
        text::padded_of(n, 2) == seq![text::digit_char(n / 10), text::digit_char(n % 10)],
{
    reveal_with_fuel(text::decimal_of, 3);
    let p = text::padded_of(n, 2);
    assert(p =~= seq![text::digit_char(n / 10), text::digit_char(n % 10)]);
}

proof fn lemma_four_digits(n: nat)
    requires
        1000 <= n < 10000,
    ensures
        text::padded_of(n, 4) == seq![
            text::digit_char(n / 1000),
            text::digit_char(n / 100 % 10),
            text::digit_char(n / 10 % 10),
            text::digit_char(n % 10),
        ],
{
    reveal_with_fuel(text::decimal_of, 5);
    assert(n / 10 / 10 == n / 100);
    assert(n / 10 / 10 / 10 == n / 1000);
    let p = text::padded_of(n, 4);
    assert(p =~= seq![
        text::digit_char(n / 1000),
        text::digit_char(n / 100 % 10),
        text::digit_char(n / 10 % 10),
        text::digit_char(n % 10),
    ]);
}

proof fn lemma_concat_order(a: Seq<char>, b: Seq<char>, c: Seq<char>, d: Seq<char>)
    requires
        a.len() == c.len(),
    ensures
        text::text_order(a + b, c + d) == (if a == c {
            text::text_order(b, d)
        } else {
            text::text_order(a, c)
        }),
    decreases a.len(),
{
    if a.len() == 0 {
        assert(a + b =~= b);
        assert(c + d =~= d);
        assert(a =~= c);
    } else {
        assert((a + b).skip(1) =~= a.skip(1) + b);
        assert((c + d).skip(1) =~= c.skip(1) + d);
        lemma_concat_order(a.skip(1), b, c.skip(1), d);
        if a[0] == c[0] && a.skip(1) == c.skip(1) {
            assert forall|i: int| 0 <= i < a.len() implies a[i] == c[i] by {
                if i > 0 {
                    assert(a.skip(1)[i - 1] == c.skip(1)[i - 1]);
                }
            }
            assert(a =~= c);
        }
    }
}

proof fn lemma_digit_order(a: nat, b: nat, x: Seq<char>, y: Seq<char>)
    requires
        a < 10,
        b < 10,
    ensures
        text::text_order(seq![text::digit_char(a)] + x, seq![text::digit_char(b)] + y) == (
        if a == b {
            text::text_order(x, y)
        } else {
            text::int_order(a as int, b as int)
        }),
{
    let s = seq![text::digit_char(a)] + x;
    let t = seq![text::digit_char(b)] + y;
    assert(text::digit_char(a) as int == 48 + a);
    assert(text::digit_char(b) as int == 48 + b);
    assert(s.skip(1) =~= x);
    assert(t.skip(1) =~= y);
}

proof fn lemma_two_digits_order(a: nat, b: nat)
    requires
        a < 100,
        b < 100,
    ensures
        text::text_order(text::padded_of(a, 2), text::padded_of(b, 2)) == text::int_order(
            a as int,
            b as int,
        ),
        text::padded_of(a, 2).len() == 2,
{
    lemma_two_digits(a);
    lemma_two_digits(b);
    let e = Seq::<char>::empty();
    let x = seq![text::digit_char(a % 10)];
    let y = seq![text::digit_char(b % 10)];
    lemma_digit_order(a / 10, b / 10, x, y);
    lemma_digit_order(a % 10, b % 10, e, e);
    assert(x + e =~= x);
    assert(y + e =~= y);
    assert(text::padded_of(a, 2) =~= seq![text::digit_char(a / 10)] + x);
    assert(text::padded_of(b, 2) =~= seq![text::digit_char(b / 10)] + y);
}

proof fn lemma_four_parts(n: nat)
    requires
        n < 10000,
    ensures
        n == 1000 * (n / 1000) + 100 * (n / 100 % 10) + 10 * (n / 10 % 10) + n % 10,
        n / 1000 < 10,
{
    assert(n / 10 / 10 == n / 100);
    assert(n / 100 / 10 == n / 1000);
}

proof fn lemma_digits_order(
    a0: nat,
    a1: nat,
    a2: nat,
    a3: nat,
    b0: nat,
    b1: nat,
    b2: nat,
    b3: nat,
)
    requires
        a0 < 10,
        a1 < 10,
        a2 < 10,
        a3 < 10,
        b0 < 10,
        b1 < 10,
        b2 < 10,
        b3 < 10,
    ensures
        text::text_order(
            seq![
                text::digit_char(a0),
                text::digit_char(a1),
                text::digit_char(a2),
                text::digit_char(a3),
            ],
            seq![
                text::digit_char(b0),
                text::digit_char(b1),
                text::digit_char(b2),
                text::digit_char(b3),
            ],
        ) == text::int_order(
            1000 * a0 + 100 * a1 + 10 * a2 + a3 as int,
            1000 * b0 + 100 * b1 + 10 * b2 + b3 as int,
        ),
{
    let e = Seq::<char>::empty();
    let x3 = seq![text::digit_char(a3)];
    let y3 = seq![text::digit_char(b3)];
    let x2 = seq![text::digit_char(a2)] + x3;
    let y2 = seq![text::digit_char(b2)] + y3;
    let x1 = seq![text::digit_char(a1)] + x2;
    let y1 = seq![text::digit_char(b1)] + y2;
    let x = seq![
        text::digit_char(a0),
        text::digit_char(a1),
        text::digit_char(a2),
        text::digit_char(a3),
    ];
    let y = seq![
        text::digit_char(b0),
        text::digit_char(b1),
        text::digit_char(b2),
        text::digit_char(b3),
    ];
    lemma_digit_order(a3, b3, e, e);
    assert(x3 + e =~= x3);
    assert(y3 + e =~= y3);
    lemma_digit_order(a2, b2, x3, y3);
    lemma_digit_order(a1, b1, x2, y2);
    lemma_digit_order(a0, b0, x1, y1);
    assert(x =~= seq![text::digit_char(a0)] + x1);
    assert(y =~= seq![text::digit_char(b0)] + y1);
}

proof fn lemma_four_digits_order(a: nat, b: nat)
    requires
        1000 <= a < 10000,
        1000 <= b < 10000,
    ensures
        text::text_order(text::padded_of(a, 4), text::padded_of(b, 4)) == text::int_order(
            a as int,
            b as int,
        ),
        text::padded_of(a, 4).len() == 4,
{
    lemma_four_digits(a);
    lemma_four_digits(b);
    lemma_four_parts(a);
    lemma_four_parts(b);
    lemma_digits_order(
        a / 1000,
        a / 100 % 10,
        a / 10 % 10,
        a % 10,
        b / 1000,
        b / 100 % 10,
        b / 10 % 10,
        b % 10,
    );
}

spec fn day_text(t: Moment) -> Seq<char> {
    text::padded_of(t.day as nat, 2) + clock_text(t)
}

spec fn clock_text(t: Moment) -> Seq<char> {
    text::padded_of(t.hour as nat, 2) + (text::padded_of(t.minute as nat, 2) + text::padded_of(
        t.second as nat,
        2,
    ))
}

proof fn lemma_clock_order(a: Moment, b: Moment)
    requires
        is_valid(a),
        is_valid(b),
    ensures
        text::text_order(clock_text(a), clock_text(b)) == text::int_order(
            a.hour * 3600 + a.minute * 60 + a.second,
            b.hour * 3600 + b.minute * 60 + b.second,
        ),
        clock_text(a).len() == 6,
{
    lemma_two_digits_order(a.second as nat, b.second as nat);
    lemma_two_digits_order(b.second as nat, b.second as nat);
    lemma_two_digits_order(a.minute as nat, b.minute as nat);
    lemma_two_digits_order(b.minute as nat, b.minute as nat);
    lemma_two_digits_order(a.hour as nat, b.hour as nat);
    lemma_two_digits_order(b.hour as nat, b.hour as nat);
    text::lemma_text_order_equal(
        text::padded_of(a.minute as nat, 2),
        text::padded_of(b.minute as nat, 2),
    );
    text::lemma_text_order_equal(
        text::padded_of(a.hour as nat, 2),
        text::padded_of(b.hour as nat, 2),
    );
    lemma_concat_order(
        text::padded_of(a.minute as nat, 2),
        text::padded_of(a.second as nat, 2),
        text::padded_of(b.minute as nat, 2),
        text::padded_of(b.second as nat, 2),
    );
    lemma_concat_order(
        text::padded_of(a.hour as nat, 2),
        text::padded_of(a.minute as nat, 2) + text::padded_of(a.second as nat, 2),
        text::padded_of(b.hour as nat, 2),
        text::padded_of(b.minute as nat, 2) + text::padded_of(b.second as nat, 2),
    );
}

proof fn lemma_moment_order(a: Moment, b: Moment)
    requires
        is_valid(a),
        is_valid(b),
        a.year < 10000,
        b.year < 10000,
    ensures
        comes_before(a, b) <==> text::text_order(
            timestamp::moment_text(a),
            timestamp::moment_text(b),
        ) == Order::Less,
        timestamp::moment_text(a).len() == 14,
{
    lemma_clock_order(a, b);
    lemma_clock_order(b, b);
    lemma_two_digits_order(a.day as nat, b.day as nat);
    lemma_two_digits_order(b.day as nat, b.day as nat);
    lemma_two_digits_order(a.month as nat, b.month as nat);
    lemma_two_digits_order(b.month as nat, b.month as nat);
    lemma_four_digits_order(a.year as nat, b.year as nat);
    lemma_four_digits_order(b.year as nat, b.year as nat);
    text::lemma_text_order_equal(
        text::padded_of(a.day as nat, 2),
        text::padded_of(b.day as nat, 2),
    );
    text::lemma_text_order_equal(
        text::padded_of(a.month as nat, 2),
        text::padded_of(b.month as nat, 2),
    );
    text::lemma_text_order_equal(
        text::padded_of(a.year as nat, 4),
        text::padded_of(b.year as nat, 4),
    );
    lemma_concat_order(
        text::padded_of(a.day as nat, 2),
        clock_text(a),
        text::padded_of(b.day as nat, 2),
        clock_text(b),
    );
    lemma_concat_order(
        text::padded_of(a.month as nat, 2),
        day_text(a),
        text::padded_of(b.month as nat, 2),
        day_text(b),
    );
    lemma_concat_order(
        text::padded_of(a.year as nat, 4),
        text::padded_of(a.month as nat, 2) + day_text(a),
        text::padded_of(b.year as nat, 4),
        text::padded_of(b.month as nat, 2) + day_text(b),
    );
    assert(timestamp::moment_text(a) =~= text::padded_of(a.year as nat, 4) + (text::padded_of(
        a.month as nat,
        2,
    ) + day_text(a)));
    assert(timestamp::moment_text(b) =~= text::padded_of(b.year as nat, 4) + (text::padded_of(
        b.month as nat,
        2,
    ) + day_text(b)));
}

/// Up to the year 9999 a time stamp has fourteen characters, and the later of two moments has the
/// greater time stamp, so that time stamps can be compared as texts.
pub proof fn time_stamps_order_time(a: nat, b: nat)
    requires
        timestamp::moment_of(a).year < 10000,
        timestamp::moment_of(b).year < 10000,
    ensures
        timestamp::moment_text(timestamp::moment_of(a)).len() == 14,
        a < b <==> text::text_order(
            timestamp::moment_text(timestamp::moment_of(a)),
            timestamp::moment_text(timestamp::moment_of(b)),
        ) == Order::Less,
{
    let x = timestamp::moment_of(a);
    let y = timestamp::moment_of(b);
    moment_is_read_back(a);
    moment_is_read_back(b);
    lemma_moment_order(x, y);
    if comes_before(x, y) {
        fields_order_time(x, y);
    }
    if comes_before(y, x) {
        fields_order_time(y, x);
    }
}

} // verus!
