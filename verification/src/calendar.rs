//! What holds of dates and times.

use vstd::prelude::*;

use crate::number::all_digits;
use crate::number::decimal_value;
use crate::number::digit_char;
use crate::number::digit_value;
use crate::number::is_digit;
use crate::text::is_space;
use crate::text::join;
use crate::text::lemma_split_join;
use crate::text::split;
use crate::texts::law_trim;
use crate::texts::law_trim_char;
use crate::types::date_fields;
use crate::types::date_of;
use crate::types::is_field;
use crate::types::leap;
use crate::types::lemma_three_pieces;
use crate::types::lemma_time_parts;
use crate::types::literal_body;
use crate::types::month_days;
use crate::types::time_fields;
use crate::types::time_of;

verus! {

// ---------------------------------------------------------------------------
// The calendar
// ---------------------------------------------------------------------------

/// The leap days of the years up to a year: every fourth year has one, but for three of
/// four full centuries.
pub open spec fn leap_days(year: int) -> int {
    year / 4 - year / 100 + year / 400
}

/// The days of a common year before each of its months, and before the next year.
pub open spec fn days_before() -> Seq<int> {
    seq![0int, 31, 59, 90, 120, 151, 181, 212, 243, 273, 304, 334, 365]
}

/// The number of the first day of a month, counted from the first day of the year 1; the
/// thirteenth month is the first of the next year.
pub open spec fn first_day(year: int, month: int) -> int {
    365 * (year - 1) + days_before()[month - 1] + if month <= 2 {
        leap_days(year - 1)
    } else {
        leap_days(year)
    }
}

/// A leap year is one that adds a leap day to those of the years before it.
pub proof fn law_leap_year(year: int)
    ensures
        leap(year) <==> leap_days(year) == leap_days(year - 1) + 1,
        !leap(year) <==> leap_days(year) == leap_days(year - 1),
{
}

/// A month ends where the next one begins, and the last month of a year where the next
/// year begins.
pub proof fn law_months(year: int, month: int)
    requires
        1 <= month <= 12,
    ensures
        month_days(year, month) == first_day(year, month + 1) - first_day(year, month),
        first_day(year, 13) == first_day(year + 1, 1),
{
    law_leap_year(year);
}

/// The days of the months of a year up to a month.
pub open spec fn days_through(year: int, month: nat) -> int
    decreases month,
{
    if month == 0 {
        0
    } else {
        days_through(year, (month - 1) as nat) + month_days(year, month as int)
    }
}

/// The months up to a month have as many days as there are before the next month.
pub proof fn law_days_through(year: int, month: nat)
    requires
        month <= 12,
    ensures
        days_through(year, month) == first_day(year, month as int + 1) - first_day(year, 1),
    decreases month,
{
    if month > 0 {
        law_days_through(year, (month - 1) as nat);
        law_months(year, month as int);
    }
}

/// A year has 365 days, a leap year 366; every 400 years have the same number of days.
pub proof fn law_year(year: int)
    ensures
        days_through(year, 12) == if leap(year) {
            366int
        } else {
            365
        },
        first_day(year + 1, 1) - first_day(year, 1) == days_through(year, 12),
        first_day(year + 400, 1) - first_day(year, 1) == 146097,
{
    law_days_through(year, 12);
    law_leap_year(year);
    assert((year + 399) / 4 == (year - 1) / 4 + 100);
    assert((year + 399) / 100 == (year - 1) / 100 + 4);
    assert((year + 399) / 400 == (year - 1) / 400 + 1);
}

/// A day of the calendar, from the year 1 to the year 9999.
pub open spec fn is_day(year: int, month: int, day: int) -> bool {
    &&& 1 <= year <= 9999
    &&& 1 <= month <= 12
    &&& 1 <= day
    &&& first_day(year, month) + day - 1 < first_day(year, month + 1)
}

// ---------------------------------------------------------------------------
// Numbers with leading zeros
// ---------------------------------------------------------------------------

/// A number as `k` digits, with zeros in front.
pub open spec fn padded(n: int, k: nat) -> Seq<char>
    decreases k,
{
    if k == 0 {
        Seq::empty()
    } else {
        padded(n / 10, (k - 1) as nat).push(digit_char((n % 10) as nat))
    }
}

proof fn lemma_digit(d: nat)
    requires
        d < 10,
    ensures
        is_digit(digit_char(d)),
        digit_value(digit_char(d)) == d,
{
}

proof fn lemma_digit_back(c: char)
    requires
        is_digit(c),
    ensures
        digit_value(c) < 10,
        digit_char(digit_value(c)) == c,
{
}

proof fn lemma_padded_field(n: int, k: nat)
    requires
        0 <= n,
    ensures
        is_field(padded(n, k), k),
    decreases k,
{
    if k > 0 {
        lemma_padded_field(n / 10, (k - 1) as nat);
        lemma_digit((n % 10) as nat);
        let s = padded(n, k);
        assert forall|i: int| 0 <= i < s.len() implies is_digit(#[trigger] s[i]) by {
            if i < k - 1 {
                assert(is_digit(padded(n / 10, (k - 1) as nat)[i]));
            }
        }
    }
}

proof fn lemma_padded_two(n: int)
    requires
        0 <= n < 100,
    ensures
        is_field(padded(n, 2), 2),
        decimal_value(padded(n, 2)) == n,
{
    lemma_padded_field(n, 2);
    reveal_with_fuel(padded, 3);
    reveal_with_fuel(decimal_value, 3);
    lemma_digit((n % 10) as nat);
    lemma_digit(((n / 10) % 10) as nat);
    let s = padded(n, 2);
    let t = padded(n / 10, 1);
    assert(s.drop_last() =~= t);
    assert(t.drop_last() =~= Seq::empty());
    assert(s.last() == digit_char((n % 10) as nat));
    assert(t.last() == digit_char(((n / 10) % 10) as nat));
}

proof fn lemma_padded_four(n: int)
    requires
        0 <= n < 10000,
    ensures
        is_field(padded(n, 4), 4),
        decimal_value(padded(n, 4)) == n,
{
    lemma_padded_field(n, 4);
    lemma_padded_two(n / 100);
    reveal_with_fuel(padded, 3);
    lemma_digit((n % 10) as nat);
    lemma_digit(((n / 10) % 10) as nat);
    let s = padded(n, 4);
    let t = padded(n / 10, 3);
    let u = padded(n / 100, 2);
    assert((n / 10) / 10 == n / 100);
    assert(s.drop_last() =~= t);
    assert(t.drop_last() =~= u);
    assert(s.last() == digit_char((n % 10) as nat));
    assert(t.last() == digit_char(((n / 10) % 10) as nat));
    assert(decimal_value(s) == 10 * decimal_value(t) + n % 10);
    assert(decimal_value(t) == 10 * decimal_value(u) + (n / 10) % 10);
}

/// A row of digits is the number that it stands for, with zeros in front.
proof fn lemma_field_padded(s: Seq<char>)
    requires
        all_digits(s),
    ensures
        s == padded(decimal_value(s) as int, s.len()),
    decreases s.len(),
{
    if s.len() == 0 {
        assert(s =~= Seq::empty());
    } else {
        let t = s.drop_last();
        assert forall|i: int| 0 <= i < t.len() implies is_digit(#[trigger] t[i]) by {
            assert(t[i] == s[i]);
        }
        lemma_field_padded(t);
        assert(is_digit(s[s.len() - 1]));
        lemma_digit_back(s.last());
        let n = decimal_value(s) as int;
        assert(n / 10 == decimal_value(t) && n % 10 == digit_value(s.last()));
        assert(s =~= t.push(s.last()));
    }
}

// ---------------------------------------------------------------------------
// Dates
// ---------------------------------------------------------------------------

/// A date: four digits of the year, two of the month and two of the day.
pub open spec fn date_text(year: int, month: int, day: int) -> Seq<char> {
    padded(year, 4) + seq!['-'] + padded(month, 2) + seq!['-'] + padded(day, 2)
}

proof fn lemma_no_separator(s: Seq<char>, c: char)
    requires
        all_digits(s),
        !is_digit(c),
    ensures
        !s.contains(c),
{
    if s.contains(c) {
        let i = choose|i: int| 0 <= i < s.len() && s[i] == c;
        assert(is_digit(s[i]));
    }
}

proof fn lemma_three_fields(a: Seq<char>, b: Seq<char>, d: Seq<char>, c: char)
    requires
        all_digits(a),
        all_digits(b),
        all_digits(d),
        !is_digit(c),
    ensures
        split(a + seq![c] + b + seq![c] + d, c) == seq![a, b, d],
{
    lemma_no_separator(a, c);
    lemma_no_separator(b, c);
    lemma_no_separator(d, c);
    let p = seq![a, b, d];
    assert forall|i: int| 0 <= i < p.len() implies !(#[trigger] p[i]).contains(c) by {
        assert(i == 0 || i == 1 || i == 2);
    }
    lemma_split_join(p, c);
    reveal_with_fuel(join, 4);
    assert(p.drop_last() =~= seq![a, b]);
    assert(seq![a, b].drop_last() =~= seq![a]);
    assert(join(p, seq![c]) =~= a + seq![c] + b + seq![c] + d);
}

/// White space around a text in as many quotes as may be does not count.
proof fn lemma_body(a: Seq<char>, q: Seq<char>, s: Seq<char>, r: Seq<char>, b: Seq<char>)
    requires
        forall|i: int| 0 <= i < a.len() ==> is_space(#[trigger] a[i]),
        forall|i: int| 0 <= i < b.len() ==> is_space(#[trigger] b[i]),
        forall|i: int| 0 <= i < q.len() ==> #[trigger] q[i] == '\'',
        forall|i: int| 0 <= i < r.len() ==> #[trigger] r[i] == '\'',
        s.len() > 0,
        is_digit(s[0]),
        is_digit(s.last()),
    ensures
        literal_body(a + (q + s + r) + b) == s,
{
    let t = q + s + r;
    assert(t.len() > 0);
    if q.len() > 0 {
        assert(t[0] == q[0]);
    } else {
        assert(t[0] == s[0]);
    }
    if r.len() > 0 {
        assert(t.last() == r[r.len() - 1]);
    } else {
        assert(t.last() == s.last());
    }
    law_trim(a, t, b);
    law_trim_char(q, s, r, '\'');
}

/// A date literal, with white space and quotes around it or without, is accepted exactly
/// where the calendar has the day; then it gives the date.
pub proof fn law_date_accepted(
    a: Seq<char>,
    q: Seq<char>,
    year: int,
    month: int,
    day: int,
    r: Seq<char>,
    b: Seq<char>,
)
    requires
        forall|i: int| 0 <= i < a.len() ==> is_space(#[trigger] a[i]),
        forall|i: int| 0 <= i < b.len() ==> is_space(#[trigger] b[i]),
        forall|i: int| 0 <= i < q.len() ==> #[trigger] q[i] == '\'',
        forall|i: int| 0 <= i < r.len() ==> #[trigger] r[i] == '\'',
        0 <= year <= 9999,
        0 <= month <= 99,
        0 <= day <= 99,
    ensures
        is_day(year, month, day) ==> date_of(a + (q + date_text(year, month, day) + r) + b) == Ok::<
            Seq<char>,
            Seq<char>,
        >(date_text(year, month, day)),
        !is_day(year, month, day) ==> date_of(
            a + (q + date_text(year, month, day) + r) + b,
        ) is Err,
{
    let s = date_text(year, month, day);
    lemma_padded_four(year);
    lemma_padded_two(month);
    lemma_padded_two(day);
    lemma_three_fields(padded(year, 4), padded(month, 2), padded(day, 2), '-');
    assert(s[0] == padded(year, 4)[0]);
    assert(s.last() == padded(day, 2)[1]);
    lemma_body(a, q, s, r, b);
    let p = seq![padded(year, 4), padded(month, 2), padded(day, 2)];
    assert(p[0] == padded(year, 4) && p[1] == padded(month, 2) && p[2] == padded(day, 2));
    assert(date_fields(s) == Some((year, month, day)));
    if 1 <= month <= 12 {
        law_months(year, month);
    }
}

/// What is accepted as a date is a day of the calendar.
pub proof fn law_date_is_day(input: Seq<char>)
    requires
        date_of(input) is Ok,
    ensures
        exists|y: int, m: int, d: int|
            is_day(y, m, d) && date_of(input)->Ok_0 == #[trigger] date_text(y, m, d),
{
    let s = date_of(input)->Ok_0;
    let (y, m, d) = date_fields(s)->0;
    let p = split(s, '-');
    lemma_three_pieces(s, '-');
    lemma_field_padded(p[0]);
    lemma_field_padded(p[1]);
    lemma_field_padded(p[2]);
    assert(s =~= date_text(y, m, d));
    law_months(y, m);
    crate::decimal::lemma_decimal_value_bound(p[0]);
    reveal_with_fuel(crate::natural::pow10, 5);
    assert(is_day(y, m, d));
}

// ---------------------------------------------------------------------------
// Times
// ---------------------------------------------------------------------------

/// A time: two digits each of the hour, the minute and the second.
pub open spec fn time_text(hour: int, minute: int, second: int) -> Seq<char> {
    padded(hour, 2) + seq![':'] + padded(minute, 2) + seq![':'] + padded(second, 2)
}

/// A time without its seconds.
pub open spec fn short_time(hour: int, minute: int) -> Seq<char> {
    padded(hour, 2) + seq![':'] + padded(minute, 2)
}

/// A time of day.
pub open spec fn is_time(hour: int, minute: int, second: int) -> bool {
    0 <= hour < 24 && 0 <= minute < 60 && 0 <= second < 60
}

/// A time literal, with white space and quotes around it or without, is accepted exactly
/// where a day has the time; then it gives the time. Without seconds it gives the full
/// minute.
pub proof fn law_time_accepted(
    a: Seq<char>,
    q: Seq<char>,
    hour: int,
    minute: int,
    second: int,
    r: Seq<char>,
    b: Seq<char>,
)
    requires
        forall|i: int| 0 <= i < a.len() ==> is_space(#[trigger] a[i]),
        forall|i: int| 0 <= i < b.len() ==> is_space(#[trigger] b[i]),
        forall|i: int| 0 <= i < q.len() ==> #[trigger] q[i] == '\'',
        forall|i: int| 0 <= i < r.len() ==> #[trigger] r[i] == '\'',
        0 <= hour <= 99,
        0 <= minute <= 99,
        0 <= second <= 99,
    ensures
        is_time(hour, minute, second) ==> time_of(
            a + (q + time_text(hour, minute, second) + r) + b,
        ) == Ok::<Seq<char>, Seq<char>>(time_text(hour, minute, second)),
        !is_time(hour, minute, second) ==> time_of(
            a + (q + time_text(hour, minute, second) + r) + b,
        ) is Err,
        is_time(hour, minute, 0) ==> time_of(a + (q + short_time(hour, minute) + r) + b) == Ok::<
            Seq<char>,
            Seq<char>,
        >(time_text(hour, minute, 0)),
        !is_time(hour, minute, 0) ==> time_of(a + (q + short_time(hour, minute) + r) + b) is Err,
{
    lemma_time_long(a, q, hour, minute, second, r, b);
    lemma_time_short(a, q, hour, minute, r, b);
}

proof fn lemma_time_long(
    a: Seq<char>,
    q: Seq<char>,
    hour: int,
    minute: int,
    second: int,
    r: Seq<char>,
    b: Seq<char>,
)
    requires
        forall|i: int| 0 <= i < a.len() ==> is_space(#[trigger] a[i]),
        forall|i: int| 0 <= i < b.len() ==> is_space(#[trigger] b[i]),
        forall|i: int| 0 <= i < q.len() ==> #[trigger] q[i] == '\'',
        forall|i: int| 0 <= i < r.len() ==> #[trigger] r[i] == '\'',
        0 <= hour <= 99,
        0 <= minute <= 99,
        0 <= second <= 99,
    ensures
        is_time(hour, minute, second) ==> time_of(
            a + (q + time_text(hour, minute, second) + r) + b,
        ) == Ok::<Seq<char>, Seq<char>>(time_text(hour, minute, second)),
        !is_time(hour, minute, second) ==> time_of(
            a + (q + time_text(hour, minute, second) + r) + b,
        ) is Err,
{
    let s = time_text(hour, minute, second);
    lemma_padded_two(hour);
    lemma_padded_two(minute);
    lemma_padded_two(second);
    lemma_three_fields(padded(hour, 2), padded(minute, 2), padded(second, 2), ':');
    assert(s[0] == padded(hour, 2)[0]);
    assert(s.last() == padded(second, 2)[1]);
    lemma_body(a, q, s, r, b);
    let p = seq![padded(hour, 2), padded(minute, 2), padded(second, 2)];
    assert(p[0] == padded(hour, 2) && p[1] == padded(minute, 2) && p[2] == padded(second, 2));
    assert forall|i: int| 0 <= i < p.len() implies is_field(#[trigger] p[i], 2) by {
        assert(i == 0 || i == 1 || i == 2);
    }
    assert(time_fields(s) == Some((hour, minute, second)));
}

proof fn lemma_time_short(
    a: Seq<char>,
    q: Seq<char>,
    hour: int,
    minute: int,
    r: Seq<char>,
    b: Seq<char>,
)
    requires
        forall|i: int| 0 <= i < a.len() ==> is_space(#[trigger] a[i]),
        forall|i: int| 0 <= i < b.len() ==> is_space(#[trigger] b[i]),
        forall|i: int| 0 <= i < q.len() ==> #[trigger] q[i] == '\'',
        forall|i: int| 0 <= i < r.len() ==> #[trigger] r[i] == '\'',
        0 <= hour <= 99,
        0 <= minute <= 99,
    ensures
        is_time(hour, minute, 0) ==> time_of(a + (q + short_time(hour, minute) + r) + b) == Ok::<
            Seq<char>,
            Seq<char>,
        >(time_text(hour, minute, 0)),
        !is_time(hour, minute, 0) ==> time_of(a + (q + short_time(hour, minute) + r) + b) is Err,
{
    let s = short_time(hour, minute);
    lemma_padded_two(hour);
    lemma_padded_two(minute);
    lemma_no_separator(padded(hour, 2), ':');
    lemma_no_separator(padded(minute, 2), ':');
    let p = seq![padded(hour, 2), padded(minute, 2)];
    assert forall|i: int| 0 <= i < p.len() implies is_field(#[trigger] p[i], 2) && !p[i].contains(
        ':',
    ) by {
        assert(i == 0 || i == 1);
    }
    lemma_split_join(p, ':');
    reveal_with_fuel(join, 3);
    assert(p.drop_last() =~= seq![padded(hour, 2)]);
    assert(join(p, seq![':']) =~= s);
    assert(s[0] == padded(hour, 2)[0]);
    assert(s.last() == padded(minute, 2)[1]);
    lemma_body(a, q, s, r, b);
    assert(p[0] == padded(hour, 2) && p[1] == padded(minute, 2));
    assert(time_fields(s) == Some((hour, minute, 0int)));
    reveal_with_fuel(padded, 3);
    assert(digit_char(0) == '0');
    assert(padded(0, 2) =~= seq!['0', '0']);
    assert(s + seq![':', '0', '0'] =~= time_text(hour, minute, 0));
}

/// What is accepted as a time is a time of day.
pub proof fn law_time_is_time(input: Seq<char>)
    requires
        time_of(input) is Ok,
    ensures
        exists|h: int, m: int, s: int|
            is_time(h, m, s) && time_of(input)->Ok_0 == #[trigger] time_text(h, m, s),
{
    lemma_time_parts(input);
    let t = time_of(input)->Ok_0;
    let (h, m, s) = time_fields(t)->0;
    let p = split(t, ':');
    lemma_three_pieces(t, ':');
    lemma_field_padded(p[0]);
    lemma_field_padded(p[1]);
    lemma_field_padded(p[2]);
    assert(t =~= time_text(h, m, s));
    assert(is_time(h, m, s));
}

} // verus!
