//! Points in time as text.

use vstd::prelude::*;
use vstd::string::*;

use crate::text;

verus! {

pub open spec fn leap_year(y: int) -> bool {
    (y % 4 == 0 && y % 100 != 0) || y % 400 == 0
}

pub open spec fn year_length(y: int) -> int {
    if leap_year(y) {
        366
    } else {
        365
    }
}

pub open spec fn month_length(y: int, m: int) -> int {
    if m == 2 {
        if leap_year(y) {
            29
        } else {
            28
        }
    } else if m == 4 || m == 6 || m == 9 || m == 11 {
        30
    } else {
        31
    }
}

/// A day: its year, month and day of the month.
pub struct Date {
    pub year: int,
    pub month: int,
    pub day: int,
}

/// The day `days` after the first of a year.
pub open spec fn date_from_year(days: int, y: int) -> Date
    decreases days,
{
    if days < year_length(y) {
        date_in_year(days, y, 1)
    } else {
        date_from_year(days - year_length(y), y + 1)
    }
}

/// The day `days` after the first of a month.
pub open spec fn date_in_year(days: int, y: int, m: int) -> Date
    decreases days,
{
    if days < month_length(y, m) {
        Date { year: y, month: m, day: days + 1 }
    } else {
        date_in_year(days - month_length(y, m), y, m + 1)
    }
}

/// The days from the first of a month to the end of its year.
pub open spec fn days_left(y: int, m: int) -> int
    decreases 13 - m,
{
    if m > 12 {
        0
    } else {
        month_length(y, m) + days_left(y, m + 1)
    }
}

/// The days from the first of January 1970 to the first of a later year.
pub open spec fn days_before(y: int) -> int
    decreases y - 1970,
{
    if y <= 1970 {
        0
    } else {
        days_before(y - 1) + year_length(y - 1)
    }
}

/// The text of a point in time, given in seconds since 1970: a date and a time
/// of day, `YYYY-MM-DD hh:mm:ss`.
pub open spec fn timestamp_text(secs: nat) -> Seq<char> {
    let d = date_from_year((secs / 86400) as int, 1970);
    let rest = secs % 86400;
    text::padded(d.year as nat, 4) + "-"@ + text::padded(d.month as nat, 2) + "-"@ + text::padded(
        d.day as nat,
        2,
    ) + " "@ + text::padded(rest / 3600, 2) + ":"@ + text::padded((rest % 3600) / 60, 2) + ":"@
        + text::padded(rest % 60, 2)
}

proof fn lemma_year_months(y: int)
    ensures
        days_left(y, 1) == year_length(y),
{
    reveal_with_fuel(days_left, 13);
}

proof fn lemma_date_in_year(days: int, y: int, m: int)
    requires
        0 <= days < days_left(y, m),
        1 <= m <= 12,
    ensures
        ({
            let d = date_in_year(days, y, m);
            &&& d.year == y
            &&& m <= d.month <= 12
            &&& 1 <= d.day <= month_length(y, d.month)
            &&& days == days_left(y, m) - days_left(y, d.month) + d.day - 1
        }),
    decreases days,
{
    if days >= month_length(y, m) {
        assert(days_left(y, m) == month_length(y, m) + days_left(y, m + 1));
        if m == 12 {
            assert(days_left(y, 13) == 0);
        }
        lemma_date_in_year(days - month_length(y, m), y, m + 1);
    }
}

proof fn lemma_date_from_year(days: int, y: int)
    requires
        0 <= days,
        1970 <= y,
    ensures
        ({
            let d = date_from_year(days, y);
            &&& y <= d.year
            &&& d.year <= y + days
            &&& 1 <= d.month <= 12
            &&& 1 <= d.day <= month_length(d.year, d.month)
            &&& days_before(y) + days == days_before(d.year) + year_length(d.year) - days_left(
                d.year,
                d.month,
            ) + d.day - 1
        }),
    decreases days,
{
    if days < year_length(y) {
        lemma_year_months(y);
        lemma_date_in_year(days, y, 1);
    } else {
        lemma_date_from_year(days - year_length(y), y + 1);
    }
}

/// The date of a day since 1970 exists in the calendar and is as many days after
/// the first of January 1970 as the day says.
pub proof fn date_is_that_day(days: nat)
    ensures
        ({
            let d = date_from_year(days as int, 1970);
            &&& 1970 <= d.year
            &&& 1 <= d.month <= 12
            &&& 1 <= d.day <= month_length(d.year, d.month)
            &&& days == days_before(d.year) + year_length(d.year) - days_left(d.year, d.month)
                + d.day - 1
        }),
{
    lemma_date_from_year(days as int, 1970);
}

/// The number of a day, counted from the first of January 1970, by the rules of the
/// Gregorian calendar: a year has 365 days, every fourth one more, every hundredth not
/// and every four hundredth again; from March on, months have 153 days in five.
pub open spec fn day_number(y: int, m: int, d: int) -> int {
    let p = if m <= 2 {
        y - 1
    } else {
        y
    };
    let q = if m <= 2 {
        m + 9
    } else {
        m - 3
    };
    365 * p + p / 4 - p / 100 + p / 400 + (153 * q + 2) / 5 + d - 719469
}

/// The days of the months of a year.
pub open spec fn month_days(y: int) -> Seq<int> {
    seq![
        31,
        if y % 4 == 0 && (y % 100 != 0 || y % 400 == 0) { 29int } else { 28 },
        31,
        30,
        31,
        30,
        31,
        31,
        30,
        31,
        30,
        31,
    ]
}

proof fn lemma_by_four(z: int)
    ensures
        z / 4 - (z - 1) / 4 == if z % 4 == 0 { 1int } else { 0 },
{
}

proof fn lemma_by_hundred(z: int)
    ensures
        z / 100 - (z - 1) / 100 == if z % 100 == 0 { 1int } else { 0 },
        z % 100 == 0 ==> z % 4 == 0,
{
}

proof fn lemma_by_four_hundred(z: int)
    ensures
        z / 400 - (z - 1) / 400 == if z % 400 == 0 { 1int } else { 0 },
        z % 400 == 0 ==> z % 100 == 0,
{
}

/// From one year to the next the quotients grow by what a leap year adds.
proof fn lemma_leap_days(z: int)
    ensures
        z / 4 - (z - 1) / 4 - (z / 100 - (z - 1) / 100) + (z / 400 - (z - 1) / 400)
            == year_length(z) - 365,
        leap_year(z) <==> z % 4 == 0 && (z % 100 != 0 || z % 400 == 0),
{
    lemma_by_four(z);
    lemma_by_hundred(z);
    lemma_by_four_hundred(z);
}

proof fn lemma_year_number(y: int)
    requires
        1970 <= y,
    ensures
        day_number(y, 1, 1) == days_before(y),
    decreases y,
{
    if y > 1970 {
        lemma_year_number(y - 1);
        lemma_leap_days(y - 1);
    }
}

proof fn lemma_month_number(y: int, m: int)
    requires
        1970 <= y,
        1 <= m <= 12,
    ensures
        day_number(y, m, 1) == days_before(y) + year_length(y) - days_left(y, m),
        month_length(y, m) == month_days(y)[m - 1],
{
    lemma_year_number(y);
    lemma_year_months(y);
    reveal_with_fuel(days_left, 13);
    lemma_leap_days(y);
}

/// The date of a day since 1970 is the day of that number in the Gregorian calendar, in
/// a month that has such a day.
pub proof fn date_is_in_the_calendar(days: nat)
    ensures
        ({
            let d = date_from_year(days as int, 1970);
            &&& 1970 <= d.year
            &&& 1 <= d.month <= 12
            &&& 1 <= d.day <= month_days(d.year)[d.month - 1]
            &&& day_number(d.year, d.month, d.day) == days
        }),
{
    let d = date_from_year(days as int, 1970);
    lemma_date_from_year(days as int, 1970);
    lemma_month_number(d.year, d.month);
}

proof fn lemma_padded(n: nat, width: nat)
    requires
        1 <= width <= 4,
        n < (if width == 1 { 10int } else if width == 2 { 100 } else if width == 3 { 1000 } else { 10000 }),
    ensures
        text::padded(n, width).len() == width,
        text::all_digits(text::padded(n, width)),
        text::digits_value(text::padded(n, width)) == n,
    decreases width,
{
    text::number_reads_back(n);
    reveal_with_fuel(text::nat_text, 5);
    reveal_with_fuel(text::digits_value, 6);
    let t = text::padded(n, width);
    if width > 1 {
        lemma_padded(n / 10, (width - 1) as nat);
        let before = text::padded(n / 10, (width - 1) as nat);
        let last = text::digit_char((n % 10) as int);
        assert(t =~= before.push(last));
        assert(t.drop_last() =~= before);
    } else {
        assert(t =~= seq![text::digit_char(n as int)]);
    }
}

/// The parts of a text of the form `YYYY-MM-DD hh:mm:ss`.
pub open spec fn has_form(t: Seq<char>) -> bool {
    &&& t.len() == 19
    &&& t[4] == '-' && t[7] == '-' && t[10] == ' ' && t[13] == ':' && t[16] == ':'
    &&& text::all_digits(t.subrange(0, 4))
    &&& text::all_digits(t.subrange(5, 7))
    &&& text::all_digits(t.subrange(8, 10))
    &&& text::all_digits(t.subrange(11, 13))
    &&& text::all_digits(t.subrange(14, 16))
    &&& text::all_digits(t.subrange(17, 19))
}

/// The text of a point in time before the year 10000 has the form
/// `YYYY-MM-DD hh:mm:ss`. It names a day of the calendar and a time of that day, and
/// counting the seconds up to there gives the point in time.
pub proof fn timestamp_names_the_second(secs: nat)
    requires
        secs < 253402300800,
    ensures
        ({
            let t = timestamp_text(secs);
            let year = text::digits_value(t.subrange(0, 4)) as int;
            let month = text::digits_value(t.subrange(5, 7)) as int;
            let day = text::digits_value(t.subrange(8, 10)) as int;
            let hour = text::digits_value(t.subrange(11, 13)) as int;
            let minute = text::digits_value(t.subrange(14, 16)) as int;
            let second = text::digits_value(t.subrange(17, 19)) as int;
            &&& has_form(t)
            &&& 1970 <= year && 1 <= month <= 12 && 1 <= day <= month_days(year)[month - 1]
            &&& hour < 24 && minute < 60 && second < 60
            &&& secs == 86400 * day_number(year, month, day) + 3600 * hour + 60 * minute + second
        }),
{
    let days = secs / 86400;
    let rest = secs % 86400;
    let d = date_from_year(days as int, 1970);
    date_is_in_the_calendar(days);
    assert(d.year < 10000) by {
        lemma_later_year(d.year, d.month, d.day);
    }
    lemma_padded(d.year as nat, 4);
    lemma_padded(d.month as nat, 2);
    lemma_padded(d.day as nat, 2);
    lemma_padded(rest / 3600, 2);
    lemma_padded((rest % 3600) / 60, 2);
    lemma_padded(rest % 60, 2);
    reveal_strlit("-");
    reveal_strlit(" ");
    reveal_strlit(":");
    let t = timestamp_text(secs);
    assert(t.subrange(0, 4) =~= text::padded(d.year as nat, 4));
    assert(t.subrange(5, 7) =~= text::padded(d.month as nat, 2));
    assert(t.subrange(8, 10) =~= text::padded(d.day as nat, 2));
    assert(t.subrange(11, 13) =~= text::padded(rest / 3600, 2));
    assert(t.subrange(14, 16) =~= text::padded((rest % 3600) / 60, 2));
    assert(t.subrange(17, 19) =~= text::padded(rest % 60, 2));
}

proof fn lemma_later_year(y: int, m: int, d: int)
    requires
        1 <= m <= 12,
        1 <= d,
        day_number(y, m, d) < 2932897,
    ensures
        y < 10000,
{
}

fn is_leap(y: u64) -> (r: bool)
    ensures
        r == leap_year(y as int),
{
    (y % 4 == 0 && y % 100 != 0) || y % 400 == 0
}

fn length_of_month(y: u64, m: u64) -> (r: u64)
    ensures
        r == month_length(y as int, m as int),
{
    if m == 2 {
        if is_leap(y) {
            29
        } else {
            28
        }
    } else if m == 4 || m == 6 || m == 9 || m == 11 {
        30
    } else {
        31
    }
}

/// The text of a point in time, given in seconds since 1970.
pub fn format_timestamp(secs: u64) -> (r: String)
    ensures
        r@ == timestamp_text(secs as nat),
{
    let days: u64 = secs / 86400;
    let rest: u64 = secs % 86400;
    let mut y: u64 = 1970;
    let mut d: u64 = days;
    let ghost date = date_from_year(days as int, 1970);
    proof {
        lemma_date_from_year(days as int, 1970);
    }
    loop
        invariant
            date == date_from_year(d as int, y as int),
            d <= 0x2_0000_0000_0000,
            1970 <= y <= 1970 + (0x2_0000_0000_0000 - d),
        ensures
            date == date_in_year(d as int, y as int, 1),
            d < year_length(y as int),
            y <= 0x4_0000_0000_0000,
        decreases d,
    {
        let length: u64 = if is_leap(y) {
            366
        } else {
            365
        };
        if d < length {
            break;
        }
        d = d - length;
        y = y + 1;
    }
    let mut m: u64 = 1;
    proof {
        lemma_year_months(y as int);
    }
    loop
        invariant
            date == date_in_year(d as int, y as int, m as int),
            1 <= m <= 12,
            d < days_left(y as int, m as int),
        ensures
            date == (Date { year: y as int, month: m as int, day: d + 1 }),
            1 <= m <= 12,
            d < 31,
        decreases d,
    {
        let length: u64 = length_of_month(y, m);
        if d < length {
            break;
        }
        proof {
            if m == 12 {
                assert(days_left(y as int, 13) == 0);
            }
        }
        d = d - length;
        m = m + 1;
    }
    let mut out = String::new();
    text::push_padded(&mut out, y, 4);
    out.append("-");
    text::push_padded(&mut out, m, 2);
    out.append("-");
    text::push_padded(&mut out, d + 1, 2);
    out.append(" ");
    text::push_padded(&mut out, rest / 3600, 2);
    out.append(":");
    text::push_padded(&mut out, (rest % 3600) / 60, 2);
    out.append(":");
    text::push_padded(&mut out, rest % 60, 2);
    assert(out@ =~= timestamp_text(secs as nat));
    out
}

} // verus!
