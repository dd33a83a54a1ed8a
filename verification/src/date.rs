//! Calendar dates: from a count of days, as `YYYY-MM-DD`, and in order.

use vstd::arithmetic::div_mod::{
    lemma_fundamental_div_mod, lemma_hoist_over_denominator, lemma_mod_multiples_basic,
    lemma_mod_multiples_vanish,
};
use vstd::prelude::*;
use vstd::string::*;

use crate::number::{decimal, decimal_of, digit, pad_zeros, zero_padded};
use crate::text::{before, chars_of};

verus! {

// ---- the calendar ----------------------------------------------------------------------------

/// Whether `year` has a 29th of February, in the proleptic Gregorian calendar.
pub open spec fn is_leap(year: int) -> bool {
    year % 4 == 0 && (year % 100 != 0 || year % 400 == 0)
}

/// How many days `month` of `year` has.
pub open spec fn month_length(year: int, month: int) -> int {
    if month == 2 {
        if is_leap(year) {
            29
        } else {
            28
        }
    } else if month == 4 || month == 6 || month == 9 || month == 11 {
        30
    } else {
        31
    }
}

/// Whether there is such a day.
pub open spec fn is_date(year: int, month: int, day: int) -> bool {
    1 <= month <= 12 && 1 <= day <= month_length(year, month)
}

/// How many days there are from the first of January of year 0 to that of `year`.
pub open spec fn days_before_year(year: int) -> int {
    365 * year + (year + 3) / 4 - (year + 99) / 100 + (year + 399) / 400
}

/// How many days of `year` there are before `month`.
pub open spec fn days_before_month(year: int, month: int) -> int
    decreases month,
{
    if month <= 1 {
        0
    } else {
        days_before_month(year, month - 1) + month_length(year, month - 1)
    }
}

/// How many days the date is after the first of January 1970.
pub open spec fn day_number(year: int, month: int, day: int) -> int {
    days_before_year(year) - days_before_year(1970) + days_before_month(year, month) + day - 1
}

/// A year has 366 days when it is a leap year, and 365 otherwise.
pub proof fn lemma_year_length(year: int)
    ensures
        days_before_year(year + 1) - days_before_year(year) == (if is_leap(year) {
            366int
        } else {
            365int
        }),
        days_before_month(year, 12) + month_length(year, 12) == (if is_leap(year) {
            366int
        } else {
            365int
        }),
{
    lemma_months(year);
    lemma_multiples(year);
    assert((year + 4) / 4 - (year + 3) / 4 == (if year % 4 == 0 {
        1int
    } else {
        0int
    }));
    assert((year + 100) / 100 - (year + 99) / 100 == (if year % 100 == 0 {
        1int
    } else {
        0int
    }));
    assert((year + 400) / 400 - (year + 399) / 400 == (if year % 400 == 0 {
        1int
    } else {
        0int
    }));
}

/// Multiples of 400 are multiples of 100, and those are multiples of 4.
proof fn lemma_multiples(year: int)
    ensures
        year % 400 == 0 ==> year % 100 == 0,
        year % 100 == 0 ==> year % 4 == 0,
{
    lemma_fundamental_div_mod(year, 400);
    lemma_fundamental_div_mod(year, 100);
    lemma_mod_multiples_basic(4 * (year / 400), 100);
    lemma_mod_multiples_basic(25 * (year / 100), 4);
}

/// How many days there are before the first of March of `year`, counted from that of year 0.
proof fn lemma_days_before_march(year: int)
    ensures
        days_before_year(year) + 59 + (if is_leap(year) {
            1int
        } else {
            0int
        }) - 60 == 365 * year + year / 4 - year / 100 + year / 400,
{
    lemma_multiples(year);
    assert((year + 3) / 4 == year / 4 + (if year % 4 == 0 {
        0int
    } else {
        1int
    }));
    assert((year + 99) / 100 == year / 100 + (if year % 100 == 0 {
        0int
    } else {
        1int
    }));
    assert((year + 399) / 400 == year / 400 + (if year % 400 == 0 {
        0int
    } else {
        1int
    }));
}

/// Years four hundred apart are alike.
proof fn lemma_era(era: int, year_of_era: int)
    requires
        0 <= year_of_era < 400,
    ensures
        ({
            let year = year_of_era + era * 400;
            &&& year / 4 == year_of_era / 4 + 100 * era
            &&& year / 100 == year_of_era / 100 + 4 * era
            &&& year / 400 == era
            &&& is_leap(year + 1) == is_leap(year_of_era + 1)
        }),
{
    lemma_hoist_over_denominator(year_of_era, 100 * era, 4);
    lemma_hoist_over_denominator(year_of_era, 4 * era, 100);
    lemma_hoist_over_denominator(year_of_era, era, 400);
    lemma_mod_multiples_vanish(100 * era, year_of_era + 1, 4);
    lemma_mod_multiples_vanish(4 * era, year_of_era + 1, 100);
    lemma_mod_multiples_vanish(era, year_of_era + 1, 400);
}

/// The month and day that `day_of_year`, counted from the first of March, falls on.
proof fn lemma_month_and_day(day_of_year: int, month_index: int, day: int)
    requires
        0 <= day_of_year <= 365,
        month_index == (5 * day_of_year + 2) / 153,
        day == day_of_year - (153 * month_index + 2) / 5 + 1,
    ensures
        0 <= month_index <= 11,
        (153 * month_index + 2) / 5 == (if month_index == 0 {
            0int
        } else if month_index == 1 {
            31
        } else if month_index == 2 {
            61
        } else if month_index == 3 {
            92
        } else if month_index == 4 {
            122
        } else if month_index == 5 {
            153
        } else if month_index == 6 {
            184
        } else if month_index == 7 {
            214
        } else if month_index == 8 {
            245
        } else if month_index == 9 {
            275
        } else if month_index == 10 {
            306
        } else {
            337
        }),
        1 <= day <= (if month_index == 11 {
            29int
        } else if month_index == 1 || month_index == 3 || month_index == 6 || month_index == 8 {
            30
        } else {
            31
        }),
        month_index == 11 && day == 29 ==> day_of_year == 365,
{
}

proof fn lemma_months(year: int)
    ensures
        days_before_month(year, 1) == 0,
        days_before_month(year, 2) == 31,
        days_before_month(year, 3) == 31 + month_length(year, 2),
        days_before_month(year, 4) == 62 + month_length(year, 2),
        days_before_month(year, 5) == 92 + month_length(year, 2),
        days_before_month(year, 6) == 123 + month_length(year, 2),
        days_before_month(year, 7) == 153 + month_length(year, 2),
        days_before_month(year, 8) == 184 + month_length(year, 2),
        days_before_month(year, 9) == 215 + month_length(year, 2),
        days_before_month(year, 10) == 245 + month_length(year, 2),
        days_before_month(year, 11) == 276 + month_length(year, 2),
        days_before_month(year, 12) == 306 + month_length(year, 2),
{
    reveal_with_fuel(days_before_month, 13);
}

proof fn lemma_year_of_era(
    day_of_era: int,
    fourth: int,
    century: int,
    last: int,
    year: int,
    quarter: int,
    hundred: int,
)
    requires
        0 <= day_of_era < 146_097,
        fourth == day_of_era / 1460,
        century == day_of_era / 36_524,
        last == day_of_era / 146_096,
        year == (day_of_era - fourth + century - last) / 365,
        quarter == year / 4,
        hundred == year / 100,
    ensures
        0 <= year < 400,
        0 <= day_of_era - (365 * year + quarter - hundred) <= 365,
        day_of_era - (365 * year + quarter - hundred) == 365 ==> is_leap(year + 1),
{
    assert(0 <= century <= 4);
    assert(0 <= last <= 1);
    assert(0 <= year <= 400);
}

/// The number of a date in terms of the first of March before it.
proof fn lemma_from_march(year: int, day_of_year: int, month_index: int, day: int)
    requires
        0 <= day_of_year <= 365,
        month_index == (5 * day_of_year + 2) / 153,
        day == day_of_year - (153 * month_index + 2) / 5 + 1,
        day_of_year == 365 ==> is_leap(year + 1),
    ensures
        0 <= month_index <= 11,
        1 <= day <= 31,
        month_index < 10 ==> {
            &&& is_date(year, month_index + 3, day)
            &&& day_number(year, month_index + 3, day) == 365 * year + year / 4 - year / 100 + year
                / 400 + day_of_year - 719_468
        },
        month_index >= 10 ==> {
            &&& is_date(year + 1, month_index - 9, day)
            &&& day_number(year + 1, month_index - 9, day) == 365 * year + year / 4 - year / 100
                + year / 400 + day_of_year - 719_468
        },
{
    lemma_month_and_day(day_of_year, month_index, day);
    lemma_days_before_march(year);
    assert(days_before_year(1970) == 719_528);
    if month_index < 10 {
        lemma_months(year);
    } else {
        lemma_months(year + 1);
        lemma_year_length(year);
    }
}

/// Two dates with the same number of days are the same date.
pub proof fn lemma_day_numbers_differ(
    year: int,
    month: int,
    day: int,
    other_year: int,
    other_month: int,
    other_day: int,
)
    requires
        is_date(year, month, day),
        is_date(other_year, other_month, other_day),
        day_number(year, month, day) == day_number(other_year, other_month, other_day),
    ensures
        year == other_year && month == other_month && day == other_day,
{
    lemma_months(year);
    lemma_months(other_year);
    assert(0 <= days_before_month(year, month) + day - 1 < 366);
    assert(0 <= days_before_month(other_year, other_month) + other_day - 1 < 366);
    if year < other_year {
        lemma_later_year(year, month, day, other_year);
    }
    if other_year < year {
        lemma_later_year(other_year, other_month, other_day, year);
    }
}

/// Every date of `year` comes before the first day of a later one.
proof fn lemma_later_year(year: int, month: int, day: int, later: int)
    requires
        is_date(year, month, day),
        year < later,
    ensures
        day_number(year, month, day) < days_before_year(later) - days_before_year(1970),
{
    lemma_months(year);
    lemma_year_length(year);
    lemma_years_grow(year + 1, later);
}

proof fn lemma_years_grow(from: int, to: int)
    requires
        from <= to,
    ensures
        days_before_year(from) <= days_before_year(to),
    decreases to - from,
{
    if from < to {
        lemma_years_grow(from, to - 1);
        lemma_year_length(to - 1);
    }
}

/// The date `days` days after the first of January 1970, as year, month and day of the
/// proleptic Gregorian calendar.
///
/// Howard Hinnant's `civil_from_days`.
pub fn civil_from_days(days: i64) -> (date: (i64, u32, u32))
    requires
        days <= i64::MAX - 719_468,
    ensures
        is_date(date.0 as int, date.1 as int, date.2 as int),
        day_number(date.0 as int, date.1 as int, date.2 as int) == days,
{
    let z: i64 = days + 719_468;
    let era: i64 = if z >= 0 {
        z / 146_097
    } else {
        -((-(z + 1)) / 146_097) - 1
    };
    assert(era == z as int / 146_097);
    let day_of_era: i64 = z - era * 146_097;
    let year_of_era: i64 = (day_of_era - day_of_era / 1460 + day_of_era / 36_524 - day_of_era
        / 146_096) / 365;
    proof {
        let doe = day_of_era as int;
        lemma_year_of_era(
            doe,
            doe / 1460,
            doe / 36_524,
            doe / 146_096,
            year_of_era as int,
            year_of_era as int / 4,
            year_of_era as int / 100,
        );
    }
    let year: i64 = year_of_era + era * 400;
    let day_of_year: i64 = day_of_era - (365 * year_of_era + year_of_era / 4 - year_of_era / 100);
    let month_index: i64 = (5 * day_of_year + 2) / 153;
    let day: i64 = day_of_year - (153 * month_index + 2) / 5 + 1;
    let month: i64 = if month_index < 10 {
        month_index + 3
    } else {
        month_index - 9
    };
    let shown: i64 = if month <= 2 {
        year + 1
    } else {
        year
    };
    proof {
        lemma_era(era as int, year_of_era as int);
        lemma_from_march(year as int, day_of_year as int, month_index as int, day as int);
    }
    (shown, month as u32, day as u32)
}

// ---- dates as text ---------------------------------------------------------------------------

/// Whether `c` is a decimal digit.
pub open spec fn is_digit(c: char) -> bool {
    '0' <= c <= '9'
}

/// Whether `text` has the shape `YYYY-MM-DD`.
pub open spec fn has_date_shape(text: Seq<char>) -> bool {
    &&& text.len() == 10
    &&& forall|k: int|
        0 <= k < 10 ==> if k == 4 || k == 7 {
            text[k] == '-'
        } else {
            is_digit(#[trigger] text[k])
        }
}

/// The date as `YYYY-MM-DD`.
pub open spec fn date_text(year: nat, month: nat, day: nat) -> Seq<char> {
    zero_padded(decimal(year), 4) + seq!['-'] + zero_padded(decimal(month), 2) + seq!['-']
        + zero_padded(decimal(day), 2)
}

/// Whether `date` has the shape `YYYY-MM-DD`.
pub fn is_iso_date(date: &str) -> (shaped: bool)
    ensures
        shaped == has_date_shape(date@),
{
    let chars = chars_of(date);
    if chars.len() != 10 {
        return false;
    }
    let mut index: usize = 0;
    while index < 10
        invariant
            index <= 10,
            chars@ == date@,
            chars@.len() == 10,
            forall|k: int|
                0 <= k < index ==> if k == 4 || k == 7 {
                    date@[k] == '-'
                } else {
                    is_digit(#[trigger] date@[k])
                },
        decreases 10 - index,
    {
        let c = chars[index];
        assert(c == date@[index as int]);
        if index == 4 || index == 7 {
            if c != '-' {
                return false;
            }
        } else if !('0' <= c && c <= '9') {
            return false;
        }
        index = index + 1;
    }
    true
}

/// The date in UTC, as `YYYY-MM-DD`, on which the clock stands at `seconds` seconds after the
/// start of 1970.
pub fn today(seconds: u64) -> (text: String)
    ensures
        exists|year: nat, month: nat, day: nat|
            {
                &&& is_date(year as int, month as int, day as int)
                &&& day_number(year as int, month as int, day as int) == seconds as int / 86_400
                &&& text@ == #[trigger] date_text(year, month, day)
            },
{
    let days: i64 = (seconds / 86_400) as i64;
    let (year, month, day) = civil_from_days(days);
    proof {
        if year < 1970 {
            lemma_later_year(year as int, month as int, day as int, 1970);
        }
    }
    let mut text = pad_zeros(decimal_of(year as u64).as_str(), 4);
    text.push('-');
    text.append(pad_zeros(decimal_of(month as u64).as_str(), 2).as_str());
    text.push('-');
    text.append(pad_zeros(decimal_of(day as u64).as_str(), 2).as_str());
    assert(text@ =~= date_text(year as nat, month as nat, day as nat));
    text
}

/// Strings are ordered by the first character in which they differ.
proof fn lemma_first_difference(left: Seq<char>, right: Seq<char>, at: int)
    requires
        0 <= at < left.len(),
        at < right.len(),
        left.take(at) == right.take(at),
        left[at] != right[at],
    ensures
        before(left, right) == (left[at] < right[at]),
    decreases at,
{
    if at > 0 {
        assert(left[0] == left.take(at)[0]);
        assert(right[0] == right.take(at)[0]);
        assert(left.skip(1).take(at - 1) =~= left.take(at).skip(1));
        assert(right.skip(1).take(at - 1) =~= right.take(at).skip(1));
        lemma_first_difference(left.skip(1), right.skip(1), at - 1);
    }
}

proof fn lemma_not_before_itself(text: Seq<char>)
    ensures
        !before(text, text),
    decreases text.len(),
{
    if text.len() > 0 {
        lemma_not_before_itself(text.skip(1));
    }
}

/// The number that the digits of a text shaped `YYYY-MM-DD` make when read on end.
pub open spec fn date_digits(text: Seq<char>) -> int {
    10_000_000 * (text[0] as int - '0' as int) + 1_000_000 * (text[1] as int - '0' as int) + 100_000
        * (text[2] as int - '0' as int) + 10_000 * (text[3] as int - '0' as int) + 1000 * (
    text[5] as int - '0' as int) + 100 * (text[6] as int - '0' as int) + 10 * (text[8] as int
        - '0' as int) + (text[9] as int - '0' as int)
}

/// Texts shaped `YYYY-MM-DD` are ordered as strings just as their years, months and days are
/// as numbers.
pub proof fn lemma_dates_sort_as_strings(left: Seq<char>, right: Seq<char>)
    requires
        has_date_shape(left),
        has_date_shape(right),
    ensures
        before(left, right) <==> date_digits(left) < date_digits(right),
{
    if left == right {
        lemma_not_before_itself(left);
    } else {
        assert(left.take(0) =~= right.take(0));
        let at = lemma_differ_somewhere(left, right, 0);
        lemma_first_difference(left, right, at);
        assert forall|k: int| 0 <= k < at implies left[k] == right[k] by {
            assert(left.take(at)[k] == right.take(at)[k]);
        }
        assert(at != 4 && at != 7);
        assert(is_digit(left[0]) && is_digit(left[1]) && is_digit(left[2]) && is_digit(left[3]));
        assert(is_digit(left[5]) && is_digit(left[6]) && is_digit(left[8]) && is_digit(left[9]));
        assert(is_digit(right[0]) && is_digit(right[1]) && is_digit(right[2]) && is_digit(right[3]));
        assert(is_digit(right[5]) && is_digit(right[6]) && is_digit(right[8]) && is_digit(right[9]));
    }
}

/// The first character, from `from` on, in which two texts of one length differ.
proof fn lemma_differ_somewhere(left: Seq<char>, right: Seq<char>, from: int) -> (at: int)
    requires
        left.len() == right.len(),
        left != right,
        0 <= from <= left.len(),
        left.take(from) == right.take(from),
    ensures
        from <= at < left.len(),
        left.take(at) == right.take(at),
        left[at] != right[at],
    decreases left.len() - from,
{
    if from == left.len() {
        assert(left.take(from) =~= left);
        assert(right.take(from) =~= right);
        from
    } else if left[from] != right[from] {
        from
    } else {
        assert(left.take(from + 1) =~= left.take(from).push(left[from]));
        assert(right.take(from + 1) =~= right.take(from).push(right[from]));
        lemma_differ_somewhere(left, right, from + 1)
    }
}

proof fn lemma_two_digits(value: nat)
    requires
        value < 100,
    ensures
        zero_padded(decimal(value), 2) == seq![digit(value / 10), digit(value % 10)],
        is_digit(digit(value / 10)),
        is_digit(digit(value % 10)),
        10 * (digit(value / 10) as int - '0' as int) + (digit(value % 10) as int - '0' as int)
            == value,
{
    reveal_with_fuel(crate::number::digits, 2);
    reveal_with_fuel(zero_padded, 2);
    assert(zero_padded(decimal(value), 2) =~= seq![digit(value / 10), digit(value % 10)]);
}

proof fn lemma_four_digits(value: nat)
    requires
        value < 10_000,
    ensures
        zero_padded(decimal(value), 4) == seq![
            digit(value / 1000),
            digit(value / 100 % 10),
            digit(value / 10 % 10),
            digit(value % 10),
        ],
        is_digit(digit(value / 1000)),
        is_digit(digit(value / 100 % 10)),
        is_digit(digit(value / 10 % 10)),
        is_digit(digit(value % 10)),
        1000 * (digit(value / 1000) as int - '0' as int) + 100 * (digit(value / 100 % 10) as int
            - '0' as int) + 10 * (digit(value / 10 % 10) as int - '0' as int) + (digit(
            value % 10,
        ) as int - '0' as int) == value,
{
    reveal_with_fuel(crate::number::digits, 4);
    reveal_with_fuel(zero_padded, 5);
    assert(value / 10 / 10 == value / 100);
    assert(value / 10 / 10 / 10 == value / 1000);
    assert(zero_padded(decimal(value), 4) =~= seq![
        digit(value / 1000),
        digit(value / 100 % 10),
        digit(value / 10 % 10),
        digit(value % 10),
    ]);
}

/// The text of a date of the years 0 to 9999 has the shape `YYYY-MM-DD`, and its digits are those
/// of the year, the month and the day.
pub proof fn lemma_date_text(year: nat, month: nat, day: nat)
    requires
        is_date(year as int, month as int, day as int),
        year < 10_000,
    ensures
        has_date_shape(date_text(year, month, day)),
        date_digits(date_text(year, month, day)) == 10_000 * year + 100 * month + day,
{
    lemma_four_digits(year);
    lemma_two_digits(month);
    lemma_two_digits(day);
    let text = date_text(year, month, day);
    let years = zero_padded(decimal(year), 4);
    let months = zero_padded(decimal(month), 2);
    let days = zero_padded(decimal(day), 2);
    assert(text =~= seq![
        years[0],
        years[1],
        years[2],
        years[3],
        '-',
        months[0],
        months[1],
        '-',
        days[0],
        days[1],
    ]);
}

/// Of two dates of the years 0 to 9999, the earlier one comes first as text.
pub proof fn lemma_earlier_date_sorts_first(
    year: nat,
    month: nat,
    day: nat,
    other_year: nat,
    other_month: nat,
    other_day: nat,
)
    requires
        is_date(year as int, month as int, day as int),
        is_date(other_year as int, other_month as int, other_day as int),
        year < 10_000,
        other_year < 10_000,
    ensures
        before(date_text(year, month, day), date_text(other_year, other_month, other_day))
            <==> day_number(year as int, month as int, day as int) < day_number(
            other_year as int,
            other_month as int,
            other_day as int,
        ),
{
    lemma_date_text(year, month, day);
    lemma_date_text(other_year, other_month, other_day);
    lemma_dates_sort_as_strings(
        date_text(year, month, day),
        date_text(other_year, other_month, other_day),
    );
    lemma_months(year as int);
    lemma_months(other_year as int);
    if year < other_year {
        lemma_later_year(year as int, month as int, day as int, other_year as int);
    }
    if other_year < year {
        lemma_later_year(other_year as int, other_month as int, other_day as int, year as int);
    }
}

// ---- laws ------------------------------------------------------------------------------------

/// Days are counted one by one: the day behind a day of a month, the first of a month behind the last
/// of the one before, and the first of a year behind the last of the one before, each count one
/// more; and the count begins with the first day of 1970.
pub proof fn lemma_days_are_counted_one_by_one(year: int, month: int, day: int)
    ensures
        day_number(year, month, day + 1) == day_number(year, month, day) + 1,
        month >= 1 ==> day_number(year, month + 1, 1) == day_number(
            year,
            month,
            month_length(year, month),
        ) + 1,
        day_number(year + 1, 1, 1) == day_number(year, 12, 31) + 1,
        day_number(1970, 1, 1) == 0,
{
    lemma_year_length(year);
    assert(days_before_month(year + 1, 1) == 0);
    assert(days_before_month(1970, 1) == 0);
    assert(month_length(year, 12) == 31);
}

/// A year is a leap year every four years, but for those at the turn of a century that is not a
/// multiple of four centuries; only February is longer in one.
pub proof fn lemma_leap_years_have_a_day_more(year: int, month: int)
    ensures
        is_leap(year) == is_leap(year + 400),
        year % 4 != 0 ==> !is_leap(year),
        year % 4 == 0 && year % 100 != 0 ==> is_leap(year),
        year % 100 == 0 ==> (is_leap(year) <==> year % 400 == 0),
        month_length(year, 2) == (if is_leap(year) {
            29int
        } else {
            28int
        }),
        month != 2 ==> month_length(year, month) == month_length(year + 1, month),
{
}

/// A date is four digits, two and two, parted by dashes; whatever the digits are, nothing else is
/// asked of it, and nothing else is one.
pub proof fn lemma_dates_are_told_by_their_shape(text: Seq<char>)
    requires
        text.len() == 10,
    ensures
        has_date_shape(text) <==> {
            &&& text[4] == '-' && text[7] == '-'
            &&& '0' <= text[0] <= '9' && '0' <= text[1] <= '9'
            &&& '0' <= text[2] <= '9' && '0' <= text[3] <= '9'
            &&& '0' <= text[5] <= '9' && '0' <= text[6] <= '9'
            &&& '0' <= text[8] <= '9' && '0' <= text[9] <= '9'
        },
        forall|other: Seq<char>| #[trigger] has_date_shape(other) ==> other.len() == 10,
{
    if has_date_shape(text) {
        assert(is_digit(text[0]) && is_digit(text[1]) && is_digit(text[2]) && is_digit(text[3]));
        assert(is_digit(text[5]) && is_digit(text[6]) && is_digit(text[8]) && is_digit(text[9]));
    }
    if text[4] == '-' && text[7] == '-' && is_digit(text[0]) && is_digit(text[1]) && is_digit(
        text[2],
    ) && is_digit(text[3]) && is_digit(text[5]) && is_digit(text[6]) && is_digit(text[8])
        && is_digit(text[9]) {
        assert forall|k: int| 0 <= k < 10 implies if k == 4 || k == 7 {
            text[k] == '-'
        } else {
            is_digit(#[trigger] text[k])
        } by {
            assert(k == 0 || k == 1 || k == 2 || k == 3 || k == 4 || k == 5 || k == 6 || k == 7 || k
                == 8 || k == 9);
        }
    }
}

} // verus!
