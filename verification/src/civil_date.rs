//! Dates of the proleptic Gregorian calendar, counted in days from 1970-01-01.

use vstd::prelude::*;

verus! {

/// Whether a year has a 29th of February.
pub open spec fn is_leap(year: int) -> bool {
    year % 4 == 0 && (year % 100 != 0 || year % 400 == 0)
}

/// The number of days in a month.
pub open spec fn days_in_month(year: int, month: int) -> int {
    if month == 2 {
        if is_leap(year) {
            29
        } else {
            28
        }
    } else if month == 4 || month == 6 || month == 9 || month == 11 {
        30
    } else {
        31
    }
}

/// The number of days of a year before the first day of a month.
pub open spec fn days_before_month(year: int, month: int) -> int
    decreases month,
{
    if month <= 1 {
        0
    } else {
        days_before_month(year, month - 1) + days_in_month(year, month - 1)
    }
}

/// The number of leap years from year 1 up to and with `year`.
pub open spec fn leap_years_through(year: int) -> int {
    year / 4 - year / 100 + year / 400
}

/// Whether year, month and day name a day from 1970 on.
pub open spec fn is_date(year: int, month: int, day: int) -> bool {
    1970 <= year && 1 <= month <= 12 && 1 <= day <= days_in_month(year, month)
}

/// The number of days from 1970-01-01 to a date.
pub open spec fn day_number(year: int, month: int, day: int) -> int {
    365 * (year - 1970) + leap_years_through(year - 1) - leap_years_through(1969)
        + days_before_month(year, month) + day - 1
}

/// The number of days before a year of an era of 400 years that begin in March.
spec fn era_days(year: int) -> int {
    365 * year + year / 4 - year / 100 + year / 400
}

proof fn lemma_year_of_era(day_of_era: int, year: int)
    requires
        0 <= day_of_era <= 146_096,
        year == (day_of_era - day_of_era / 1_460 + day_of_era / 36_524 - day_of_era / 146_096) / 365,
    ensures
        0 <= year <= 399,
        era_days(year) <= day_of_era < era_days(year + 1),
{
}

pub proof fn lemma_days_before_month(year: int)
    ensures
        days_before_month(year, 1) == 0,
        days_before_month(year, 2) == 31,
        days_before_month(year, 3) == 59 + (if is_leap(year) {
            1int
        } else {
            0
        }),
        days_before_month(year, 4) == days_before_month(year, 3) + 31,
        days_before_month(year, 5) == days_before_month(year, 3) + 61,
        days_before_month(year, 6) == days_before_month(year, 3) + 92,
        days_before_month(year, 7) == days_before_month(year, 3) + 122,
        days_before_month(year, 8) == days_before_month(year, 3) + 153,
        days_before_month(year, 9) == days_before_month(year, 3) + 184,
        days_before_month(year, 10) == days_before_month(year, 3) + 214,
        days_before_month(year, 11) == days_before_month(year, 3) + 245,
        days_before_month(year, 12) == days_before_month(year, 3) + 275,
        days_before_month(year, 13) == days_before_month(year, 3) + 306,
{
    reveal_with_fuel(days_before_month, 14);
}

pub proof fn lemma_leap_years_step(year: int)
    requires
        0 < year,
    ensures
        leap_years_through(year) == leap_years_through(year - 1) + (if is_leap(year) {
            1int
        } else {
            0
        }),
{
}

proof fn lemma_month_of_year(day_of_year: int, index: int)
    requires
        0 <= day_of_year <= 365,
        index == (5 * day_of_year + 2) / 153,
    ensures
        0 <= index <= 11,
        (153 * index + 2) / 5 <= day_of_year < (153 * (index + 1) + 2) / 5,
{
}

proof fn lemma_shifted(year: int, era: int, periods: int, period: int)
    requires
        0 <= year,
        0 < period,
        periods * period == 400,
    ensures
        (year + 400 * era) / period == year / period + periods * era,
        (year + 400 * era) % period == year % period,
{
    let whole = periods * era;
    assert(400 * era == whole * period) by (nonlinear_arith)
        requires
            whole == periods * era,
            periods * period == 400,
    ;
    vstd::arithmetic::div_mod::lemma_fundamental_div_mod(year, period);
    assert(year + 400 * era == (year / period + whole) * period + year % period)
        by (nonlinear_arith)
        requires
            year == period * (year / period) + year % period,
            400 * era == whole * period,
    ;
    vstd::arithmetic::div_mod::lemma_fundamental_div_mod_converse(
        year + 400 * era,
        period,
        year / period + whole,
        year % period,
    );
}

proof fn lemma_leap_years_of_era(era: int, year: int)
    requires
        0 <= year <= 399,
    ensures
        leap_years_through(year + 400 * era) == leap_years_through(year) + 97 * era,
        is_leap(year + 1 + 400 * era) == is_leap(year + 1),
{
    lemma_shifted(year, era, 100, 4);
    lemma_shifted(year, era, 4, 100);
    lemma_shifted(year, era, 1, 400);
    lemma_shifted(year + 1, era, 100, 4);
    lemma_shifted(year + 1, era, 4, 100);
    lemma_shifted(year + 1, era, 1, 400);
}

/// The day `day_of_year` days after the first of March of a year is the day
/// `day - 1` days after the first of the month that it falls in.
proof fn lemma_march_date(march_year: int, day_of_year: int, index: int)
    requires
        0 < march_year,
        0 <= day_of_year,
        day_of_year < 365 || (day_of_year == 365 && is_leap(march_year + 1)),
        index == (5 * day_of_year + 2) / 153,
    ensures
        0 <= index <= 11,
        ({
            let day = day_of_year - (153 * index + 2) / 5 + 1;
            let month = if index >= 10 {
                index - 9
            } else {
                index + 3
            };
            let year = if index >= 10 {
                march_year + 1
            } else {
                march_year
            };
            &&& 1 <= day <= days_in_month(year, month)
            &&& 365 * year + leap_years_through(year - 1) + days_before_month(year, month) + day - 1
                == 365 * march_year + leap_years_through(march_year) + 59 + day_of_year
        }),
{
    lemma_month_of_year(day_of_year, index);
    lemma_leap_years_step(march_year);
    if index >= 10 {
        lemma_days_before_month(march_year + 1);
    } else {
        lemma_days_before_month(march_year);
    }
}

proof fn lemma_years_grow(year: int, later: int)
    requires
        0 < year < later,
    ensures
        day_number(year + 1, 1, 1) <= day_number(later, 1, 1),
        day_number(year + 1, 1, 1) == day_number(year, 1, 1) + (if is_leap(year) {
            366int
        } else {
            365
        }),
{
    lemma_days_before_month(year);
    lemma_leap_years_step(year);
}

proof fn lemma_day_within_year(year: int, month: int, day: int)
    requires
        is_date(year, month, day),
    ensures
        day_number(year, 1, 1) <= day_number(year, month, day),
        day_number(year, month, day) < day_number(year, 1, 1) + (if is_leap(year) {
            366int
        } else {
            365
        }),
{
    lemma_days_before_month(year);
}

proof fn lemma_month_within_year(year: int, month: int, later: int)
    requires
        1 <= month < later <= 12,
    ensures
        days_before_month(year, month) + days_in_month(year, month) <= days_before_month(
            year,
            later,
        ),
    decreases later,
{
    if later > month + 1 {
        lemma_month_within_year(year, month, later - 1);
    }
}

/// No two dates have the same day number.
pub proof fn dates_are_unique(
    year: int,
    month: int,
    day: int,
    other_year: int,
    other_month: int,
    other_day: int,
)
    requires
        is_date(year, month, day),
        is_date(other_year, other_month, other_day),
        day_number(year, month, day) == day_number(other_year, other_month, other_day),
    ensures
        year == other_year,
        month == other_month,
        day == other_day,
{
    lemma_day_within_year(year, month, day);
    lemma_day_within_year(other_year, other_month, other_day);
    if year < other_year {
        lemma_years_grow(year, other_year);
    } else if other_year < year {
        lemma_years_grow(other_year, year);
    } else if month < other_month {
        lemma_month_within_year(year, month, other_month);
    } else if other_month < month {
        lemma_month_within_year(year, other_month, month);
    }
}

/// The date that is `days` days after 1970-01-01.
pub open spec fn date_on(days: int) -> (int, int, int) {
    choose|date: (int, int, int)|
        is_date(date.0, date.1, date.2) && #[trigger] day_number(date.0, date.1, date.2) == days
}

/// A date is the date on its day.
pub proof fn date_on_day_number(year: int, month: int, day: int)
    requires
        is_date(year, month, day),
    ensures
        date_on(day_number(year, month, day)) == (year, month, day),
{
    let days = day_number(year, month, day);
    let date = (year, month, day);
    assert(is_date(date.0, date.1, date.2) && day_number(date.0, date.1, date.2) == days);
    let on = date_on(days);
    dates_are_unique(year, month, day, on.0, on.1, on.2);
}

/// The steps by which [`date_of_day`] finds a date lead to the date with that
/// day number.
proof fn lemma_date_of_day(days: int, era: int, day_of_era: int, year_of_era: int)
    requires
        0 <= days,
        era == (days + 719_468) / 146_097,
        day_of_era == (days + 719_468) % 146_097,
        year_of_era == (day_of_era - day_of_era / 1_460 + day_of_era / 36_524 - day_of_era
            / 146_096) / 365,
    ensures
        0 <= year_of_era <= 399,
        ({
            let day_of_year = day_of_era - (365 * year_of_era + year_of_era / 4 - year_of_era
                / 100);
            let index = (5 * day_of_year + 2) / 153;
            let day = day_of_year - (153 * index + 2) / 5 + 1;
            let march_year = year_of_era + era * 400;
            let date = if index >= 10 {
                (march_year + 1, index - 9, day)
            } else {
                (march_year, index + 3, day)
            };
            &&& 0 <= day_of_year <= 365
            &&& 0 <= index <= 11
            &&& is_date(date.0, date.1, date.2)
            &&& day_number(date.0, date.1, date.2) == days
        }),
{
    lemma_year_of_era(day_of_era, year_of_era);
    let day_of_year = day_of_era - (365 * year_of_era + year_of_era / 4 - year_of_era / 100);
    let march_year = year_of_era + era * 400;
    lemma_leap_years_of_era(era, year_of_era);
    lemma_leap_years_step(year_of_era + 1);
    assert(era_days(year_of_era + 1) == 365 * (year_of_era + 1) + leap_years_through(
        year_of_era + 1,
    ));
    lemma_march_date(march_year, day_of_year, (5 * day_of_year + 2) / 153);
}

/// Every day from 1970-01-01 on has a date.
pub proof fn every_day_has_a_date(days: int)
    requires
        0 <= days,
    ensures
        is_date(date_on(days).0, date_on(days).1, date_on(days).2),
        day_number(date_on(days).0, date_on(days).1, date_on(days).2) == days,
{
    let era = (days + 719_468) / 146_097;
    let day_of_era = (days + 719_468) % 146_097;
    let year_of_era = (day_of_era - day_of_era / 1_460 + day_of_era / 36_524 - day_of_era / 146_096)
        / 365;
    lemma_date_of_day(days, era, day_of_era, year_of_era);
}

/// The date that is `days` days after 1970-01-01.
pub fn date_of_day(days: u64) -> (date: (u64, u64, u64))
    requires
        days <= 0x1_0000_0000_0000,
    ensures
        is_date(date.0 as int, date.1 as int, date.2 as int),
        day_number(date.0 as int, date.1 as int, date.2 as int) == days,
        (date.0 as int, date.1 as int, date.2 as int) == date_on(days as int),
{
    let z: u64 = days + 719_468;
    let era: u64 = z / 146_097;
    let day_of_era: u64 = z % 146_097;
    let year_of_era: u64 = (day_of_era - day_of_era / 1_460 + day_of_era / 36_524 - day_of_era
        / 146_096) / 365;
    proof {
        lemma_date_of_day(days as int, era as int, day_of_era as int, year_of_era as int);
    }
    let day_of_year: u64 = day_of_era - (365 * year_of_era + year_of_era / 4 - year_of_era / 100);
    let index: u64 = (5 * day_of_year + 2) / 153;
    let day: u64 = day_of_year - (153 * index + 2) / 5 + 1;
    let march_year: u64 = year_of_era + era * 400;
    let date: (u64, u64, u64) = if index >= 10 {
        (march_year + 1, index - 9, day)
    } else {
        (march_year, index + 3, day)
    };
    proof {
        date_on_day_number(date.0 as int, date.1 as int, date.2 as int);
    }
    date
}

} // verus!
