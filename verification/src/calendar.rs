//! The proleptic Gregorian calendar, counted in days from 1970-01-01.
use vstd::prelude::*;

verus! {

/// Whether `year` is a leap year in the proleptic Gregorian calendar.
pub open spec fn is_leap_year(year: int) -> bool {
    year % 4 == 0 && (year % 100 != 0 || year % 400 == 0)
}

/// Number of days in `month` (1 = January) of `year`.
pub open spec fn days_in_month(year: int, month: int) -> int {
    if month == 2 {
        if is_leap_year(year) { 29 } else { 28 }
    } else if month == 4 || month == 6 || month == 9 || month == 11 {
        30
    } else {
        31
    }
}

/// Number of days in `year`.
pub open spec fn days_in_year(year: int) -> int {
    if is_leap_year(year) { 366 } else { 365 }
}

/// A calendar date: a month of 1 to 12 and a day within that month.
pub open spec fn is_valid_date(year: int, month: int, day: int) -> bool {
    1 <= month <= 12 && 1 <= day <= days_in_month(year, month)
}

/// Days of the months of `year` that come before `month`.
pub open spec fn days_before_month(year: int, month: int) -> int
    decreases month,
{
    if month <= 1 {
        0
    } else {
        days_before_month(year, month - 1) + days_in_month(year, month - 1)
    }
}

/// Zero-based position of a date within its year.
pub open spec fn day_of_year(year: int, month: int, day: int) -> int {
    days_before_month(year, month) + day - 1
}

/// Leap years among the years 1 to `year - 1` (a signed count for `year < 1`,
/// so that it grows by one exactly past each leap year).
pub open spec fn leap_years_before(year: int) -> int {
    (year - 1) / 4 - (year - 1) / 100 + (year - 1) / 400
}

/// Days from 1970-01-01 to the first of January of `year` (negative before 1970).
pub open spec fn days_before_year(year: int) -> int {
    365 * (year - 1970) + leap_years_before(year) - leap_years_before(1970)
}

/// Days from 1970-01-01 to the given date (negative before 1970).
pub open spec fn days_from_civil(year: int, month: int, day: int) -> int {
    days_before_year(year) + day_of_year(year, month, day)
}

/// The calendar date that lies `days` days after 1970-01-01.
pub open spec fn civil_of(days: int) -> (int, int, int) {
    choose|d: (int, int, int)| is_valid_date(d.0, d.1, d.2) && days_from_civil(d.0, d.1, d.2) == days
}

/// Days before each month, as a table.
pub proof fn lemma_days_before_month_table(year: int, month: int)
    requires
        1 <= month <= 12,
    ensures
        days_before_month(year, month) == (if month == 1 {
            0int
        } else if month == 2 {
            31
        } else if month == 3 {
            59
        } else if month == 4 {
            90
        } else if month == 5 {
            120
        } else if month == 6 {
            151
        } else if month == 7 {
            181
        } else if month == 8 {
            212
        } else if month == 9 {
            243
        } else if month == 10 {
            273
        } else if month == 11 {
            304
        } else {
            334
        }) + (if month > 2 && is_leap_year(year) { 1int } else { 0 }),
{
    reveal_with_fuel(days_before_month, 12);
}

/// Past a year the count of leap years grows by one exactly when that year is a leap year.
proof fn lemma_leap_years_step(year: int)
    ensures
        leap_years_before(year + 1) == leap_years_before(year) + (if is_leap_year(year) { 1int } else { 0 }),
{
}

/// One year further on, the day count has grown by the length of that year.
pub proof fn lemma_days_before_year_step(year: int)
    ensures
        days_before_year(year + 1) == days_before_year(year) + days_in_year(year),
{
    lemma_leap_years_step(year);
}

/// A later year starts after the whole of an earlier one.
pub proof fn lemma_days_before_year_increasing(y1: int, y2: int)
    requires
        y1 < y2,
    ensures
        days_before_year(y1) + days_in_year(y1) <= days_before_year(y2),
    decreases y2 - y1,
{
    lemma_days_before_year_step(y1);
    if y1 + 1 < y2 {
        lemma_days_before_year_increasing(y1 + 1, y2);
        lemma_days_before_year_step(y1 + 1);
    }
}

/// Each year has at least 365 days.
pub proof fn lemma_days_before_year_growth(y1: int, y2: int)
    requires
        y1 <= y2,
    ensures
        days_before_year(y2) - days_before_year(y1) >= 365 * (y2 - y1),
    decreases y2 - y1,
{
    if y1 < y2 {
        lemma_days_before_year_step(y1);
        lemma_days_before_year_growth(y1 + 1, y2);
    }
}

/// Within `2 * 10^14` days of 1970-01-01 the year has at most twelve digits.
pub proof fn lemma_civil_year_bound(days: int)
    requires
        -200_000_000_000_000 <= days <= 200_000_000_000_000,
    ensures
        -1_000_000_000_000 < civil_of(days).0 < 1_000_000_000_000,
{
    lemma_civil_of_is_date(days);
    let (y, m, d) = civil_of(days);
    lemma_day_of_year_range(y, m, d);
    if y >= 1970 {
        lemma_days_before_year_growth(1970, y);
    } else {
        lemma_days_before_year_growth(y, 1970);
    }
}

/// A valid date lies within its year.
pub proof fn lemma_day_of_year_range(year: int, month: int, day: int)
    requires
        is_valid_date(year, month, day),
    ensures
        0 <= day_of_year(year, month, day) < days_in_year(year),
{
    lemma_days_before_month_table(year, month);
}

/// Within a year, a later date has a later position.
pub proof fn lemma_day_of_year_increasing(year: int, m1: int, d1: int, m2: int, d2: int)
    requires
        is_valid_date(year, m1, d1),
        is_valid_date(year, m2, d2),
        m1 < m2 || (m1 == m2 && d1 < d2),
    ensures
        day_of_year(year, m1, d1) < day_of_year(year, m2, d2),
{
    lemma_days_before_month_table(year, m1);
    lemma_days_before_month_table(year, m2);
}

/// Of two valid dates, the later one (in year, month, day order) is further from 1970-01-01.
pub proof fn lemma_days_from_civil_increasing(a: (int, int, int), b: (int, int, int))
    requires
        is_valid_date(a.0, a.1, a.2),
        is_valid_date(b.0, b.1, b.2),
        a.0 < b.0 || (a.0 == b.0 && (a.1 < b.1 || (a.1 == b.1 && a.2 < b.2))),
    ensures
        days_from_civil(a.0, a.1, a.2) < days_from_civil(b.0, b.1, b.2),
{
    if a.0 < b.0 {
        lemma_day_of_year_range(a.0, a.1, a.2);
        lemma_day_of_year_range(b.0, b.1, b.2);
        lemma_days_before_year_increasing(a.0, b.0);
    } else {
        lemma_day_of_year_increasing(a.0, a.1, a.2, b.1, b.2);
    }
}

/// Distinct valid dates have distinct day counts.
pub proof fn lemma_days_from_civil_injective(a: (int, int, int), b: (int, int, int))
    requires
        is_valid_date(a.0, a.1, a.2),
        is_valid_date(b.0, b.1, b.2),
        days_from_civil(a.0, a.1, a.2) == days_from_civil(b.0, b.1, b.2),
    ensures
        a == b,
{
    if a.0 < b.0 || (a.0 == b.0 && (a.1 < b.1 || (a.1 == b.1 && a.2 < b.2))) {
        lemma_days_from_civil_increasing(a, b);
    } else if b.0 < a.0 || (a.0 == b.0 && (b.1 < a.1 || (a.1 == b.1 && b.2 < a.2))) {
        lemma_days_from_civil_increasing(b, a);
    }
}

/// The date `days` after 1970-01-01 is the valid date whose day count is `days`:
/// counting the days of a date and reading the date back gives the same date.
pub proof fn lemma_civil_of_days_from_civil(year: int, month: int, day: int)
    requires
        is_valid_date(year, month, day),
    ensures
        civil_of(days_from_civil(year, month, day)) == (year, month, day),
{
    let days = days_from_civil(year, month, day);
    let w = (year, month, day);
    assert(is_valid_date(w.0, w.1, w.2) && days_from_civil(w.0, w.1, w.2) == days);
    let c = civil_of(days);
    lemma_days_from_civil_injective(c, w);
}

/// The date after a valid date: the next day of the month, else the first of
/// the next month, else the first of January of the next year.
pub open spec fn next_date(year: int, month: int, day: int) -> (int, int, int) {
    if day < days_in_month(year, month) {
        (year, month, day + 1)
    } else if month < 12 {
        (year, month + 1, 1)
    } else {
        (year + 1, 1, 1)
    }
}

/// One day later is the next date: `civil_of(days + 1)` follows `civil_of(days)`.
pub proof fn lemma_next_day(days: int)
    ensures
        civil_of(days + 1) == next_date(civil_of(days).0, civil_of(days).1, civil_of(days).2),
{
    lemma_civil_of_is_date(days);
    let (y, m, d) = civil_of(days);
    let n = next_date(y, m, d);
    lemma_days_before_month_table(y, m);
    if d >= days_in_month(y, m) && m < 12 {
        lemma_days_before_month_table(y, m + 1);
    } else if d >= days_in_month(y, m) {
        lemma_days_before_year_step(y);
        lemma_days_before_month_table(y + 1, 1);
    }
    assert(is_valid_date(n.0, n.1, n.2));
    assert(days_from_civil(n.0, n.1, n.2) == days + 1);
    lemma_civil_of_days_from_civil(n.0, n.1, n.2);
}

/// Position within a 400-year era (counted from the first of March) of the
/// March-based year that holds day `doe` of that era.
proof fn lemma_year_of_era(doe: int)
    requires
        0 <= doe <= 146096,
    ensures
        ({
            let yoe = (doe - doe / 1460 + doe / 36524 - doe / 146096) / 365;
            let base = 365 * yoe + yoe / 4 - yoe / 100;
            &&& 0 <= yoe <= 399
            &&& base <= doe
            &&& doe - base <= 364 + (if is_leap_year(yoe + 1) { 1int } else { 0 })
        }),
{
}

/// Day count from 0000-03-01 of the date in March-based year `y`, month `mp`
/// counted from March (0) to February (11), and `day`.
spec fn days_from_march_zero(y: int, mp: int, day: int) -> int {
    365 * y + y / 4 - y / 100 + y / 400 + (153 * mp + 2) / 5 + day - 1
}

/// The calendar year and month of March-based year `y` and month index `mp`.
spec fn march_month_to_civil(y: int, mp: int) -> (int, int) {
    if mp < 10 { (y, mp + 3) } else { (y + 1, mp - 9) }
}

proof fn lemma_march_based_count(y: int, mp: int, day: int)
    requires
        0 <= mp <= 11,
    ensures
        ({
            let (cy, cm) = march_month_to_civil(y, mp);
            days_from_civil(cy, cm, day) + 719468 == days_from_march_zero(y, mp, day)
        }),
{
    let (cy, cm) = march_month_to_civil(y, mp);
    lemma_days_before_month_table(cy, cm);
    lemma_leap_years_step(y);
}

/// The month index `(5 * doy + 2) / 153` (March = 0) and the day within it
/// describe a valid day of a March-based year whose February has 28 days, or 29 when `leap`.
proof fn lemma_month_of_march_year(doy: int, leap: bool)
    requires
        0 <= doy <= 364 + (if leap { 1int } else { 0 }),
    ensures
        ({
            let mp = (5 * doy + 2) / 153;
            let day = doy - (153 * mp + 2) / 5 + 1;
            &&& 0 <= mp <= 11
            &&& 1 <= day
            &&& day <= (if mp == 11 {
                if leap { 29int } else { 28 }
            } else if mp == 1 || mp == 3 || mp == 6 || mp == 8 {
                30
            } else {
                31
            })
        }),
{
}

/// Hinnant's decomposition of day `doe` of the 400-year era `era` (eras start on
/// the first of March of a year divisible by 400) gives a valid date with that day count.
proof fn lemma_civil_of_era_day(era: int, doe: int)
    requires
        0 <= doe <= 146096,
    ensures
        ({
            let yoe = (doe - doe / 1460 + doe / 36524 - doe / 146096) / 365;
            let y = yoe + era * 400;
            let doy = doe - (365 * yoe + yoe / 4 - yoe / 100);
            let mp = (5 * doy + 2) / 153;
            let day = doy - (153 * mp + 2) / 5 + 1;
            let (cy, cm) = march_month_to_civil(y, mp);
            &&& 0 <= yoe <= 399
            &&& 0 <= doy <= 365
            &&& 0 <= mp <= 11
            &&& is_valid_date(cy, cm, day)
            &&& days_from_civil(cy, cm, day) == 146097 * era + doe - 719468
        }),
{
    let yoe = (doe - doe / 1460 + doe / 36524 - doe / 146096) / 365;
    let y = yoe + era * 400;
    let doy = doe - (365 * yoe + yoe / 4 - yoe / 100);
    lemma_year_of_era(doe);
    assert(is_leap_year(yoe + 1) == is_leap_year(y + 1));
    lemma_month_of_march_year(doy, is_leap_year(y + 1));
    let mp = (5 * doy + 2) / 153;
    let day = doy - (153 * mp + 2) / 5 + 1;
    assert(y / 4 == era * 100 + yoe / 4);
    assert(y / 100 == era * 4 + yoe / 100);
    assert(y / 400 == era);
    assert(days_from_march_zero(y, mp, day) == 146097 * era + doe);
    lemma_march_based_count(y, mp, day);
    let (cy, cm) = march_month_to_civil(y, mp);
    assert(is_valid_date(cy, cm, day));
}

/// Every day count is the count of some date: `civil_of` always names a valid
/// date, and that date lies `days` days after 1970-01-01.
pub proof fn lemma_civil_of_is_date(days: int)
    ensures
        is_valid_date(civil_of(days).0, civil_of(days).1, civil_of(days).2),
        days_from_civil(civil_of(days).0, civil_of(days).1, civil_of(days).2) == days,
{
    let z = days + 719468;
    let era = z / 146097;
    let doe = z % 146097;
    lemma_civil_of_era_day(era, doe);
    let yoe = (doe - doe / 1460 + doe / 36524 - doe / 146096) / 365;
    let y = yoe + era * 400;
    let doy = doe - (365 * yoe + yoe / 4 - yoe / 100);
    let mp = (5 * doy + 2) / 153;
    let day = doy - (153 * mp + 2) / 5 + 1;
    let (cy, cm) = march_month_to_civil(y, mp);
    lemma_civil_of_days_from_civil(cy, cm, day);
}

/// Days since 1970-01-01 to a civil date `(year, month, day)`, by Howard Hinnant's algorithm.
pub fn civil_from_days(days: i64) -> (r: (i64, u32, u32))
    requires
        days <= i64::MAX - 719_468,
    ensures
        is_valid_date(r.0 as int, r.1 as int, r.2 as int),
        days_from_civil(r.0 as int, r.1 as int, r.2 as int) == days,
        (r.0 as int, r.1 as int, r.2 as int) == civil_of(days as int),
{
    let z = days + 719_468;
    let era = z.checked_div_euclid(146_097).unwrap();
    let doe = z.checked_rem_euclid(146_097).unwrap();
    proof {
        lemma_civil_of_era_day(era as int, doe as int);
    }
    let yoe = (doe - doe / 1_460 + doe / 36_524 - doe / 146_096) / 365;
    let year = yoe + era * 400;
    let doy = doe - (365 * yoe + yoe / 4 - yoe / 100);
    let mp = (5 * doy + 2) / 153;
    let day = (doy - (153 * mp + 2) / 5 + 1) as u32;
    let month = if mp < 10 { mp + 3 } else { mp - 9 } as u32;
    let r = (if month <= 2 { year + 1 } else { year }, month, day);
    proof {
        lemma_civil_of_days_from_civil(r.0 as int, r.1 as int, r.2 as int);
    }
    r
}

} // verus!
