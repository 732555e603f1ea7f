//! The calendar.

use vstd::prelude::*;

verus! {

/// Quotient without the fraction, as signed division gives it.
pub open spec fn quotient(a: int, b: int) -> int {
    if a >= 0 {
        a / b
    } else {
        -((-a) / b)
    }
}

/// Offsets of the months in [`weekday`].
pub open spec fn month_offset(m: int) -> int {
    seq![0int, 3, 2, 5, 0, 3, 5, 1, 4, 6, 2, 4][m - 1]
}

/// The year that [`weekday`] counts from: January and February belong to the
/// year before.
pub open spec fn counting_year(y: int, m: int) -> int {
    if m < 3 {
        y - 1
    } else {
        y
    }
}

/// Day of the week by Sakamoto's method, from 0 for Monday to 6 for Sunday.
pub open spec fn weekday(y: int, m: int, d: int) -> int {
    let c = counting_year(y, m);
    let sunday_based = (c + quotient(c, 4) - quotient(c, 100) + quotient(c, 400) + month_offset(m)
        + d) % 7;
    (sunday_based + 6) % 7
}

/// Days from 1970-01-01 to a date, by counting years from March.
pub open spec fn epoch_days(y: int, m: int, d: int) -> int {
    let c = if m <= 2 {
        y - 1
    } else {
        y
    };
    let era = c / 400;
    let year_of_era = c % 400;
    let month = if m > 2 {
        m - 3
    } else {
        m + 9
    };
    let day_of_year = quotient(153 * month + 2, 5) + d - 1;
    let day_of_era = year_of_era * 365 + year_of_era / 4 - year_of_era / 100 + day_of_year;
    era * 146097 + day_of_era - 719468
}

/// Seconds from the start of 1970 to a moment.
pub open spec fn epoch_seconds(y: int, m: int, d: int, h: int, mi: int, s: int) -> int {
    epoch_days(y, m, d) * 86400 + h * 3600 + mi * 60 + s
}

// ---------------------------------------------------------------------------
// Counting days
// ---------------------------------------------------------------------------

/// Whether a year has a 29th of February.
pub open spec fn is_leap(y: int) -> bool {
    y % 4 == 0 && (y % 100 != 0 || y % 400 == 0)
}

/// Length of a year.
pub open spec fn year_days(y: int) -> int {
    if is_leap(y) {
        366
    } else {
        365
    }
}

/// Length of a month.
pub open spec fn month_days(y: int, m: int) -> int {
    if m == 2 {
        if is_leap(y) {
            29
        } else {
            28
        }
    } else if m == 4 || m == 6 || m == 9 || m == 11 {
        30
    } else {
        31
    }
}

/// Days from the start of 1970 to the start of a later year.
pub open spec fn days_to_year(y: int) -> int
    decreases y - 1970,
{
    if y <= 1970 {
        0
    } else {
        days_to_year(y - 1) + year_days(y - 1)
    }
}

/// Days from the start of a year to the start of a month.
pub open spec fn days_to_month(y: int, m: int) -> int
    decreases m,
{
    if m <= 1 {
        0
    } else {
        days_to_month(y, m - 1) + month_days(y, m - 1)
    }
}

/// Days up to the start of the year `c + 1`, without eras.
spec fn year_sum(c: int) -> int {
    365 * c + c / 4 - c / 100 + c / 400
}

proof fn lemma_eras(c: int)
    ensures
        ({
            let era = c / 400;
            let yoe = c % 400;
            era * 146097 + (yoe * 365 + yoe / 4 - yoe / 100) == year_sum(c)
        }),
{
    let era = c / 400;
    let yoe = c % 400;
    assert(c == 400 * era + yoe);
    assert(c / 4 == 100 * era + yoe / 4);
    assert(c / 100 == 4 * era + yoe / 100);
}

proof fn lemma_year_start(y: int)
    requires
        1970 <= y,
    ensures
        epoch_days(y, 1, 1) == days_to_year(y),
    decreases y,
{
    lemma_eras(y - 1);
    if y == 1970 {
        assert(year_sum(1969) == 719162);
    } else {
        lemma_year_start(y - 1);
        lemma_eras(y - 2);
        assert(year_sum(y - 1) - year_sum(y - 2) == year_days(y - 1));
    }
}

proof fn lemma_month_start(y: int, m: int)
    requires
        1 <= m <= 12,
    ensures
        epoch_days(y, m, 1) - epoch_days(y, 1, 1) == days_to_month(y, m),
{
    lemma_eras(y - 1);
    lemma_eras(y);
    assert(year_sum(y) - year_sum(y - 1) == year_days(y));
    reveal_with_fuel(days_to_month, 13);
    assert(days_to_month(y, 1) == 0);
    assert(days_to_month(y, 2) == 31);
    assert(days_to_month(y, 3) == 31 + month_days(y, 2));
    assert(days_to_month(y, 4) == days_to_month(y, 3) + 31);
    assert(days_to_month(y, 5) == days_to_month(y, 4) + 30);
    assert(days_to_month(y, 6) == days_to_month(y, 5) + 31);
    assert(days_to_month(y, 7) == days_to_month(y, 6) + 30);
    assert(days_to_month(y, 8) == days_to_month(y, 7) + 31);
    assert(days_to_month(y, 9) == days_to_month(y, 8) + 31);
    assert(days_to_month(y, 10) == days_to_month(y, 9) + 30);
    assert(days_to_month(y, 11) == days_to_month(y, 10) + 31);
    assert(days_to_month(y, 12) == days_to_month(y, 11) + 30);
}

/// Days since the start of 1970 are counted right: one year, one month and
/// one day after the other.
pub proof fn lemma_epoch_days_count(y: int, m: int, d: int)
    requires
        1970 <= y,
        1 <= m <= 12,
    ensures
        epoch_days(y, m, d) == days_to_year(y) + days_to_month(y, m) + d - 1,
{
    lemma_year_start(y);
    lemma_month_start(y, m);
}

/// The day of the week goes with the days since the start of 1970, which was
/// a Thursday.
pub proof fn lemma_weekday_follows_days(y: int, m: int, d: int)
    requires
        1 <= y,
        1 <= m <= 12,
    ensures
        weekday(y, m, d) == (epoch_days(y, m, d) + 3) % 7,
{
    let c = counting_year(y, m);
    lemma_eras(c);
    assert(c >= 0);
    let sum = c + c / 4 - c / 100 + c / 400;
    assert(year_sum(c) == sum + 7 * (52 * c));
    let month = if m > 2 {
        m - 3
    } else {
        m + 9
    };
    let day_of_year = (153 * month + 2) / 5;
    let k = (epoch_days(y, m, d) + 3) - (sum + day_of_year + d - 719466);
    assert(k == 7 * (52 * c));
    assert(weekday(y, m, d) == (sum + month_offset(m) + d + 6) % 7);
    let shift = month_offset(m) + 6 - (day_of_year - 719466);
    assert(shift % 7 == 0) by {
        if m == 1 {
        } else if m == 2 {
        } else if m == 3 {
        } else if m == 4 {
        } else if m == 5 {
        } else if m == 6 {
        } else if m == 7 {
        } else if m == 8 {
        } else if m == 9 {
        } else if m == 10 {
        } else if m == 11 {
        } else {
        }
    }
}

/// Dates follow one upon the other: the days of a month, the months of a year
/// with their lengths, and the years, with 366 days in every fourth year but for
/// the full centuries that 400 does not divide. The count starts with 1970.
pub proof fn lemma_dates_follow(y: int, m: int, d: int)
    requires
        1 <= m <= 12,
    ensures
        epoch_days(1970, 1, 1) == 0,
        epoch_days(y, m, d + 1) == epoch_days(y, m, d) + 1,
        m == 1 || m == 3 || m == 5 || m == 7 || m == 8 || m == 10 ==> epoch_days(y, m + 1, d)
            == epoch_days(y, m, d) + 31,
        m == 4 || m == 6 || m == 9 || m == 11 ==> epoch_days(y, m + 1, d) == epoch_days(y, m, d)
            + 30,
        m == 2 && y % 4 == 0 && (y % 100 != 0 || y % 400 == 0) ==> epoch_days(y, 3, d)
            == epoch_days(y, 2, d) + 29,
        m == 2 && !(y % 4 == 0 && (y % 100 != 0 || y % 400 == 0)) ==> epoch_days(y, 3, d)
            == epoch_days(y, 2, d) + 28,
        m == 12 ==> epoch_days(y + 1, 1, d) == epoch_days(y, 12, d) + 31,
{
    lemma_eras(y);
    lemma_eras(y - 1);
    assert(year_sum(1969) == 719162) by {
        lemma_eras(1969);
    }
    lemma_eras(1969);
    assert(year_sum(y) - year_sum(y - 1) == year_days(y));
}

/// A moment is counted in seconds: 86400 to the day, 3600 to the hour and 60 to
/// the minute.
pub proof fn lemma_seconds_follow(y: int, m: int, d: int, h: int, mi: int, s: int)
    ensures
        epoch_seconds(y, m, d, 0, 0, 0) == 86400 * epoch_days(y, m, d),
        epoch_seconds(y, m, d, h + 1, mi, s) == epoch_seconds(y, m, d, h, mi, s) + 3600,
        epoch_seconds(y, m, d, h, mi + 1, s) == epoch_seconds(y, m, d, h, mi, s) + 60,
        epoch_seconds(y, m, d, h, mi, s + 1) == epoch_seconds(y, m, d, h, mi, s) + 1,
{
}

/// One day later is one day of the week further.
pub proof fn lemma_weekday_steps(y: int, m: int, d: int)
    ensures
        weekday(y, m, d + 1) == (weekday(y, m, d) + 1) % 7,
{
}

} // verus!
