//! Days and instants of the proleptic Gregorian calendar.

use vstd::prelude::*;

verus! {

/// Whether a year has a leap day.
pub open spec fn leap(year: int) -> bool {
    year % 4 == 0 && (year % 100 != 0 || year % 400 == 0)
}

/// The days of a month.
pub open spec fn month_days(year: int, month: int) -> int {
    if month == 2 {
        if leap(year) {
            29
        } else {
            28
        }
    } else if month == 4 || month == 6 || month == 9 || month == 11 {
        30
    } else {
        31
    }
}

/// The days from the start of the year 1 to the start of a year.
pub open spec fn days_before_year(year: int) -> int {
    365 * (year - 1) + (year - 1) / 4 - (year - 1) / 100 + (year - 1) / 400
}

/// The days from the start of the year to the start of a month.
pub open spec fn days_before_month(year: int, month: int) -> int
    decreases month,
{
    if month <= 1 {
        0
    } else {
        days_before_month(year, month - 1) + month_days(year, month - 1)
    }
}

/// The days from the start of the year 1 to the start of 1970.
pub const EPOCH_DAYS: i64 = 719_162;

/// The days from 1970-01-01 to a date. A day behind the end of its month
/// counts on into the next.
pub open spec fn days_of(year: int, month: int, day: int) -> int {
    days_before_year(year) + days_before_month(year, month) + day - 1 - EPOCH_DAYS
}

/// The days between dates run on: from day to day, from the last day of a
/// month to the next month, and from the last day of a year to the next year.
/// They count from 1970-01-01.
pub proof fn law_days_run_on(year: int, month: int, day: int)
    ensures
        days_of(1970, 1, 1) == 0,
        days_of(year, month, day + 1) == days_of(year, month, day) + 1,
        month >= 1 ==> days_of(year, month + 1, 1) == days_of(
            year,
            month,
            month_days(year, month),
        ) + 1,
        days_of(year + 1, 1, 1) == days_of(year, 12, 31) + 1,
{
    lemma_month_table(year);
    lemma_year_length(year);
}

/// From the start of a month to the start of the next are as many days as the
/// month has: 28 or 29 in February, with 29 in every fourth year but for the
/// hundredth ones that are no four-hundredth.
pub proof fn law_month_lengths(year: int)
    ensures
        days_of(1970, 1, 1) == 0,
        days_of(year, 2, 1) - days_of(year, 1, 1) == 31,
        days_of(year, 3, 1) - days_of(year, 2, 1) == if year % 400 == 0 || (year % 4 == 0 && year
            % 100 != 0) {
            29int
        } else {
            28
        },
        days_of(year, 4, 1) - days_of(year, 3, 1) == 31,
        days_of(year, 5, 1) - days_of(year, 4, 1) == 30,
        days_of(year, 6, 1) - days_of(year, 5, 1) == 31,
        days_of(year, 7, 1) - days_of(year, 6, 1) == 30,
        days_of(year, 8, 1) - days_of(year, 7, 1) == 31,
        days_of(year, 9, 1) - days_of(year, 8, 1) == 31,
        days_of(year, 10, 1) - days_of(year, 9, 1) == 30,
        days_of(year, 11, 1) - days_of(year, 10, 1) == 31,
        days_of(year, 12, 1) - days_of(year, 11, 1) == 30,
        days_of(year + 1, 1, 1) - days_of(year, 12, 1) == 31,
        forall|month: int, day: int| #[trigger]
            days_of(year, month, day) == days_of(year, month, 1) + day - 1,
{
    lemma_month_table(year);
    lemma_year_length(year);
    assert(year % 400 == 0 ==> year % 100 == 0);
    assert(year % 100 == 0 ==> year % 4 == 0);
}

/// An instant is so many days, hours, minutes, seconds and nanoseconds from
/// 1970-01-01; there is one exactly where every field is in its range and 64
/// bits hold the nanoseconds.
pub proof fn law_instant(
    year: i32,
    month: u32,
    day: u32,
    hour: u32,
    minute: u32,
    second: u32,
    frac_ns: u32,
)
    ensures
        ({
            let days = days_of(year as int, month as int, day as int);
            let ns = days * 86_400_000_000_000 + hour * 3_600_000_000_000 + minute
                * 60_000_000_000 + second * 1_000_000_000 + frac_ns;
            let t = instant(year, month, day, hour, minute, second, frac_ns);
            &&& t is Some == (1 <= month <= 12 && 1 <= day <= 31 && hour < 24 && minute < 60
                && second <= 60 && -0x8000_0000_0000_0000 <= ns < 0x8000_0000_0000_0000)
            &&& t is Some ==> t->0 == ns
        }),
{
}

proof fn lemma_month_table(year: int)
    ensures
        days_before_month(year, 1) == 0,
        days_before_month(year, 2) == 31,
        days_before_month(year, 3) == 31 + month_days(year, 2),
        days_before_month(year, 4) == 62 + month_days(year, 2),
        days_before_month(year, 5) == 92 + month_days(year, 2),
        days_before_month(year, 6) == 123 + month_days(year, 2),
        days_before_month(year, 7) == 153 + month_days(year, 2),
        days_before_month(year, 8) == 184 + month_days(year, 2),
        days_before_month(year, 9) == 215 + month_days(year, 2),
        days_before_month(year, 10) == 245 + month_days(year, 2),
        days_before_month(year, 11) == 276 + month_days(year, 2),
        days_before_month(year, 12) == 306 + month_days(year, 2),
{
    reveal_with_fuel(days_before_month, 13);
}

proof fn lemma_year_length(year: int)
    ensures
        days_before_year(year + 1) == days_before_year(year) + 337 + month_days(year, 2),
{
    assert((year - 1) / 4 + if year % 4 == 0 {
        1int
    } else {
        0
    } == year / 4);
    assert((year - 1) / 100 + if year % 100 == 0 {
        1int
    } else {
        0
    } == year / 100);
    assert((year - 1) / 400 + if year % 400 == 0 {
        1int
    } else {
        0
    } == year / 400);
    assert(year % 400 == 0 ==> year % 100 == 0);
    assert(year % 100 == 0 ==> year % 4 == 0);
}

/// The days from 1970-01-01 to a date, by counting years from March on.
pub fn civil_to_days(year: i32, month: u32, day: u32) -> (r: i64)
    requires
        1 <= month <= 12,
    ensures
        r == days_of(year as int, month as int, day as int),
{
    let y: i64 = if month <= 2 {
        year as i64 - 1
    } else {
        year as i64
    };
    let era: i64 = if y >= 0 {
        y / 400
    } else {
        -((399 - y) / 400)
    };
    proof {
        assert(era == (y as int) / 400);
    }
    let yoe: i64 = y - era * 400;
    assert(yoe == (y as int) % 400);
    let m: i64 = month as i64;
    let from_march: i64 = if m > 2 {
        m - 3
    } else {
        m + 9
    };
    let doy: i64 = (153 * from_march + 2) / 5 + day as i64 - 1;
    let doe: i64 = yoe * 365 + yoe / 4 - yoe / 100 + doy;
    proof {
        let yy = y as int;
        let ee = era as int;
        let oo = yoe as int;
        assert(yy == 400 * ee + oo && 0 <= oo < 400);
        assert(yy / 4 == 100 * ee + oo / 4);
        assert(yy / 100 == 4 * ee + oo / 100);
        assert(yy / 400 == ee);
        lemma_month_table(year as int);
        lemma_year_length(year as int);
        assert(days_before_year(yy + 1) == 365 * yy + yy / 4 - yy / 100 + yy / 400);
    }
    era * 146_097 + doe - 719_468
}

/// The nanoseconds from 1970-01-01 to an instant, where every field is in its
/// range and 64 bits hold the number. A second of 60 is a leap second; it
/// falls on the next minute.
pub open spec fn instant(
    year: i32,
    month: u32,
    day: u32,
    hour: u32,
    minute: u32,
    second: u32,
    frac_ns: u32,
) -> Option<i64> {
    let ns = ((days_of(year as int, month as int, day as int) * 24 + hour) * 60 + minute) * 60
        * 1_000_000_000 + second * 1_000_000_000 + frac_ns;
    if month < 1 || month > 12 || day < 1 || day > 31 || hour > 23 || minute > 59 || second > 60 {
        None
    } else if i64::MIN <= ns <= i64::MAX {
        Some(ns as i64)
    } else {
        None
    }
}

/// The nanoseconds from 1970-01-01 to an instant.
pub fn ymdhms_to_ns(
    year: i32,
    month: u32,
    day: u32,
    hour: u32,
    minute: u32,
    second: u32,
    frac_ns: u32,
) -> (r: Option<i64>)
    ensures
        r == instant(year, month, day, hour, minute, second, frac_ns),
{
    if month < 1 || month > 12 || day < 1 || day > 31 || hour > 23 || minute > 59 || second > 60 {
        return None;
    }
    let days: i64 = civil_to_days(year, month, day);
    let secs: i128 = days as i128 * 86_400 + hour as i128 * 3600 + minute as i128 * 60
        + second as i128;
    let ns: i128 = secs * 1_000_000_000 + frac_ns as i128;
    if i64::MIN as i128 <= ns && ns <= i64::MAX as i128 {
        Some(ns as i64)
    } else {
        None
    }
}

} // verus!
