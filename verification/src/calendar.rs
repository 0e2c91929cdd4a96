//! The proleptic Gregorian calendar, and turning day numbers into dates.

use vstd::prelude::*;

verus! {

/// Gregorian leap year.
pub open spec fn is_leap(y: int) -> bool {
    y % 4 == 0 && (y % 100 != 0 || y % 400 == 0)
}

/// Number of days of month `m` (1 = January) in year `y`.
pub open spec fn days_in_month(y: int, m: int) -> int {
    if m == 2 {
        if is_leap(y) {
            29
        } else {
            28
        }
    } else if m == 4 || m == 6 || m == 9 || m == 11 {
        30
    } else {
        31
    }
}

/// Days of year `y` before the first of month `m`.
pub open spec fn days_before_month(y: int, m: int) -> int {
    let common: int = if m <= 1 {
        0
    } else if m == 2 {
        31
    } else if m == 3 {
        59
    } else if m == 4 {
        90
    } else if m == 5 {
        120
    } else if m == 6 {
        151
    } else if m == 7 {
        181
    } else if m == 8 {
        212
    } else if m == 9 {
        243
    } else if m == 10 {
        273
    } else if m == 11 {
        304
    } else {
        334
    };
    if m > 2 && is_leap(y) {
        common + 1
    } else {
        common
    }
}

/// Number of leap years `k` with `1 <= k < y` (for `y >= 1`; the same
/// closed form extends it to all years).
pub open spec fn leaps_before(y: int) -> int {
    (y - 1) / 4 - (y - 1) / 100 + (y - 1) / 400
}

/// Days from 1970-01-01 to the first of January of year `y`.
pub open spec fn days_before_year(y: int) -> int {
    365 * (y - 1970) + leaps_before(y) - leaps_before(1970)
}

/// A real calendar date.
pub open spec fn valid_date(y: int, m: int, d: int) -> bool {
    1 <= m <= 12 && 1 <= d <= days_in_month(y, m)
}

/// Days from 1970-01-01 (day 0) to the date `y-m-d`.
pub open spec fn days_from_civil(y: int, m: int, d: int) -> int {
    days_before_year(y) + days_before_month(y, m) + d - 1
}

/// The date of day `z` counted from 1970-01-01.
pub open spec fn date_of_day(z: int) -> (int, int, int) {
    choose|t: (int, int, int)| valid_date(t.0, t.1, t.2) && days_from_civil(t.0, t.1, t.2) == z
}

proof fn lemma_year_of_era(doe: int)
    requires
        0 <= doe <= 146096,
    ensures
        ({
            let yoe = (doe - doe / 1460 + doe / 36524 - doe / 146096) / 365;
            let doy = doe - (365 * yoe + yoe / 4 - yoe / 100);
            &&& 0 <= yoe <= 399
            &&& 0 <= doy <= 365
            &&& doy == 365 ==> (yoe + 1) % 4 == 0 && ((yoe + 1) % 100 != 0 || yoe == 399)
        }),
{
}

/// Counting from 0000-03-01 with years that start in March.
proof fn lemma_march_count(y: int, m: int, d: int)
    requires
        1 <= m <= 12,
    ensures
        ({
            let yy = if m > 2 {
                y
            } else {
                y - 1
            };
            let mp = if m > 2 {
                m - 3
            } else {
                m + 9
            };
            days_from_civil(y, m, d) + 719468 == 365 * yy + yy / 4 - yy / 100 + yy / 400 + (153
                * mp + 2) / 5 + d - 1
        }),
{
}

/// Year length: consecutive new years are 365 or 366 days apart.
proof fn lemma_year_length(y: int)
    ensures
        days_before_year(y + 1) == days_before_year(y) + 365 + (if is_leap(y) {
            1int
        } else {
            0int
        }),
{
}

proof fn lemma_years_increase(y1: int, y2: int)
    requires
        y1 < y2,
    ensures
        days_before_year(y1 + 1) <= days_before_year(y2),
    decreases y2 - y1,
{
    lemma_year_length(y2 - 1);
    if y1 + 1 < y2 {
        lemma_years_increase(y1, y2 - 1);
    }
}

proof fn lemma_date_within_year(y: int, m: int, d: int)
    requires
        valid_date(y, m, d),
    ensures
        days_before_year(y) <= days_from_civil(y, m, d) < days_before_year(y + 1),
{
    lemma_year_length(y);
}

proof fn lemma_months_increase(y: int, m1: int, d1: int, m2: int, d2: int)
    requires
        valid_date(y, m1, d1),
        valid_date(y, m2, d2),
        m1 < m2,
    ensures
        days_before_month(y, m1) + d1 < days_before_month(y, m2) + d2,
{
}

/// Distinct dates fall on distinct days.
pub proof fn lemma_dates_distinct(y1: int, m1: int, d1: int, y2: int, m2: int, d2: int)
    requires
        valid_date(y1, m1, d1),
        valid_date(y2, m2, d2),
        days_from_civil(y1, m1, d1) == days_from_civil(y2, m2, d2),
    ensures
        y1 == y2 && m1 == m2 && d1 == d2,
{
    lemma_date_within_year(y1, m1, d1);
    lemma_date_within_year(y2, m2, d2);
    if y1 < y2 {
        lemma_years_increase(y1, y2);
    } else if y2 < y1 {
        lemma_years_increase(y2, y1);
    } else if m1 < m2 {
        lemma_months_increase(y1, m1, d1, m2, d2);
    } else if m2 < m1 {
        lemma_months_increase(y1, m2, d2, m1, d1);
    }
}

/// A valid date is the date of its own day number.
pub proof fn lemma_date_of_day(y: int, m: int, d: int)
    requires
        valid_date(y, m, d),
    ensures
        date_of_day(days_from_civil(y, m, d)) == (y, m, d),
{
    let z = days_from_civil(y, m, d);
    let w = (y, m, d);
    assert(valid_date(w.0, w.1, w.2) && days_from_civil(w.0, w.1, w.2) == z);
    let t = date_of_day(z);
    lemma_dates_distinct(t.0, t.1, t.2, y, m, d);
}

/// Dates on or after day -719528 (0000-01-01) have a non-negative year.
pub proof fn lemma_year_nonneg(y: int, m: int, d: int)
    requires
        valid_date(y, m, d),
        days_from_civil(y, m, d) >= -719528,
    ensures
        y >= 0,
{
    lemma_date_within_year(y, m, d);
    if y < 0 {
        lemma_years_increase(y, 0);
    }
}

/// Every day from 0000-03-01 on has a date, and it is a real one.
pub proof fn lemma_date_of_day_valid(z: int)
    requires
        z >= -719468,
    ensures
        valid_date(date_of_day(z).0, date_of_day(z).1, date_of_day(z).2),
        days_from_civil(date_of_day(z).0, date_of_day(z).1, date_of_day(z).2) == z,
{
    let zz = z + 719468;
    let era = zz / 146097;
    let doe = zz - era * 146097;
    let yoe = (doe - doe / 1460 + doe / 36524 - doe / 146096) / 365;
    let doy = doe - (365 * yoe + yoe / 4 - yoe / 100);
    let mp = (5 * doy + 2) / 153;
    lemma_hinnant(zz, era, doe, yoe, doy, mp);
    let d = doy - (153 * mp + 2) / 5 + 1;
    let m = if mp < 10 {
        mp + 3
    } else {
        mp - 9
    };
    let y = yoe + era * 400;
    let yr = if m <= 2 {
        y + 1
    } else {
        y
    };
    let w = (yr, m, d);
    assert(valid_date(w.0, w.1, w.2) && days_from_civil(w.0, w.1, w.2) == z);
}

/// The days a Mac timestamp can name (1904 to 2040) fall in the years
/// 1900 to 2100.
pub proof fn lemma_year_range(z: int)
    requires
        -24107 <= z <= 30000,
    ensures
        1900 <= date_of_day(z).0 <= 2100,
{
    lemma_date_of_day_valid(z);
    let (y, m, d) = date_of_day(z);
    lemma_date_within_year(y, m, d);
    assert(days_before_year(1900) == -25567);
    assert(days_before_year(2101) == 47847);
    if y < 1900 {
        lemma_years_increase(y, 1900);
    }
    if y > 2100 {
        lemma_years_increase(2100, y);
    }
}

/// Leap years repeat every 400 years.
proof fn lemma_leap_period(era: int, x: int)
    ensures
        is_leap(400 * era + x) == is_leap(x),
{
    vstd::arithmetic::div_mod::lemma_mod_multiples_vanish(100 * era, x, 4);
    vstd::arithmetic::div_mod::lemma_mod_multiples_vanish(4 * era, x, 100);
    vstd::arithmetic::div_mod::lemma_mod_multiples_vanish(era, x, 400);
    assert(4 * (100 * era) == 400 * era);
    assert(100 * (4 * era) == 400 * era);
}

/// Day `doy` of a year that starts on March 1 falls on a valid day of its
/// month; `ly` is the calendar year of its January and February.
proof fn lemma_month_day(doy: int, ly: int)
    requires
        0 <= doy <= 365,
        doy == 365 ==> is_leap(ly),
    ensures
        ({
            let mp = (5 * doy + 2) / 153;
            let d = doy - (153 * mp + 2) / 5 + 1;
            let m = if mp < 10 {
                mp + 3
            } else {
                mp - 9
            };
            &&& 0 <= mp <= 11
            &&& 1 <= m <= 12
            &&& 1 <= d
            &&& m != 2 ==> d <= days_in_month(ly, m)
            &&& m == 2 ==> d <= days_in_month(ly, 2)
        }),
{
}

/// The steps of the conversion, on mathematical integers.
#[verifier::rlimit(40)]
proof fn lemma_hinnant(zz: int, era: int, doe: int, yoe: int, doy: int, mp: int)
    requires
        0 <= zz,
        era == zz / 146097,
        doe == zz - era * 146097,
        yoe == (doe - doe / 1460 + doe / 36524 - doe / 146096) / 365,
        doy == doe - (365 * yoe + yoe / 4 - yoe / 100),
        mp == (5 * doy + 2) / 153,
    ensures
        0 <= doe <= 146096,
        0 <= yoe <= 399,
        0 <= doy <= 365,
        0 <= mp <= 11,
        ({
            let d = doy - (153 * mp + 2) / 5 + 1;
            let m = if mp < 10 {
                mp + 3
            } else {
                mp - 9
            };
            let y = yoe + era * 400;
            let yr = if m <= 2 {
                y + 1
            } else {
                y
            };
            &&& valid_date(yr, m, d)
            &&& days_from_civil(yr, m, d) == zz - 719468
        }),
{
    lemma_year_of_era(doe);
    let y = yoe + era * 400;
    assert(doy == 365 ==> is_leap(yoe + 1)) by {
        if doy == 365 {
            assert((yoe + 1) % 400 == 0 <==> yoe == 399);
        }
    }
    lemma_leap_period(era, yoe + 1);
    assert(400 * era + (yoe + 1) == y + 1);
    lemma_month_day(doy, y + 1);
    let d = doy - (153 * mp + 2) / 5 + 1;
    let m = if mp < 10 {
        mp + 3
    } else {
        mp - 9
    };
    let yr = if m <= 2 {
        y + 1
    } else {
        y
    };
    assert(valid_date(yr, m, d));
    assert(y / 4 == 100 * era + yoe / 4);
    assert(y / 100 == 4 * era + yoe / 100);
    assert(y / 400 == era);
    assert(365 * y + y / 4 - y / 100 + y / 400 == 146097 * era + 365 * yoe + yoe / 4 - yoe / 100);
    lemma_march_count(yr, m, d);
}

/// Civil date from days since the Unix epoch (Howard Hinnant's algorithm),
/// for days from 0000-03-01 on: every day a Mac timestamp can name lies there.
pub(crate) fn civil_from_days(z: i64) -> (r: (i64, u32, u32))
    requires
        -719468 <= z <= 1_000_000_000,
    ensures
        valid_date(r.0 as int, r.1 as int, r.2 as int),
        days_from_civil(r.0 as int, r.1 as int, r.2 as int) == z,
        date_of_day(z as int) == (r.0 as int, r.1 as int, r.2 as int),
{
    let zz = (z + 719_468) as u64;
    let era = zz / 146_097;
    let doe = zz - era * 146_097;
    proof {
        lemma_year_of_era(doe as int);
    }
    let yoe = (doe - doe / 1460 + doe / 36_524 - doe / 146_096) / 365;
    let doy = doe - (365 * yoe + yoe / 4 - yoe / 100);
    let mp = (5 * doy + 2) / 153;
    proof {
        lemma_hinnant(zz as int, era as int, doe as int, yoe as int, doy as int, mp as int);
    }
    let y = (yoe + era * 400) as i64;
    let d = (doy - (153 * mp + 2) / 5 + 1) as u32;
    let m = if mp < 10 {
        mp + 3
    } else {
        mp - 9
    } as u32;
    let yr = if m <= 2 {
        y + 1
    } else {
        y
    };
    proof {
        lemma_date_of_day(yr as int, m as int, d as int);
    }
    (yr, m, d)
}

} // verus!
