//! Calendar dates: day counts since 1970-01-01 and back.
use vstd::prelude::*;

verus! {

/// A Gregorian leap year.
pub open spec fn is_leap(y: int) -> bool {
    (y % 4 == 0 && y % 100 != 0) || y % 400 == 0
}

/// The number of days of month `m` of year `y`.
pub open spec fn month_len(y: int, m: int) -> int {
    if m == 2 {
        if is_leap(y) {
            29
        } else {
            28
        }
    } else if m == 4 || m == 6 || m == 9 || m == 11 {
        30
    } else {
        31
    }
}

/// Leap years among the years before `y` (counted from year 1; for earlier
/// years the count goes negative the same way).
pub open spec fn leaps_before(y: int) -> int {
    (y - 1) / 4 - (y - 1) / 100 + (y - 1) / 400
}

/// Days from 1970-01-01 to January 1 of year `y`.
pub open spec fn days_before_year(y: int) -> int {
    365 * (y - 1970) + leaps_before(y) - leaps_before(1970)
}

/// Days of year `y` before the first of month `m`.
pub open spec fn days_before_month(y: int, m: int) -> int {
    let common: int = if m <= 1 {
        0
    } else if m == 2 {
        31
    } else if m == 3 {
        59
    } else if m == 4 {
        90
    } else if m == 5 {
        120
    } else if m == 6 {
        151
    } else if m == 7 {
        181
    } else if m == 8 {
        212
    } else if m == 9 {
        243
    } else if m == 10 {
        273
    } else if m == 11 {
        304
    } else {
        334
    };
    common + if m > 2 && is_leap(y) {
        1int
    } else {
        0int
    }
}

/// A real calendar date.
pub open spec fn valid_date(y: int, m: int, d: int) -> bool {
    1 <= m <= 12 && 1 <= d <= month_len(y, m)
}

/// Days from 1970-01-01 to the date `y-m-d`.
pub open spec fn days_from_civil(y: int, m: int, d: int) -> int {
    days_before_year(y) + days_before_month(y, m) + d - 1
}

/// Days of an era (400 years from March 1 of a year divisible by 400) before
/// its March-based year `y`, which runs from March of `y` to February of `y + 1`.
pub open spec fn era_days_before(y: int) -> int {
    365 * y + y / 4 - y / 100
}

/// The year of era of the `doe`-th day of an era.
pub open spec fn yoe_of(doe: int) -> int {
    (doe - doe / 1460 + doe / 36524 - doe / 146096) / 365
}

/// The `doe`-th day of an era falls in March-based year `yoe_of(doe)`.
#[verifier::spinoff_prover]
#[verifier::rlimit(100)]
proof fn lemma_year_of_era(doe: int)
    requires
        0 <= doe <= 146096,
    ensures
        0 <= yoe_of(doe) <= 399,
        era_days_before(yoe_of(doe)) <= doe,
        doe - era_days_before(yoe_of(doe)) <= 364 || is_leap(yoe_of(doe) + 1),
{
}

proof fn lemma_div_shift(era: int, x: int)
    ensures
        (400 * era + x) / 4 == 100 * era + x / 4,
        (400 * era + x) / 100 == 4 * era + x / 100,
        (400 * era + x) / 400 == era + x / 400,
        (400 * era + x) % 4 == x % 4,
        (400 * era + x) % 100 == x % 100,
        (400 * era + x) % 400 == x % 400,
{
    assert((400 * era + x) / 4 == 100 * era + x / 4);
    assert((400 * era + x) / 100 == 4 * era + x / 100);
    assert((400 * era + x) / 400 == era + x / 400);
}

/// The 400-year cycle: leap years repeat, and an era adds 146097 days.
proof fn lemma_era_shift(era: int, yoe: int)
    requires
        0 <= yoe <= 399,
    ensures
        is_leap(400 * era + yoe) == is_leap(yoe),
        is_leap(400 * era + yoe + 1) == is_leap(yoe + 1),
        days_before_year(400 * era + yoe) + 59 + (if is_leap(400 * era + yoe) {
            1int
        } else {
            0int
        }) == 146097 * era + era_days_before(yoe) - 719468,
{
    lemma_div_shift(era, yoe);
    lemma_div_shift(era, yoe + 1);
    lemma_div_shift(era, yoe - 1);
    assert(leaps_before(400 * era + yoe) == 97 * era + leaps_before(yoe));
    assert(days_before_year(400 * era + yoe) == 146097 * era + days_before_year(yoe));
    assert(days_before_year(yoe) + 59 + (if is_leap(yoe) {
        1int
    } else {
        0int
    }) == era_days_before(yoe) - 719468);
}

/// A year is 365 days, 366 when leap.
proof fn lemma_next_year(y: int)
    ensures
        days_before_year(y + 1) == days_before_year(y) + 365 + (if is_leap(y) {
            1int
        } else {
            0int
        }),
{
}

/// The `doy`-th day from March 1 is day `d0 + 1` of March-based month `mp`.
proof fn lemma_month_of_year(doy: int)
    requires
        0 <= doy <= 365,
    ensures
        ({
            let mp = (5 * doy + 2) / 153;
            let d0 = doy - (153 * mp + 2) / 5;
            &&& 0 <= mp <= 11
            &&& 0 <= d0
            &&& (mp == 0 || mp == 2 || mp == 4 || mp == 5 || mp == 7 || mp == 9 || mp == 10) ==> d0 <= 30
            &&& (mp == 1 || mp == 3 || mp == 6 || mp == 8) ==> d0 <= 29
            &&& mp == 11 ==> d0 <= doy - 337
            &&& (153 * mp + 2) / 5 == if mp == 0 {
                0int
            } else if mp == 1 {
                31int
            } else if mp == 2 {
                61int
            } else if mp == 3 {
                92int
            } else if mp == 4 {
                122int
            } else if mp == 5 {
                153int
            } else if mp == 6 {
                184int
            } else if mp == 7 {
                214int
            } else if mp == 8 {
                245int
            } else if mp == 9 {
                275int
            } else if mp == 10 {
                306int
            } else {
                337int
            }
        }),
{
}

/// The (year, month, day) of the `doe`-th day of era `era`, by Hinnant's
/// method (March-based years and months, then shifted to January).
spec fn civil_of_era_day(era: int, doe: int) -> (int, int, int) {
    let yoe = yoe_of(doe);
    let doy = doe - era_days_before(yoe);
    let mp = (5 * doy + 2) / 153;
    let d = doy - (153 * mp + 2) / 5 + 1;
    let m = if mp < 10 {
        mp + 3
    } else {
        mp - 9
    };
    let y = 400 * era + yoe + if m <= 2 {
        1int
    } else {
        0int
    };
    (y, m, d)
}

proof fn lemma_civil_of_era_day(era: int, doe: int)
    requires
        0 <= doe <= 146096,
    ensures
        ({
            let (y, m, d) = civil_of_era_day(era, doe);
            valid_date(y, m, d) && days_from_civil(y, m, d) == 146097 * era + doe - 719468
        }),
{
    let yoe = yoe_of(doe);
    lemma_year_of_era(doe);
    lemma_era_shift(era, yoe);
    let doy = doe - era_days_before(yoe);
    lemma_month_of_year(doy);
    let yy = 400 * era + yoe;
    lemma_next_year(yy);
}

/// `z` split into whole eras of 146097 days and the day within the last one.
fn era_and_day(z: i64) -> (r: (i64, i64))
    requires
        z >= i64::MIN + 146096,
    ensures
        z == 146097 * (r.0 as int) + r.1,
        0 <= r.1 <= 146096,
{
    let era = if z >= 0 {
        z
    } else {
        z - 146_096
    } / 146_097;
    let doe = z - era * 146_097;
    (era, doe)
}

/// The date `z` days after 1970-01-01 (before it when negative), as
/// (year, month, day): the only valid date that many days from 1970-01-01.
pub fn civil_from_days(z: i64) -> (r: (i64, u32, u32))
    requires
        z <= i64::MAX - 719468,
    ensures
        valid_date(r.0 as int, r.1 as int, r.2 as int),
        days_from_civil(r.0 as int, r.1 as int, r.2 as int) == z,
{
    let z = z + 719_468;
    let (era, doe) = era_and_day(z);
    proof {
        lemma_civil_of_era_day(era as int, doe as int);
        lemma_year_of_era(doe as int);
    }
    let yoe = (doe - doe / 1460 + doe / 36_524 - doe / 146_096) / 365;
    let y = yoe + era * 400;
    let doy = doe - (365 * yoe + yoe / 4 - yoe / 100);
    let mp = (5 * doy + 2) / 153;
    let d = (doy - (153 * mp + 2) / 5 + 1) as u32;
    let m = if mp < 10 {
        mp + 3
    } else {
        mp - 9
    } as u32;
    let y = if m <= 2 {
        y + 1
    } else {
        y
    };
    (y, m, d)
}

} // verus!
