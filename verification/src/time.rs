//! ISO-8601 timestamps and epoch milliseconds.
use vstd::prelude::*;
use crate::text::{
    char_is_whitespace, chars_of, is_white_space, parse_i64, parse_i64_spec,
    string_from_chars, is_digit, digits_value, signed_decimal,
};

verus! {

// ---------------------------------------------------------------------------
// The civil calendar (proleptic Gregorian), in days since 1970-01-01

/// Days since 1970-01-01 of the civil date `year`-`month`-`day`, for `month` in
/// 1..=12 (the `days_from_civil` algorithm of H. Hinnant).
pub open spec fn days_from_civil(year: int, month: int, day: int) -> int {
    let y = if month <= 2 {
        year - 1
    } else {
        year
    };
    let era = y / 400;
    let yoe = y - era * 400;
    let m = if month > 2 {
        month - 3
    } else {
        month + 9
    };
    let doy = (153 * m + 2) / 5 + day - 1;
    let doe = yoe * 365 + yoe / 4 - yoe / 100 + doy;
    era * 146097 + doe - 719468
}

/// The civil date `(year, month, day)` of day `z` since 1970-01-01 (the
/// `civil_from_days` algorithm of H. Hinnant), before any narrowing.
pub open spec fn civil_of_days(z: int) -> (int, int, int) {
    let z1 = z + 719468;
    let era = z1 / 146097;
    let doe = z1 - era * 146097;
    let yoe = (doe - doe / 1460 + doe / 36524 - doe / 146096) / 365;
    let y = yoe + era * 400;
    let doy = doe - (365 * yoe + yoe / 4 - yoe / 100);
    let mp = (5 * doy + 2) / 153;
    let d = doy - (153 * mp + 2) / 5 + 1;
    let m = if mp < 10 {
        mp + 3
    } else {
        mp - 9
    };
    (
        if mp < 10 {
            y
        } else {
            y + 1
        },
        m,
        d,
    )
}

/// For a day of a 400-year era, the year of the era is below 400 and the day
/// of that year is in 0..=365.
pub proof fn lemma_era_day_split(doe: u32)
    requires
        doe <= 146096,
    ensures
        ({
            let yoe = (doe - doe / 1460 + doe / 36524 - doe / 146096) / 365;
            &&& yoe <= 399
            &&& 365 * yoe + yoe / 4 - yoe / 100 <= doe
            &&& doe - (365 * yoe + yoe / 4 - yoe / 100) <= 365
        }),
{
    assert({
        let yoe = (doe - doe / 1460 + doe / 36524 - doe / 146096) / 365;
        &&& yoe <= 399
        &&& 365 * yoe + yoe / 4 - yoe / 100 <= doe
        &&& doe - (365 * yoe + yoe / 4 - yoe / 100) <= 365
    }) by (bit_vector)
        requires
            doe <= 146096,
    ;
}

/// For a day of a March-based year, the month index is below 12 and the day of
/// the month is in 1..=31.
pub proof fn lemma_year_day_split(doy: u32)
    requires
        doy <= 365,
    ensures
        ({
            let mp = (5 * doy + 2) / 153;
            &&& mp <= 11
            &&& (153 * mp + 2) / 5 <= doy
            &&& doy - (153 * mp + 2) / 5 <= 30
        }),
{
    assert({
        let mp = (5 * doy + 2) / 153;
        &&& mp <= 11
        &&& (153 * mp + 2) / 5 <= doy
        &&& doy - (153 * mp + 2) / 5 <= 30
    }) by (bit_vector)
        requires
            doy <= 365,
    ;
}

/// The civil date of a day has a month in 1..=12 and a day in 1..=31.
pub proof fn lemma_civil_ranges(z: int)
    ensures
        1 <= civil_of_days(z).1 <= 12,
        1 <= civil_of_days(z).2 <= 31,
{
    let z1 = z + 719468;
    let era = z1 / 146097;
    let doe = z1 - era * 146097;
    assert(0 <= doe < 146097);
    lemma_era_day_split(doe as u32);
    let yoe = (doe - doe / 1460 + doe / 36524 - doe / 146096) / 365;
    let doy = doe - (365 * yoe + yoe / 4 - yoe / 100);
    lemma_year_day_split(doy as u32);
}


/// `days_from_civil` undoes `civil_of_days`: every day number maps to a civil
/// date and back to itself.
pub proof fn law_days_civil_inverse(z: int)
    ensures
        ({
            let (y, m, d) = civil_of_days(z);
            days_from_civil(y, m, d) == z
        }),
{
    let z1 = z + 719468;
    let era = z1 / 146097;
    let doe = z1 - era * 146097;
    assert(0 <= doe < 146097);
    lemma_era_day_split(doe as u32);
    let yoe = (doe - doe / 1460 + doe / 36524 - doe / 146096) / 365;
    let doy = doe - (365 * yoe + yoe / 4 - yoe / 100);
    lemma_year_day_split(doy as u32);
    let mp = (5 * doy + 2) / 153;
    let (y2, m, d) = civil_of_days(z);
    let y = if m <= 2 { y2 - 1 } else { y2 };
    assert(y == yoe + era * 400);
    assert(y / 400 == era) by (nonlinear_arith)
        requires
            y == yoe + era * 400,
            0 <= yoe < 400,
    ;
    assert(y - era * 400 == yoe);
    let m2 = if m > 2 { m - 3 } else { m + 9 };
    assert(m2 == mp);
}


// ---------------------------------------------------------------------------
// Valid dates and the day after

/// Gregorian leap years: divisible by 4, and not by 100 unless by 400.
pub open spec fn is_leap_year(y: int) -> bool {
    y % 4 == 0 && (y % 100 != 0 || y % 400 == 0)
}

/// The number of days of month `m` (1..=12) of year `y`.
pub open spec fn days_in_month(y: int, m: int) -> int {
    if m == 2 {
        if is_leap_year(y) { 29 } else { 28 }
    } else if m == 4 || m == 6 || m == 9 || m == 11 {
        30
    } else {
        31
    }
}

/// Whether `(y, m, d)` is a date of the proleptic Gregorian calendar.
pub open spec fn valid_date(y: int, m: int, d: int) -> bool {
    1 <= m <= 12 && 1 <= d <= days_in_month(y, m)
}

/// The date after `(y, m, d)`.
pub open spec fn next_date(y: int, m: int, d: int) -> (int, int, int) {
    if d < days_in_month(y, m) {
        (y, m, d + 1)
    } else if m < 12 {
        (y, m + 1, 1)
    } else {
        (y + 1, 1, 1)
    }
}

/// Whether year `yoe + 1` of a 400-year era (counted from a year divisible by
/// 400) is a leap year.
pub open spec fn era_leap(yoe: int) -> bool {
    yoe % 4 == 3 && (yoe % 100 != 99 || yoe == 399)
}

/// Days of the March-based month `mp` (0 for March .. 11 for February), as
/// the day-of-year formula counts them (30 for February).
pub open spec fn march_month_len(mp: int) -> int {
    (153 * (mp + 1) + 2) / 5 - (153 * mp + 2) / 5
}

/// A day of the March-based year `yoe` of an era, in range for that year, has
/// a day-of-era that the year formula maps back to `yoe`.
proof fn lemma_year_of_era_day(yoe: u32, doy: u32, doe: u32)
    requires
        yoe < 400,
        doy <= 365,
        doy <= 364 || (yoe % 4 == 3 && (yoe % 100 != 99 || yoe == 399)),
        doe == yoe * 365 + yoe / 4 - yoe / 100 + doy,
    ensures
        doe <= 146096,
        (doe - doe / 1460 + doe / 36524 - doe / 146096) / 365 == yoe,
{
    assert(doe <= 146096 && (doe - doe / 1460 + doe / 36524 - doe / 146096) / 365 <= yoe
        && yoe <= (doe - doe / 1460 + doe / 36524 - doe / 146096) / 365) by (bit_vector)
        requires
            yoe < 400,
            doy <= 365,
            doy <= 364 || (yoe % 4 == 3 && (yoe % 100 != 99 || yoe == 399)),
            doe <= yoe * 365 + yoe / 4 - yoe / 100 + doy,
            yoe * 365 + yoe / 4 - yoe / 100 + doy <= doe,
    ;
}


/// The year formula never puts a day past the length of its March-based year:
/// day 365 only occurs in a year followed by a leap February.
proof fn lemma_era_day_leap(doe: u32, yoe: u32, doy: u32)
    requires
        doe <= 146096,
        yoe <= (doe - doe / 1460 + doe / 36524 - doe / 146096) / 365,
        (doe - doe / 1460 + doe / 36524 - doe / 146096) / 365 <= yoe,
        doy <= doe - (365 * yoe + yoe / 4 - yoe / 100),
        doe - (365 * yoe + yoe / 4 - yoe / 100) <= doy,
    ensures
        doy <= 364 || (yoe % 4 == 3 && (yoe % 100 != 99 || yoe == 399)),
{
    assert(doy <= 364 || (yoe % 4 == 3 && (yoe % 100 != 99 || yoe == 399))) by (bit_vector)
        requires
            doe <= 146096,
            yoe <= (doe - doe / 1460 + doe / 36524 - doe / 146096) / 365,
            (doe - doe / 1460 + doe / 36524 - doe / 146096) / 365 <= yoe,
            doy <= doe - (365 * yoe + yoe / 4 - yoe / 100),
            doe - (365 * yoe + yoe / 4 - yoe / 100) <= doy,
    ;
}



/// A day `e` (from 0) of the March-based month `mp` has a day-of-year that the
/// month formula maps back to `mp`.
proof fn lemma_month_of_year_day(mp: int, e: int)
    requires
        0 <= mp < 12,
        0 <= e < march_month_len(mp),
    ensures
        (5 * ((153 * mp + 2) / 5 + e) + 2) / 153 == mp,
{
    if mp == 0 {
    } else if mp == 1 {
    } else if mp == 2 {
    } else if mp == 3 {
    } else if mp == 4 {
    } else if mp == 5 {
    } else if mp == 6 {
    } else if mp == 7 {
    } else if mp == 8 {
    } else if mp == 9 {
    } else if mp == 10 {
    } else {
    }
}

/// The month formula never puts a day past the end of its month.
proof fn lemma_year_day_in_month(doy: int)
    requires
        0 <= doy <= 365,
    ensures
        doy - (153 * ((5 * doy + 2) / 153) + 2) / 5 < march_month_len((5 * doy + 2) / 153),
{
    lemma_year_day_split(doy as u32);
    let mp = (5 * doy + 2) / 153;
    if mp == 0 {
    } else if mp == 1 {
    } else if mp == 2 {
    } else if mp == 3 {
    } else if mp == 4 {
    } else if mp == 5 {
    } else if mp == 6 {
    } else if mp == 7 {
    } else if mp == 8 {
    } else if mp == 9 {
    } else if mp == 10 {
    } else {
    }
}

/// The March-based year `yoe` of an era has 366 days when the February it ends
/// with is a leap one, else 365.
proof fn lemma_year_length(yoe: u32, k: u32, len: u32)
    requires
        yoe < 399,
        k <= yoe + 1,
        yoe + 1 <= k,
        len <= (k * 365 + k / 4 - k / 100) - (yoe * 365 + yoe / 4 - yoe / 100),
        (k * 365 + k / 4 - k / 100) - (yoe * 365 + yoe / 4 - yoe / 100) <= len,
    ensures
        (yoe % 4 == 3 && (yoe % 100 != 99 || yoe == 399)) ==> len == 366,
        !(yoe % 4 == 3 && (yoe % 100 != 99 || yoe == 399)) ==> len == 365,
{
    assert((yoe % 4 == 3 && (yoe % 100 != 99 || yoe == 399)) ==> len == 366) by (bit_vector)
        requires
            yoe < 399,
            k <= yoe + 1,
            yoe + 1 <= k,
            len <= (k * 365 + k / 4 - k / 100) - (yoe * 365 + yoe / 4 - yoe / 100),
            (k * 365 + k / 4 - k / 100) - (yoe * 365 + yoe / 4 - yoe / 100) <= len,
    ;
    assert(!(yoe % 4 == 3 && (yoe % 100 != 99 || yoe == 399)) ==> len == 365) by (bit_vector)
        requires
            yoe < 399,
            k <= yoe + 1,
            yoe + 1 <= k,
            len <= (k * 365 + k / 4 - k / 100) - (yoe * 365 + yoe / 4 - yoe / 100),
            (k * 365 + k / 4 - k / 100) - (yoe * 365 + yoe / 4 - yoe / 100) <= len,
    ;
}

/// A year `k` (1..=400) into an era is a leap year exactly as year `k` itself is.
proof fn lemma_leap_of_era(era: int, k: int)
    requires
        1 <= k <= 400,
    ensures
        is_leap_year(era * 400 + k) == (k % 4 == 0 && (k % 100 != 0 || k == 400)),
{
    assert(4 * (era * 100) == era * 400 && 100 * (era * 4) == era * 400) by (nonlinear_arith);
    vstd::arithmetic::div_mod::lemma_mod_multiples_vanish(era * 100, k, 4);
    vstd::arithmetic::div_mod::lemma_mod_multiples_vanish(era * 4, k, 100);
    vstd::arithmetic::div_mod::lemma_mod_multiples_vanish(era, k, 400);
}

/// The day number of a valid date, split as the calendar formulas split it.
proof fn lemma_days_split(y: int, m: int, d: int)
    requires
        valid_date(y, m, d),
    ensures
        ({
            let yp = if m <= 2 { y - 1 } else { y };
            let era = yp / 400;
            let yoe = yp - era * 400;
            let mp = if m > 2 { m - 3 } else { m + 9 };
            let doy = (153 * mp + 2) / 5 + d - 1;
            let doe = yoe * 365 + yoe / 4 - yoe / 100 + doy;
            &&& 0 <= yoe < 400
            &&& 0 <= mp < 12
            &&& 0 <= d - 1 < march_month_len(mp)
            &&& 0 <= doy <= 365
            &&& (doy <= 364 || era_leap(yoe))
            &&& 0 <= doe <= 146096
            &&& (doe - doe / 1460 + doe / 36524 - doe / 146096) / 365 == yoe
            &&& days_from_civil(y, m, d) == era * 146097 + doe - 719468
        }),
{
    let yp = if m <= 2 { y - 1 } else { y };
    let era = yp / 400;
    let yoe = yp - era * 400;
    let mp = if m > 2 { m - 3 } else { m + 9 };
    let doy = (153 * mp + 2) / 5 + d - 1;
    let doe = yoe * 365 + yoe / 4 - yoe / 100 + doy;
    assert(0 <= yoe < 400);
    if m == 2 {
        assert(y == era * 400 + (yoe + 1));
        lemma_leap_of_era(era, yoe + 1);
    }
    assert(march_month_len(mp) >= days_in_month(y, m)) by {
        if m == 1 {
        } else if m == 2 {
        } else if m == 3 {
        } else if m == 4 {
        } else if m == 5 {
        } else if m == 6 {
        } else if m == 7 {
        } else if m == 8 {
        } else if m == 9 {
        } else if m == 10 {
        } else if m == 11 {
        } else {
        }
    }
    assert(0 <= doy <= 365 && (doy <= 364 || era_leap(yoe))) by {
        if m == 1 {
        } else if m == 2 {
        } else if m == 3 {
        } else if m == 4 {
        } else if m == 5 {
        } else if m == 6 {
        } else if m == 7 {
        } else if m == 8 {
        } else if m == 9 {
        } else if m == 10 {
        } else if m == 11 {
        } else {
        }
    }
    assert(yoe / 4 <= 99 && yoe / 100 <= 3);
    lemma_year_of_era_day(yoe as u32, doy as u32, doe as u32);
}

/// `civil_of_days` undoes `days_from_civil` on valid dates: every valid date
/// maps to a day number and back to itself.
pub proof fn law_civil_days_inverse(y: int, m: int, d: int)
    requires
        valid_date(y, m, d),
    ensures
        civil_of_days(days_from_civil(y, m, d)) == (y, m, d),
{
    lemma_days_split(y, m, d);
    let yp = if m <= 2 { y - 1 } else { y };
    let era = yp / 400;
    let yoe = yp - era * 400;
    let mp = if m > 2 { m - 3 } else { m + 9 };
    let doy = (153 * mp + 2) / 5 + d - 1;
    let doe = yoe * 365 + yoe / 4 - yoe / 100 + doy;
    let z = days_from_civil(y, m, d);
    let z1 = z + 719468;
    assert(z1 == era * 146097 + doe);
    vstd::arithmetic::div_mod::lemma_fundamental_div_mod_converse(z1, 146097, era, doe);
    lemma_month_of_year_day(mp, d - 1);
}

/// Every day number maps to a valid date.
pub proof fn law_civil_of_days_valid(z: int)
    ensures
        valid_date(civil_of_days(z).0, civil_of_days(z).1, civil_of_days(z).2),
{
    let z1 = z + 719468;
    let era = z1 / 146097;
    let doe = z1 - era * 146097;
    assert(0 <= doe < 146097);
    lemma_era_day_split(doe as u32);
    let yoe = (doe - doe / 1460 + doe / 36524 - doe / 146096) / 365;
    let doy = doe - (365 * yoe + yoe / 4 - yoe / 100);
    lemma_era_day_leap(doe as u32, yoe as u32, doy as u32);
    lemma_year_day_split(doy as u32);
    lemma_year_day_in_month(doy);
    let mp = (5 * doy + 2) / 153;
    let (y, m, d) = civil_of_days(z);
    assert(d == doy - (153 * mp + 2) / 5 + 1);
    if mp == 11 {
        assert(y == era * 400 + (yoe + 1));
        lemma_leap_of_era(era, yoe + 1);
        assert(d == doy - 336);
    } else if mp == 0 {
    } else if mp == 1 {
    } else if mp == 2 {
    } else if mp == 3 {
    } else if mp == 4 {
    } else if mp == 5 {
    } else if mp == 6 {
    } else if mp == 7 {
    } else if mp == 8 {
    } else if mp == 9 {
    } else {
    }
}

/// Consecutive March-based years: the year after `yp` starts as many days
/// after it as the year `yp` has, 365 plus one when `yp + 1` is a leap year.
proof fn lemma_next_year_start(yp: int)
    ensures
        ({
            let era = yp / 400;
            let yoe = yp - era * 400;
            let era2 = (yp + 1) / 400;
            let yoe2 = (yp + 1) - era2 * 400;
            (era2 * 146097 + yoe2 * 365 + yoe2 / 4 - yoe2 / 100) - (era * 146097 + yoe * 365 + yoe / 4 - yoe / 100)
                == if is_leap_year(yp + 1) { 366int } else { 365int }
        }),
{
    let era = yp / 400;
    let yoe = yp - era * 400;
    assert(0 <= yoe < 400);
    lemma_leap_of_era(era, yoe + 1);
    if yoe < 399 {
        vstd::arithmetic::div_mod::lemma_fundamental_div_mod_converse(yp + 1, 400, era, yoe + 1);
        let len = ((yoe + 1) * 365 + (yoe + 1) / 4 - (yoe + 1) / 100) - (yoe * 365 + yoe / 4 - yoe / 100);
        assert(0 <= len <= 1000);
        lemma_year_length(yoe as u32, (yoe + 1) as u32, len as u32);
    } else {
        vstd::arithmetic::div_mod::lemma_fundamental_div_mod_converse(yp + 1, 400, era + 1, 0);
    }
}

proof fn lemma_next_in_month(y: int, m: int, d: int)
    requires
        1 <= m <= 12,
    ensures
        days_from_civil(y, m, d + 1) == days_from_civil(y, m, d) + 1,
{
}

proof fn lemma_next_month(y: int, m: int)
    requires
        1 <= m <= 11,
        m != 2,
    ensures
        days_from_civil(y, m + 1, 1) == days_from_civil(y, m, days_in_month(y, m)) + 1,
{
    if m == 1 {
    } else if m == 3 {
    } else if m == 4 {
    } else if m == 5 {
    } else if m == 6 {
    } else if m == 7 {
    } else if m == 8 {
    } else if m == 9 {
    } else if m == 10 {
    } else {
    }
}

proof fn lemma_next_march(y: int)
    ensures
        days_from_civil(y, 3, 1) == days_from_civil(y, 2, days_in_month(y, 2)) + 1,
{
    lemma_next_year_start(y - 1);
    assert((y - 1) + 1 == y);
}

proof fn lemma_next_january(y: int)
    ensures
        days_from_civil(y + 1, 1, 1) == days_from_civil(y, 12, 31) + 1,
{
    assert((y + 1) - 1 == y);
}

/// The day after day `z` is the date after day `z`'s date.
pub proof fn law_next_day(z: int)
    ensures
        civil_of_days(z + 1) == next_date(civil_of_days(z).0, civil_of_days(z).1, civil_of_days(z).2),
{
    let (y, m, d) = civil_of_days(z);
    law_civil_of_days_valid(z);
    law_days_civil_inverse(z);
    let (y2, m2, d2) = next_date(y, m, d);
    if d < days_in_month(y, m) {
        lemma_next_in_month(y, m, d);
    } else if m == 2 {
        lemma_next_march(y);
    } else if m == 12 {
        lemma_next_january(y);
    } else {
        lemma_next_month(y, m);
    }
    law_civil_days_inverse(y2, m2, d2);
}

/// The civil date `(year, month, day)` of day `z` since 1970-01-01; the year is
/// narrowed to `i32` as by `as`.
pub fn civil_from_days(z: i64) -> (r: (i32, u32, u32))
    requires
        z <= i64::MAX - 719468,
    ensures
        r.0 == civil_of_days(z as int).0 as i32,
        r.1 == civil_of_days(z as int).1,
        r.2 == civil_of_days(z as int).2,
        1 <= r.1 <= 12,
        1 <= r.2 <= 31,
{
    let z1 = z + 719_468;
    let era = z1.checked_div_euclid(146_097).unwrap();
    let doe = z1 - era * 146_097;
    proof {
        assert(0 <= doe < 146097);
        lemma_era_day_split(doe as u32);
        lemma_civil_ranges(z as int);
    }
    let yoe = (doe - doe / 1460 + doe / 36524 - doe / 146096) / 365;
    let y = yoe + era * 400;
    let doy = doe - (365 * yoe + yoe / 4 - yoe / 100);
    proof {
        lemma_year_day_split(doy as u32);
    }
    let mp = (5 * doy + 2) / 153;
    let d = doy - (153 * mp + 2) / 5 + 1;
    let m = if mp < 10 { mp + 3 } else { mp - 9 };
    let y = if mp < 10 { y } else { y + 1 };
    (y as i32, m as u32, d as u32)
}


// ---------------------------------------------------------------------------
// Decimal text

/// The decimal digit character for `d` in 0..=9.
pub open spec fn digit_char(d: int) -> char {
    if d == 0 {
        '0'
    } else if d == 1 {
        '1'
    } else if d == 2 {
        '2'
    } else if d == 3 {
        '3'
    } else if d == 4 {
        '4'
    } else if d == 5 {
        '5'
    } else if d == 6 {
        '6'
    } else if d == 7 {
        '7'
    } else if d == 8 {
        '8'
    } else {
        '9'
    }
}

/// The decimal text of a natural number, without leading zeros.
pub open spec fn nat_text(n: nat) -> Seq<char>
    decreases n,
{
    if n < 10 {
        seq![digit_char(n as int)]
    } else {
        nat_text(n / 10).push(digit_char((n % 10) as int))
    }
}

/// `t` preceded by as many `0` as it takes to reach `width` characters.
pub open spec fn zero_pad(t: Seq<char>, width: nat) -> Seq<char> {
    if t.len() >= width {
        t
    } else {
        Seq::new((width - t.len()) as nat, |i: int| '0') + t
    }
}

/// What `{:0width$}` writes for the integer `v`: the sign, then the digits
/// zero-padded so that the whole takes at least `width` characters.
pub open spec fn padded_int(v: int, width: nat) -> Seq<char> {
    if v < 0 {
        seq!['-'] + zero_pad(nat_text((-v) as nat), (width - 1) as nat)
    } else {
        zero_pad(nat_text(v as nat), width)
    }
}

fn digit_of(d: u64) -> (c: char)
    requires
        d < 10,
    ensures
        c == digit_char(d as int),
{
    if d == 0 {
        '0'
    } else if d == 1 {
        '1'
    } else if d == 2 {
        '2'
    } else if d == 3 {
        '3'
    } else if d == 4 {
        '4'
    } else if d == 5 {
        '5'
    } else if d == 6 {
        '6'
    } else if d == 7 {
        '7'
    } else if d == 8 {
        '8'
    } else {
        '9'
    }
}

fn push_nat_text(out: &mut Vec<char>, n: u64)
    ensures
        final(out)@ == old(out)@ + nat_text(n as nat),
    decreases n,
{
    if n >= 10 {
        push_nat_text(out, n / 10);
    }
    let c = digit_of(n % 10);
    out.push(c);
    proof {
        if n >= 10 {
            assert(old(out)@ + nat_text(n as nat) =~= (old(out)@ + nat_text((n / 10) as nat)).push(c));
        } else {
            assert(old(out)@ + nat_text(n as nat) =~= old(out)@.push(c));
        }
    }
}

fn push_padded_int(out: &mut Vec<char>, v: i64, width: usize)
    requires
        1 <= width <= 20,
    ensures
        final(out)@ == old(out)@ + padded_int(v as int, width as nat),
{
    let mut digits: Vec<char> = Vec::new();
    let w = if v < 0 {
        out.push('-');
        let mag: u64 = if v == i64::MIN { 9_223_372_036_854_775_808u64 } else { (-v) as u64 };
        push_nat_text(&mut digits, mag);
        width - 1
    } else {
        push_nat_text(&mut digits, v as u64);
        width
    };
    assert(digits@ == Seq::<char>::empty() + digits@);
    let mut k: usize = digits.len();
    let ghost before = out@;
    while k < w
        invariant
            digits.len() <= k <= w || w <= digits.len() == k,
            out@ == before + Seq::new((k - digits@.len()) as nat, |i: int| '0'),
        decreases w - k,
    {
        out.push('0');
        k = k + 1;
        assert(out@ =~= before + Seq::new((k - digits@.len()) as nat, |i: int| '0'));
    }
    let n = digits.len();
    let mut i: usize = 0;
    let ghost mid = out@;
    while i < n
        invariant
            n == digits@.len(),
            i <= n,
            out@ == mid + digits@.take(i as int),
        decreases n - i,
    {
        out.push(digits[i]);
        i = i + 1;
        assert(out@ =~= mid + digits@.take(i as int));
    }
    assert(digits@.take(n as int) =~= digits@);
    proof {
        let pad = Seq::new((k - digits@.len()) as nat, |i: int| '0');
        if v < 0 {
            assert(digits@ == nat_text((-(v as int)) as nat));
            if digits@.len() >= w {
                assert(pad =~= Seq::<char>::empty());
            }
            assert(out@ =~= old(out)@ + (seq!['-'] + zero_pad(digits@, (width - 1) as nat)));
        } else {
            assert(digits@ == nat_text(v as nat));
            if digits@.len() >= w {
                assert(pad =~= Seq::<char>::empty());
            }
            assert(out@ =~= old(out)@ + zero_pad(digits@, width as nat));
        }
    }
}


// ---------------------------------------------------------------------------
// Epoch milliseconds to text

/// The UTC ISO-8601 text of epoch milliseconds `ms`: `YYYY-MM-DDTHH:MM:SSZ`, with
/// `.mmm` before the `Z` when the milliseconds are not zero. The year is the
/// civil year narrowed to `i32` and printed with at least four characters.
pub open spec fn iso_text(ms: int) -> Seq<char> {
    let secs = ms / 1000;
    let millis = ms % 1000;
    let days = secs / 86400;
    let day_secs = secs % 86400;
    let hour = day_secs / 3600;
    let minute = (day_secs % 3600) / 60;
    let second = day_secs % 60;
    let (y, m, d) = civil_of_days(days);
    let year = (y as i32) as int;
    padded_int(year, 4) + seq!['-'] + padded_int(m, 2) + seq!['-'] + padded_int(d, 2) + seq!['T']
        + padded_int(hour, 2) + seq![':'] + padded_int(minute, 2) + seq![':'] + padded_int(second, 2)
        + if millis == 0 {
        seq!['Z']
    } else {
        seq!['.'] + padded_int(millis, 3) + seq!['Z']
    }
}

/// UTC ISO-8601 text with a `Z` suffix for epoch milliseconds; always `Some`.
#[verifier::rlimit(50)]
#[verifier::spinoff_prover]
pub fn format_iso_ms_z(ms: i64) -> (r: Option<String>)
    ensures
        r matches Some(s) && s@ == iso_text(ms as int),
{
    let secs = ms.checked_div_euclid(1000).unwrap();
    let millis = ms.checked_rem_euclid(1000).unwrap();
    let days = secs.checked_div_euclid(86_400).unwrap();
    let day_secs = secs.checked_rem_euclid(86_400).unwrap();
    let hour = day_secs / 3600;
    let minute = (day_secs % 3600) / 60;
    let second = day_secs % 60;
    let (year, month, day) = civil_from_days(days);
    let mut out: Vec<char> = Vec::new();
    push_padded_int(&mut out, year as i64, 4);
    out.push('-');
    push_padded_int(&mut out, month as i64, 2);
    out.push('-');
    push_padded_int(&mut out, day as i64, 2);
    out.push('T');
    push_padded_int(&mut out, hour, 2);
    out.push(':');
    push_padded_int(&mut out, minute, 2);
    out.push(':');
    push_padded_int(&mut out, second, 2);
    if millis == 0 {
        out.push('Z');
    } else {
        out.push('.');
        push_padded_int(&mut out, millis, 3);
        out.push('Z');
    }
    proof {
        let t = iso_text(ms as int);
        assert(out@ =~= t);
    }
    Some(string_from_chars(&out))
}


// ---------------------------------------------------------------------------
// Text to epoch milliseconds

/// `s` without its leading white space.
pub open spec fn trim_start(s: Seq<char>) -> Seq<char>
    decreases s.len(),
{
    if s.len() > 0 && is_white_space(s[0]) {
        trim_start(s.drop_first())
    } else {
        s
    }
}

/// `s` without its trailing white space.
pub open spec fn trim_end(s: Seq<char>) -> Seq<char>
    decreases s.len(),
{
    if s.len() > 0 && is_white_space(s.last()) {
        trim_end(s.drop_last())
    } else {
        s
    }
}

/// `str::trim`: `s` without leading and trailing white space.
pub open spec fn trim(s: Seq<char>) -> Seq<char> {
    trim_end(trim_start(s))
}

/// Whether some `-` comes after the first `T` of `t`.
pub open spec fn dash_after_t(t: Seq<char>) -> bool {
    exists|i: int, j: int| 0 <= i < j < t.len() && t[i] == 'T' && t[j] == '-'
}

/// Whether the character at `k` ends the date-time core: a `.`, `Z` or `+`, or a
/// `-` when `t` has a `-` after its first `T`.
pub open spec fn is_cut(t: Seq<char>, k: int) -> bool {
    t[k] == '.' || t[k] == 'Z' || t[k] == '+' || (t[k] == '-' && dash_after_t(t))
}

/// Index of the first cut character of `t` at or after `k`, or `t.len()`.
pub open spec fn cut_pos_from(t: Seq<char>, k: int) -> int
    decreases t.len() - k,
{
    if k < 0 || k >= t.len() {
        t.len() as int
    } else if is_cut(t, k) {
        k
    } else {
        cut_pos_from(t, k + 1)
    }
}

/// A field separator of the date-time core.
pub open spec fn is_sep(c: char) -> bool {
    c == 'T' || c == '-' || c == ':'
}

/// `str::split` on `T`, `-` and `:`: the pieces between separators, in order,
/// empty ones included; always at least one piece.
pub open spec fn split_fields(s: Seq<char>) -> Seq<Seq<char>>
    decreases s.len(),
{
    if s.len() == 0 {
        seq![Seq::<char>::empty()]
    } else {
        let f = split_fields(s.drop_last());
        if is_sep(s.last()) {
            f.push(Seq::<char>::empty())
        } else {
            f.update(f.len() - 1, f.last().push(s.last()))
        }
    }
}

/// The value of piece `i` parsed as `i64`, where a missing piece reads as `"0"`.
pub open spec fn field_or_zero(fs: Seq<Seq<char>>, i: int) -> Option<i64> {
    if i < fs.len() {
        parse_i64_spec(fs[i])
    } else {
        Some(0)
    }
}

/// Whether the parsed date-time parts are in the accepted ranges.
pub open spec fn parts_in_range(y: int, mo: int, d: int, h: int, mi: int, se: int) -> bool {
    &&& 1970 <= y <= 2100
    &&& 1 <= mo <= 12
    &&& 1 <= d <= 31
    &&& 0 <= h <= 23
    &&& 0 <= mi <= 59
    &&& 0 <= se <= 60
}

/// Epoch milliseconds of the given date and time of day.
pub open spec fn epoch_ms(y: int, mo: int, d: int, h: int, mi: int, se: int) -> int {
    (days_from_civil(y, mo, d) * 86400 + h * 3600 + mi * 60 + se) * 1000
}

/// The lightweight ISO-8601 reading: trim, cut the text at the first `.`, `Z`,
/// `+` (or `-` when one follows the `T`), split the rest on `T`, `-`, `:` into
/// year, month, day and optional hour, minute, second, check their ranges, and
/// give the epoch milliseconds; nothing on any failure.
pub open spec fn parse_iso_ms_spec(s: Seq<char>) -> Option<i64> {
    let t = trim(s);
    if t.len() == 0 {
        None
    } else {
        let fs = split_fields(t.take(cut_pos_from(t, 0)));
        if fs.len() < 3 {
            None
        } else {
            match (
                parse_i64_spec(fs[0]),
                parse_i64_spec(fs[1]),
                parse_i64_spec(fs[2]),
                field_or_zero(fs, 3),
                field_or_zero(fs, 4),
                field_or_zero(fs, 5),
            ) {
                (Some(y), Some(mo), Some(d), Some(h), Some(mi), Some(se)) => {
                    if parts_in_range(y as int, mo as int, d as int, h as int, mi as int, se as int) {
                        Some(epoch_ms(y as int, mo as int, d as int, h as int, mi as int, se as int) as i64)
                    } else {
                        None
                    }
                },
                _ => None,
            }
        }
    }
}

pub proof fn lemma_split_fields_nonempty(s: Seq<char>)
    ensures
        split_fields(s).len() >= 1,
    decreases s.len(),
{
    if s.len() > 0 {
        lemma_split_fields_nonempty(s.drop_last());
    }
}

/// Trims `cs` as `str::trim` does.
fn trim_chars(cs: &Vec<char>) -> (r: Vec<char>)
    ensures
        r@ == trim(cs@),
{
    let n = cs.len();
    let mut a: usize = 0;
    assert(cs@.skip(0) =~= cs@);
    while a < n && char_is_whitespace(cs[a])
        invariant
            n == cs@.len(),
            a <= n,
            trim_start(cs@) == trim_start(cs@.skip(a as int)),
        decreases n - a,
    {
        assert(cs@.skip(a as int).drop_first() =~= cs@.skip(a + 1));
        a = a + 1;
    }
    let ghost ts = cs@.skip(a as int);
    assert(trim_start(ts) == ts) by {
        if ts.len() > 0 {
            assert(ts[0] == cs@[a as int]);
        }
    }
    let mut b: usize = n;
    while b > a && char_is_whitespace(cs[b - 1])
        invariant
            n == cs@.len(),
            a <= b <= n,
            ts == cs@.skip(a as int),
            trim_end(ts) == trim_end(cs@.subrange(a as int, b as int)),
        decreases b,
    {
        assert(cs@.subrange(a as int, b as int).drop_last() =~= cs@.subrange(a as int, b - 1));
        b = b - 1;
    }
    let ghost us = cs@.subrange(a as int, b as int);
    assert(trim_end(us) == us) by {
        if us.len() > 0 {
            assert(us.last() == cs@[b - 1]);
        }
    }
    let mut out: Vec<char> = Vec::new();
    let mut i: usize = a;
    while i < b
        invariant
            n == cs@.len(),
            a <= i <= b <= n,
            out@ == cs@.subrange(a as int, i as int),
        decreases b - i,
    {
        out.push(cs[i]);
        i = i + 1;
        assert(out@ =~= cs@.subrange(a as int, i as int));
    }
    proof {
        assert(ts =~= cs@.skip(a as int));
    }
    out
}

fn has_dash_after_t(t: &Vec<char>) -> (r: bool)
    ensures
        r == dash_after_t(t@),
{
    let n = t.len();
    let mut p: usize = 0;
    while p < n && t[p] != 'T'
        invariant
            n == t@.len(),
            p <= n,
            forall|k: int| 0 <= k < p ==> t@[k] != 'T',
        decreases n - p,
    {
        p = p + 1;
    }
    if p == n {
        return false;
    }
    let mut q: usize = p + 1;
    while q < n
        invariant
            n == t@.len(),
            p < q <= n,
            t@[p as int] == 'T',
            forall|k: int| 0 <= k < p ==> t@[k] != 'T',
            forall|k: int| p < k < q ==> t@[k] != '-',
        decreases n - q,
    {
        if t[q] == '-' {
            return true;
        }
        q = q + 1;
    }
    proof {
        assert forall|i: int, j: int| 0 <= i < j < t@.len() && t@[i] == 'T' implies t@[j] != '-' by {
            assert(i >= p);
        }
    }
    false
}

fn cut_position(t: &Vec<char>) -> (r: usize)
    ensures
        r == cut_pos_from(t@, 0),
        r <= t@.len(),
{
    let dash = has_dash_after_t(t);
    let n = t.len();
    let mut k: usize = 0;
    while k < n
        invariant
            n == t@.len(),
            k <= n,
            dash == dash_after_t(t@),
            cut_pos_from(t@, 0) == cut_pos_from(t@, k as int),
        decreases n - k,
    {
        let c = t[k];
        if c == '.' || c == 'Z' || c == '+' || (c == '-' && dash) {
            return k;
        }
        k = k + 1;
    }
    k
}

fn split_core(core: &Vec<char>) -> (r: Vec<Vec<char>>)
    ensures
        r@.len() == split_fields(core@).len(),
        forall|i: int| 0 <= i < r@.len() ==> #[trigger] r@[i]@ == split_fields(core@)[i],
{
    let mut fields: Vec<Vec<char>> = Vec::new();
    fields.push(Vec::new());
    let n = core.len();
    let mut i: usize = 0;
    proof {
        assert(core@.take(0) =~= Seq::<char>::empty());
    }
    while i < n
        invariant
            n == core@.len(),
            i <= n,
            fields@.len() == split_fields(core@.take(i as int)).len(),
            fields@.len() >= 1,
            forall|j: int| 0 <= j < fields@.len() ==> #[trigger] fields@[j]@ == split_fields(core@.take(i as int))[j],
        decreases n - i,
    {
        let c = core[i];
        let ghost prev = split_fields(core@.take(i as int));
        proof {
            assert(core@.take(i + 1).drop_last() =~= core@.take(i as int));
            assert(core@.take(i + 1).last() == c);
        }
        if c == 'T' || c == '-' || c == ':' {
            fields.push(Vec::new());
            proof {
                assert(split_fields(core@.take(i + 1)) == prev.push(Seq::<char>::empty()));
            }
        } else {
            let last = fields.len() - 1;
            let mut cur = fields.pop().unwrap();
            cur.push(c);
            fields.push(cur);
            proof {
                assert(split_fields(core@.take(i + 1)) == prev.update(prev.len() - 1, prev.last().push(c)));
                assert(fields@[last as int]@ == prev.last().push(c));
            }
        }
        i = i + 1;
    }
    assert(core@.take(n as int) =~= core@);
    fields
}

fn parse_field(fs: &Vec<Vec<char>>, i: usize) -> (r: Option<i64>)
    requires
        i < fs@.len(),
    ensures
        r == parse_i64_spec(fs@[i as int]@),
{
    let s = string_from_chars(&fs[i]);
    parse_i64(s.as_str())
}

fn parse_field_or_zero(fs: &Vec<Vec<char>>, i: usize) -> (r: Option<i64>)
    ensures
        i < fs@.len() ==> r == parse_i64_spec(fs@[i as int]@),
        i >= fs@.len() ==> r == Some(0i64),
{
    if i < fs.len() {
        parse_field(fs, i)
    } else {
        Some(0)
    }
}

/// Lightweight ISO-8601 to epoch-milliseconds parser for the Navidrome /
/// OpenSubsonic shapes (`2024-06-01T12:00:00Z`, `2024-06-01T12:00:00.123+02:00`);
/// `None` on any parse failure.
pub fn parse_iso_ms_str(s: &str) -> (r: Option<i64>)
    ensures
        r == parse_iso_ms_spec(s@),
{
    let cs = chars_of(s);
    let t = trim_chars(&cs);
    if t.len() == 0 {
        return None;
    }
    let cut = cut_position(&t);
    let mut core: Vec<char> = Vec::new();
    let mut i: usize = 0;
    while i < cut
        invariant
            cut <= t@.len(),
            i <= cut,
            core@ == t@.take(i as int),
        decreases cut - i,
    {
        core.push(t[i]);
        i = i + 1;
        assert(core@ =~= t@.take(i as int));
    }
    let fs = split_core(&core);
    let ghost sf = split_fields(t@.take(cut as int));
    if fs.len() < 3 {
        return None;
    }
    let year = match parse_field(&fs, 0) { Some(v) => v, None => return None };
    let month = match parse_field(&fs, 1) { Some(v) => v, None => return None };
    let day = match parse_field(&fs, 2) { Some(v) => v, None => return None };
    let hour = match parse_field_or_zero(&fs, 3) { Some(v) => v, None => return None };
    let minute = match parse_field_or_zero(&fs, 4) { Some(v) => v, None => return None };
    let second = match parse_field_or_zero(&fs, 5) { Some(v) => v, None => return None };
    if !(1970 <= year && year <= 2100) || !(1 <= month && month <= 12) || !(1 <= day && day <= 31)
        || !(0 <= hour && hour <= 23) || !(0 <= minute && minute <= 59) || !(0 <= second && second <= 60) {
        return None;
    }
    let y = if month <= 2 { year - 1 } else { year };
    let era = y / 400;
    let yoe = y - era * 400;
    let m = if month > 2 { month - 3 } else { month + 9 };
    let doy = (153 * m + 2) / 5 + day - 1;
    let doe = yoe * 365 + yoe / 4 - yoe / 100 + doy;
    let days = era * 146_097 + doe - 719_468;
    proof {
        assert(0 <= yoe < 400);
        assert(0 <= doy <= 400);
        assert(days == days_from_civil(year as int, month as int, day as int));
        assert(-1000000 <= days <= 1000000);
    }
    let seconds = days * 86_400 + hour * 3600 + minute * 60 + second;
    Some(seconds * 1000)
}


// ---------------------------------------------------------------------------
// Formatting then parsing gives back the whole seconds

pub open spec fn all_digits(s: Seq<char>) -> bool {
    forall|i: int| 0 <= i < s.len() ==> is_digit(#[trigger] s[i])
}

proof fn lemma_nat_text(n: nat)
    ensures
        all_digits(nat_text(n)),
        digits_value(nat_text(n)) == n,
        nat_text(n).len() >= 1,
        n < 10 ==> nat_text(n).len() == 1,
        10 <= n < 100 ==> nat_text(n).len() == 2,
        100 <= n < 1000 ==> nat_text(n).len() == 3,
        1000 <= n < 10000 ==> nat_text(n).len() == 4,
    decreases n,
{
    assert(forall|d: int| 0 <= d < 10 ==> is_digit(#[trigger] digit_char(d)) && digit_char(d) as int - '0' as int == d);
    if n < 10 {
        let t = nat_text(n);
        assert(t.drop_last() =~= Seq::<char>::empty());
        assert(t[0] == digit_char(n as int));
        assert(is_digit(t[0]));
        assert(all_digits(t));
        assert(digits_value(t) == digits_value(t.drop_last()) * 10 + (t.last() as int - '0' as int));
    } else {
        lemma_nat_text(n / 10);
        let t = nat_text(n);
        let u = nat_text(n / 10);
        assert(t.drop_last() =~= u);
        let c = digit_char((n % 10) as int);
        assert(t.last() == c);
        assert(c as int - '0' as int == n % 10);
        assert(digits_value(t) == digits_value(u) * 10 + (c as int - '0' as int));
        assert forall|i: int| 0 <= i < t.len() implies is_digit(#[trigger] t[i]) by {
            if i < u.len() {
                assert(t[i] == u[i]);
            } else {
                assert(t[i] == digit_char((n % 10) as int));
            }
        }
    }
}

proof fn lemma_zeros_value(z: Seq<char>)
    requires
        forall|i: int| 0 <= i < z.len() ==> z[i] == '0',
    ensures
        digits_value(z) == 0,
    decreases z.len(),
{
    if z.len() > 0 {
        lemma_zeros_value(z.drop_last());
    }
}

proof fn lemma_zero_prefix_value(z: Seq<char>, t: Seq<char>)
    requires
        forall|i: int| 0 <= i < z.len() ==> z[i] == '0',
    ensures
        digits_value(z + t) == digits_value(t),
    decreases t.len(),
{
    if t.len() == 0 {
        assert(z + t =~= z);
        lemma_zeros_value(z);
    } else {
        lemma_zero_prefix_value(z, t.drop_last());
        assert((z + t).drop_last() =~= z + t.drop_last());
    }
}

/// Zero-padded decimal text of `v` in `0..10^width`: digits only, exactly
/// `width` long, read back as `v` by `str::parse::<i64>`.
proof fn lemma_padded_nat(v: int, width: nat)
    requires
        0 <= v,
        width == 2 && v < 100 || width == 3 && v < 1000 || width == 4 && 1000 <= v < 10000,
    ensures
        padded_int(v, width).len() == width,
        all_digits(padded_int(v, width)),
        parse_i64_spec(padded_int(v, width)) == Some(v as i64),
{
    lemma_nat_text(v as nat);
    let t = nat_text(v as nat);
    let p = padded_int(v, width);
    if t.len() < width {
        let z = Seq::new((width - t.len()) as nat, |i: int| '0');
        assert(p == z + t);
        lemma_zero_prefix_value(z, t);
    }
    assert(all_digits(p));
    assert(p.len() > 0);
    assert(p[0] != '-' && p[0] != '+') by {
        assert(is_digit(p[0]));
    }
    assert(signed_decimal(p) == Some(digits_value(p)));
}

proof fn lemma_trim_start_noop(s: Seq<char>)
    requires
        s.len() > 0,
        !is_white_space(s[0]),
    ensures
        trim_start(s) == s,
{
}

proof fn lemma_trim_end_noop(s: Seq<char>)
    requires
        s.len() > 0,
        !is_white_space(s.last()),
    ensures
        trim_end(s) == s,
{
}

proof fn lemma_split_plain(p: Seq<char>, q: Seq<char>)
    requires
        forall|i: int| 0 <= i < q.len() ==> !is_sep(#[trigger] q[i]),
    ensures
        split_fields(p + q) == split_fields(p).update(
            split_fields(p).len() - 1,
            split_fields(p).last() + q,
        ),
    decreases q.len(),
{
    lemma_split_fields_nonempty(p);
    if q.len() == 0 {
        assert(p + q =~= p);
        assert(split_fields(p).last() + q =~= split_fields(p).last());
        assert(split_fields(p).update(split_fields(p).len() - 1, split_fields(p).last())
            =~= split_fields(p));
    } else {
        lemma_split_plain(p, q.drop_last());
        assert((p + q).drop_last() =~= p + q.drop_last());
        assert((p + q).last() == q.last());
        let f = split_fields(p);
        let g = split_fields(p + q.drop_last());
        assert(g.last() == f.last() + q.drop_last());
        assert(g.last().push(q.last()) =~= f.last() + q);
        assert(g.update(g.len() - 1, g.last().push(q.last())) =~= f.update(f.len() - 1, f.last() + q));
    }
}

proof fn lemma_split_sep(p: Seq<char>, c: char)
    requires
        is_sep(c),
    ensures
        split_fields(p.push(c)) == split_fields(p).push(Seq::<char>::empty()),
{
    assert(p.push(c).drop_last() =~= p);
}

proof fn lemma_split_piece(p: Seq<char>, c: char, q: Seq<char>)
    requires
        is_sep(c),
        all_digits(q),
    ensures
        split_fields(p.push(c) + q) == split_fields(p).push(q),
{
    assert forall|i: int| 0 <= i < q.len() implies !is_sep(#[trigger] q[i]) by {
        assert(is_digit(q[i]));
    }
    lemma_split_sep(p, c);
    lemma_split_plain(p.push(c), q);
    let f = split_fields(p).push(Seq::<char>::empty());
    assert(f.update(f.len() - 1, f.last() + q) =~= split_fields(p).push(q));
}

/// The date-time core that `iso_text` writes: `YYYY-MM-DDTHH:MM:SS`.
pub open spec fn iso_core(y: int, m: int, d: int, h: int, mi: int, se: int) -> Seq<char> {
    padded_int(y, 4) + seq!['-'] + padded_int(m, 2) + seq!['-'] + padded_int(d, 2) + seq!['T'] + padded_int(h, 2)
        + seq![':'] + padded_int(mi, 2) + seq![':'] + padded_int(se, 2)
}

/// A core with parts in range, followed by a tail that starts with `.` or `Z`,
/// ends with `Z` and holds no `-` or `T`, parses to the epoch milliseconds of
/// the parts.
proof fn lemma_parse_core(y: int, m: int, d: int, hour: int, minute: int, second: int, tail: Seq<char>)
    requires
        1970 <= y <= 2100,
        1 <= m <= 12,
        1 <= d <= 31,
        0 <= hour <= 23,
        0 <= minute <= 59,
        0 <= second <= 59,
        tail.len() >= 1,
        tail[0] == '.' || tail[0] == 'Z' || tail[0] == '+',
        !is_white_space(tail.last()),
        forall|k: int| 0 <= k < tail.len() ==> #[trigger] tail[k] != '-' && tail[k] != 'T',
    ensures
        parse_iso_ms_spec(iso_core(y, m, d, hour, minute, second) + tail) == Some(
            epoch_ms(y, m, d, hour, minute, second) as i64,
        ),
{
    lemma_padded_nat(y, 4);
    lemma_padded_nat(m, 2);
    lemma_padded_nat(d, 2);
    lemma_padded_nat(hour, 2);
    lemma_padded_nat(minute, 2);
    lemma_padded_nat(second, 2);
    let py = padded_int(y, 4);
    let pm = padded_int(m, 2);
    let pd = padded_int(d, 2);
    let ph = padded_int(hour, 2);
    let pmi = padded_int(minute, 2);
    let ps = padded_int(second, 2);
    let core = iso_core(y, m, d, hour, minute, second);
    let text = core + tail;
    assert(core.len() == 19);
    assert(forall|k: int| 0 <= k < 19 ==> {
        if k == 4 || k == 7 {
            #[trigger] core[k] == '-'
        } else if k == 10 {
            core[k] == 'T'
        } else if k == 13 || k == 16 {
            core[k] == ':'
        } else {
            is_digit(core[k])
        }
    });
    assert(text[19] == tail[0]);
    assert(forall|k: int| 19 <= k < text.len() ==> #[trigger] text[k] != '-' && text[k] != 'T') by {
        assert forall|k: int| 19 <= k < text.len() implies #[trigger] text[k] != '-' && text[k] != 'T' by {
            assert(text[k] == tail[k - 19]);
        }
    }
    // no white space at either end
    assert(is_digit(text[0]));
    lemma_trim_start_noop(text);
    assert(text.last() == tail.last());
    lemma_trim_end_noop(text);
    assert(trim(text) == text);
    // no `-` after the `T`
    assert(!dash_after_t(text)) by {
        assert forall|i: int, j: int| 0 <= i < j < text.len() && text[i] == 'T' implies text[j] != '-' by {
            if i < 19 {
                assert(core[i] == text[i]);
            }
            if j < 19 {
                assert(core[j] == text[j]);
            }
        }
    }
    // the core ends at index 19
    assert(cut_pos_from(text, 0) == 19) by {
        assert forall|k: int| 0 <= k < 19 implies !is_cut(text, k) by {
            assert(core[k] == text[k]);
        }
        assert(is_cut(text, 19));
        lemma_cut_scan(text, 0, 19);
    }
    assert(text.take(19) =~= core);
    // the six fields
    assert(split_fields(py) == seq![py]) by {
        assert forall|i: int| 0 <= i < py.len() implies !is_sep(#[trigger] py[i]) by {
            assert(is_digit(py[i]));
        }
        lemma_split_plain(Seq::<char>::empty(), py);
        assert(Seq::<char>::empty() + py =~= py);
        assert(split_fields(Seq::<char>::empty()) == seq![Seq::<char>::empty()]);
        assert(seq![Seq::<char>::empty()].update(0, Seq::<char>::empty() + py) =~= seq![py]);
    }
    let c1 = py;
    let c2 = c1.push('-') + pm;
    let c3 = c2.push('-') + pd;
    let c4 = c3.push('T') + ph;
    let c5 = c4.push(':') + pmi;
    let c6 = c5.push(':') + ps;
    lemma_split_piece(c1, '-', pm);
    lemma_split_piece(c2, '-', pd);
    lemma_split_piece(c3, 'T', ph);
    lemma_split_piece(c4, ':', pmi);
    lemma_split_piece(c5, ':', ps);
    assert(c6 =~= core);
    let fs = split_fields(core);
    assert(fs =~= seq![py, pm, pd, ph, pmi, ps]);
}

/// Formatting epoch milliseconds and parsing the text back gives the whole
/// seconds, in milliseconds, for every instant whose civil year is in the
/// parser's range 1970..=2100.
pub proof fn law_format_then_parse(ms: i64)
    requires
        1970 <= civil_of_days((ms as int / 1000) / 86400).0 <= 2100,
    ensures
        parse_iso_ms_spec(iso_text(ms as int)) == Some((ms as int - ms as int % 1000) as i64),
{
    let msi = ms as int;
    let secs = msi / 1000;
    let millis = msi % 1000;
    let days = secs / 86400;
    let day_secs = secs % 86400;
    let hour = day_secs / 3600;
    let minute = (day_secs % 3600) / 60;
    let second = day_secs % 60;
    let (y, m, d) = civil_of_days(days);
    lemma_civil_ranges(days);
    law_days_civil_inverse(days);
    assert((y as i32) as int == y);
    assert(0 <= hour < 24 && 0 <= minute < 60 && 0 <= second < 60 && 0 <= millis < 1000);
    let core = iso_core(y, m, d, hour, minute, second);
    let tail = if millis == 0 {
        seq!['Z']
    } else {
        seq!['.'] + padded_int(millis, 3) + seq!['Z']
    };
    if millis != 0 {
        lemma_padded_nat(millis, 3);
        assert forall|k: int| 0 <= k < tail.len() implies #[trigger] tail[k] != '-' && tail[k] != 'T' by {
            if 1 <= k < 4 {
                assert(tail[k] == padded_int(millis, 3)[k - 1]);
                assert(is_digit(padded_int(millis, 3)[k - 1]));
            }
        }
    }
    assert(iso_text(msi) =~= core + tail);
    lemma_parse_core(y, m, d, hour, minute, second, tail);
    // the value
    assert(days_from_civil(y, m, d) == days);
    assert(secs == days * 86400 + day_secs);
    assert(day_secs == hour * 3600 + minute * 60 + second) by (nonlinear_arith)
        requires
            0 <= day_secs < 86400,
            hour == day_secs / 3600,
            minute == (day_secs % 3600) / 60,
            second == day_secs % 60,
    ;
    assert(epoch_ms(y, m, d, hour, minute, second) == secs * 1000);
    assert(secs * 1000 == msi - millis);
}

/// A `+HH:MM` offset after the date-time core, with or without `.mmm` before
/// it, is ignored: the text reads as the core followed by `Z`, the epoch
/// milliseconds of the core.
pub proof fn law_parse_ignores_offset(
    y: int,
    m: int,
    d: int,
    hour: int,
    minute: int,
    second: int,
    off_h: int,
    off_m: int,
    millis: Option<int>,
)
    requires
        1970 <= y <= 2100,
        1 <= m <= 12,
        1 <= d <= 31,
        0 <= hour <= 23,
        0 <= minute <= 59,
        0 <= second <= 59,
        0 <= off_h < 100,
        0 <= off_m < 100,
        millis matches Some(f) ==> 0 <= f < 1000,
    ensures
        ({
            let core = iso_core(y, m, d, hour, minute, second);
            let frac = match millis {
                Some(f) => seq!['.'] + padded_int(f, 3),
                None => Seq::<char>::empty(),
            };
            let offset = seq!['+'] + padded_int(off_h, 2) + seq![':'] + padded_int(off_m, 2);
            &&& parse_iso_ms_spec(core + frac + offset) == parse_iso_ms_spec(core + seq!['Z'])
            &&& parse_iso_ms_spec(core + seq!['Z']) == Some(epoch_ms(y, m, d, hour, minute, second) as i64)
        }),
{
    let core = iso_core(y, m, d, hour, minute, second);
    let frac = match millis {
        Some(f) => seq!['.'] + padded_int(f, 3),
        None => Seq::<char>::empty(),
    };
    let ph = padded_int(off_h, 2);
    let pm = padded_int(off_m, 2);
    lemma_padded_nat(off_h, 2);
    lemma_padded_nat(off_m, 2);
    let offset = seq!['+'] + ph + seq![':'] + pm;
    assert(offset.len() == 6);
    assert forall|k: int| 0 <= k < offset.len() implies #[trigger] offset[k] != '-' && offset[k] != 'T' by {
        if 1 <= k < 3 {
            assert(offset[k] == ph[k - 1]);
            assert(is_digit(ph[k - 1]));
        } else if 4 <= k < 6 {
            assert(offset[k] == pm[k - 4]);
            assert(is_digit(pm[k - 4]));
        }
    }
    let tail = frac + offset;
    match millis {
        Some(f) => {
            lemma_padded_nat(f, 3);
            let pf = padded_int(f, 3);
            assert(frac.len() == 4);
            assert forall|k: int| 0 <= k < tail.len() implies #[trigger] tail[k] != '-' && tail[k] != 'T' by {
                if k < 4 {
                    if k >= 1 {
                        assert(tail[k] == pf[k - 1]);
                        assert(is_digit(pf[k - 1]));
                    }
                } else {
                    assert(tail[k] == offset[k - 4]);
                }
            }
            assert(tail[0] == '.');
        },
        None => {
            assert(frac + offset =~= offset);
            assert(tail[0] == '+');
        },
    }
    assert(tail.last() == pm[1]);
    assert(is_digit(pm[1]));
    assert(core + frac + offset =~= core + tail);
    lemma_parse_core(y, m, d, hour, minute, second, tail);
    lemma_parse_core(y, m, d, hour, minute, second, seq!['Z']);
}

/// Parsing the canonical text of a valid date and time (year 1970..=2100,
/// seconds below 60) and formatting the result gives the text back.
pub proof fn law_parse_then_format(y: int, m: int, d: int, hour: int, minute: int, second: int)
    requires
        1970 <= y <= 2100,
        valid_date(y, m, d),
        0 <= hour <= 23,
        0 <= minute <= 59,
        0 <= second <= 59,
    ensures
        ({
            let text = iso_core(y, m, d, hour, minute, second) + seq!['Z'];
            parse_iso_ms_spec(text) matches Some(ms) && iso_text(ms as int) == text
        }),
{
    let text = iso_core(y, m, d, hour, minute, second) + seq!['Z'];
    lemma_parse_core(y, m, d, hour, minute, second, seq!['Z']);
    lemma_days_split(y, m, d);
    law_civil_days_inverse(y, m, d);
    let days = days_from_civil(y, m, d);
    assert(-200000 <= days <= 200000);
    let hms = hour * 3600 + minute * 60 + second;
    let secs = days * 86400 + hms;
    let e = epoch_ms(y, m, d, hour, minute, second);
    assert(e == secs * 1000);
    assert(-17280000000 <= secs <= 17280086400);
    assert(-17280000000000 <= e <= 17280086400000);
    assert((e as i64) as int == e);
    vstd::arithmetic::div_mod::lemma_fundamental_div_mod_converse(e, 1000, secs, 0);
    vstd::arithmetic::div_mod::lemma_fundamental_div_mod_converse(secs, 86400, days, hms);
    vstd::arithmetic::div_mod::lemma_fundamental_div_mod_converse(hms, 3600, hour, minute * 60 + second);
    vstd::arithmetic::div_mod::lemma_fundamental_div_mod_converse(minute * 60 + second, 60, minute, second);
    vstd::arithmetic::div_mod::lemma_fundamental_div_mod_converse(hms, 60, hour * 60 + minute, second);
    assert((y as i32) as int == y);
    assert(iso_text(e) =~= text);
}

proof fn lemma_cut_scan(t: Seq<char>, k: int, c: int)
    requires
        0 <= k <= c < t.len(),
        is_cut(t, c),
        forall|j: int| k <= j < c ==> !is_cut(t, j),
    ensures
        cut_pos_from(t, k) == c,
    decreases c - k,
{
    if k < c {
        lemma_cut_scan(t, k + 1, c);
    }
}


/// `parse_iso_ms_str` of an optional text.
pub open spec fn parse_opt_spec(s: Option<Seq<char>>) -> Option<i64> {
    match s {
        Some(t) => parse_iso_ms_spec(t),
        None => None,
    }
}

/// Parses an optional ISO-8601 text; nothing when absent or unparsable.
pub fn parse_iso_ms(s: Option<&str>) -> (r: Option<i64>)
    ensures
        r == parse_opt_spec(match s { Some(t) => Some(t@), None => None }),
{
    match s {
        Some(t) => parse_iso_ms_str(t),
        None => None,
    }
}

} // verus!
