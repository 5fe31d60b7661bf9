//! The proleptic Gregorian calendar as mathematics: what a valid date is, and
//! which day number each date has. The executable conversions in
//! [`crate::repeat`] are proved against these definitions.
use vstd::prelude::*;
use vstd::arithmetic::div_mod::{lemma_fundamental_div_mod, lemma_fundamental_div_mod_converse};

use crate::org_date::Date;

verus! {

pub open spec fn is_leap_year(y: int) -> bool {
    (y % 4 == 0 && y % 100 != 0) || y % 400 == 0
}

/// Days in month `m` of year `y`. A month number outside 1..=12 counts as 30.
pub open spec fn month_length(y: int, m: int) -> int {
    if m == 1 || m == 3 || m == 5 || m == 7 || m == 8 || m == 10 || m == 12 {
        31
    } else if m == 4 || m == 6 || m == 9 || m == 11 {
        30
    } else if m == 2 {
        if is_leap_year(y) { 29 } else { 28 }
    } else {
        30
    }
}

pub open spec fn is_valid_date(d: Date) -> bool {
    &&& 1 <= d.month <= 12
    &&& 1 <= d.day <= month_length(d.year as int, d.month as int)
}

/// Days from 0000-03-01 to `y`-03-01: a year that starts in March ends with
/// February, so its leap day is the last day it holds.
pub open spec fn march_year_start(y: int) -> int {
    365 * y + y / 4 - y / 100 + y / 400
}

/// The position of month `m` in a year that starts in March.
pub open spec fn march_index(m: int) -> int {
    if m > 2 { m - 3 } else { m + 9 }
}

/// Days from the first of March to the first of the month at march index `mp`.
pub open spec fn days_before_march_month(mp: int) -> int {
    (153 * mp + 2) / 5
}

/// The day number of `y-m-d`: days since 1970-01-01, negative before it.
pub open spec fn civil_day_number(y: int, m: int, d: int) -> int {
    let yy = if m <= 2 { y - 1 } else { y };
    march_year_start(yy) + days_before_march_month(march_index(m)) + d - 1 - 719468
}

pub open spec fn day_number(d: Date) -> int {
    civil_day_number(d.year as int, d.month as int, d.day as int)
}

/// The day after `d`, rolling over the month and the year.
pub open spec fn next_day(d: Date) -> Date {
    if d.day < month_length(d.year as int, d.month as int) {
        Date { day: (d.day + 1) as u32, ..d }
    } else if d.month < 12 {
        Date { month: (d.month + 1) as u32, day: 1, ..d }
    } else {
        Date { year: (d.year + 1) as i32, month: 1, day: 1 }
    }
}

/// Day numbers whose date has a year an `i32` holds.
pub open spec fn in_day_range(z: int) -> bool {
    -784_352_998_241 <= z <= 784_351_559_304
}

/// `a` is strictly later than `b`.
pub open spec fn date_after(a: Date, b: Date) -> bool {
    ||| a.year > b.year
    ||| (a.year == b.year && a.month > b.month)
    ||| (a.year == b.year && a.month == b.month && a.day > b.day)
}

// ── arithmetic facts ──

/// The year a day-of-era falls in, and the day within it, stay in range; a
/// year of 366 days is one whose following January is in a leap year.
pub proof fn lemma_year_of_era(doe: u32)
    requires
        doe <= 146096,
    ensures
        ({
            let yoe = (doe - doe / 1460 + doe / 36524 - doe / 146096) / 365;
            let doy = doe - (365 * yoe + yoe / 4 - yoe / 100);
            &&& 0 <= yoe <= 399
            &&& 0 <= doy <= 365
            &&& (doy == 365 ==> yoe % 4 == 3 && (yoe % 100 != 99 || yoe == 399))
        }),
{
    assert({
        let yoe = (doe - doe / 1460 + doe / 36524 - doe / 146096) / 365;
        let doy = doe - (365 * yoe + yoe / 4 - yoe / 100);
        &&& yoe <= 399
        &&& 365 * yoe + yoe / 4 - yoe / 100 <= doe
        &&& doy <= 365
        &&& (doy == 365 ==> yoe % 4 == 3 && (yoe % 100 != 99 || yoe == 399))
    }) by (bit_vector)
        requires
            doe <= 146096,
    ;
}

/// The year-of-era formula inverts the start of each year.
pub proof fn lemma_year_of_era_inverse(yoe: u32, doy: u32)
    requires
        yoe <= 399,
        doy <= 364 || (doy == 365 && yoe % 4 == 3 && (yoe % 100 != 99 || yoe == 399)),
    ensures
        ({
            let doe = 365 * yoe + yoe / 4 - yoe / 100 + doy;
            &&& doe <= 146096
            &&& (doe - doe / 1460 + doe / 36524 - doe / 146096) / 365 == yoe
        }),
{
    assert({
        let doe = 365 * yoe + yoe / 4 - yoe / 100 + doy;
        let y2 = (doe - doe / 1460 + doe / 36524 - doe / 146096) / 365;
        doe <= 146096 && y2 <= yoe && y2 >= yoe
    }) by (bit_vector)
        requires
            yoe <= 399,
            doy <= 364 || (doy == 365 && yoe % 4 == 3 && (yoe % 100 != 99 || yoe == 399)),
    ;
}

/// The month a day-of-year falls in, and the day within it.
pub proof fn lemma_month_of_year(doy: u32)
    requires
        doy <= 365,
    ensures
        ({
            let mp = (5 * doy + 2) / 153;
            let d = doy - (153 * mp + 2) / 5 + 1;
            &&& 0 <= mp <= 11
            &&& 1 <= d <= 31
            &&& (mp == 11 ==> d <= 29)
            &&& (mp == 1 || mp == 3 || mp == 6 || mp == 8 ==> d <= 30)
        }),
{
    assert({
        let mp = (5 * doy + 2) / 153;
        &&& mp <= 11
        &&& (153 * mp + 2) / 5 <= doy
        &&& doy - (153 * mp + 2) / 5 + 1 <= 31
        &&& (mp == 11 ==> doy - (153 * mp + 2) / 5 + 1 <= 29)
        &&& (mp == 1 || mp == 3 || mp == 6 || mp == 8 ==> doy - (153 * mp + 2) / 5 + 1 <= 30)
    }) by (bit_vector)
        requires
            doy <= 365,
    ;
}

/// The month formula inverts the start of each month.
pub proof fn lemma_month_of_year_inverse(mp: u32, d: u32)
    requires
        mp <= 11,
        1 <= d <= 31,
        mp == 11 ==> d <= 29,
        mp == 1 || mp == 3 || mp == 6 || mp == 8 ==> d <= 30,
    ensures
        (5 * ((153 * mp + 2) / 5 + d - 1) + 2) / 153 == mp,
{
    assert({
        let m2 = (5 * ((153 * mp + 2) / 5 + d - 1) + 2) / 153;
        m2 <= mp && m2 >= mp
    }) by (bit_vector)
        requires
            mp <= 11,
            1 <= d <= 31,
            mp == 11 ==> d <= 29,
            mp == 1 || mp == 3 || mp == 6 || mp == 8 ==> d <= 30,
    ;
}

/// Splitting a year into 400-year eras.
pub proof fn lemma_march_year_start_split(yy: int, era: int, yoe: int)
    requires
        yy == 400 * era + yoe,
        0 <= yoe < 400,
    ensures
        march_year_start(yy) == 146097 * era + 365 * yoe + yoe / 4 - yoe / 100,
{
    lemma_fundamental_div_mod(yoe, 4);
    lemma_fundamental_div_mod(yoe, 100);
    lemma_fundamental_div_mod_converse(yy, 4, 100 * era + yoe / 4, yoe % 4);
    lemma_fundamental_div_mod_converse(yy, 100, 4 * era + yoe / 100, yoe % 100);
    lemma_fundamental_div_mod_converse(yy, 400, era, yoe);
}

/// Floor division by `k` steps up by one exactly at the multiples of `k`.
proof fn lemma_div_step(y: int, k: int)
    requires
        k > 0,
    ensures
        y / k - (y - 1) / k == (if y % k == 0 { 1int } else { 0 }),
{
    lemma_fundamental_div_mod(y, k);
    lemma_fundamental_div_mod(y - 1, k);
    if y % k == 0 {
        assert((y / k - 1) * k + (k - 1) == y - 1) by (nonlinear_arith)
            requires
                y == k * (y / k) + y % k,
                y % k == 0,
        ;
        lemma_fundamental_div_mod_converse(y - 1, k, y / k - 1, k - 1);
    } else {
        assert((y / k) * k + (y % k - 1) == y - 1) by (nonlinear_arith)
            requires
                y == k * (y / k) + y % k,
        ;
        lemma_fundamental_div_mod_converse(y - 1, k, y / k, y % k - 1);
    }
}

/// A March-based year holds 365 days, or 366 when its February has a leap day.
pub proof fn lemma_march_year_length(y: int)
    ensures
        march_year_start(y) - march_year_start(y - 1) == 365 + (if is_leap_year(y) { 1int } else { 0 }),
{
    lemma_div_step(y, 4);
    lemma_div_step(y, 100);
    lemma_div_step(y, 400);
    lemma_fundamental_div_mod(y, 400);
    if y % 400 == 0 {
        lemma_fundamental_div_mod_converse(y, 4, 100 * (y / 400), 0);
        lemma_fundamental_div_mod_converse(y, 100, 4 * (y / 400), 0);
    }
    if y % 100 == 0 {
        lemma_fundamental_div_mod(y, 100);
        lemma_fundamental_div_mod_converse(y, 4, 25 * (y / 100), 0);
    }
}

/// Leap years repeat every 400 years.
proof fn lemma_leap_in_era(era: int, k: int)
    requires
        1 <= k <= 400,
    ensures
        is_leap_year(400 * era + k) == (k % 4 == 0 && (k % 100 != 0 || k == 400)),
{
    let y = 400 * era + k;
    lemma_fundamental_div_mod(k, 4);
    lemma_fundamental_div_mod(k, 100);
    lemma_fundamental_div_mod(k, 400);
    lemma_fundamental_div_mod_converse(y, 4, 100 * era + k / 4, k % 4);
    lemma_fundamental_div_mod_converse(y, 100, 4 * era + k / 100, k % 100);
    lemma_fundamental_div_mod_converse(y, 400, era + k / 400, k % 400);
}

} // verus!

verus! {

/// The date whose day number is `z`, computed era by era.
#[verifier::opaque]
pub open spec fn date_of_day_number(z: int) -> Date {
    let zz = z + 719468;
    let era = zz / 146097;
    let doe = zz - era * 146097;
    let yoe = (doe - doe / 1460 + doe / 36524 - doe / 146096) / 365;
    let doy = doe - (365 * yoe + yoe / 4 - yoe / 100);
    let mp = (5 * doy + 2) / 153;
    let d = doy - (153 * mp + 2) / 5 + 1;
    let m = if mp < 10 { mp + 3 } else { mp - 9 };
    let y = yoe + era * 400 + (if m <= 2 { 1int } else { 0 });
    Date { year: y as i32, month: m as u32, day: d as u32 }
}

/// Every day number in range names a valid date, and that date has that number.
pub proof fn lemma_date_of_day_number(z: int)
    requires
        in_day_range(z),
    ensures
        is_valid_date(date_of_day_number(z)),
        day_number(date_of_day_number(z)) == z,
{
    reveal(date_of_day_number);
    let zz = z + 719468;
    let era = zz / 146097;
    lemma_fundamental_div_mod(zz, 146097);
    let doe = zz - era * 146097;
    let d32 = doe as u32;
    assert(d32 == doe);
    lemma_year_of_era(d32);
    let yoe = (doe - doe / 1460 + doe / 36524 - doe / 146096) / 365;
    let doy = doe - (365 * yoe + yoe / 4 - yoe / 100);
    let y32 = doy as u32;
    assert(y32 == doy);
    lemma_month_of_year(y32);
    let mp = (5 * doy + 2) / 153;
    let d = doy - (153 * mp + 2) / 5 + 1;
    let m = if mp < 10 { mp + 3 } else { mp - 9 };
    let y = yoe + era * 400 + (if m <= 2 { 1int } else { 0 });
    assert(-5368709 <= era <= 5368708);
    assert(i32::MIN <= y <= i32::MAX);
    let r = date_of_day_number(z);
    assert(r.year == y && r.month == m && r.day == d);
    if mp == 11 {
        lemma_leap_in_era(era, yoe + 1);
        if d == 29 {
            assert(doy == 365);
            assert(is_leap_year(y));
        }
    }
    let yy = 400 * era + yoe;
    lemma_march_year_start_split(yy, era, yoe);
    assert(march_index(m) == mp);
}

/// Each valid date is recovered from its day number.
pub proof fn lemma_day_number_inverse(d: Date)
    requires
        is_valid_date(d),
        in_day_range(day_number(d)),
    ensures
        date_of_day_number(day_number(d)) == d,
{
    reveal(date_of_day_number);
    let y = d.year as int;
    let m = d.month as int;
    let day = d.day as int;
    let yy = if m <= 2 { y - 1 } else { y };
    let era = yy / 400;
    lemma_fundamental_div_mod(yy, 400);
    let yoe = yy - 400 * era;
    let mp = march_index(m);
    let doy = days_before_march_month(mp) + day - 1;
    if m == 2 {
        lemma_leap_in_era(era, yoe + 1);
        assert(doy <= 364 || (doy == 365 && yoe % 4 == 3 && (yoe % 100 != 99 || yoe == 399)));
    } else {
        assert(doy <= 364);
    }
    lemma_year_of_era_inverse(yoe as u32, doy as u32);
    lemma_month_of_year_inverse(mp as u32, day as u32);
    let doe = 365 * yoe + yoe / 4 - yoe / 100 + doy;
    lemma_march_year_start_split(yy, era, yoe);
    let zz = day_number(d) + 719468;
    assert(zz == 146097 * era + doe);
    lemma_fundamental_div_mod_converse(zz, 146097, era, doe);
    let r = date_of_day_number(day_number(d));
    assert(r.month == d.month);
    assert(r.day == d.day);
    assert(r.year == d.year);
}

/// Distinct valid dates have distinct day numbers.
pub proof fn lemma_day_number_injective(a: Date, b: Date)
    requires
        is_valid_date(a),
        is_valid_date(b),
        in_day_range(day_number(a)),
        day_number(a) == day_number(b),
    ensures
        a == b,
{
    lemma_day_number_inverse(a);
    lemma_day_number_inverse(b);
}

} // verus!

verus! {

/// The epoch: 1970-01-01 is day zero.
pub proof fn lemma_epoch_is_day_zero()
    ensures
        day_number(Date { year: 1970, month: 1, day: 1 }) == 0,
{
}

/// Day numbers count days: the day after a valid date is valid and numbered
/// one higher.
pub proof fn lemma_next_day(d: Date)
    requires
        is_valid_date(d),
        d.year < i32::MAX,
    ensures
        is_valid_date(next_day(d)),
        day_number(next_day(d)) == day_number(d) + 1,
{
    let y = d.year as int;
    let m = d.month as int;
    if d.day < month_length(y, m) {
    } else if m < 12 {
        if m == 2 {
            lemma_march_year_length(y);
        } else if m == 1 {
        } else if m == 3 {
        } else if m == 4 {
        } else if m == 5 {
        } else if m == 6 {
        } else if m == 7 {
        } else if m == 8 {
        } else if m == 9 {
        } else if m == 10 {
        } else {
        }
    } else {
    }
}

} // verus!
