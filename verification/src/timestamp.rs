//! Weekdays and day numbers for org timestamps.
use vstd::prelude::*;

use crate::calendar::{day_number, month_length};
use crate::org_date::Date;
use crate::repeat::to_days;

verus! {

/// The day of the week, Sunday being 0: 1970-01-01 was a Thursday.
pub open spec fn weekday_of(d: Date) -> int {
    (day_number(d) + 4) % 7
}

/// The three-letter name org writes for weekday `i`, Sunday first.
pub open spec fn day_name_text(i: int) -> Seq<char> {
    if i == 0 {
        seq!['S', 'u', 'n']
    } else if i == 1 {
        seq!['M', 'o', 'n']
    } else if i == 2 {
        seq!['T', 'u', 'e']
    } else if i == 3 {
        seq!['W', 'e', 'd']
    } else if i == 4 {
        seq!['T', 'h', 'u']
    } else if i == 5 {
        seq!['F', 'r', 'i']
    } else {
        seq!['S', 'a', 't']
    }
}

/// Weekday `i`'s name, `i` counting from Sunday.
pub fn day_name(i: usize) -> (r: &'static str)
    requires
        i < 7,
    ensures
        r@ == day_name_text(i as int),
{
    if i == 0 {
        proof { reveal_strlit("Sun"); }
        "Sun"
    } else if i == 1 {
        proof { reveal_strlit("Mon"); }
        "Mon"
    } else if i == 2 {
        proof { reveal_strlit("Tue"); }
        "Tue"
    } else if i == 3 {
        proof { reveal_strlit("Wed"); }
        "Wed"
    } else if i == 4 {
        proof { reveal_strlit("Thu"); }
        "Thu"
    } else if i == 5 {
        proof { reveal_strlit("Fri"); }
        "Fri"
    } else {
        proof { reveal_strlit("Sat"); }
        "Sat"
    }
}

/// The weekday of `year-month-day`, Sunday being 0.
pub fn weekday(year: i32, month: u32, day: u32) -> (r: usize)
    ensures
        r < 7,
        r == weekday_of(Date { year, month, day }),
{
    let z = to_days(Date { year, month, day }) + 4;
    let m = z % 7;
    if m < 0 { (m + 7) as usize } else { m as usize }
}

/// Days since 1970-01-01.
pub fn epoch_day(year: i32, month: u32, day: u32) -> (r: i64)
    ensures
        r == day_number(Date { year, month, day }),
{
    to_days(Date { year, month, day })
}

pub fn days_in_month(year: i32, month: u32) -> (r: u32)
    ensures
        r == month_length(year as int, month as int),
{
    crate::repeat::days_in_month(year, month)
}

} // verus!
