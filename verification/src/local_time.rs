//! Days and stamps from a local wall-clock instant.
//!
//! The instant is UTC plus the local offset, so the day it falls in is the
//! user's day: east of Greenwich the agenda rolls over at local midnight, not
//! at UTC's. Reading the clock and the offset is the host's; what the instant
//! means is here.
use vstd::prelude::*;

use crate::calendar::{date_of_day_number, in_day_range};
use crate::org_date::{year_text, Date};
use crate::repeat::from_days;
use crate::text::{push_padded, string_of, zero_padded};

verus! {

/// The epoch day a local instant falls in: floor division, so an instant
/// before the epoch lands on the day before rather than on day 0.
pub fn epoch_day_from_local_secs(local_secs: i64) -> (r: i64)
    ensures
        r == local_secs as int / 86400,
{
    if local_secs >= 0 {
        let u = local_secs as u64;
        (u / 86400) as i64
    } else {
        // `-(local + 1)` is the distance below -1, which cannot overflow.
        let u = (-(local_secs + 1)) as u64;
        let q = (u / 86400) as i64;
        proof {
            let x = local_secs as int;
            vstd::arithmetic::div_mod::lemma_fundamental_div_mod(u as int, 86400);
            vstd::arithmetic::div_mod::lemma_fundamental_div_mod_converse(x, 86400, -q - 1, 86399 - (u as int % 86400));
        }
        -q - 1
    }
}

/// The second of its day a local instant falls on.
pub open spec fn second_of_day(local: int) -> int {
    local % 86400
}

/// `YYYYMMDDHHMMSS` for a local instant.
pub open spec fn file_stamp_text(local: int) -> Seq<char> {
    let d = date_of_day_number(local / 86400);
    let s = second_of_day(local);
    year_text(d.year) + zero_padded(d.month as nat, 2) + zero_padded(d.day as nat, 2)
        + zero_padded((s / 3600) as nat, 2) + zero_padded(((s % 3600) / 60) as nat, 2)
        + zero_padded((s % 60) as nat, 2)
}

/// `YYYYMMDDHHMMSS` in local time, for a new note's filename: what the user
/// sees in a directory listing, so a note is filed under their day.
pub fn roam_file_stamp(local_secs: i64) -> (r: String)
    requires
        in_day_range(local_secs as int / 86400),
    ensures
        r@ == file_stamp_text(local_secs as int),
{
    let days = epoch_day_from_local_secs(local_secs);
    let secs: i64 = local_secs - days * 86400;
    proof {
        vstd::arithmetic::div_mod::lemma_fundamental_div_mod(local_secs as int, 86400);
    }
    assert(secs == local_secs as int % 86400);
    let d = from_days(days);
    let mut v: Vec<char> = Vec::new();
    let y = d.year as i64;
    if y < 0 {
        v.push('-');
        push_padded(&mut v, (0 - y) as u64, 3);
    } else {
        push_padded(&mut v, y as u64, 4);
    }
    push_padded(&mut v, d.month as u64, 2);
    push_padded(&mut v, d.day as u64, 2);
    let s = secs as u64;
    push_padded(&mut v, s / 3600, 2);
    push_padded(&mut v, (s % 3600) / 60, 2);
    push_padded(&mut v, s % 60, 2);
    assert(v@ =~= file_stamp_text(local_secs as int));
    string_of(v.as_slice())
}

/// Today, in local time.
pub fn today_local(local_secs: i64) -> (r: Date)
    requires
        in_day_range(local_secs as int / 86400),
    ensures
        r == date_of_day_number(local_secs as int / 86400),
{
    from_days(epoch_day_from_local_secs(local_secs))
}


/// Whether a local instant falls on a day the calendar here can name: the
/// condition [`roam_file_stamp`] and [`today_local`] ask of their caller.
pub fn instant_in_range(local_secs: i64) -> (b: bool)
    ensures
        b == in_day_range(local_secs as int / 86400),
{
    let d = epoch_day_from_local_secs(local_secs);
    -784_352_998_241 <= d && d <= 784_351_559_304
}

} // verus!
