//! The date grammar the schedule and deadline prompts take.
//!
//! ```text
//!   2026-09-15          an absolute date
//!   +1d  -2w  +3m  +1y  an offset from today; a bare `+3` is days
//!   .    today  tod     today
//!   tomorrow  tom       …and its neighbours
//!   yesterday  yes
//!   mon tue … sun       the soonest day with that name, today included
//!
//!   …any of the above, optionally followed by a repeater, carried verbatim:
//!   +1d .+1d/3d       →  <2026-09-03 Thu .+1d/3d>
//! ```
//!
//! Months and years move the month field and clamp the day: `+1m` on the 31st
//! of January is the 28th of February. Day and week offsets go through the day
//! number, so month and year boundaries carry.
use vstd::prelude::*;

use crate::calendar::{date_of_day_number, day_number, in_day_range, is_valid_date, month_length};
use crate::repeat::{add_months as shift_months, date_plus_days, date_plus_months, from_days, months_fit, months_fit_exec};
use crate::text::{
    all_digits, byte_len, chars_of, digit_run, digits_value, eq_at, extend_chars, find, find_in,
    find_ws, find_ws_in, lowered, parse_digits_i64, parse_i32, parse_i32_in, parse_u32, parse_u32_in,
    push_padded, skip_digits, string_of, to_ascii_lower, trim, trim_range, utf8_width_of, zero_padded,
    lemma_find_is, lemma_byte_len_append, first_match, matches_at, lemma_one_char_seqs_differ, lemma_byte_len_monotone,
};
use crate::timestamp::{day_name, day_name_text, weekday, weekday_of};

verus! {

/// A calendar date, resolved.
#[derive(Debug, Clone, Copy, PartialEq, Eq, Structural)]
pub struct Date {
    pub year: i32,
    pub month: u32,
    pub day: u32,
}

/// What the prompt resolved to: a date, plus whatever repeater rode along.
#[derive(Debug, Clone, PartialEq, Eq)]
pub struct Plan {
    pub date: Date,
    /// `.+1d/3d`, verbatim, or empty.
    pub repeater: String,
}

/// The year as `{:04}` writes it: zero-padded to four places, sign included.
pub open spec fn year_text(y: i32) -> Seq<char> {
    if y < 0 {
        seq!['-'] + zero_padded((-y) as nat, 3)
    } else {
        zero_padded(y as nat, 4)
    }
}

/// `2026-09-03`.
pub open spec fn date_text(d: Date) -> Seq<char> {
    year_text(d.year) + seq!['-'] + zero_padded(d.month as nat, 2) + seq!['-'] + zero_padded(
        d.day as nat,
        2,
    )
}

/// `<2026-09-03 Thu>`, or `<2026-09-03 Thu .+1d/3d>` with a repeater.
pub open spec fn stamp_text(d: Date, repeater: Seq<char>) -> Seq<char> {
    seq!['<'] + date_text(d) + seq![' '] + day_name_text(weekday_of(d)) + (if repeater.len() == 0 {
        Seq::<char>::empty()
    } else {
        seq![' '] + repeater
    }) + seq!['>']
}

impl Plan {
    /// The org stamp this plan writes — `<2026-09-03 Wed>`, plus its repeater.
    pub fn render(&self) -> (s: String)
        ensures
            s@ == stamp_text(self.date, self.repeater@),
    {
        let mut v: Vec<char> = Vec::new();
        v.push('<');
        let y = self.date.year as i64;
        if y < 0 {
            v.push('-');
            push_padded(&mut v, (0 - y) as u64, 3);
        } else {
            push_padded(&mut v, y as u64, 4);
        }
        v.push('-');
        push_padded(&mut v, self.date.month as u64, 2);
        v.push('-');
        push_padded(&mut v, self.date.day as u64, 2);
        v.push(' ');
        let dow = weekday(self.date.year, self.date.month, self.date.day);
        let name = chars_of(day_name(dow));
        extend_chars(&mut v, name.as_slice());
        let ghost head = v@;
        assert(head == seq!['<'] + date_text(self.date) + seq![' '] + day_name_text(weekday_of(self.date)));
        let rep = chars_of(self.repeater.as_str());
        if rep.len() > 0 {
            v.push(' ');
            extend_chars(&mut v, rep.as_slice());
        }
        v.push('>');
        assert(v@ == stamp_text(self.date, self.repeater@));
        string_of(v.as_slice())
    }
}

// ── the grammar, as specification ──

pub open spec fn no_date_error() -> Seq<char> {
    "org: no date given"@
}

pub open spec fn malformed_error(input: Seq<char>) -> Seq<char> {
    "org: `"@ + input + "` is not a date — try `+1d`, `fri` or `2026-09-15`"@
}

pub open spec fn no_count_error(input: Seq<char>) -> Seq<char> {
    "org: `"@ + input + "` has no count — try `+1d`"@
}

pub open spec fn too_large_error(digits: Seq<char>) -> Seq<char> {
    "org: `"@ + digits + "` is too large"@
}

pub open spec fn unit_error(unit: Seq<char>) -> Seq<char> {
    "org: `"@ + unit + "` is not a unit — use d, w, m or y"@
}

/// One part of a repeater: a count, then one of `d w m y`.
pub open spec fn repeater_part_ok(p: Seq<char>) -> bool {
    &&& p.len() >= 2
    &&& all_digits(p.drop_last())
    &&& (p.last() == 'd' || p.last() == 'w' || p.last() == 'm' || p.last() == 'y')
}

/// Every `/`-separated part of `b` is a count and a unit.
pub open spec fn repeater_parts_ok(b: Seq<char>) -> bool
    decreases b.len(),
{
    match find(b, seq!['/']) {
        None => repeater_part_ok(b),
        Some(i) => if 0 <= i < b.len() {
            repeater_part_ok(b.take(i)) && repeater_parts_ok(b.skip(i + 1))
        } else {
            false
        },
    }
}

/// A token that opens with `+`, `++` or `.+` and continues with counted units.
pub open spec fn is_repeater_text(t: Seq<char>) -> bool {
    if t.len() >= 2 && t[0] == '.' && t[1] == '+' {
        repeater_parts_ok(t.skip(2))
    } else if t.len() >= 2 && t[0] == '+' && t[1] == '+' {
        repeater_parts_ok(t.skip(2))
    } else if t.len() >= 1 && t[0] == '+' {
        repeater_parts_ok(t.skip(1))
    } else {
        false
    }
}

/// `(date part, repeater)`: a repeater is a trailing token, never the first.
/// A trailing token that is not a repeater leaves the input whole, so the date
/// reader refuses it by name rather than dropping it.
pub open spec fn split_repeater_text(t: Seq<char>) -> (Seq<char>, Seq<char>) {
    match find_ws(t) {
        None => (t, Seq::<char>::empty()),
        Some(i) => {
            let tail = trim(t.skip(i));
            if is_repeater_text(tail) {
                (t.take(i), tail)
            } else {
                (t, Seq::<char>::empty())
            }
        },
    }
}

/// The weekday a lowercase name denotes, Sunday being 0.
pub open spec fn weekday_index(lower: Seq<char>) -> Option<int> {
    if lower == to_ascii_lower(day_name_text(0)) {
        Some(0)
    } else if lower == to_ascii_lower(day_name_text(1)) {
        Some(1)
    } else if lower == to_ascii_lower(day_name_text(2)) {
        Some(2)
    } else if lower == to_ascii_lower(day_name_text(3)) {
        Some(3)
    } else if lower == to_ascii_lower(day_name_text(4)) {
        Some(4)
    } else if lower == to_ascii_lower(day_name_text(5)) {
        Some(5)
    } else if lower == to_ascii_lower(day_name_text(6)) {
        Some(6)
    } else {
        None
    }
}

/// The soonest day named `target`, today included.
pub open spec fn next_weekday_date(today: Date, target: int) -> Date {
    date_plus_days(today, (target + 7 - weekday_of(today)) % 7)
}

/// `today` moved by `n` units — days when `unit` is empty — or the refusal
/// for an unknown unit or a date out of range.
pub open spec fn offset_by_unit(unit: Seq<char>, n: int, today: Date, digits: Seq<char>) -> Result<
    Date,
    Seq<char>,
> {
    if unit.len() == 0 || unit == seq!['d'] {
        if in_day_range(day_number(today) + n) {
            Ok(date_plus_days(today, n))
        } else {
            Err(too_large_error(digits))
        }
    } else if unit == seq!['w'] {
        if in_day_range(day_number(today) + n * 7) {
            Ok(date_plus_days(today, n * 7))
        } else {
            Err(too_large_error(digits))
        }
    } else if unit == seq!['m'] {
        if months_fit(today, n) {
            Ok(date_plus_months(today, n))
        } else {
            Err(too_large_error(digits))
        }
    } else if unit == seq!['y'] {
        if months_fit(today, n * 12) {
            Ok(date_plus_months(today, n * 12))
        } else {
            Err(too_large_error(digits))
        }
    } else {
        Err(unit_error(unit))
    }
}

/// An offset from today: a sign, a count, and a unit (none meaning days).
pub open spec fn offset_date(lower: Seq<char>, today: Date) -> Result<Date, Seq<char>> {
    let body = lower.skip(1);
    let k = digit_run(body) as int;
    let digits = body.take(k);
    let n = digits_value(digits) as int;
    if k == 0 {
        Err(no_count_error(lower))
    } else if n > i64::MAX {
        Err(too_large_error(digits))
    } else {
        offset_by_unit(body.skip(k), if lower[0] == '-' { -n } else { n }, today, digits)
    }
}

/// `YYYY-MM-DD`, exactly three `-`-separated parts of four, two and two
/// characters, naming a day that exists.
pub open spec fn absolute_date(input: Seq<char>) -> Result<Date, Seq<char>> {
    match find(input, seq!['-']) {
        None => Err(malformed_error(input)),
        Some(i) => {
            let rest = input.skip(i + 1);
            match find(rest, seq!['-']) {
                None => Err(malformed_error(input)),
                Some(j) => {
                    let y = input.take(i);
                    let m = rest.take(j);
                    let d = rest.skip(j + 1);
                    if find(d, seq!['-']) is Some || y.len() != 4 || m.len() != 2 || d.len() != 2 {
                        Err(malformed_error(input))
                    } else {
                        match (parse_i32(y), parse_u32(m), parse_u32(d)) {
                            (Some(year), Some(month), Some(day)) => {
                                if 1 <= month <= 12 && 1 <= day <= month_length(year as int, month as int) {
                                    Ok(Date { year, month, day })
                                } else {
                                    Err(malformed_error(input))
                                }
                            },
                            _ => Err(malformed_error(input)),
                        }
                    }
                },
            }
        },
    }
}

/// The date one date expression names.
pub open spec fn date_of_text(input: Seq<char>, today: Date) -> Result<Date, Seq<char>> {
    let lower = to_ascii_lower(input);
    if lower == "."@ || lower == "today"@ || lower == "tod"@ {
        Ok(today)
    } else if lower == "tomorrow"@ || lower == "tom"@ {
        Ok(date_plus_days(today, 1))
    } else if lower == "yesterday"@ || lower == "yes"@ {
        Ok(date_plus_days(today, -1))
    } else if weekday_index(lower) is Some {
        Ok(next_weekday_date(today, weekday_index(lower)->0))
    } else if lower.len() > 0 && (lower[0] == '+' || lower[0] == '-') {
        offset_date(lower, today)
    } else {
        absolute_date(input)
    }
}

/// What a prompt answer resolves to against `today`: the date and the
/// repeater that rides along, or the message that refuses it.
pub open spec fn plan_of_text(input: Seq<char>, today: Date) -> Result<(Date, Seq<char>), Seq<char>> {
    let t = trim(input);
    if t.len() == 0 {
        Err(no_date_error())
    } else {
        let (date_part, repeater) = split_repeater_text(t);
        match date_of_text(date_part, today) {
            Ok(d) => Ok((d, repeater)),
            Err(e) => Err(e),
        }
    }
}

/// `s` can be cut after its third byte: it is at most three bytes long, or a
/// character ends exactly there.
pub open spec fn cut_at_three_ok(s: Seq<char>) -> bool {
    byte_len(s) <= 3 || exists|k: int| 0 <= k <= s.len() && byte_len(#[trigger] s.take(k)) == 3
}

/// The inputs the prompt reads: the date part, lowercased, can be cut after
/// its third byte, which is where a weekday name ends.
pub open spec fn prompt_input_ok(input: Seq<char>) -> bool {
    cut_at_three_ok(to_ascii_lower(split_repeater_text(trim(input)).0))
}

/// Days around `today` that a named day can reach stay in range.
pub open spec fn today_ok(today: Date) -> bool {
    in_day_range(day_number(today) - 1) && in_day_range(day_number(today) + 6)
}


// ── the grammar, executed ──

/// Whether `v[lo..hi]` is exactly `lit`.
fn is_lit(v: &[char], lo: usize, hi: usize, lit: &str) -> (b: bool)
    requires
        lo <= hi <= v@.len(),
    ensures
        b == (v@.subrange(lo as int, hi as int) == lit@),
{
    let l = chars_of(lit);
    eq_at(v, lo, hi, l.as_slice())
}

/// `prefix`, then `v[lo..hi]`, then `suffix`.
fn message(prefix: &str, v: &[char], lo: usize, hi: usize, suffix: &str) -> (r: Vec<char>)
    requires
        lo <= hi <= v@.len(),
    ensures
        r@ == prefix@ + v@.subrange(lo as int, hi as int) + suffix@,
{
    let mut out = chars_of(prefix);
    let mut i = lo;
    while i < hi
        invariant
            lo <= i <= hi <= v@.len(),
            out@ == prefix@ + v@.subrange(lo as int, i as int),
        decreases hi - i,
    {
        out.push(v[i]);
        i += 1;
        assert(v@.subrange(lo as int, i as int) == v@.subrange(lo as int, i - 1).push(v@[i - 1]));
    }
    let sfx = chars_of(suffix);
    extend_chars(&mut out, sfx.as_slice());
    out
}

fn part_ok(s: &[char], lo: usize, hi: usize) -> (b: bool)
    requires
        lo <= hi <= s@.len(),
    ensures
        b == repeater_part_ok(s@.subrange(lo as int, hi as int)),
{
    if hi - lo < 2 {
        return false;
    }
    let c = s[hi - 1];
    let ghost p = s@.subrange(lo as int, hi as int);
    assert(p.drop_last() == s@.subrange(lo as int, hi - 1));
    all_digits_in_range(s, lo, hi - 1) && (c == 'd' || c == 'w' || c == 'm' || c == 'y')
}

fn all_digits_in_range(s: &[char], lo: usize, hi: usize) -> (b: bool)
    requires
        lo <= hi <= s@.len(),
    ensures
        b == all_digits(s@.subrange(lo as int, hi as int)),
{
    crate::text::all_digits_in(s, lo, hi)
}

fn parts_ok(s: &[char], lo: usize, hi: usize) -> (b: bool)
    requires
        lo <= hi <= s@.len(),
    ensures
        b == repeater_parts_ok(s@.subrange(lo as int, hi as int)),
    decreases hi - lo,
{
    let slash = ['/'];
    assert(slash@ == seq!['/']);
    let ghost b = s@.subrange(lo as int, hi as int);
    match find_in(s, lo, hi, &slash) {
        None => part_ok(s, lo, hi),
        Some(i) => {
            assert(b.take(i - lo) == s@.subrange(lo as int, i as int));
            assert(b.skip(i - lo + 1) == s@.subrange(i + 1, hi as int));
            part_ok(s, lo, i) && parts_ok(s, i + 1, hi)
        },
    }
}

fn is_repeater(s: &[char], lo: usize, hi: usize) -> (b: bool)
    requires
        lo <= hi <= s@.len(),
    ensures
        b == is_repeater_text(s@.subrange(lo as int, hi as int)),
{
    let ghost t = s@.subrange(lo as int, hi as int);
    if hi - lo >= 2 && s[lo] == '.' && s[lo + 1] == '+' {
        assert(t.skip(2) == s@.subrange(lo + 2, hi as int));
        parts_ok(s, lo + 2, hi)
    } else if hi - lo >= 2 && s[lo] == '+' && s[lo + 1] == '+' {
        assert(t.skip(2) == s@.subrange(lo + 2, hi as int));
        parts_ok(s, lo + 2, hi)
    } else if hi - lo >= 1 && s[lo] == '+' {
        assert(t.skip(1) == s@.subrange(lo + 1, hi as int));
        parts_ok(s, lo + 1, hi)
    } else {
        false
    }
}

/// The weekday `lower` names, Sunday being 0.
fn weekday_named(lower: &[char]) -> (r: Option<usize>)
    ensures
        match r {
            Some(i) => i < 7 && weekday_index(lower@) == Some(i as int),
            None => weekday_index(lower@) is None,
        },
{
    let mut i: usize = 0;
    while i < 7
        invariant
            i <= 7,
            forall|j: int| 0 <= j < i ==> lower@ != to_ascii_lower(#[trigger] day_name_text(j)),
        decreases 7 - i,
    {
        let name = chars_of(day_name(i));
        let lname = lowered(name.as_slice(), 0, name.len());
        assert(name@.subrange(0, name@.len() as int) == name@);
        assert(lower@.subrange(0, lower@.len() as int) == lower@);
        if eq_at(lower, 0, lower.len(), lname.as_slice()) {
            return Some(i);
        }
        i += 1;
    }
    None
}

/// `today` shifted by `delta` days.
fn add_days(today: Date, delta: i64) -> (r: Date)
    requires
        -2_000_000_000_000 <= delta <= 2_000_000_000_000,
        in_day_range(day_number(today) + delta),
    ensures
        r == date_plus_days(today, delta as int),
{
    from_epoch_day(crate::repeat::to_days(today) + delta)
}

/// `today` shifted by `delta` months, the day clamped into the target month.
fn add_months(today: Date, delta: i64) -> (r: Date)
    requires
        -2_000_000_000_000 <= delta <= 2_000_000_000_000,
        months_fit(today, delta as int),
    ensures
        r == date_plus_months(today, delta as int),
{
    shift_months(today, delta)
}

/// The inverse of the day number.
fn from_epoch_day(z: i64) -> (r: Date)
    requires
        in_day_range(z as int),
    ensures
        is_valid_date(r),
        day_number(r) == z,
        r == date_of_day_number(z as int),
{
    from_days(z)
}

/// The soonest day named `target`, today included.
fn next_weekday(today: Date, target: usize) -> (r: Date)
    requires
        target < 7,
        today_ok(today),
    ensures
        r == next_weekday_date(today, target as int),
{
    let current = weekday(today.year, today.month, today.day);
    let ahead = (target + 7 - current) % 7;
    add_days(today, ahead as i64)
}

fn in_range_exec(z: i64) -> (b: bool)
    ensures
        b == in_day_range(z as int),
{
    -784_352_998_241 <= z && z <= 784_351_559_304
}

/// `today` plus `n` days, or the refusal when that leaves the range.
fn offset_days(today: Date, n: i64, k: i64, too_large: Vec<char>) -> (r: Result<Date, Vec<char>>)
    requires
        today_ok(today),
        k == 1 || k == 7,
    ensures
        match r {
            Ok(d) => in_day_range(day_number(today) + (if k == 1 { n as int } else { n * 7 }))
                && d == date_plus_days(today, (if k == 1 { n as int } else { n * 7 })),
            Err(e) => !in_day_range(day_number(today) + (if k == 1 { n as int } else { n * 7 }))
                && e == too_large,
        },
{
    if n > 2_000_000_000_000 || n < -2_000_000_000_000 {
        return Err(too_large);
    }
    let delta = n * k;
    let z = crate::repeat::to_days(today);
    if !in_range_exec(z + delta) {
        return Err(too_large);
    }
    Ok(add_days(today, delta))
}

/// `today` plus `n` months, or the refusal when that leaves the range.
fn offset_months(today: Date, n: i64, k: i64, too_large: Vec<char>) -> (r: Result<Date, Vec<char>>)
    requires
        k == 1 || k == 12,
    ensures
        match r {
            Ok(d) => months_fit(today, (if k == 1 { n as int } else { n * 12 })) && d
                == date_plus_months(today, (if k == 1 { n as int } else { n * 12 })),
            Err(e) => !months_fit(today, (if k == 1 { n as int } else { n * 12 })) && e == too_large,
        },
{
    if n > 100_000_000_000 || n < -100_000_000_000 {
        return Err(too_large);
    }
    let delta = n * k;
    if !months_fit_exec(today, delta) {
        return Err(too_large);
    }
    Ok(add_months(today, delta))
}

/// The unit that follows an offset's count, applied; the count's digits are
/// `lower[1..end]`.
fn apply_unit(lower: &[char], end: usize, n: i64, today: Date) -> (r: Result<Date, Vec<char>>)
    requires
        1 <= end <= lower@.len(),
        today_ok(today),
    ensures
        match r {
            Ok(d) => offset_by_unit(lower@.subrange(end as int, lower@.len() as int), n as int, today, lower@.subrange(1, end as int)) == Ok::<Date, Seq<char>>(d),
            Err(e) => offset_by_unit(lower@.subrange(end as int, lower@.len() as int), n as int, today, lower@.subrange(1, end as int)) == Err::<Date, Seq<char>>(e@),
        },
{
    let len = lower.len();
    let ghost unit = lower@.subrange(end as int, len as int);
    proof {
        reveal_strlit("d");
        reveal_strlit("w");
        reveal_strlit("m");
        reveal_strlit("y");
        lemma_one_char_seqs_differ('w', 'd');
        lemma_one_char_seqs_differ('m', 'd');
        lemma_one_char_seqs_differ('m', 'w');
        lemma_one_char_seqs_differ('y', 'd');
        lemma_one_char_seqs_differ('y', 'w');
        lemma_one_char_seqs_differ('y', 'm');
        assert("d"@ =~= seq!['d']);
        assert("w"@ =~= seq!['w']);
        assert("m"@ =~= seq!['m']);
        assert("y"@ =~= seq!['y']);
    }
    let too_large = message("org: `", lower, 1, end, "` is too large");
    if end == len || is_lit(lower, end, len, "d") {
        assert(unit.len() == 0 || unit == seq!['d']);
        offset_days(today, n, 1, too_large)
    } else if is_lit(lower, end, len, "w") {
        assert(unit == seq!['w']);
        assert(unit.len() != 0 && unit != seq!['d']);
        offset_days(today, n, 7, too_large)
    } else if is_lit(lower, end, len, "m") {
        assert(unit == seq!['m']);
        assert(unit.len() != 0 && unit != seq!['d'] && unit != seq!['w']);
        offset_months(today, n, 1, too_large)
    } else if is_lit(lower, end, len, "y") {
        assert(unit == seq!['y']);
        assert(unit.len() != 0 && unit != seq!['d'] && unit != seq!['w'] && unit != seq!['m']);
        offset_months(today, n, 12, too_large)
    } else {
        assert(unit.len() != 0 && unit != seq!['d'] && unit != seq!['w'] && unit != seq!['m'] && unit != seq!['y']);
        Err(message("org: `", lower, end, len, "` is not a unit — use d, w, m or y"))
    }
}

/// `+1d` / `-2w` / `+3m` / `+1y`, and a bare `+3` meaning days.
fn parse_offset(lower: &[char], today: Date) -> (r: Result<Date, Vec<char>>)
    requires
        lower@.len() > 0,
        lower@[0] == '+' || lower@[0] == '-',
        today_ok(today),
    ensures
        match r {
            Ok(d) => offset_date(lower@, today) == Ok::<Date, Seq<char>>(d),
            Err(e) => offset_date(lower@, today) == Err::<Date, Seq<char>>(e@),
        },
{
    let len = lower.len();
    let ghost body = lower@.skip(1);
    assert(body == lower@.subrange(1, len as int));
    let negative = lower[0] == '-';
    let end = skip_digits(lower, 1, len);
    let ghost k = (end - 1) as int;
    assert(body.take(k) == lower@.subrange(1, end as int));
    assert(body.skip(k) == lower@.subrange(end as int, len as int));
    assert(lower@.subrange(0, len as int) == lower@);
    if end == 1 {
        return Err(message("org: `", lower, 0, len, "` has no count — try `+1d`"));
    }
    let n = match parse_digits_i64(lower, 1, end) {
        Some(n) => n,
        None => {
            return Err(message("org: `", lower, 1, end, "` is too large"));
        },
    };
    let signed = if negative { 0 - n } else { n };
    assert(signed == (if lower@[0] == '-' { -digits_value(body.take(k)) } else { digits_value(body.take(k)) as int }));
    apply_unit(lower, end, signed, today)
}


/// `YYYY-MM-DD`.
fn parse_absolute(s: &[char], lo: usize, hi: usize) -> (r: Result<Date, Vec<char>>)
    requires
        lo <= hi <= s@.len(),
    ensures
        match r {
            Ok(d) => absolute_date(s@.subrange(lo as int, hi as int)) == Ok::<Date, Seq<char>>(d),
            Err(e) => absolute_date(s@.subrange(lo as int, hi as int)) == Err::<Date, Seq<char>>(e@),
        },
{
    let ghost input = s@.subrange(lo as int, hi as int);
    let dash = ['-'];
    assert(dash@ == seq!['-']);
    let i = match find_in(s, lo, hi, &dash) {
        Some(i) => i,
        None => {
            return Err(message("org: `", s, lo, hi, "` is not a date — try `+1d`, `fri` or `2026-09-15`"));
        },
    };
    let ghost rest = input.skip(i - lo + 1);
    assert(rest == s@.subrange(i + 1, hi as int));
    let j = match find_in(s, i + 1, hi, &dash) {
        Some(j) => j,
        None => {
            return Err(message("org: `", s, lo, hi, "` is not a date — try `+1d`, `fri` or `2026-09-15`"));
        },
    };
    assert(input.take(i - lo) == s@.subrange(lo as int, i as int));
    assert(rest.take(j - (i + 1)) == s@.subrange(i + 1, j as int));
    assert(rest.skip(j - (i + 1) + 1) == s@.subrange(j + 1, hi as int));
    if find_in(s, j + 1, hi, &dash).is_some() || i - lo != 4 || j - (i + 1) != 2 || hi - (j + 1) != 2 {
        return Err(message("org: `", s, lo, hi, "` is not a date — try `+1d`, `fri` or `2026-09-15`"));
    }
    let year = parse_i32_in(s, lo, i);
    let month = parse_u32_in(s, i + 1, j);
    let day = parse_u32_in(s, j + 1, hi);
    match (year, month, day) {
        (Some(year), Some(month), Some(day)) => {
            if 1 <= month && month <= 12 && 1 <= day && day <= crate::timestamp::days_in_month(year, month) {
                Ok(Date { year, month, day })
            } else {
                Err(message("org: `", s, lo, hi, "` is not a date — try `+1d`, `fri` or `2026-09-15`"))
            }
        },
        _ => Err(message("org: `", s, lo, hi, "` is not a date — try `+1d`, `fri` or `2026-09-15`")),
    }
}

/// The date one date expression names.
fn parse_date(s: &[char], lo: usize, hi: usize, today: Date) -> (r: Result<Date, Vec<char>>)
    requires
        lo <= hi <= s@.len(),
        today_ok(today),
    ensures
        match r {
            Ok(d) => date_of_text(s@.subrange(lo as int, hi as int), today) == Ok::<Date, Seq<char>>(d),
            Err(e) => date_of_text(s@.subrange(lo as int, hi as int), today) == Err::<Date, Seq<char>>(e@),
        },
{
    let lower = lowered(s, lo, hi);
    let n = lower.len();
    assert(lower@.subrange(0, n as int) == lower@);
    if is_lit(&lower, 0, n, ".") || is_lit(&lower, 0, n, "today") || is_lit(&lower, 0, n, "tod") {
        return Ok(today);
    }
    if is_lit(&lower, 0, n, "tomorrow") || is_lit(&lower, 0, n, "tom") {
        return Ok(add_days(today, 1));
    }
    if is_lit(&lower, 0, n, "yesterday") || is_lit(&lower, 0, n, "yes") {
        return Ok(add_days(today, -1));
    }
    if let Some(idx) = weekday_named(&lower) {
        return Ok(next_weekday(today, idx));
    }
    if n > 0 && (lower[0] == '+' || lower[0] == '-') {
        return parse_offset(&lower, today);
    }
    parse_absolute(s, lo, hi)
}

/// Split a trailing repeater off `s[a..b]`: the bounds of the date part and
/// of the repeater, which is empty when there is none.
fn split_repeater(s: &[char], a: usize, b: usize) -> (r: (usize, usize, usize, usize))
    requires
        a <= b <= s@.len(),
    ensures
        a <= r.0 <= r.1 <= b,
        r.2 <= r.3 <= b,
        split_repeater_text(s@.subrange(a as int, b as int)) == (
            s@.subrange(r.0 as int, r.1 as int),
            s@.subrange(r.2 as int, r.3 as int),
        ),
{
    let ghost whole = s@.subrange(a as int, b as int);
    assert(s@.subrange(b as int, b as int) == Seq::<char>::empty());
    match find_ws_in(s, a, b) {
        None => (a, b, b, b),
        Some(i) => {
            let (ta, tb) = trim_range(s, i, b);
            assert(whole.skip(i - a) == s@.subrange(i as int, b as int));
            if is_repeater(s, ta, tb) {
                assert(whole.take(i - a) == s@.subrange(a as int, i as int));
                (a, i, ta, tb)
            } else {
                (a, b, b, b)
            }
        },
    }
}

/// Parse a prompt answer against `today`.
///
/// `today` is threaded rather than read from the clock, so every answer is
/// resolved against a stated day. An empty answer is refused here; removing
/// the planning line for it is the caller's decision.
pub fn parse(input: &str, today: Date) -> (r: Result<Plan, String>)
    requires
        today_ok(today),
        prompt_input_ok(input@),
    ensures
        match r {
            Ok(p) => plan_of_text(input@, today) == Ok::<(Date, Seq<char>), Seq<char>>((p.date, p.repeater@)),
            Err(e) => plan_of_text(input@, today) == Err::<(Date, Seq<char>), Seq<char>>(e@),
        },
{
    let t = chars_of(input);
    let len = t.len();
    assert(t@.subrange(0, len as int) == t@);
    let (a, b) = trim_range(&t, 0, len);
    if a == b {
        let e = chars_of("org: no date given");
        return Err(string_of(e.as_slice()));
    }
    let (da, db, ra, rb) = split_repeater(&t, a, b);
    match parse_date(&t, da, db, today) {
        Ok(date) => Ok(Plan { date, repeater: string_of(&t.as_slice()[ra..rb]) }),
        Err(e) => Err(string_of(e.as_slice())),
    }
}


/// Whether `parse` reads `input`: its date part, lowercased, can be cut after
/// the third byte, where a weekday name would end. Cutting inside a character
/// there is the one input the grammar does not take.
pub fn prompt_input_readable(input: &str) -> (b: bool)
    ensures
        b == prompt_input_ok(input@),
{
    let t = chars_of(input);
    let len = t.len();
    assert(t@.subrange(0, len as int) == t@);
    let (a, b) = trim_range(&t, 0, len);
    let (da, db, _, _) = split_repeater(&t, a, b);
    let lower = lowered(&t, da, db);
    cuts_at_three(&lower)
}

fn cuts_at_three(s: &[char]) -> (b: bool)
    ensures
        b == cut_at_three_ok(s@),
{
    let mut k: usize = 0;
    let mut acc: usize = 0;
    while k < s.len() && acc < 3
        invariant
            k <= s@.len(),
            acc == byte_len(s@.take(k as int)),
            forall|j: int| 0 <= j < k ==> byte_len(#[trigger] s@.take(j)) < 3,
        decreases s@.len() - k,
    {
        let w = utf8_width_of(s[k]);
        proof {
            assert(s@.take(k + 1).drop_last() == s@.take(k as int));
        }
        acc = acc + w;
        k += 1;
    }
    if acc == 3 {
        return true;
    }
    if acc < 3 {
        assert(k == s@.len());
        assert(s@.take(k as int) == s@);
        return true;
    }
    proof {
        assert forall|j: int| 0 <= j <= s@.len() implies byte_len(#[trigger] s@.take(j)) != 3 by {
            if j >= k {
                lemma_byte_len_monotone(s@, k as int, j);
            }
        }
        lemma_byte_len_monotone(s@, k as int, s@.len() as int);
        assert(s@.take(s@.len() as int) == s@);
    }
    false
}

/// A weekday name resolves to the soonest day with that name, today included:
/// the result has that weekday and lies zero to six days ahead.
pub proof fn lemma_weekday_name_is_soonest(today: Date, target: int)
    requires
        today_ok(today),
        0 <= target < 7,
    ensures
        weekday_of(next_weekday_date(today, target)) == target,
        day_number(today) <= day_number(next_weekday_date(today, target)) <= day_number(today) + 6,
        weekday_of(today) == target ==> next_weekday_date(today, target) == crate::repeat::date_plus_days(today, 0),
{
    let dn = day_number(today);
    let w = weekday_of(today);
    let ahead = (target + 7 - w) % 7;
    assert(0 <= w < 7 && 0 <= ahead < 7);
    crate::calendar::lemma_date_of_day_number(dn + ahead);
    assert((dn + ahead + 4) % 7 == target) by (nonlinear_arith)
        requires
            w == (dn + 4) % 7,
            ahead == (target + 7 - w) % 7,
            0 <= target < 7,
    {
        vstd::arithmetic::div_mod::lemma_fundamental_div_mod(dn + 4, 7);
        vstd::arithmetic::div_mod::lemma_fundamental_div_mod(target + 7 - w, 7);
        vstd::arithmetic::div_mod::lemma_fundamental_div_mod_converse(
            dn + ahead + 4,
            7,
            (dn + 4) / 7 - (target + 7 - w) / 7 + 1,
            target,
        );
    }
}

} // verus!
