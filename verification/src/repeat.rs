//! Org repeaters (`+1d`, `++1m`, `.+1d/3d`), parsed, rendered and applied.
//!
//! `+` shifts from the timestamp already on the line, `++` shifts from it until
//! the result is in the future, and `.+` shifts from the completion date. A
//! `/MAX` after the interval is a habit's upper bound; only the consistency
//! graph reads it, and the shift ignores it.
use vstd::prelude::*;
use vstd::arithmetic::div_mod::lemma_fundamental_div_mod;

use crate::calendar::{
    date_after, date_of_day_number, day_number, in_day_range, is_leap_year, is_valid_date,
    lemma_date_of_day_number, lemma_march_year_start_split, lemma_month_of_year, lemma_year_of_era,
    month_length,
};
use crate::org_date::Date;
use crate::text::{
    all_digits, all_digits_in, chars_of, decimal, digits_value, find, find_in, is_digit,
    lemma_decimal_digits, lemma_find_is, first_match, matches_at, parse_u32, parse_u32_in,
    push_decimal, string_of,
};

verus! {

/// Days since 1970-01-01, by the days-from-civil method: a year that starts in
/// March carries its leap day last, so every month before it has a fixed start.
pub fn to_days(d: Date) -> (r: i64)
    ensures
        r == day_number(d),
{
    let y: i64 = if d.month <= 2 { d.year as i64 - 1 } else { d.year as i64 };
    let era: i64 = if y >= 0 { y } else { y - 399 } / 400;
    let yoe = y - era * 400;
    let m = d.month as i64;
    let doy = (153 * (if m > 2 { m - 3 } else { m + 9 }) + 2) / 5 + d.day as i64 - 1;
    let doe = yoe * 365 + yoe / 4 - yoe / 100 + doy;
    proof {
        lemma_fundamental_div_mod(y as int, 400);
        lemma_march_year_start_split(y as int, era as int, yoe as int);
    }
    era * 146_097 + doe - 719_468
}

/// The inverse of [`to_days`].
#[verifier::rlimit(40)]
pub fn from_days(z: i64) -> (d: Date)
    requires
        in_day_range(z as int),
    ensures
        is_valid_date(d),
        day_number(d) == z,
        d == date_of_day_number(z as int),
{
    proof {
        lemma_date_of_day_number(z as int);
    }
    let ghost z0 = z as int;
    let z = z + 719_468;
    let era: i64 = if z >= 0 { z } else { z - 146_096 } / 146_097;
    assert(era == (z0 + 719468) / 146097);
    let doe = z - era * 146_097;
    proof {
        lemma_fundamental_div_mod(z as int, 146097);
    }
    assert(0 <= doe < 146097);
    proof {
        lemma_year_of_era(doe as u32);
    }
    let yoe = (doe - doe / 1460 + doe / 36524 - doe / 146_096) / 365;
    let y = yoe + era * 400;
    let doy = doe - (365 * yoe + yoe / 4 - yoe / 100);
    proof {
        lemma_month_of_year(doy as u32);
    }
    let mp = (5 * doy + 2) / 153;
    let day = (doy - (153 * mp + 2) / 5 + 1) as u32;
    let month = (if mp < 10 { mp + 3 } else { mp - 9 }) as u32;
    let r = Date { year: (if month <= 2 { y + 1 } else { y }) as i32, month, day };
    assert(r == date_of_day_number(z - 719_468)) by {
        reveal(date_of_day_number);
    }
    r
}


/// Which timestamp a shift counts from.
#[derive(Debug, Clone, Copy, PartialEq, Eq, Structural)]
pub enum Base {
    /// `+` — from the timestamp on the line, even when that lands in the past.
    Stamp,
    /// `++` — from the timestamp, advanced until it is in the future.
    StampCatchUp,
    /// `.+` — from the completion date.
    Completion,
}

#[derive(Debug, Clone, Copy, PartialEq, Eq, Structural)]
pub enum Unit {
    Day,
    Week,
    Month,
    Year,
}

pub open spec fn unit_from_char(c: char) -> Option<Unit> {
    if c == 'd' {
        Some(Unit::Day)
    } else if c == 'w' {
        Some(Unit::Week)
    } else if c == 'm' {
        Some(Unit::Month)
    } else if c == 'y' {
        Some(Unit::Year)
    } else {
        None
    }
}

pub open spec fn unit_char(u: Unit) -> char {
    match u {
        Unit::Day => 'd',
        Unit::Week => 'w',
        Unit::Month => 'm',
        Unit::Year => 'y',
    }
}

impl Unit {
    fn parse(c: char) -> (r: Option<Unit>)
        ensures
            r == unit_from_char(c),
    {
        if c == 'd' {
            Some(Unit::Day)
        } else if c == 'w' {
            Some(Unit::Week)
        } else if c == 'm' {
            Some(Unit::Month)
        } else if c == 'y' {
            Some(Unit::Year)
        } else {
            None
        }
    }

    fn label(self) -> (c: char)
        ensures
            c == unit_char(self),
    {
        match self {
            Unit::Day => 'd',
            Unit::Week => 'w',
            Unit::Month => 'm',
            Unit::Year => 'y',
        }
    }
}

/// A parsed repeater.
#[derive(Debug, Clone, Copy, PartialEq, Eq)]
pub struct Repeater {
    pub base: Base,
    pub count: u32,
    pub unit: Unit,
    /// The habit range's upper bound, when the repeater carried `/MAX`.
    pub max: Option<(u32, Unit)>,
}

pub open spec fn base_text(b: Base) -> Seq<char> {
    match b {
        Base::Stamp => seq!['+'],
        Base::StampCatchUp => seq!['+', '+'],
        Base::Completion => seq!['.', '+'],
    }
}

/// `3d`, `10y`.
pub open spec fn amount_text(n: u32, u: Unit) -> Seq<char> {
    decimal(n as nat).push(unit_char(u))
}

/// The repeater as org writes it.
pub open spec fn repeater_text(r: Repeater) -> Seq<char> {
    base_text(r.base) + amount_text(r.count, r.unit) + match r.max {
        Some((n, u)) => seq!['/'] + amount_text(n, u),
        None => Seq::<char>::empty(),
    }
}

/// Days in `count` units, months as 30 and years as 365, saturating.
pub open spec fn approx_days(count: u32, unit: Unit) -> u32 {
    let k: int = match unit {
        Unit::Day => 1,
        Unit::Week => 7,
        Unit::Month => 30,
        Unit::Year => 365,
    };
    if count * k > u32::MAX { u32::MAX } else { (count * k) as u32 }
}

impl Repeater {
    /// Re-render exactly as org writes it, so a round trip is byte-identical.
    pub fn render(&self) -> (s: String)
        ensures
            s@ == repeater_text(*self),
    {
        let mut v: Vec<char> = Vec::new();
        match self.base {
            Base::Stamp => {
                v.push('+');
            },
            Base::StampCatchUp => {
                v.push('+');
                v.push('+');
            },
            Base::Completion => {
                v.push('.');
                v.push('+');
            },
        }
        push_decimal(&mut v, self.count as u64);
        v.push(self.unit.label());
        let ghost head = v@;
        assert(head == base_text(self.base) + amount_text(self.count, self.unit));
        match self.max {
            Some((n, u)) => {
                v.push('/');
                push_decimal(&mut v, n as u64);
                v.push(u.label());
                assert(v@ == head + (seq!['/'] + amount_text(n, u)));
            },
            None => {
                assert(v@ == head + Seq::<char>::empty());
            },
        }
        string_of(v.as_slice())
    }

    /// The habit window as `(min_days, max_days)`; months count as 30 days and
    /// years as 365, and a repeater without `/MAX` has no slack.
    pub fn window_days(&self) -> (r: (u32, u32))
        ensures
            r.0 == approx_days(self.count, self.unit),
            r.1 == match self.max {
                Some((n, u)) => if approx_days(n, u) > r.0 { approx_days(n, u) } else { r.0 },
                None => r.0,
            },
    {
        let min = days_of(self.count, self.unit);
        let max = match self.max {
            Some((n, u)) => days_of(n, u),
            None => min,
        };
        (min, if min >= max { min } else { max })
    }
}

fn days_of(count: u32, unit: Unit) -> (r: u32)
    ensures
        r == approx_days(count, unit),
{
    let k: u32 = match unit {
        Unit::Day => 1,
        Unit::Week => 7,
        Unit::Month => 30,
        Unit::Year => 365,
    };
    match count.checked_mul(k) {
        Some(v) => v,
        None => u32::MAX,
    }
}

/// The base a token opens with, and what follows it.
pub open spec fn split_base(t: Seq<char>) -> Option<(Base, Seq<char>)> {
    if t.len() >= 2 && t[0] == '.' && t[1] == '+' {
        Some((Base::Completion, t.skip(2)))
    } else if t.len() >= 2 && t[0] == '+' && t[1] == '+' {
        Some((Base::StampCatchUp, t.skip(2)))
    } else if t.len() >= 1 && t[0] == '+' {
        Some((Base::Stamp, t.skip(1)))
    } else {
        None
    }
}

/// A count and a unit: at least one digit, a nonzero value that fits a `u32`,
/// and one of `d w m y` last.
pub open spec fn parse_amount_text(s: Seq<char>) -> Option<(u32, Unit)> {
    if s.len() == 0 {
        None
    } else {
        match unit_from_char(s.last()) {
            None => None,
            Some(u) => {
                let digits = s.drop_last();
                if digits.len() > 0 && all_digits(digits) && 0 < digits_value(digits) <= u32::MAX {
                    Some((digits_value(digits) as u32, u))
                } else {
                    None
                }
            },
        }
    }
}

/// The repeater a token spells, if it spells one.
pub open spec fn parse_repeater(t: Seq<char>) -> Option<Repeater> {
    match split_base(t) {
        None => None,
        Some((base, rest)) => {
            let min_part = match find(rest, seq!['/']) {
                Some(i) => rest.take(i),
                None => rest,
            };
            match parse_amount_text(min_part) {
                None => None,
                Some((count, unit)) => match find(rest, seq!['/']) {
                    None => Some(Repeater { base, count, unit, max: None }),
                    Some(i) => match parse_amount_text(rest.skip(i + 1)) {
                        None => None,
                        Some(m) => Some(Repeater { base, count, unit, max: Some(m) }),
                    },
                },
            }
        },
    }
}

/// Parse a repeater token (`+1d`, `++2w`, `.+1d/3d`). `None` if it is not one.
pub fn parse(token: &str) -> (r: Option<Repeater>)
    ensures
        r == parse_repeater(token@),
{
    let t = chars_of(token);
    let n = t.len();
    let (base, start) = if n >= 2 && t[0] == '.' && t[1] == '+' {
        (Base::Completion, 2)
    } else if n >= 2 && t[0] == '+' && t[1] == '+' {
        (Base::StampCatchUp, 2)
    } else if n >= 1 && t[0] == '+' {
        (Base::Stamp, 1)
    } else {
        return None;
    };
    let ghost rest = t@.subrange(start as int, n as int);
    assert(rest == t@.skip(start as int));
    let slash = ['/'];
    assert(slash@ == seq!['/']);
    match find_in(t.as_slice(), start, n, &slash) {
        None => {
            let (count, unit) = parse_amount(t.as_slice(), start, n)?;
            Some(Repeater { base, count, unit, max: None })
        },
        Some(i) => {
            assert(rest.take(i - start) == t@.subrange(start as int, i as int));
            assert(rest.skip(i - start + 1) == t@.subrange(i + 1, n as int));
            let (count, unit) = parse_amount(t.as_slice(), start, i)?;
            let m = parse_amount(t.as_slice(), i + 1, n)?;
            Some(Repeater { base, count, unit, max: Some(m) })
        },
    }
}

fn parse_amount(s: &[char], lo: usize, hi: usize) -> (r: Option<(u32, Unit)>)
    requires
        lo <= hi <= s@.len(),
    ensures
        r == parse_amount_text(s@.subrange(lo as int, hi as int)),
{
    let ghost a = s@.subrange(lo as int, hi as int);
    if lo == hi {
        return None;
    }
    let unit = Unit::parse(s[hi - 1])?;
    assert(a.drop_last() == s@.subrange(lo as int, hi - 1));
    if lo == hi - 1 || !all_digits_in(s, lo, hi - 1) {
        return None;
    }
    let count = parse_u32_in(s, lo, hi - 1)?;
    proof {
        let d = a.drop_last();
        assert(d[0] != '+') by {
            assert(is_digit(d[0]));
        }
    }
    if count == 0 {
        return None;
    }
    Some((count, unit))
}

/// Rendering and re-parsing a repeater gives it back.
#[verifier::rlimit(30)]
pub proof fn lemma_render_then_parse(r: Repeater)
    requires
        r.count > 0,
        r.max matches Some((n, _)) ==> n > 0,
    ensures
        parse_repeater(repeater_text(r)) == Some(r),
{
    let t = repeater_text(r);
    let b = base_text(r.base);
    let a = amount_text(r.count, r.unit);
    lemma_decimal_digits(r.count as nat);
    let tail = match r.max {
        Some((n, u)) => seq!['/'] + amount_text(n, u),
        None => Seq::<char>::empty(),
    };
    assert(t == b + a + tail);
    assert(is_digit(a[0]));
    let rest = a + tail;
    assert(split_base(t) == Some((r.base, rest))) by {
        assert(t.skip(b.len() as int) =~= rest);
    }
    assert forall|j: int| 0 <= j < a.len() implies !matches_at(rest, seq!['/'], j) by {
        assert(rest.subrange(j, j + 1)[0] == a[j]);
        if j < a.len() - 1 {
            assert(a[j] == decimal(r.count as nat)[j]);
            assert(is_digit(a[j]));
        }
    }
    assert(a.drop_last() == decimal(r.count as nat));
    match r.max {
        Some((n, u)) => {
            lemma_decimal_digits(n as nat);
            assert(matches_at(rest, seq!['/'], a.len() as int)) by {
                assert(rest.subrange(a.len() as int, a.len() + 1int) =~= seq!['/']);
            }
            assert(first_match(rest, seq!['/'], a.len() as int));
            lemma_find_is(rest, seq!['/'], a.len() as int);
            assert(rest.take(a.len() as int) =~= a);
            assert(rest.skip(a.len() + 1int) =~= amount_text(n, u));
            assert(amount_text(n, u).drop_last() == decimal(n as nat));
        },
        None => {
            assert(rest =~= a);
            assert forall|j: int| 0 <= j implies !matches_at(rest, seq!['/'], j) by {
                if j < a.len() {
                }
            }
        },
    }
}

/// No count in the token is written with a leading zero.
pub open spec fn counts_unpadded(t: Seq<char>) -> bool {
    match split_base(t) {
        None => true,
        Some((_, rest)) => match find(rest, seq!['/']) {
            None => rest.len() > 0 ==> rest[0] != '0',
            Some(i) => (i > 0 ==> rest[0] != '0') && (i + 1 < rest.len() ==> rest[i + 1] != '0'),
        },
    }
}

/// An amount read with no leading zero is written back the same.
proof fn lemma_amount_back(s: Seq<char>)
    requires
        parse_amount_text(s) is Some,
        s[0] != '0',
    ensures
        match parse_amount_text(s) {
            Some((n, u)) => amount_text(n, u) == s,
            None => true,
        },
{
    let digits = s.drop_last();
    assert(digits[0] == s[0]);
    crate::text::lemma_decimal_of_digits(digits);
    let (n, u) = parse_amount_text(s)->0;
    assert(unit_char(u) == s.last());
    assert(amount_text(n, u) =~= digits.push(s.last()));
    assert(digits.push(s.last()) =~= s);
}

/// A token that reads as a repeater, its counts written without leading
/// zeros, is what that repeater renders to: the round trip is
/// byte-identical from the text side too.
#[verifier::rlimit(30)]
pub proof fn lemma_parse_then_render(t: Seq<char>)
    requires
        parse_repeater(t) is Some,
        counts_unpadded(t),
    ensures
        repeater_text(parse_repeater(t)->0) == t,
{
    let r = parse_repeater(t)->0;
    let (base, rest) = split_base(t)->0;
    let k: int = if base == Base::Stamp { 1 } else { 2 };
    assert(t.take(k) =~= base_text(base));
    assert(t =~= t.take(k) + rest);
    crate::text::lemma_find_some(rest, seq!['/']);
    match find(rest, seq!['/']) {
        None => {
            lemma_amount_back(rest);
            assert(repeater_text(r) =~= base_text(base) + rest);
        },
        Some(i) => {
            let min_part = rest.take(i);
            let max_part = rest.skip(i + 1);
            lemma_amount_back(min_part);
            lemma_amount_back(max_part);
            assert(rest.subrange(i, i + 1)[0] == rest[i]);
            assert(rest =~= min_part + seq!['/'] + max_part);
            assert(repeater_text(r) =~= base_text(base) + min_part + (seq!['/'] + max_part));
        },
    }
}

// ── dates ──

pub open spec fn is_leap(year: int) -> bool {
    is_leap_year(year)
}

/// `date` plus `n` days, as a valid date.
pub open spec fn date_plus_days(d: Date, n: int) -> Date {
    date_of_day_number(day_number(d) + n)
}

/// `date` moved by `months` months, its day clamped into the target month.
pub open spec fn date_plus_months(d: Date, months: int) -> Date {
    let total = d.year * 12 + (d.month - 1) + months;
    let year = total / 12;
    let month = total % 12 + 1;
    let len = month_length(year, month);
    Date { year: year as i32, month: month as u32, day: (if d.day <= len { d.day as int } else { len }) as u32 }
}

/// Whether moving `d` by `months` months still has a year an `i32` holds.
pub open spec fn months_fit(d: Date, months: int) -> bool {
    let total = d.year * 12 + (d.month - 1) + months;
    i32::MIN <= total / 12 <= i32::MAX
}

pub open spec fn shift_date(d: Date, count: u32, unit: Unit) -> Date {
    match unit {
        Unit::Day => date_plus_days(d, count as int),
        Unit::Week => date_plus_days(d, count * 7),
        Unit::Month => date_plus_months(d, count as int),
        Unit::Year => date_plus_months(d, count * 12),
    }
}

/// Whether the shift lands on a date whose year an `i32` holds.
pub open spec fn shift_fits(d: Date, count: u32, unit: Unit) -> bool {
    match unit {
        Unit::Day => in_day_range(day_number(d) + count),
        Unit::Week => in_day_range(day_number(d) + count * 7),
        Unit::Month => months_fit(d, count as int),
        Unit::Year => months_fit(d, count * 12),
    }
}

/// The `++` walk: shift until past `today`, at most `remaining` more times.
pub open spec fn catch_up(d: Date, count: u32, unit: Unit, today: Date, remaining: nat) -> Date
    decreases remaining,
{
    if date_after(d, today) || remaining == 0 {
        d
    } else {
        catch_up(shift_date(d, count, unit), count, unit, today, (remaining - 1) as nat)
    }
}

/// Every shift the `++` walk makes fits.
pub open spec fn catch_up_fits(d: Date, count: u32, unit: Unit, today: Date, remaining: nat) -> bool
    decreases remaining,
{
    date_after(d, today) || remaining == 0 || (shift_fits(d, count, unit) && catch_up_fits(
        shift_date(d, count, unit),
        count,
        unit,
        today,
        (remaining - 1) as nat,
    ))
}

/// The most further shifts `++` makes after the first.
pub open spec fn catch_up_limit() -> nat {
    4096
}

pub open spec fn next_date_fits(rep: Repeater, stamp: Date, today: Date) -> bool {
    match rep.base {
        Base::Completion => shift_fits(today, rep.count, rep.unit),
        Base::Stamp => shift_fits(stamp, rep.count, rep.unit),
        Base::StampCatchUp => shift_fits(stamp, rep.count, rep.unit) && catch_up_fits(
            shift_date(stamp, rep.count, rep.unit),
            rep.count,
            rep.unit,
            today,
            catch_up_limit(),
        ),
    }
}

pub open spec fn next_date_of(rep: Repeater, stamp: Date, today: Date) -> Date {
    match rep.base {
        Base::Completion => shift_date(today, rep.count, rep.unit),
        Base::Stamp => shift_date(stamp, rep.count, rep.unit),
        Base::StampCatchUp => catch_up(
            shift_date(stamp, rep.count, rep.unit),
            rep.count,
            rep.unit,
            today,
            catch_up_limit(),
        ),
    }
}

/// Where a repeating task's timestamp goes when it is completed on `today`;
/// `stamp` is the date on the line now.
///
/// `++` is bounded: after the first shift it shifts at most 4096 more times, and
/// past that the last date computed is the answer rather than a hang.
pub fn next_date(rep: &Repeater, stamp: Date, today: Date) -> (r: Date)
    requires
        next_date_fits(*rep, stamp, today),
    ensures
        r == next_date_of(*rep, stamp, today),
{
    match rep.base {
        Base::Completion => shift(today, rep.count, rep.unit),
        Base::Stamp => shift(stamp, rep.count, rep.unit),
        Base::StampCatchUp => {
            let mut d = shift(stamp, rep.count, rep.unit);
            let mut guard: u32 = 0;
            while !is_after(d, today) && guard < 4096
                invariant
                    guard <= 4096,
                    catch_up_fits(d, rep.count, rep.unit, today, (4096 - guard) as nat),
                    catch_up(d, rep.count, rep.unit, today, (4096 - guard) as nat) == next_date_of(
                        *rep,
                        stamp,
                        today,
                    ),
                    rep.base == Base::StampCatchUp,
                decreases 4096 - guard,
            {
                d = shift(d, rep.count, rep.unit);
                guard += 1;
            }
            d
        },
    }
}

fn is_after(a: Date, b: Date) -> (r: bool)
    ensures
        r == date_after(a, b),
{
    a.year > b.year || (a.year == b.year && a.month > b.month) || (a.year == b.year && a.month
        == b.month && a.day > b.day)
}

/// Advance `date` by `count` units, clamping the day into the target month:
/// 31 January plus one month is 28 February.
pub fn shift(date: Date, count: u32, unit: Unit) -> (r: Date)
    requires
        shift_fits(date, count, unit),
    ensures
        r == shift_date(date, count, unit),
{
    match unit {
        Unit::Day => add_days(date, count as i64),
        Unit::Week => add_days(date, count as i64 * 7),
        Unit::Month => add_months(date, count as i64),
        Unit::Year => add_months(date, count as i64 * 12),
    }
}

pub(crate) fn add_months(date: Date, months: i64) -> (r: Date)
    requires
        -2_000_000_000_000 <= months <= 2_000_000_000_000,
        months_fit(date, months as int),
    ensures
        r == date_plus_months(date, months as int),
{
    let total = (date.year as i64) * 12 + (date.month as i64 - 1) + months;
    let year: i64 = if total >= 0 { total } else { total - 11 } / 12;
    let month = (total - year * 12 + 1) as u32;
    proof {
        lemma_fundamental_div_mod(total as int, 12);
    }
    let len = days_in_month(year as i32, month);
    let day = if date.day <= len { date.day } else { len };
    Date { year: year as i32, month, day }
}

/// Whether moving `date` by `months` months keeps the year in an `i32`.
pub(crate) fn months_fit_exec(date: Date, months: i64) -> (r: bool)
    requires
        -2_000_000_000_000 <= months <= 2_000_000_000_000,
    ensures
        r == months_fit(date, months as int),
{
    let total = (date.year as i64) * 12 + (date.month as i64 - 1) + months;
    let year: i64 = if total >= 0 { total } else { total - 11 } / 12;
    -2147483648 <= year && year <= 2147483647
}

pub(crate) fn days_in_month(year: i32, month: u32) -> (r: u32)
    ensures
        r == month_length(year as int, month as int),
{
    if month == 1 || month == 3 || month == 5 || month == 7 || month == 8 || month == 10
        || month == 12 {
        31
    } else if month == 4 || month == 6 || month == 9 || month == 11 {
        30
    } else if month == 2 {
        if is_leap_exec(year) { 29 } else { 28 }
    } else {
        30
    }
}

#[verifier::spinoff_prover]
#[verifier::rlimit(30)]
fn is_leap_exec(year: i32) -> (r: bool)
    ensures
        r == is_leap(year as int),
{
    (year % 4 == 0 && year % 100 != 0) || year % 400 == 0
}

/// Civil-date arithmetic through the day number, so month and year rollover
/// is the conversion's problem rather than a chain of carries.
pub fn add_days(date: Date, days: i64) -> (r: Date)
    requires
        -2_000_000_000_000 <= days <= 2_000_000_000_000,
        in_day_range(day_number(date) + days),
    ensures
        is_valid_date(r),
        day_number(r) == day_number(date) + days,
        r == date_plus_days(date, days as int),
{
    proof {
        lemma_date_of_day_number(day_number(date) + days);
    }
    let z = to_days(date);
    from_days(z + days)
}


/// `.+` counts from the day the task is completed, whatever the stamp said;
/// `+` and `++` count from the stamp. Completed late, `+` keeps the cadence
/// and `.+` restarts from today.
pub proof fn lemma_bases_count_from(rep: Repeater, stamp: Date, other_stamp: Date, today: Date, other_today: Date)
    ensures
        rep.base == Base::Completion ==> next_date_of(rep, stamp, today) == next_date_of(rep, other_stamp, today),
        rep.base == Base::Stamp ==> next_date_of(rep, stamp, today) == next_date_of(rep, stamp, other_today),
{
}

/// `++` on a stamp whose first shift is already past today shifts exactly
/// once: there is nothing to catch up.
pub proof fn lemma_catch_up_on_a_future_stamp(rep: Repeater, stamp: Date, today: Date)
    requires
        rep.base == Base::StampCatchUp,
        date_after(shift_date(stamp, rep.count, rep.unit), today),
    ensures
        next_date_of(rep, stamp, today) == shift_date(stamp, rep.count, rep.unit),
{
}

/// `d` shifted `k` times by `count` units.
pub open spec fn shifted(d: Date, count: u32, unit: Unit, k: nat) -> Date
    decreases k,
{
    if k == 0 {
        d
    } else {
        shift_date(shifted(d, count, unit, (k - 1) as nat), count, unit)
    }
}

proof fn lemma_catch_up_reaches(stamp: Date, count: u32, unit: Unit, today: Date, j: nat, k: nat)
    requires
        1 <= j <= k <= catch_up_limit() + 1,
        date_after(shifted(stamp, count, unit, k), today) || k == catch_up_limit() + 1,
        forall|i: nat| j <= i < k ==> !date_after(#[trigger] shifted(stamp, count, unit, i), today),
    ensures
        catch_up(shifted(stamp, count, unit, j), count, unit, today, (catch_up_limit() + 1 - j) as nat)
            == shifted(stamp, count, unit, k),
    decreases k - j,
{
    if j < k {
        assert(!date_after(shifted(stamp, count, unit, j), today));
        lemma_catch_up_reaches(stamp, count, unit, today, j + 1, k);
        assert(shifted(stamp, count, unit, j + 1) == shift_date(shifted(stamp, count, unit, j), count, unit));
    }
}

/// `++` lands on the first shifted date strictly after today: the least `k`
/// from 1 to 4097 whose `k`-th shift of the stamp is past today, or the
/// 4097th shift when none of them is.
pub proof fn lemma_catch_up_is_first_after(rep: Repeater, stamp: Date, today: Date, k: nat)
    requires
        rep.base == Base::StampCatchUp,
        1 <= k <= catch_up_limit() + 1,
        date_after(shifted(stamp, rep.count, rep.unit, k), today) || k == catch_up_limit() + 1,
        forall|i: nat| 1 <= i < k ==> !date_after(#[trigger] shifted(stamp, rep.count, rep.unit, i), today),
    ensures
        next_date_of(rep, stamp, today) == shifted(stamp, rep.count, rep.unit, k),
{
    lemma_catch_up_reaches(stamp, rep.count, rep.unit, today, 1, k);
    assert(shifted(stamp, rep.count, rep.unit, 1) == shift_date(stamp, rep.count, rep.unit)) by {
        assert(shifted(stamp, rep.count, rep.unit, 0) == stamp);
    }
}

} // verus!
