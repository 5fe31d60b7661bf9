//! The planning line under a headline.
//!
//! ```text
//!   * TODO write the thing
//!     DEADLINE: <2026-09-10 Thu> SCHEDULED: <2026-09-03 Thu>
//! ```
//!
//! One line holds every field, because org reads only the first line after a
//! headline as planning: a second line would silently become body text. So a
//! write parses the whole line, changes one field and renders the whole line,
//! and removing the last field removes the line.
//!
//! Fields render in `CLOSED DEADLINE SCHEDULED` order. `CLOSED` is read and
//! kept, never set here.
use vstd::prelude::*;

use crate::org_date::{plan_of_text, prompt_input_ok, stamp_text, today_ok, Date};
use crate::text::{
    byte_len, byte_len_in, chars_of, lemma_byte_len_monotone, extend_chars, find, find_in, leading_ws, lemma_leading_ws_bound,
    is_ws, matches_at, skip_ws, starts_with_at, string_of, trim, trim_range, trim_start,
};

verus! {

/// The stamps a planning line carries, each as the raw text of its `<…>` or
/// `[…]`: what a stamp means is org's, and putting one back where it was found
/// needs no more than its text.
#[derive(Debug, Clone, PartialEq, Eq)]
pub struct Planning {
    pub closed: Option<String>,
    pub deadline: Option<String>,
    pub scheduled: Option<String>,
}

/// Which field a key sets.
#[derive(Debug, Clone, Copy, PartialEq, Eq, Structural)]
pub enum Field {
    Scheduled,
    Deadline,
}

/// What a write to the planning line turns into.
#[derive(Debug, Clone, PartialEq, Eq)]
pub enum PlanEdit {
    /// Rewrite the planning line at `line`, whose current length is `len`.
    Replace { line: u32, len: u32, text: String },
    /// There is no planning line; add one below the headline at `line`.
    Insert { line: u32, text: String },
    /// The last field went away, so the line goes with it. `len` is its
    /// current length; the delete spans to the start of the next line.
    Delete { line: u32, len: u32 },
    /// Nothing to do.
    Nothing,
}

/// A planning line's fields as text: `(closed, deadline, scheduled)`.
pub type Stamps = (Option<Seq<char>>, Option<Seq<char>>, Option<Seq<char>>);

pub open spec fn opt_view(o: Option<String>) -> Option<Seq<char>> {
    match o {
        Some(s) => Some(s@),
        None => None,
    }
}

pub open spec fn stamps_of(p: Planning) -> Stamps {
    (opt_view(p.closed), opt_view(p.deadline), opt_view(p.scheduled))
}

pub open spec fn field_value(p: Stamps, field: Field) -> Option<Seq<char>> {
    match field {
        Field::Scheduled => p.2,
        Field::Deadline => p.1,
    }
}

pub open spec fn with_field(p: Stamps, field: Field, v: Option<Seq<char>>) -> Stamps {
    match field {
        Field::Scheduled => (p.0, p.1, v),
        Field::Deadline => (p.0, v, p.2),
    }
}

pub open spec fn no_stamps() -> Stamps {
    (None, None, None)
}

/// `KEYWORD: stamp`, or nothing for an absent field.
pub open spec fn part_text(kw: Seq<char>, v: Option<Seq<char>>) -> Seq<char> {
    match v {
        Some(s) => kw + seq![' '] + s,
        None => Seq::<char>::empty(),
    }
}

/// Two pieces joined by one space, an empty piece dropping out.
pub open spec fn join_space(a: Seq<char>, b: Seq<char>) -> Seq<char> {
    if a.len() == 0 {
        b
    } else if b.len() == 0 {
        a
    } else {
        a + seq![' '] + b
    }
}

/// The planning line for `p` at `indent` spaces, or `None` when every field is
/// absent.
pub open spec fn planning_text(p: Stamps, indent: nat) -> Option<Seq<char>> {
    if p.0 is None && p.1 is None && p.2 is None {
        None
    } else {
        Some(Seq::new(indent, |i: int| ' ') + join_space(
            join_space(part_text("CLOSED:"@, p.0), part_text("DEADLINE:"@, p.1)),
            part_text("SCHEDULED:"@, p.2),
        ))
    }
}

impl Planning {
    pub fn get(&self, field: Field) -> (r: Option<&String>)
        ensures
            r is Some == (field_value(stamps_of(*self), field) is Some),
            r is Some ==> field_value(stamps_of(*self), field) == Some(r->0@),
    {
        match field {
            Field::Scheduled => self.scheduled.as_ref(),
            Field::Deadline => self.deadline.as_ref(),
        }
    }

    fn set(&mut self, field: Field, value: Option<String>)
        ensures
            stamps_of(*final(self)) == with_field(stamps_of(*old(self)), field, opt_view(value)),
    {
        match field {
            Field::Scheduled => self.scheduled = value,
            Field::Deadline => self.deadline = value,
        }
    }

    fn is_empty(&self) -> (b: bool)
        ensures
            b == (self.closed is None && self.deadline is None && self.scheduled is None),
    {
        self.closed.is_none() && self.deadline.is_none() && self.scheduled.is_none()
    }

    /// The line this planning renders to, at `indent` spaces. `None` when there
    /// is nothing left to write — the caller deletes the line.
    pub fn render(&self, indent: usize) -> (r: Option<String>)
        ensures
            match r {
                Some(s) => planning_text(stamps_of(*self), indent as nat) == Some(s@),
                None => planning_text(stamps_of(*self), indent as nat) is None,
            },
    {
        if self.is_empty() {
            return None;
        }
        let mut out: Vec<char> = Vec::new();
        let mut k: usize = 0;
        while k < indent
            invariant
                k <= indent,
                out@ == Seq::new(k as nat, |i: int| ' '),
            decreases indent - k,
        {
            out.push(' ');
            k += 1;
            assert(out@ =~= Seq::new(k as nat, |i: int| ' '));
        }
        let ghost pad = out@;
        let c = part(&self.closed, "CLOSED:");
        let d = part(&self.deadline, "DEADLINE:");
        let s = part(&self.scheduled, "SCHEDULED:");
        let cd = join(c, d);
        let body = join(cd, s);
        extend_chars(&mut out, body.as_slice());
        Some(string_of(out.as_slice()))
    }
}

fn part(v: &Option<String>, kw: &str) -> (r: Vec<char>)
    ensures
        r@ == part_text(kw@, opt_view(*v)),
{
    match v {
        Some(s) => {
            let mut out = chars_of(kw);
            out.push(' ');
            let sv = chars_of(s.as_str());
            extend_chars(&mut out, sv.as_slice());
            out
        },
        None => Vec::new(),
    }
}

fn join(a: Vec<char>, b: Vec<char>) -> (r: Vec<char>)
    ensures
        r@ == join_space(a@, b@),
{
    if a.len() == 0 {
        b
    } else if b.len() == 0 {
        a
    } else {
        let mut out = a;
        out.push(' ');
        extend_chars(&mut out, b.as_slice());
        out
    }
}

impl Default for Planning {
    fn default() -> (r: Planning)
        ensures
            r.closed is None && r.deadline is None && r.scheduled is None,
    {
        Planning { closed: None, deadline: None, scheduled: None }
    }
}


/// The planning keyword `rest` opens with — 0 for `CLOSED:`, 1 for
/// `DEADLINE:`, 2 for `SCHEDULED:` — and what follows it.
pub open spec fn keyword_at(rest: Seq<char>) -> Option<(int, Seq<char>)> {
    if matches_at(rest, "CLOSED:"@, 0) {
        Some((0, rest.skip("CLOSED:"@.len() as int)))
    } else if matches_at(rest, "DEADLINE:"@, 0) {
        Some((1, rest.skip("DEADLINE:"@.len() as int)))
    } else if matches_at(rest, "SCHEDULED:"@, 0) {
        Some((2, rest.skip("SCHEDULED:"@.len() as int)))
    } else {
        None
    }
}

/// One `<…>` or `[…]` stamp after optional whitespace: the stamp, and what
/// follows it.
pub open spec fn take_stamp_text(rest: Seq<char>) -> Option<(Seq<char>, Seq<char>)> {
    let t = trim_start(rest);
    if t.len() == 0 || !(t[0] == '<' || t[0] == '[') {
        None
    } else {
        let close = if t[0] == '<' { '>' } else { ']' };
        match find(t, seq![close]) {
            None => None,
            Some(e) => Some((t.take(e + 1), t.skip(e + 1))),
        }
    }
}

/// The field `which` takes `stamp` unless it already has one: of a repeated
/// keyword, the first wins.
pub open spec fn first_wins(acc: Stamps, which: int, stamp: Seq<char>) -> Stamps {
    if which == 0 {
        (if acc.0 is None { Some(stamp) } else { acc.0 }, acc.1, acc.2)
    } else if which == 1 {
        (acc.0, if acc.1 is None { Some(stamp) } else { acc.1 }, acc.2)
    } else {
        (acc.0, acc.1, if acc.2 is None { Some(stamp) } else { acc.2 })
    }
}

/// Read keyword-and-stamp pairs until `rest` is used up; `None` as soon as
/// anything else turns up.
pub open spec fn planning_steps(rest: Seq<char>, acc: Stamps) -> Option<Stamps>
    decreases rest.len(),
{
    if rest.len() == 0 {
        Some(acc)
    } else {
        match keyword_at(rest) {
            None => None,
            Some((which, after)) => match take_stamp_text(after) {
                None => None,
                Some((stamp, tail)) => {
                    proof {
                        lemma_leading_ws_bound(after);
                        lemma_leading_ws_bound(tail);
                    }
                    if tail.len() < rest.len() {
                        planning_steps(trim_start(tail), first_wins(acc, which, stamp))
                    } else {
                        None
                    }
                },
            },
        }
    }
}

/// A line that is nothing but planning keywords and their stamps. A body line
/// that merely mentions `SCHEDULED:` is not one.
pub open spec fn parse_planning(line: Seq<char>) -> Option<Stamps> {
    let body = trim(line);
    if body.len() == 0 {
        None
    } else {
        planning_steps(body, no_stamps())
    }
}

/// The keyword at `s[lo..hi]`, as `planning_steps` reads it.
fn keyword_at_exec(s: &[char], lo: usize, hi: usize) -> (r: Option<(u8, usize)>)
    requires
        lo <= hi <= s@.len(),
    ensures
        match r {
            Some((which, after)) => lo <= after <= hi && keyword_at(s@.subrange(lo as int, hi as int))
                == Some((which as int, s@.subrange(after as int, hi as int))),
            None => keyword_at(s@.subrange(lo as int, hi as int)) is None,
        },
{
    let ghost rest = s@.subrange(lo as int, hi as int);
    let c = chars_of("CLOSED:");
    let d = chars_of("DEADLINE:");
    let sc = chars_of("SCHEDULED:");
    if starts_with_at(s, lo, hi, c.as_slice()) {
        assert(rest.skip(c@.len() as int) == s@.subrange(lo + c@.len(), hi as int));
        Some((0, lo + c.len()))
    } else if starts_with_at(s, lo, hi, d.as_slice()) {
        assert(rest.skip(d@.len() as int) == s@.subrange(lo + d@.len(), hi as int));
        Some((1, lo + d.len()))
    } else if starts_with_at(s, lo, hi, sc.as_slice()) {
        assert(rest.skip(sc@.len() as int) == s@.subrange(lo + sc@.len(), hi as int));
        Some((2, lo + sc.len()))
    } else {
        None
    }
}

/// Take one `<...>` or `[...]` stamp off the front of `s[lo..hi]`: the stamp's
/// bounds. `None` for a keyword with no stamp after it.
fn take_stamp(s: &[char], lo: usize, hi: usize) -> (r: Option<(usize, usize)>)
    requires
        lo <= hi <= s@.len(),
    ensures
        match r {
            Some((a, b)) => lo <= a < b <= hi && take_stamp_text(s@.subrange(lo as int, hi as int))
                == Some((s@.subrange(a as int, b as int), s@.subrange(b as int, hi as int))),
            None => take_stamp_text(s@.subrange(lo as int, hi as int)) is None,
        },
{
    let ghost rest = s@.subrange(lo as int, hi as int);
    let a = skip_ws(s, lo, hi);
    let ghost t = s@.subrange(a as int, hi as int);
    assert(trim_start(rest) == t);
    if a == hi {
        return None;
    }
    let close = if s[a] == '<' {
        '>'
    } else if s[a] == '[' {
        ']'
    } else {
        return None;
    };
    let pat = [close];
    assert(pat@ == seq![close]);
    match find_in(s, a, hi, &pat) {
        None => None,
        Some(e) => {
            assert(t.take(e - a + 1) == s@.subrange(a as int, e + 1));
            assert(t.skip(e - a + 1) == s@.subrange(e + 1, hi as int));
            Some((a, e + 1))
        },
    }
}

/// Read a planning line, or `None` if `line` is not one.
///
/// The strictness matters in one direction: prose that merely mentions
/// `SCHEDULED:` must not be mistaken for planning and rewritten. Being too
/// strict costs an insert of a fresh line; being too loose eats text.
pub fn parse(line: &str) -> (r: Option<Planning>)
    ensures
        match r {
            Some(p) => parse_planning(line@) == Some(stamps_of(p)),
            None => parse_planning(line@) is None,
        },
{
    let s = chars_of(line);
    let n = s.len();
    assert(s@.subrange(0, n as int) == s@);
    let (lo, hi) = trim_range(&s, 0, n);
    if lo == hi {
        return None;
    }
    let mut out = Planning { closed: None, deadline: None, scheduled: None };
    let mut pos = lo;
    while pos < hi
        invariant
            lo <= pos <= hi <= s@.len(),
            parse_planning(line@) == planning_steps(s@.subrange(pos as int, hi as int), stamps_of(out)),
        decreases hi - pos,
    {
        let ghost rest = s@.subrange(pos as int, hi as int);
        let (which, after) = match keyword_at_exec(&s, pos, hi) {
            Some(k) => k,
            None => {
                return None;
            },
        };
        let (a, b) = match take_stamp(&s, after, hi) {
            Some(st) => st,
            None => {
                return None;
            },
        };
        let stamp = string_of(&s.as_slice()[a..b]);
        let ghost before = stamps_of(out);
        if which == 0 {
            if out.closed.is_none() {
                out.closed = Some(stamp);
            }
        } else if which == 1 {
            if out.deadline.is_none() {
                out.deadline = Some(stamp);
            }
        } else {
            if out.scheduled.is_none() {
                out.scheduled = Some(stamp);
            }
        }
        assert(stamps_of(out) == first_wins(before, which as int, s@.subrange(a as int, b as int)));
        let next = skip_ws(&s, b, hi);
        assert(trim_start(s@.subrange(b as int, hi as int)) == s@.subrange(next as int, hi as int));
        pos = next;
    }
    assert(s@.subrange(pos as int, hi as int).len() == 0);
    Some(out)
}


/// The UTF-8 length of the whitespace `line` opens with — what the planning
/// line is re-indented by.
pub open spec fn indent_bytes(line: Seq<char>) -> nat {
    byte_len(line.take(leading_ws(line) as int))
}

/// What setting `field` to `value` does to the headline at `headline`, whose
/// next line is `next`.
pub open spec fn plan_edit_is(
    r: PlanEdit,
    headline: u32,
    next: Option<Seq<char>>,
    field: Field,
    value: Option<Seq<char>>,
) -> bool {
    let parsed = match next {
        Some(l) => parse_planning(l),
        None => None,
    };
    match parsed {
        Some(p) => {
            let l = next->0;
            if field_value(p, field) == value {
                r is Nothing
            } else {
                match planning_text(with_field(p, field, value), indent_bytes(l)) {
                    Some(t) => r matches PlanEdit::Replace { line, len, text } && line == headline
                        + 1 && len == byte_len(l) && text@ == t,
                    None => r matches PlanEdit::Delete { line, len } && line == headline + 1 && len
                        == byte_len(l),
                }
            }
        },
        None => match value {
            None => r is Nothing,
            Some(v) => match planning_text(with_field(no_stamps(), field, Some(v)), 0) {
                Some(t) => r matches PlanEdit::Insert { line, text } && line == headline + 1 && text@
                    == t,
                None => r is Nothing,
            },
        },
    }
}

fn same_value(a: Option<&String>, b: &Option<String>) -> (r: bool)
    ensures
        r == (match a {
            Some(s) => Some(s@),
            None => None,
        } == opt_view(*b)),
{
    match (a, b) {
        (Some(x), Some(y)) => String::eq(x, y),
        (None, None) => true,
        _ => false,
    }
}

/// The edit that sets (or clears) `field` on the headline at `headline`.
///
/// `next` is the line below the headline — `None` at end of file. `value` is
/// the rendered stamp, or `None` to remove the field. An existing planning
/// line keeps its other fields and its indentation; setting what is already
/// there, or clearing what is not, is no edit at all.
pub fn plan_edit(headline: u32, next: Option<&str>, field: Field, value: Option<String>) -> (r: PlanEdit)
    requires
        headline < u32::MAX,
        next matches Some(l) ==> byte_len(l@) <= u32::MAX,
    ensures
        plan_edit_is(
            r,
            headline,
            match next {
                Some(l) => Some(l@),
                None => None,
            },
            field,
            opt_view(value),
        ),
{
    let parsed = match next {
        Some(l) => match parse(l) {
            Some(p) => Some((l, p)),
            None => None,
        },
        None => None,
    };
    match parsed {
        Some((line_text, mut existing)) => {
            if same_value(existing.get(field), &value) {
                return PlanEdit::Nothing;
            }
            existing.set(field, value);
            let t = chars_of(line_text);
            let n = t.len();
            assert(t@.subrange(0, n as int) == t@);
            let ws_end = skip_ws(&t, 0, n);
            proof {
                lemma_byte_len_monotone(t@, ws_end as int, n as int);
                assert(t@.take(n as int) == t@);
                assert(t@.subrange(0, ws_end as int) == t@.take(ws_end as int));
            }
            let indent = byte_len_in(&t, 0, ws_end);
            let len = byte_len_in(&t, 0, n);
            match existing.render(indent as usize) {
                Some(text) => PlanEdit::Replace { line: headline + 1, len, text },
                None => PlanEdit::Delete { line: headline + 1, len },
            }
        },
        None => match value {
            None => PlanEdit::Nothing,
            Some(v) => {
                let mut fresh = Planning { closed: None, deadline: None, scheduled: None };
                fresh.set(field, Some(v));
                match fresh.render(0) {
                    Some(text) => PlanEdit::Insert { line: headline + 1, text },
                    None => PlanEdit::Nothing,
                }
            },
        },
    }
}


/// A line that may be absent, as text.
pub open spec fn str_view(o: Option<&str>) -> Option<Seq<char>> {
    match o {
        Some(l) => Some(l@),
        None => None,
    }
}

/// What answering the date prompt writes.
#[derive(Debug, Clone, PartialEq, Eq)]
pub enum PlanWrite {
    /// Nothing to write.
    Nothing,
    /// A date the parser did not understand: the message to show.
    Refused(String),
    /// Lines `from..=to`, to byte `to_len` of line `to`, rewritten as `text`.
    Write { from: u32, to: u32, to_len: u32, text: String },
}

/// The value a typed answer sets: `None` for a blank answer — which removes
/// the field — the rendered stamp for a date, the parser's message otherwise.
pub open spec fn typed_value(typed: Seq<char>, today: Date) -> Result<Option<Seq<char>>, Seq<char>> {
    if trim(typed).len() == 0 {
        Ok(None)
    } else {
        match plan_of_text(typed, today) {
            Ok((date, repeater)) => Ok(Some(stamp_text(date, repeater))),
            Err(e) => Err(e),
        }
    }
}

/// The write a planning edit comes to, for the headline `head` at
/// `headline`. An insert rewrites the headline with the new line after it,
/// and a delete rewrites the headline and its planning line as the headline
/// alone: both stay correct at the end of the document, and a delete leaves
/// no blank line behind.
pub open spec fn write_of(w: PlanWrite, e: PlanEdit, headline: u32, head: Seq<char>) -> bool {
    match e {
        PlanEdit::Nothing => w is Nothing,
        PlanEdit::Replace { line, len, text } => w matches PlanWrite::Write { from, to, to_len, text: t }
            && from == line && to == line && to_len == len && t@ == text@,
        PlanEdit::Insert { text, .. } => w matches PlanWrite::Write { from, to, to_len, text: t } && from
            == headline && to == headline && to_len == byte_len(head) && t@ == head + seq!['\n'] + text@,
        PlanEdit::Delete { line, len } => w matches PlanWrite::Write { from, to, to_len, text: t } && from
            == headline && to == line && to_len == len && t@ == head,
    }
}

/// Answer the date prompt for `field` of the headline `head` at `headline`,
/// whose next line is `next`, with `typed`, read against `today`. A blank
/// answer removes the field; a date the parser refuses is reported rather
/// than swallowed.
pub fn plan_write(
    headline: u32,
    head: &str,
    next: Option<&str>,
    field: Field,
    typed: &str,
    today: Date,
) -> (w: PlanWrite)
    requires
        headline < u32::MAX,
        byte_len(head@) <= u32::MAX,
        next matches Some(l) ==> byte_len(l@) <= u32::MAX,
        today_ok(today),
        trim(typed@).len() > 0 ==> prompt_input_ok(typed@),
    ensures
        match typed_value(typed@, today) {
            Err(m) => w matches PlanWrite::Refused(e) && e@ == m,
            Ok(v) => exists|e: PlanEdit| #[trigger] plan_edit_is(e, headline, str_view(next), field, v) && write_of(
                w,
                e,
                headline,
                head@,
            ),
        },
{
    let value = match typed_stamp(typed, today) {
        Ok(v) => v,
        Err(message) => {
            return PlanWrite::Refused(message);
        },
    };
    let ghost v = opt_view(value);
    let edit = plan_edit(headline, next, field, value);
    assert(plan_edit_is(edit, headline, str_view(next), field, v));
    write_for(edit, headline, head)
}

/// The stamp a typed answer sets, `None` for a blank answer, or the parser's
/// message.
fn typed_stamp(typed: &str, today: Date) -> (r: Result<Option<String>, String>)
    requires
        today_ok(today),
        trim(typed@).len() > 0 ==> prompt_input_ok(typed@),
    ensures
        match typed_value(typed@, today) {
            Ok(v) => r matches Ok(s) && opt_view(s) == v,
            Err(m) => r matches Err(e) && e@ == m,
        },
{
    let t = chars_of(typed);
    let n = t.len();
    assert(t@.subrange(0, n as int) == t@);
    let (a, b) = trim_range(&t, 0, n);
    if a == b {
        Ok(None)
    } else {
        match crate::org_date::parse(typed, today) {
            Ok(plan) => Ok(Some(plan.render())),
            Err(message) => Err(message),
        }
    }
}

/// The write an edit of the planning line comes to.
fn write_for(edit: PlanEdit, headline: u32, head: &str) -> (w: PlanWrite)
    requires
        byte_len(head@) <= u32::MAX,
    ensures
        write_of(w, edit, headline, head@),
{
    let h = chars_of(head);
    assert(h@.subrange(0, h@.len() as int) == h@);
    match &edit {
        PlanEdit::Nothing => PlanWrite::Nothing,
        PlanEdit::Replace { line, len, text } => PlanWrite::Write {
            from: *line,
            to: *line,
            to_len: *len,
            text: crate::text::owned(text.as_str()),
        },
        PlanEdit::Insert { line: _, text } => {
            let mut out = chars_of(head);
            out.push('\n');
            let tc = chars_of(text.as_str());
            extend_chars(&mut out, tc.as_slice());
            assert(out@ =~= head@ + seq!['\n'] + text@);
            PlanWrite::Write {
                from: headline,
                to: headline,
                to_len: byte_len_in(&h, 0, h.len()),
                text: string_of(out.as_slice()),
            }
        },
        PlanEdit::Delete { line, len } => PlanWrite::Write {
            from: headline,
            to: *line,
            to_len: *len,
            text: string_of(h.as_slice()),
        },
    }
}

/// A stamp's bracket: `<`, `>`, `[` or `]`.
pub open spec fn bracket(c: char) -> bool {
    c == '<' || c == '>' || c == '[' || c == ']'
}

/// How many brackets `s` begins with.
pub open spec fn leading_brackets(s: Seq<char>) -> nat
    decreases s.len(),
{
    if s.len() > 0 && bracket(s[0]) { 1 + leading_brackets(s.drop_first()) } else { 0 }
}

/// How many brackets `s` ends with.
pub open spec fn trailing_brackets(s: Seq<char>) -> nat
    decreases s.len(),
{
    if s.len() > 0 && bracket(s.last()) { 1 + trailing_brackets(s.drop_last()) } else { 0 }
}

/// `s` without the brackets at either end.
pub open spec fn unbracketed(s: Seq<char>) -> Seq<char> {
    let t = s.skip(leading_brackets(s) as int);
    t.take(t.len() - trailing_brackets(t))
}

/// What the planning line `next` holds for `field`, without its brackets:
/// `<2026-09-03 Thu>` is what org writes, and a date prompt takes
/// `2026-09-03 Thu`. Empty when there is no planning line or no such field.
pub open spec fn existing_text(next: Option<Seq<char>>, field: Field) -> Seq<char> {
    match next {
        None => Seq::empty(),
        Some(l) => match parse_planning(l) {
            None => Seq::empty(),
            Some(st) => match field_value(st, field) {
                Some(v) => unbracketed(v),
                None => Seq::empty(),
            },
        },
    }
}

proof fn lemma_leading_brackets(s: Seq<char>, k: int)
    requires
        0 <= k <= s.len(),
        forall|i: int| 0 <= i < k ==> bracket(#[trigger] s[i]),
        k < s.len() ==> !bracket(s[k]),
    ensures
        leading_brackets(s) == k,
    decreases k,
{
    if k > 0 {
        assert forall|i: int| 0 <= i < k - 1 implies bracket(#[trigger] s.drop_first()[i]) by {
            assert(s.drop_first()[i] == s[i + 1]);
        }
        if k < s.len() {
            assert(s.drop_first()[k - 1] == s[k]);
        }
        lemma_leading_brackets(s.drop_first(), k - 1);
    }
}

proof fn lemma_trailing_brackets(s: Seq<char>, k: int)
    requires
        0 <= k <= s.len(),
        forall|i: int| k <= i < s.len() ==> bracket(#[trigger] s[i]),
        k > 0 ==> !bracket(s[k - 1]),
    ensures
        trailing_brackets(s) == s.len() - k,
    decreases s.len() - k,
{
    if k < s.len() {
        assert forall|i: int| k <= i < s.len() - 1 implies bracket(#[trigger] s.drop_last()[i]) by {
            assert(s.drop_last()[i] == s[i]);
        }
        if k > 0 {
            assert(s.drop_last()[k - 1] == s[k - 1]);
        }
        lemma_trailing_brackets(s.drop_last(), k);
    }
}

/// What is already on the planning line `next` for `field`, for a date
/// prompt to open pre-filled: retyping a date you can see is the difference
/// between changing a date and re-entering one.
pub fn existing_stamp(next: Option<&str>, field: Field) -> (r: String)
    ensures
        r@ == existing_text(match next { Some(l) => Some(l@), None => None }, field),
{
    let empty = String::new();
    let line = match next {
        None => return empty,
        Some(l) => l,
    };
    let p = match parse(line) {
        None => return empty,
        Some(p) => p,
    };
    let v = match p.get(field) {
        None => return empty,
        Some(v) => v,
    };
    let s = chars_of(v.as_str());
    let n = s.len();
    let mut a: usize = 0;
    while a < n && (s[a] == '<' || s[a] == '>' || s[a] == '[' || s[a] == ']')
        invariant
            a <= n == s@.len(),
            forall|i: int| 0 <= i < a ==> bracket(#[trigger] s@[i]),
        decreases n - a,
    {
        a += 1;
    }
    proof {
        lemma_leading_brackets(s@, a as int);
    }
    let mut b: usize = n;
    while b > a && (s[b - 1] == '<' || s[b - 1] == '>' || s[b - 1] == '[' || s[b - 1] == ']')
        invariant
            a <= b <= n == s@.len(),
            forall|i: int| b <= i < n ==> bracket(#[trigger] s@[i]),
        decreases b - a,
    {
        b -= 1;
    }
    proof {
        let t = s@.skip(a as int);
        assert forall|i: int| b - a <= i < t.len() implies bracket(#[trigger] t[i]) by {
            assert(t[i] == s@[a + i]);
        }
        if b > a {
            assert(t[b - a - 1] == s@[b - 1]);
        }
        lemma_trailing_brackets(t, b - a);
        assert(t.take(t.len() - trailing_brackets(t)) == s@.subrange(a as int, b as int));
    }
    string_of(&s.as_slice()[a..b])
}


// ── reading back what was written ──

/// A stamp as a planning line holds it: `<…>` or `[…]`, with its closing
/// bracket only at the end.
pub open spec fn clean_stamp(s: Seq<char>) -> bool {
    &&& s.len() >= 2
    &&& s[0] == '<' || s[0] == '['
    &&& s.last() == (if s[0] == '<' { '>' } else { ']' })
    &&& forall|i: int| 0 <= i < s.len() - 1 ==> #[trigger] s[i] != (if s[0] == '<' { '>' } else { ']' })
}

pub open spec fn clean_field(v: Option<Seq<char>>) -> bool {
    v matches Some(s) ==> clean_stamp(s)
}

/// Every stamp present is a clean one.
pub open spec fn clean_stamps(p: Stamps) -> bool {
    clean_field(p.0) && clean_field(p.1) && clean_field(p.2)
}

proof fn lemma_keyword_at(rest: Seq<char>)
    ensures
        keyword_at("CLOSED:"@ + rest) == Some((0int, rest)),
        keyword_at("DEADLINE:"@ + rest) == Some((1int, rest)),
        keyword_at("SCHEDULED:"@ + rest) == Some((2int, rest)),
{
    reveal_strlit("CLOSED:");
    reveal_strlit("DEADLINE:");
    reveal_strlit("SCHEDULED:");
    let c = "CLOSED:"@ + rest;
    let d = "DEADLINE:"@ + rest;
    let s = "SCHEDULED:"@ + rest;
    assert(c.subrange(0, 7) =~= "CLOSED:"@);
    assert(c.skip(7) =~= rest);
    assert(d.subrange(0, 9) =~= "DEADLINE:"@);
    assert(d.skip(9) =~= rest);
    assert(d.subrange(0, 7)[0] != "CLOSED:"@[0]);
    assert(s.subrange(0, 10) =~= "SCHEDULED:"@);
    assert(s.skip(10) =~= rest);
    assert(s.subrange(0, 7)[0] != "CLOSED:"@[0]);
    assert(s.subrange(0, 9)[0] != "DEADLINE:"@[0]);
}

/// One space before a word that does not open with whitespace is all
/// `trim_start` removes.
proof fn lemma_trim_one_space(x: Seq<char>)
    requires
        x.len() > 0,
        !is_ws(x[0]),
    ensures
        trim_start(seq![' '] + x) == x,
{
    let y = seq![' '] + x;
    assert(y[1] == x[0]);
    crate::text::lemma_leading_ws_at(y, 1);
    assert(y.skip(1) =~= x);
}

/// The keyword text of field `which`.
pub open spec fn keyword_text(which: int) -> Seq<char> {
    if which == 0 {
        "CLOSED:"@
    } else if which == 1 {
        "DEADLINE:"@
    } else {
        "SCHEDULED:"@
    }
}

/// Reading `KEYWORD: stamp` and what follows it takes the stamp whole and
/// goes on after it.
#[verifier::spinoff_prover]
proof fn lemma_step(which: int, stamp: Seq<char>, more: Seq<char>, acc: Stamps)
    requires
        0 <= which <= 2,
        clean_stamp(stamp),
        more.len() == 0 || (more.len() > 1 && more[0] == ' ' && !is_ws(more[1])),
    ensures
        planning_steps(keyword_text(which) + (seq![' '] + stamp + more), acc) == planning_steps(
            trim_start(more),
            first_wins(acc, which, stamp),
        ),
{
    let after = seq![' '] + stamp + more;
    let rest = keyword_text(which) + after;
    lemma_keyword_at(after);
    assert(keyword_at(rest) == Some((which, after)));
    let t = stamp + more;
    assert(after =~= seq![' '] + t);
    assert(t[0] == stamp[0]);
    lemma_trim_one_space(t);
    let close = if t[0] == '<' { '>' } else { ']' };
    let e = stamp.len() - 1;
    assert(t.subrange(e, e + 1) =~= seq![close]);
    assert forall|j: int| 0 <= j < e implies !matches_at(t, seq![close], j) by {
        assert(t.subrange(j, j + 1)[0] == stamp[j]);
    }
    crate::text::lemma_find_is(t, seq![close], e);
    assert(t.take(e + 1) =~= stamp);
    assert(t.skip(e + 1) =~= more);
    assert(take_stamp_text(after) == Some((stamp, more)));
    assert(more.len() < rest.len());
}

/// What the parser reads off the end of a line: nothing further.
proof fn lemma_steps_end(acc: Stamps)
    ensures
        planning_steps(trim_start(Seq::<char>::empty()), acc) == Some(acc),
{
    assert(trim_start(Seq::<char>::empty()) =~= Seq::<char>::empty());
}

/// A field's part after the one before it: a space, then its keyword, which
/// is not whitespace.
proof fn lemma_part_opens(which: int, stamp: Seq<char>)
    requires
        0 <= which <= 2,
    ensures
        (seq![' '] + (keyword_text(which) + (seq![' '] + stamp))).len() > 1,
        (seq![' '] + (keyword_text(which) + (seq![' '] + stamp)))[0] == ' ',
        !is_ws((seq![' '] + (keyword_text(which) + (seq![' '] + stamp)))[1]),
        trim_start(seq![' '] + (keyword_text(which) + (seq![' '] + stamp))) == keyword_text(which) + (
        seq![' '] + stamp),
{
    reveal_strlit("CLOSED:");
    reveal_strlit("DEADLINE:");
    reveal_strlit("SCHEDULED:");
    let x = keyword_text(which) + (seq![' '] + stamp);
    assert(x[0] == keyword_text(which)[0]);
    assert((seq![' '] + x)[1] == x[0]);
    lemma_trim_one_space(x);
}

/// The planning line's text after its indent.
pub open spec fn planning_body(p: Stamps) -> Seq<char> {
    join_space(
        join_space(part_text("CLOSED:"@, p.0), part_text("DEADLINE:"@, p.1)),
        part_text("SCHEDULED:"@, p.2),
    )
}

/// What follows the `DEADLINE` part: a space and the `SCHEDULED` part, if any.
spec fn after_deadline(p: Stamps) -> Seq<char> {
    if p.2 is Some {
        seq![' '] + part_text("SCHEDULED:"@, p.2)
    } else {
        Seq::<char>::empty()
    }
}

/// What follows the `CLOSED` part.
spec fn after_closed(p: Stamps) -> Seq<char> {
    if p.1 is Some {
        seq![' '] + part_text("DEADLINE:"@, p.1) + after_deadline(p)
    } else {
        after_deadline(p)
    }
}

proof fn lemma_scheduled_reads_back(p: Stamps)
    requires
        clean_stamps(p),
        p.2 is Some,
    ensures
        planning_steps(part_text("SCHEDULED:"@, p.2), (p.0, p.1, None)) == Some(p),
{
    let s = p.2->0;
    assert(part_text("SCHEDULED:"@, p.2) =~= keyword_text(2) + (seq![' '] + s + Seq::<char>::empty()));
    lemma_step(2, s, Seq::<char>::empty(), (p.0, p.1, None));
    lemma_steps_end(p);
}

proof fn lemma_after_deadline_reads_back(p: Stamps)
    requires
        clean_stamps(p),
    ensures
        planning_steps(trim_start(after_deadline(p)), (p.0, p.1, None)) == Some(p),
        after_deadline(p).len() == 0 || (after_deadline(p).len() > 1 && after_deadline(p)[0] == ' '
            && !is_ws(after_deadline(p)[1])),
{
    if p.2 is Some {
        let s = p.2->0;
        lemma_part_opens(2, s);
        assert(part_text("SCHEDULED:"@, p.2) =~= keyword_text(2) + (seq![' '] + s));
        lemma_scheduled_reads_back(p);
    } else {
        lemma_steps_end(p);
    }
}

#[verifier::spinoff_prover]
proof fn lemma_after_closed_reads_back(p: Stamps)
    requires
        clean_stamps(p),
    ensures
        planning_steps(trim_start(after_closed(p)), (p.0, None, None)) == Some(p),
        after_closed(p).len() == 0 || (after_closed(p).len() > 1 && after_closed(p)[0] == ' '
            && !is_ws(after_closed(p)[1])),
{
    lemma_after_deadline_reads_back(p);
    if p.1 is Some {
        let d = p.1->0;
        let pd = part_text("DEADLINE:"@, p.1);
        let x = pd + after_deadline(p);
        assert(pd =~= keyword_text(1) + (seq![' '] + d));
        lemma_step(1, d, after_deadline(p), (p.0, None, None));
        assert(keyword_text(1) + (seq![' '] + d + after_deadline(p)) =~= x);
        reveal_strlit("DEADLINE:");
        assert(x[0] == 'D');
        lemma_trim_one_space(x);
        assert(after_closed(p) =~= seq![' '] + x);
    } else {
        if p.2 is None {
            assert(after_deadline(p) =~= Seq::<char>::empty());
            lemma_steps_end(p);
        }
    }
}

/// The body of a rendered planning line reads back as its stamps.
#[verifier::spinoff_prover]
proof fn lemma_body_reads_back(p: Stamps)
    requires
        clean_stamps(p),
        !(p.0 is None && p.1 is None && p.2 is None),
    ensures
        planning_steps(planning_body(p), no_stamps()) == Some(p),
{
    lemma_after_closed_reads_back(p);
    lemma_after_deadline_reads_back(p);
    if p.0 is Some {
        let c = p.0->0;
        let pc = part_text("CLOSED:"@, p.0);
        assert(pc =~= keyword_text(0) + (seq![' '] + c));
        lemma_step(0, c, after_closed(p), no_stamps());
        assert(keyword_text(0) + (seq![' '] + c + after_closed(p)) =~= planning_body(p));
    } else if p.1 is Some {
        let d = p.1->0;
        let pd = part_text("DEADLINE:"@, p.1);
        assert(pd =~= keyword_text(1) + (seq![' '] + d));
        lemma_step(1, d, after_deadline(p), no_stamps());
        assert(keyword_text(1) + (seq![' '] + d + after_deadline(p)) =~= planning_body(p));
    } else {
        assert(planning_body(p) =~= part_text("SCHEDULED:"@, p.2));
        lemma_scheduled_reads_back(p);
    }
}

/// The body opens with a keyword and closes with a stamp's bracket.
#[verifier::spinoff_prover]
proof fn lemma_body_ends(p: Stamps)
    requires
        clean_stamps(p),
        !(p.0 is None && p.1 is None && p.2 is None),
    ensures
        planning_body(p).len() > 0,
        !is_ws(planning_body(p)[0]),
        !is_ws(planning_body(p).last()),
{
    reveal_strlit("CLOSED:");
    reveal_strlit("DEADLINE:");
    reveal_strlit("SCHEDULED:");
    let b = planning_body(p);
    let pc = part_text("CLOSED:"@, p.0);
    let pd = part_text("DEADLINE:"@, p.1);
    let ps = part_text("SCHEDULED:"@, p.2);
    if p.2 is Some {
        assert(ps.last() == p.2->0.last());
        assert(b.last() == ps.last());
    } else if p.1 is Some {
        assert(pd.last() == p.1->0.last());
        assert(b =~= join_space(pc, pd));
        assert(b.last() == pd.last());
    } else {
        assert(pc.last() == p.0->0.last());
        assert(b =~= pc);
    }
    if p.0 is Some {
        assert(b[0] == pc[0]);
    } else if p.1 is Some {
        assert(b[0] == pd[0]);
    } else {
        assert(b[0] == ps[0]);
    }
}

/// A planning line rendered from clean stamps reads back as those stamps, at
/// any indent: a write keeps every field it was given.
pub proof fn lemma_render_then_parse(p: Stamps, indent: nat)
    requires
        clean_stamps(p),
        !(p.0 is None && p.1 is None && p.2 is None),
    ensures
        planning_text(p, indent) matches Some(t) && parse_planning(t) == Some(p),
{
    let body = planning_body(p);
    let line = Seq::new(indent, |i: int| ' ') + body;
    assert(planning_text(p, indent) == Some(line));
    lemma_body_reads_back(p);
    lemma_body_ends(p);
    assert(forall|i: int| 0 <= i < indent ==> is_ws(#[trigger] line[i]));
    assert(line[indent as int] == body[0]);
    crate::text::lemma_leading_ws_at(line, indent as int);
    assert(trim_start(line) =~= body);
    crate::text::lemma_trailing_ws_at(body, body.len() as int);
    assert(trim(line) =~= body);
}

/// A stamp the parser took is a clean one.
proof fn lemma_taken_stamp_clean(after: Seq<char>)
    ensures
        take_stamp_text(after) matches Some((stamp, _)) ==> clean_stamp(stamp),
{
    let t = trim_start(after);
    if t.len() > 0 && (t[0] == '<' || t[0] == '[') {
        let close = if t[0] == '<' { '>' } else { ']' };
        crate::text::lemma_find_some(t, seq![close]);
        if let Some(e) = find(t, seq![close]) {
            let stamp = t.take(e + 1);
            assert(t.subrange(e, e + 1)[0] == t[e]);
            assert forall|i: int| 0 <= i < stamp.len() - 1 implies #[trigger] stamp[i] != close by {
                assert(!matches_at(t, seq![close], i));
                assert(t.subrange(i, i + 1) =~= seq![t[i]]);
            }
        }
    }
}

/// Every stamp a planning line reads as is a clean one.
proof fn lemma_parsed_stamps_clean(rest: Seq<char>, acc: Stamps)
    requires
        clean_stamps(acc),
    ensures
        planning_steps(rest, acc) matches Some(p) ==> clean_stamps(p),
    decreases rest.len(),
{
    if rest.len() > 0 {
        if let Some((which, after)) = keyword_at(rest) {
            lemma_taken_stamp_clean(after);
            if let Some((stamp, tail)) = take_stamp_text(after) {
                lemma_leading_ws_bound(after);
                lemma_leading_ws_bound(tail);
                if tail.len() < rest.len() {
                    lemma_parsed_stamps_clean(trim_start(tail), first_wins(acc, which, stamp));
                }
            }
        }
    }
}

/// After a write the planning line reads back with the field set to the
/// value written and every other field as it was; a write that takes the line
/// away is one that left no field.
pub proof fn lemma_plan_edit_reads_back(
    r: PlanEdit,
    headline: u32,
    next: Option<Seq<char>>,
    field: Field,
    value: Option<Seq<char>>,
)
    requires
        plan_edit_is(r, headline, next, field, value),
        clean_field(value),
    ensures
        r matches PlanEdit::Replace { text, .. } ==> parse_planning(text@) == Some(
            with_field(parse_planning(next->0)->0, field, value),
        ),
        r matches PlanEdit::Insert { text, .. } ==> parse_planning(text@) == Some(
            with_field(no_stamps(), field, value),
        ),
        r is Delete ==> with_field(parse_planning(next->0)->0, field, value) == no_stamps(),
{
    let parsed = match next {
        Some(l) => parse_planning(l),
        None => None,
    };
    match parsed {
        Some(p) => {
            let l = next->0;
            lemma_parsed_stamps_clean(trim(l), no_stamps());
            let q = with_field(p, field, value);
            if !(q.0 is None && q.1 is None && q.2 is None) {
                lemma_render_then_parse(q, indent_bytes(l));
            }
        },
        None => {
            if let Some(v) = value {
                lemma_render_then_parse(with_field(no_stamps(), field, value), 0);
            }
        },
    }
}

// ── a date answered at the prompt, read back ──

/// No `>` anywhere in `s`.
spec fn no_close(s: Seq<char>) -> bool {
    forall|i: int| 0 <= i < s.len() ==> #[trigger] s[i] != '>'
}

proof fn lemma_digits_no_close(s: Seq<char>)
    requires
        crate::text::all_digits(s),
    ensures
        no_close(s),
{
    assert forall|i: int| 0 <= i < s.len() implies #[trigger] s[i] != '>' by {
        assert(crate::text::is_digit(s[i]));
    }
}

proof fn lemma_zero_padded_no_close(n: nat, width: nat)
    ensures
        no_close(crate::text::zero_padded(n, width)),
{
    crate::text::lemma_decimal_digits(n);
    lemma_digits_no_close(crate::text::decimal(n));
}

proof fn lemma_repeater_parts_no_close(b: Seq<char>)
    requires
        crate::org_date::repeater_parts_ok(b),
    ensures
        no_close(b),
    decreases b.len(),
{
    crate::text::lemma_find_some(b, seq!['/']);
    match find(b, seq!['/']) {
        None => {
            lemma_digits_no_close(b.drop_last());
            assert forall|i: int| 0 <= i < b.len() implies #[trigger] b[i] != '>' by {
                if i < b.len() - 1 {
                    assert(b[i] == b.drop_last()[i]);
                }
            }
        },
        Some(i) => {
            let head = b.take(i);
            lemma_digits_no_close(head.drop_last());
            lemma_repeater_parts_no_close(b.skip(i + 1));
            assert(b.subrange(i, i + 1)[0] == b[i]);
            assert forall|k: int| 0 <= k < b.len() implies #[trigger] b[k] != '>' by {
                if k < i - 1 {
                    assert(b[k] == head.drop_last()[k]);
                } else if k == i - 1 {
                    assert(b[k] == head.last());
                } else if k > i {
                    assert(b[k] == b.skip(i + 1)[k - i - 1]);
                }
            }
        },
    }
}

/// The stamp the prompt writes is a clean one: `<…>`, with no `>` before its
/// end.
proof fn lemma_stamp_text_clean(d: Date, repeater: Seq<char>)
    requires
        repeater.len() == 0 || crate::org_date::is_repeater_text(repeater),
    ensures
        clean_stamp(stamp_text(d, repeater)),
{
    let y = crate::org_date::year_text(d.year);
    if d.year < 0 {
        lemma_zero_padded_no_close((-d.year) as nat, 3);
    } else {
        lemma_zero_padded_no_close(d.year as nat, 4);
    }
    lemma_zero_padded_no_close(d.month as nat, 2);
    lemma_zero_padded_no_close(d.day as nat, 2);
    let w = crate::timestamp::weekday_of(d);
    let name = crate::timestamp::day_name_text(w);
    assert(no_close(name));
    let rep = if repeater.len() == 0 { Seq::<char>::empty() } else { seq![' '] + repeater };
    if repeater.len() > 0 {
        let t = repeater;
        let body = if t.len() >= 2 && t[0] == '.' && t[1] == '+' {
            t.skip(2)
        } else if t.len() >= 2 && t[0] == '+' && t[1] == '+' {
            t.skip(2)
        } else {
            t.skip(1)
        };
        lemma_repeater_parts_no_close(body);
        assert forall|i: int| 0 <= i < t.len() implies #[trigger] t[i] != '>' by {
            if t.len() >= 2 && t[0] == '.' && t[1] == '+' {
                if i >= 2 {
                    assert(t[i] == body[i - 2]);
                }
            } else if t.len() >= 2 && t[0] == '+' && t[1] == '+' {
                if i >= 2 {
                    assert(t[i] == body[i - 2]);
                }
            } else if i >= 1 {
                assert(t[i] == body[i - 1]);
            }
        }
    }
    let date = crate::org_date::date_text(d);
    assert(no_close(y));
    assert(no_close(date)) by {
        let mm = crate::text::zero_padded(d.month as nat, 2);
        let dd = crate::text::zero_padded(d.day as nat, 2);
        assert(date =~= y + seq!['-'] + mm + seq!['-'] + dd);
        assert forall|i: int| 0 <= i < date.len() implies #[trigger] date[i] != '>' by {
            if i < y.len() {
                assert(date[i] == y[i]);
            } else if i == y.len() {
            } else if i < y.len() + 1 + mm.len() {
                assert(date[i] == mm[i - y.len() - 1]);
            } else if i == y.len() + 1 + mm.len() {
            } else {
                assert(date[i] == dd[i - y.len() - 2 - mm.len()]);
            }
        }
    }
    let inner = seq!['<'] + date + seq![' '] + name + rep;
    assert(stamp_text(d, repeater) == inner + seq!['>']);
    assert forall|i: int| 0 <= i < inner.len() implies #[trigger] inner[i] != '>' by {
        if 1 <= i < 1 + date.len() {
            assert(inner[i] == date[i - 1]);
        } else if 1 + date.len() < i < 2 + date.len() + name.len() {
            assert(inner[i] == name[i - 2 - date.len()]);
        } else if i >= 2 + date.len() + name.len() + 1 {
            assert(inner[i] == repeater[i - 3 - date.len() - name.len()]);
        }
    }
    let st = stamp_text(d, repeater);
    assert forall|i: int| 0 <= i < st.len() - 1 implies #[trigger] st[i] != '>' by {
        assert(st[i] == inner[i]);
    }
}

/// A prompt answer's stamp is clean, whatever the answer was.
proof fn lemma_typed_value_clean(typed: Seq<char>, today: Date)
    ensures
        typed_value(typed, today) matches Ok(v) ==> clean_field(v),
{
    if trim(typed).len() > 0 {
        if let Ok((d, repeater)) = plan_of_text(typed, today) {
            lemma_stamp_text_clean(d, repeater);
        }
    }
}

/// A date answered at the prompt is what the planning line then reads back
/// for the field, beside every field that was already there; a blank answer
/// reads back as the field removed.
pub proof fn lemma_answer_reads_back(
    e: PlanEdit,
    headline: u32,
    next: Option<Seq<char>>,
    field: Field,
    typed: Seq<char>,
    today: Date,
)
    requires
        typed_value(typed, today) is Ok,
        plan_edit_is(e, headline, next, field, typed_value(typed, today)->Ok_0),
    ensures
        e matches PlanEdit::Replace { text, .. } ==> parse_planning(text@) == Some(
            with_field(parse_planning(next->0)->0, field, typed_value(typed, today)->Ok_0),
        ),
        e matches PlanEdit::Insert { text, .. } ==> parse_planning(text@) == Some(
            with_field(no_stamps(), field, typed_value(typed, today)->Ok_0),
        ),
{
    lemma_typed_value_clean(typed, today);
    lemma_plan_edit_reads_back(e, headline, next, field, typed_value(typed, today)->Ok_0);
}

} // verus!
