//! What a list item IS: bullet shape, nesting, extent, numbering.
//!
//! ```org
//! - one
//!   continued
//!   - one-a
//!   - one-b
//! - two
//! ```
//!
//! Every list verb asks the same handful of questions of that shape — which
//! item am I in, where does it end, who are its siblings, what number should
//! this be — and each is a scan over lines. The scans live here once.
//!
//! Structure is read from indentation: an item's extent is what is indented
//! deeper than its bullet, a blank line does not end it, and a headline ends
//! everything. Indents and offsets are in bytes, as the editor counts them.
//!
//! This is the reading from lines alone. When the host has parsed the
//! buffer, the editor answers these questions from its syntax tree first and
//! comes here only when there is no tree; the tree is the host's, and
//! nothing here models it.
use vstd::prelude::*;

use crate::headline::{headline_level, level_of, texts};
use crate::text::{
    byte_len, byte_len_in, chars_in_bytes, chars_in_bytes_of, chars_of, decimal, digit_run,
    extend_chars, is_ws, leading_ws, lemma_chars_in_bytes, parse_u32, parse_u32_in, push_decimal,
    skip_digits, skip_ws, string_of, trim, trim_range, trim_start, unsigned_value,
};

verus! {

/// How an ordered item punctuates its number: `1.` or `1)`. A renumber gives
/// back the one the document already uses.
#[derive(Debug, Clone, Copy, PartialEq, Eq, Structural)]
pub enum Delim {
    Dot,
    Paren,
}

impl Delim {
    pub fn as_char(self) -> (c: char)
        ensures
            c == delim_char(self),
    {
        match self {
            Delim::Dot => '.',
            Delim::Paren => ')',
        }
    }
}

pub open spec fn delim_char(d: Delim) -> char {
    match d {
        Delim::Dot => '.',
        Delim::Paren => ')',
    }
}

/// The marker that opens a list item.
#[derive(Debug, Clone, Copy, PartialEq, Eq, Structural)]
pub enum Bullet {
    Dash,
    Plus,
    Star,
    Ordered { n: u32, delim: Delim },
}

/// A checkbox's state: `[ ]`, `[X]` or `[-]`.
#[derive(Debug, Clone, Copy, PartialEq, Eq, Structural)]
pub enum Check {
    Off,
    On,
    Partial,
}

/// A bullet's literal text: `-`, `+`, `*`, `3.`, `3)`.
pub open spec fn bullet_text(b: Bullet) -> Seq<char> {
    match b {
        Bullet::Dash => seq!['-'],
        Bullet::Plus => seq!['+'],
        Bullet::Star => seq!['*'],
        Bullet::Ordered { n, delim } => decimal(n as nat).push(delim_char(delim)),
    }
}

/// The next shape in the cycle `Dash -> Plus -> 1. -> 1) -> Dash`. `Star` is
/// never a destination: at column 0 it is a headline.
pub open spec fn next_bullet(b: Bullet) -> Bullet {
    match b {
        Bullet::Dash => Bullet::Plus,
        Bullet::Plus => Bullet::Ordered { n: 1, delim: Delim::Dot },
        Bullet::Ordered { delim: Delim::Dot, .. } => Bullet::Ordered { n: 1, delim: Delim::Paren },
        Bullet::Ordered { delim: Delim::Paren, .. } => Bullet::Dash,
        Bullet::Star => Bullet::Dash,
    }
}

impl Bullet {
    /// The literal text, e.g. `-`, `+`, `3.`, `3)`.
    pub fn render(self) -> (r: String)
        ensures
            r@ == bullet_text(self),
    {
        let mut out: Vec<char> = Vec::new();
        match self {
            Bullet::Dash => out.push('-'),
            Bullet::Plus => out.push('+'),
            Bullet::Star => out.push('*'),
            Bullet::Ordered { n, delim } => {
                push_decimal(&mut out, n as u64);
                out.push(delim.as_char());
            },
        }
        proof {
            assert(out@ =~= bullet_text(self));
        }
        string_of(out.as_slice())
    }

    /// The next shape in the cycle: `Dash -> Plus -> Ordered{Dot} ->
    /// Ordered{Paren} -> Dash`, with `n` restarting at 1 on entry to an
    /// ordered form. `Star` is legal but not in the cycle: at column 0 it is a
    /// headline, so a `Star` item that is cycled enters the cycle at `Dash`.
    pub fn cycled(self) -> (r: Bullet)
        ensures
            r == next_bullet(self),
    {
        match self {
            Bullet::Dash => Bullet::Plus,
            Bullet::Plus => Bullet::Ordered { n: 1, delim: Delim::Dot },
            Bullet::Ordered { delim: Delim::Dot, .. } => Bullet::Ordered { n: 1, delim: Delim::Paren },
            Bullet::Ordered { delim: Delim::Paren, .. } => Bullet::Dash,
            Bullet::Star => Bullet::Dash,
        }
    }
}

/// Cycling never lands on `Star`, and once in the cycle four steps come back
/// to where they started.
pub proof fn lemma_cycle_closes(b: Bullet)
    ensures
        next_bullet(b) != Bullet::Star,
        next_bullet(next_bullet(next_bullet(next_bullet(next_bullet(b))))) == next_bullet(b),
{
}

/// One list item, as the line it starts on describes it.
#[derive(Debug, Clone, Copy, PartialEq, Eq, Structural)]
pub struct Item {
    pub line: u32,
    /// Bytes of leading whitespace — the nesting level.
    pub indent: usize,
    pub bullet: Bullet,
    pub checkbox: Option<Check>,
    /// Byte offset where the item's own text begins, after the bullet and any
    /// checkbox.
    pub content_byte: u32,
}

/// [`parse_line`]'s full answer: the item, plus the offsets a caller that
/// rewrites the line needs.
pub struct Parsed {
    pub item: Item,
    /// Bytes the marker occupies — `-` is 1, `12)` is 3 — not counting the
    /// space after it.
    pub marker_len: usize,
    /// Byte offset of the checkbox's `[`, when the item has one.
    pub box_byte: Option<usize>,
}

/// The bullet a marker character opens.
pub open spec fn bullet_of_char(c: char) -> Bullet {
    if c == '-' { Bullet::Dash } else if c == '+' { Bullet::Plus } else { Bullet::Star }
}

/// The bullet marker at the start of `rest`, and the characters it takes. A
/// marker must be followed by a space: `-foo` is not an item and `1.5` is not
/// item 1. `*` is a bullet only when indented.
pub open spec fn marker_of(rest: Seq<char>, indent: nat) -> Option<(Bullet, nat)> {
    if rest.len() > 0 && (rest[0] == '-' || rest[0] == '+' || rest[0] == '*') {
        if rest[0] == '*' && indent == 0 {
            None
        } else if rest.len() > 1 && rest[1] == ' ' {
            Some((bullet_of_char(rest[0]), 1))
        } else {
            None
        }
    } else {
        let d = digit_run(rest);
        if d > 0 && d + 1 < rest.len() && (rest[d as int] == '.' || rest[d as int] == ')') && rest[(d + 1) as int] == ' ' {
            match parse_u32(rest.take(d as int)) {
                Some(n) => Some((Bullet::Ordered { n, delim: if rest[d as int] == '.' { Delim::Dot } else { Delim::Paren } }, d + 1)),
                None => None,
            }
        } else {
            None
        }
    }
}

/// The checkbox at the start of `body`: `[ ]`, `[X]`, `[x]` or `[-]`.
pub open spec fn checkbox_of(body: Seq<char>) -> Option<Check> {
    if body.len() >= 3 && body[0] == '[' && body[2] == ']' {
        if body[1] == ' ' {
            Some(Check::Off)
        } else if body[1] == 'X' || body[1] == 'x' {
            Some(Check::On)
        } else if body[1] == '-' {
            Some(Check::Partial)
        } else {
            None
        }
    } else {
        None
    }
}

/// The bytes `s` begins with that are whitespace.
pub open spec fn ws_bytes(s: Seq<char>) -> nat {
    byte_len(s.take(leading_ws(s) as int))
}

/// `line` read as a list item whose indent is `indent` bytes:
/// `(item, marker_len, box_byte)`, the item's line left at 0.
pub open spec fn parse_item(line: Seq<char>, indent: nat) -> Option<(Item, nat, Option<nat>)> {
    match chars_in_bytes(line, indent as int) {
        None => None,
        Some(k) => {
            let rest = line.skip(k as int);
            match marker_of(rest, indent) {
                None => None,
                Some((bullet, ml)) => {
                    let after = rest.skip(ml as int);
                    let body = after.skip(leading_ws(after) as int);
                    let body_byte = indent + ml + ws_bytes(after);
                    match checkbox_of(body) {
                        Some(state) => Some((
                            Item {
                                line: 0,
                                indent: indent as usize,
                                bullet,
                                checkbox: Some(state),
                                content_byte: (body_byte + 3 + ws_bytes(body.skip(3))) as u32,
                            },
                            ml,
                            Some(body_byte),
                        )),
                        None => Some((
                            Item { line: 0, indent: indent as usize, bullet, checkbox: None, content_byte: body_byte as u32 },
                            ml,
                            None,
                        )),
                    }
                },
            }
        },
    }
}

/// Whether `c` is an ASCII digit.
fn digit(c: char) -> (b: bool)
    ensures
        b == ('0' <= c <= '9'),
{
    '0' <= c && c <= '9'
}

/// The bullet marker at `s[lo..]`, and the characters it takes.
fn marker(s: &[char], lo: usize, indent: usize) -> (r: Option<(Bullet, usize)>)
    requires
        lo <= s@.len(),
    ensures
        match r {
            Some((b, ml)) => marker_of(s@.skip(lo as int), indent as nat) == Some((b, ml as nat)),
            None => marker_of(s@.skip(lo as int), indent as nat) is None,
        },
{
    let ghost rest = s@.skip(lo as int);
    let n = s.len();
    if lo < n && (s[lo] == '-' || s[lo] == '+' || s[lo] == '*') {
        assert(rest[0] == s@[lo as int]);
        if s[lo] == '*' && indent == 0 {
            return None;
        }
        if lo + 1 < n && s[lo + 1] == ' ' {
            assert(rest[1] == s@[lo + 1]);
            let b = if s[lo] == '-' { Bullet::Dash } else if s[lo] == '+' { Bullet::Plus } else { Bullet::Star };
            return Some((b, 1));
        }
        return None;
    }
    assert(lo < n ==> rest[0] == s@[lo as int]);
    let e = skip_digits(s, lo, n);
    assert(s@.subrange(lo as int, n as int) == rest);
    let d = e - lo;
    if d > 0 && e < n && n - e > 1 && (s[e] == '.' || s[e] == ')') && s[e + 1] == ' ' {
        assert(rest[d as int] == s@[e as int]);
        assert(rest[d + 1] == s@[e + 1]);
        assert(rest.take(d as int) == s@.subrange(lo as int, e as int));
        match parse_u32_in(s, lo, e) {
            Some(v) => {
                let delim = if s[e] == '.' { Delim::Dot } else { Delim::Paren };
                Some((Bullet::Ordered { n: v, delim }, d + 1))
            },
            None => None,
        }
    } else {
        proof {
            if d > 0 && d + 1 < rest.len() {
                assert(rest[d as int] == s@[e as int]);
                assert(rest[d + 1] == s@[e + 1]);
            }
        }
        None
    }
}

/// The checkbox at `s[lo..]`.
fn parse_checkbox(s: &[char], lo: usize) -> (r: Option<Check>)
    requires
        lo <= s@.len(),
    ensures
        r == checkbox_of(s@.skip(lo as int)),
{
    let ghost body = s@.skip(lo as int);
    if s.len() - lo >= 3 && s[lo] == '[' && s[lo + 2] == ']' {
        assert(body[0] == s@[lo as int] && body[1] == s@[lo + 1] && body[2] == s@[lo + 2]);
        let c = s[lo + 1];
        if c == ' ' {
            Some(Check::Off)
        } else if c == 'X' || c == 'x' {
            Some(Check::On)
        } else if c == '-' {
            Some(Check::Partial)
        } else {
            None
        }
    } else {
        proof {
            if body.len() >= 3 {
                assert(body[0] == s@[lo as int] && body[2] == s@[lo + 2]);
            }
        }
        None
    }
}

/// The bytes of whitespace at `s[lo..]`, and where it ends.
fn ws_bytes_at(s: &[char], lo: usize) -> (r: (usize, usize))
    requires
        lo <= s@.len(),
        byte_len(s@.skip(lo as int)) <= u32::MAX,
    ensures
        r.1 == lo + leading_ws(s@.skip(lo as int)),
        r.0 == ws_bytes(s@.skip(lo as int)),
        r.1 <= s@.len(),
{
    let n = s.len();
    let e = skip_ws(s, lo, n);
    assert(s@.subrange(lo as int, n as int) == s@.skip(lo as int));
    assert(s@.subrange(lo as int, e as int) == s@.skip(lo as int).take(e - lo));
    proof {
        crate::text::lemma_byte_len_monotone(s@.skip(lo as int), e - lo, s@.skip(lo as int).len() as int);
        assert(s@.skip(lo as int).take(s@.skip(lo as int).len() as int) == s@.skip(lo as int));
    }
    let w = byte_len_in(s, lo, e);
    (w as usize, e)
}

/// Parse one line as a list item, given the indent already measured. The
/// single walker: [`parse_bullet`] is its public projection.
pub fn parse_line(line: &str, indent: usize) -> (r: Option<Parsed>)
    requires
        byte_len(line@) <= u32::MAX,
    ensures
        match parse_item(line@, indent as nat) {
            None => r is None,
            Some((item, ml, bb)) => r is Some && r->0.item == item && r->0.marker_len == ml && match bb {
                Some(b) => r->0.box_byte == Some(b as usize),
                None => r->0.box_byte is None,
            },
        },
{
    let s = chars_of(line);
    let k = match chars_in_bytes_of(s.as_slice(), indent) {
        None => return None,
        Some(k) => k,
    };
    proof {
        lemma_chars_in_bytes(s@, indent as int);
        lemma_byte_len_split(s@, k as int);
    }
    let (bullet, ml) = match marker(s.as_slice(), k, indent) {
        None => return None,
        Some(m) => m,
    };
    let ghost rest = s@.skip(k as int);
    proof {
        lemma_marker_fits(rest, indent as nat);
        assert(rest.skip(ml as int) == s@.skip(k + ml));
        lemma_byte_len_split(s@, k + ml);
        lemma_ascii_prefix(rest, ml as nat);
        lemma_byte_len_split(rest, ml as int);
    }
    assert(ml as int <= rest.len());
    assert(k + ml <= s@.len());
    let a = k + ml;
    let (lw, body_at) = ws_bytes_at(s.as_slice(), a);
    let ghost after = s@.skip(a as int);
    assert(after.skip(leading_ws(after) as int) == s@.skip(body_at as int));
    proof {
        crate::text::lemma_leading_ws_bound(after);
        lemma_byte_len_split(after, leading_ws(after) as int);
        assert(s@.take(k as int) == s@.take(k as int));
    }
    let body_byte = indent + ml + lw;
    let state = parse_checkbox(s.as_slice(), body_at);
    match state {
        Some(st) => {
            let ghost body = s@.skip(body_at as int);
            assert(body.skip(3) == s@.skip(body_at + 3));
            assert(body.len() >= 3);
            assert(body_at + 3 <= s@.len());
            assert(s@.len() == s.len());
            proof {
                lemma_ascii_prefix(body, 3);
                lemma_byte_len_split(body, 3);
            }
            let (gap, _) = ws_bytes_at(s.as_slice(), body_at + 3);
            proof {
                let ab = body.skip(3);
                crate::text::lemma_leading_ws_bound(ab);
                lemma_byte_len_split(ab, leading_ws(ab) as int);
            }
            let item = Item {
                line: 0,
                indent,
                bullet,
                checkbox: Some(st),
                content_byte: (body_byte + 3 + gap) as u32,
            };
            Some(Parsed { item, marker_len: ml, box_byte: Some(body_byte) })
        },
        None => {
            let item = Item { line: 0, indent, bullet, checkbox: None, content_byte: body_byte as u32 };
            Some(Parsed { item, marker_len: ml, box_byte: None })
        },
    }
}

/// A marker is ASCII, as many bytes as characters.
proof fn lemma_marker_fits(rest: Seq<char>, indent: nat)
    ensures
        match marker_of(rest, indent) {
            Some((_, ml)) => ml <= rest.len() && forall|i: int| 0 <= i < ml ==> (rest[i] as u32) < 0x80,
            None => true,
        },
{
    match marker_of(rest, indent) {
        Some((_, ml)) => {
            if !(rest.len() > 0 && (rest[0] == '-' || rest[0] == '+' || rest[0] == '*')) {
                let d = digit_run(rest);
                crate::text::lemma_digit_run_bound(rest);
            }
        },
        None => {},
    }
}

/// A prefix of ASCII characters takes one byte each.
proof fn lemma_ascii_prefix(s: Seq<char>, m: nat)
    requires
        m <= s.len(),
        forall|i: int| 0 <= i < m ==> (s[i] as u32) < 0x80,
    ensures
        byte_len(s.take(m as int)) == m,
    decreases m,
{
    if m > 0 {
        lemma_ascii_prefix(s, (m - 1) as nat);
        assert(s.take(m as int).drop_last() == s.take(m - 1));
        assert(s.take(m as int).last() == s[m - 1]);
    } else {
        assert(s.take(0) == Seq::<char>::empty());
    }
}

/// Bytes add up across a split.
proof fn lemma_byte_len_split(s: Seq<char>, k: int)
    requires
        0 <= k <= s.len(),
    ensures
        byte_len(s) == byte_len(s.take(k)) + byte_len(s.skip(k)),
{
    crate::text::lemma_byte_len_append(s.take(k), s.skip(k));
    assert(s.take(k) + s.skip(k) == s);
}

/// Parse one line as a list item, given the indent already measured. `None`
/// when the line is not an item — including `* Heading` at column 0, which is
/// a headline and not a `Star` bullet. The item's line comes back 0.
pub fn parse_bullet(line: &str, indent: usize) -> (r: Option<Item>)
    requires
        byte_len(line@) <= u32::MAX,
    ensures
        match parse_item(line@, indent as nat) {
            None => r is None,
            Some((item, _, _)) => r == Some(item),
        },
{
    match parse_line(line, indent) {
        Some(p) => Some(p.item),
        None => None,
    }
}

/// The bytes of whitespace a line begins with: its indent.
pub open spec fn indent_width(s: Seq<char>) -> nat {
    ws_bytes(s)
}

/// The bytes of whitespace `text` begins with.
pub fn indent_of_public(text: &str) -> (r: usize)
    requires
        byte_len(text@) <= u32::MAX,
    ensures
        r == indent_width(text@),
{
    indent_of(text)
}

fn indent_of(text: &str) -> (r: usize)
    requires
        byte_len(text@) <= u32::MAX,
    ensures
        r == indent_width(text@),
{
    let s = chars_of(text);
    assert(s@.skip(0) == s@);
    let (w, _) = ws_bytes_at(s.as_slice(), 0);
    w
}


// ── a document's lists ──

/// The most bytes a line of a [`Lists`] may take, so that indents and shifts
/// fit in an `isize` on any target.
pub const LINE_LIMIT: usize = 0x3fff_ffff;

/// What a [`Lists`] can hold: line numbers that fit in a `u32` with one to
/// spare, and lines no longer than [`LINE_LIMIT`] bytes.
pub open spec fn lists_fit(ls: Seq<Seq<char>>) -> bool {
    &&& ls.len() < u32::MAX
    &&& forall|i: int| 0 <= i < ls.len() ==> byte_len(#[trigger] ls[i]) <= LINE_LIMIT
}

/// A line with nothing but whitespace.
pub open spec fn blank(t: Seq<char>) -> bool {
    trim(t).len() == 0
}

/// A headline line, which ends every list above it.
pub open spec fn is_headline(t: Seq<char>) -> bool {
    level_of(t) is Some
}

/// The item whose bullet is on line `n`.
pub open spec fn item_at(ls: Seq<Seq<char>>, n: int) -> Option<Item> {
    if 0 <= n < ls.len() {
        match parse_item(ls[n], indent_width(ls[n])) {
            Some((it, _, _)) => Some(Item {
                line: n as u32,
                indent: it.indent,
                bullet: it.bullet,
                checkbox: it.checkbox,
                content_byte: it.content_byte,
            }),
            None => None,
        }
    } else {
        None
    }
}

/// The first item above line `scan` that is strictly shallower than `indent`,
/// passing blank lines and deeper text; `None` at a headline or the top.
pub open spec fn owner_above(ls: Seq<Seq<char>>, scan: int, indent: nat) -> Option<Item>
    decreases scan,
{
    if scan <= 0 || scan > ls.len() {
        None
    } else {
        let t = ls[scan - 1];
        if blank(t) {
            owner_above(ls, scan - 1, indent)
        } else if is_headline(t) {
            None
        } else if indent_width(t) >= indent {
            owner_above(ls, scan - 1, indent)
        } else {
            item_at(ls, scan - 1)
        }
    }
}

/// The item line `n` belongs to: its own, or the one it continues.
pub open spec fn enclosing_at(ls: Seq<Seq<char>>, n: int) -> Option<Item> {
    match item_at(ls, n) {
        Some(it) => Some(it),
        None => if 0 <= n < ls.len() && !is_headline(ls[n]) {
            owner_above(ls, n, indent_width(ls[n]))
        } else {
            None
        },
    }
}

/// The last line of the item whose bullet is `indent` deep, from line `n` on,
/// given it reaches `end` so far: content lines deeper than the bullet extend
/// it, blank lines pass, and anything else ends it.
pub open spec fn item_end_from(ls: Seq<Seq<char>>, n: int, indent: nat, end: int) -> int
    decreases ls.len() - n,
{
    if n < 0 || n >= ls.len() {
        end
    } else if blank(ls[n]) {
        item_end_from(ls, n + 1, indent, end)
    } else if is_headline(ls[n]) || indent_width(ls[n]) <= indent {
        end
    } else {
        item_end_from(ls, n + 1, indent, n)
    }
}

/// The last line of the item at `start`, continuation lines and nested
/// children included; `start` itself when no item starts there.
pub open spec fn item_end_at(ls: Seq<Seq<char>>, start: int) -> int {
    match item_at(ls, start) {
        None => start,
        Some(it) => item_end_from(ls, start + 1, it.indent as nat, start),
    }
}

/// The items `indent` deep above line `scan`, in order, back to where the
/// list leaves that level.
pub open spec fn siblings_before(ls: Seq<Seq<char>>, scan: int, indent: nat) -> Seq<u32>
    decreases scan,
{
    if scan <= 0 || scan > ls.len() {
        Seq::empty()
    } else {
        let t = ls[scan - 1];
        if blank(t) {
            siblings_before(ls, scan - 1, indent)
        } else if is_headline(t) || indent_width(t) < indent {
            Seq::empty()
        } else {
            siblings_before(ls, scan - 1, indent) + match item_at(ls, scan - 1) {
                Some(o) => if o.indent == indent { seq![(scan - 1) as u32] } else { Seq::empty() },
                None => Seq::empty(),
            }
        }
    }
}

/// The items `indent` deep from line `n` on, in order, up to where the list
/// leaves that level.
pub open spec fn siblings_after(ls: Seq<Seq<char>>, n: int, indent: nat) -> Seq<u32>
    decreases ls.len() - n,
{
    if n < 0 || n >= ls.len() {
        Seq::empty()
    } else {
        let t = ls[n];
        if blank(t) {
            siblings_after(ls, n + 1, indent)
        } else if is_headline(t) || indent_width(t) < indent {
            Seq::empty()
        } else {
            (match item_at(ls, n) {
                Some(o) => if o.indent == indent { seq![n as u32] } else { Seq::empty() },
                None => Seq::empty(),
            }) + siblings_after(ls, n + 1, indent)
        }
    }
}

/// The item lines at `item`'s indent in its list, in order, `item` among them.
pub open spec fn siblings_of(ls: Seq<Seq<char>>, item: Item) -> Seq<u32> {
    siblings_before(ls, item.line as int, item.indent as nat) + seq![item.line]
        + siblings_after(ls, item.line + 1, item.indent as nat)
}

/// The siblings of the item line `n` is in.
pub open spec fn siblings_at(ls: Seq<Seq<char>>, n: int) -> Seq<u32> {
    match enclosing_at(ls, n) {
        None => Seq::empty(),
        Some(it) => siblings_of(ls, it),
    }
}

/// The items one level deeper than `indent` on lines `n..=end`: the first
/// deeper indent seen fixes the level, and a line at or above `indent` ends
/// the walk.
pub open spec fn children_from(ls: Seq<Seq<char>>, n: int, end: int, indent: nat, level: Option<nat>) -> Seq<u32>
    decreases end + 1 - n,
{
    if n > end {
        Seq::empty()
    } else {
        match item_at(ls, n) {
            None => children_from(ls, n + 1, end, indent, level),
            Some(c) => if c.indent <= indent {
                Seq::empty()
            } else {
                let want = match level {
                    Some(l) => l,
                    None => c.indent as nat,
                };
                (if c.indent == want { seq![n as u32] } else { Seq::empty() }) + children_from(ls, n + 1, end, indent, Some(want))
            },
        }
    }
}

/// The direct children of the item line `n` is in.
pub open spec fn children_at(ls: Seq<Seq<char>>, n: int) -> Seq<u32> {
    match enclosing_at(ls, n) {
        None => Seq::empty(),
        Some(it) => children_from(ls, it.line + 1, item_end_at(ls, it.line as int), it.indent as nat, None),
    }
}

/// The outermost item above `item` in its list.
pub open spec fn top_item(ls: Seq<Seq<char>>, item: Item) -> Item
    decreases item.line,
{
    match owner_above(ls, item.line as int, item.indent as nat) {
        Some(p) => if p.line < item.line { top_item(ls, p) } else { item },
        None => item,
    }
}

/// The first and last line of the whole list containing line `n`.
pub open spec fn list_span_at(ls: Seq<Seq<char>>, n: int) -> Option<(u32, u32)> {
    match enclosing_at(ls, n) {
        None => None,
        Some(it) => {
            let sibs = siblings_of(ls, top_item(ls, it));
            Some((sibs[0], item_end_at(ls, sibs.last() as int) as u32))
        },
    }
}

/// Every list question a caller can ask of a document, answered from its
/// lines.
pub struct Lists {
    lines: Vec<String>,
}

impl View for Lists {
    type V = Seq<Seq<char>>;

    closed spec fn view(&self) -> Seq<Seq<char>> {
        texts(self.lines@)
    }
}

impl Lists {
    /// The questions about `lines`.
    pub fn new(lines: Vec<String>) -> (r: Lists)
        requires
            lists_fit(texts(lines@)),
        ensures
            r@ == texts(lines@),
    {
        Lists { lines }
    }

    /// How many lines there are.
    pub fn line_count(&self) -> (r: u32)
        requires
            lists_fit(self@),
        ensures
            r == self@.len(),
    {
        self.lines.len() as u32
    }

    /// One line.
    pub fn text(&self, n: u32) -> (r: Option<String>)
        ensures
            (n as int) < self@.len() ==> r is Some && r->0@ == self@[n as int],
            (n as int) >= self@.len() ==> r is None,
    {
        if (n as usize) < self.lines.len() {
            Some(self.lines[n as usize].clone())
        } else {
            None
        }
    }

    /// Whether line `n` (which exists) is blank.
    fn blank_at(&self, n: u32) -> (b: bool)
        requires
            (n as int) < self@.len(),
        ensures
            b == blank(self@[n as int]),
    {
        let s = chars_of(self.lines[n as usize].as_str());
        let len = s.len();
        assert(s@.subrange(0, len as int) == s@);
        let (a, b) = trim_range(&s, 0, len);
        a == b
    }

    /// Whether line `n` (which exists) is a headline.
    fn headline_at(&self, n: u32) -> (b: bool)
        requires
            (n as int) < self@.len(),
        ensures
            b == is_headline(self@[n as int]),
    {
        headline_level(self.lines[n as usize].as_str()).is_some()
    }

    /// The indent of line `n` (which exists).
    fn indent_at(&self, n: u32) -> (r: usize)
        requires
            lists_fit(self@),
            (n as int) < self@.len(),
        ensures
            r == indent_width(self@[n as int]),
            r <= LINE_LIMIT,
    {
        assert(byte_len(self@[n as int]) <= LINE_LIMIT);
        let r = indent_of(self.lines[n as usize].as_str());
        proof {
            let t = self@[n as int];
            crate::text::lemma_leading_ws_bound(t);
            lemma_byte_len_split(t, leading_ws(t) as int);
        }
        r
    }

    /// The item whose bullet is on line `n`. `None` on a continuation line,
    /// so acting from mid-item is a decision a caller makes with
    /// [`Lists::enclosing_item`].
    pub fn item_at(&self, n: u32) -> (r: Option<Item>)
        requires
            lists_fit(self@),
        ensures
            r == item_at(self@, n as int),
    {
        if (n as usize) >= self.lines.len() {
            return None;
        }
        assert(byte_len(self@[n as int]) <= LINE_LIMIT);
        let indent = self.indent_at(n);
        match parse_bullet(self.lines[n as usize].as_str(), indent) {
            Some(it) => Some(Item { line: n, indent: it.indent, bullet: it.bullet, checkbox: it.checkbox, content_byte: it.content_byte }),
            None => None,
        }
    }

    /// The first item above line `scan` strictly shallower than `indent`.
    fn owner_above(&self, scan: u32, indent: usize) -> (r: Option<Item>)
        requires
            lists_fit(self@),
            (scan as int) <= self@.len(),
        ensures
            r == owner_above(self@, scan as int, indent as nat),
    {
        let mut s = scan;
        while s > 0
            invariant
                lists_fit(self@),
                s <= scan <= self@.len(),
                owner_above(self@, scan as int, indent as nat) == owner_above(self@, s as int, indent as nat),
            decreases s,
        {
            s -= 1;
            if self.blank_at(s) {
                continue;
            }
            if self.headline_at(s) {
                return None;
            }
            if self.indent_at(s) >= indent {
                continue;
            }
            return self.item_at(s);
        }
        None
    }

    /// The item line `n` belongs to, walking back over continuation lines.
    pub fn enclosing_item(&self, n: u32) -> (r: Option<Item>)
        requires
            lists_fit(self@),
        ensures
            r == enclosing_at(self@, n as int),
    {
        match self.item_at(n) {
            Some(item) => Some(item),
            None => {
                if (n as usize) >= self.lines.len() || self.headline_at(n) {
                    return None;
                }
                let indent = self.indent_at(n);
                self.owner_above(n, indent)
            },
        }
    }

    /// The last line of the item with bullet `indent` deep, scanning from
    /// line `from`, given it reaches `end` so far.
    fn end_from(&self, from: u32, indent: usize, end: u32) -> (r: u32)
        requires
            lists_fit(self@),
            end < self@.len(),
            from <= self@.len(),
        ensures
            r == item_end_from(self@, from as int, indent as nat, end as int),
            r < self@.len(),
    {
        let mut e = end;
        let mut n = from;
        while (n as usize) < self.lines.len()
            invariant
                lists_fit(self@),
                n <= self@.len(),
                e < self@.len(),
                item_end_from(self@, from as int, indent as nat, end as int) == item_end_from(self@, n as int, indent as nat, e as int),
            decreases self@.len() - n,
        {
            if self.blank_at(n) {
                n += 1;
                continue;
            }
            if self.headline_at(n) || self.indent_at(n) <= indent {
                return e;
            }
            e = n;
            n += 1;
        }
        e
    }

    /// Last line of the item at `start`, including its continuation lines
    /// and its nested children: the unit a move or an indent carries.
    pub fn item_end(&self, start: u32) -> (r: u32)
        requires
            lists_fit(self@),
        ensures
            r == item_end_at(self@, start as int),
    {
        match self.item_at(start) {
            None => start,
            Some(item) => self.end_from(start + 1, item.indent, start),
        }
    }

    /// The siblings of `item` (which exists), in order, `item` among them.
    fn siblings_of(&self, item: Item) -> (r: Vec<u32>)
        requires
            lists_fit(self@),
            (item.line as int) < self@.len(),
        ensures
            r@ == siblings_of(self@, item),
    {
        let indent = item.indent;
        // Back to where the list leaves this level.
        let mut before: Vec<u32> = Vec::new();
        let mut scan = item.line;
        let ghost full = siblings_before(self@, item.line as int, indent as nat);
        loop
            invariant_except_break
                full == siblings_before(self@, scan as int, indent as nat) + before@.reverse(),
            invariant
                lists_fit(self@),
                scan <= item.line < self@.len(),
                full == siblings_before(self@, item.line as int, indent as nat),
            ensures
                full == before@.reverse(),
            decreases scan,
        {
            if scan == 0 {
                assert(siblings_before(self@, 0, indent as nat) == Seq::<u32>::empty());
                assert(full =~= before@.reverse());
                break;
            }
            let ghost prev_before = before@;
            scan -= 1;
            if self.blank_at(scan) {
                continue;
            }
            if self.headline_at(scan) || self.indent_at(scan) < indent {
                assert(siblings_before(self@, scan + 1, indent as nat) == Seq::<u32>::empty());
                assert(full =~= before@.reverse());
                break;
            }
            match self.item_at(scan) {
                Some(o) => {
                    if o.indent == indent {
                        before.push(scan);
                        assert(before@.reverse() =~= seq![scan] + prev_before.reverse());
                    }
                },
                None => {},
            }
        }
        proof {
            assert(siblings_before(self@, 0, indent as nat) == Seq::<u32>::empty());
        }
        let mut out: Vec<u32> = Vec::new();
        let mut k = before.len();
        while k > 0
            invariant
                k <= before@.len(),
                out@ == before@.reverse().take((before@.len() - k) as int),
            decreases k,
        {
            k -= 1;
            out.push(before[k]);
            assert(out@ =~= before@.reverse().take((before@.len() - k) as int));
        }
        assert(before@.reverse().take(before@.len() as int) == before@.reverse());
        assert(out@ == full);
        out.push(item.line);
        // Forward, to where the list leaves this level.
        let ghost head = out@;
        let mut n = item.line + 1;
        while (n as usize) < self.lines.len()
            invariant
                lists_fit(self@),
                item.line < n <= self@.len(),
                head + siblings_after(self@, item.line + 1, indent as nat) == out@ + siblings_after(self@, n as int, indent as nat),
            ensures
                head + siblings_after(self@, item.line + 1, indent as nat) == out@,
            decreases self@.len() - n,
        {
            if self.blank_at(n) {
                n += 1;
                continue;
            }
            if self.headline_at(n) || self.indent_at(n) < indent {
                assert(siblings_after(self@, n as int, indent as nat) == Seq::<u32>::empty());
                assert(out@ + Seq::<u32>::empty() == out@);
                break;
            }
            let ghost o0 = out@;
            match self.item_at(n) {
                Some(o) => {
                    if o.indent == indent {
                        out.push(n);
                        assert(o0 + siblings_after(self@, n as int, indent as nat) =~= out@ + siblings_after(self@, n + 1, indent as nat));
                    } else {
                        assert(o0 + siblings_after(self@, n as int, indent as nat) =~= out@ + siblings_after(self@, n + 1, indent as nat));
                    }
                },
                None => {
                    assert(o0 + siblings_after(self@, n as int, indent as nat) =~= out@ + siblings_after(self@, n + 1, indent as nat));
                },
            }
            n += 1;
        }
        out
    }

    /// Item lines at the same indent, in order, within one list.
    pub fn siblings(&self, n: u32) -> (r: Vec<u32>)
        requires
            lists_fit(self@),
        ensures
            r@ == siblings_at(self@, n as int),
    {
        match self.enclosing_item(n) {
            None => Vec::new(),
            Some(item) => {
                proof {
                    lemma_enclosing_exists(self@, n as int);
                }
                self.siblings_of(item)
            },
        }
    }

    /// Item lines one level deeper, directly under the item at `n`. Direct
    /// only: a grandchild belongs to its own parent.
    pub fn children(&self, n: u32) -> (r: Vec<u32>)
        requires
            lists_fit(self@),
        ensures
            r@ == children_at(self@, n as int),
    {
        let item = match self.enclosing_item(n) {
            None => return Vec::new(),
            Some(item) => item,
        };
        proof {
            lemma_enclosing_exists(self@, n as int);
        }
        let end = self.item_end(item.line);
        proof {
            lemma_item_end_bound(self@, item.line as int);
        }
        let mut out: Vec<u32> = Vec::new();
        let mut level: Option<usize> = None;
        let mut m = item.line + 1;
        let ghost whole = children_from(self@, item.line + 1, end as int, item.indent as nat, None);
        while m <= end
            invariant
                lists_fit(self@),
                item.line < m <= end + 1,
                end < self@.len(),
                whole == children_at(self@, n as int),
                whole == out@ + children_from(self@, m as int, end as int, item.indent as nat, match level {
                    Some(l) => Some(l as nat),
                    None => None,
                }),
            decreases end + 1 - m,
        {
            let ghost o0 = out@;
            match self.item_at(m) {
                None => {},
                Some(child) => {
                    if child.indent <= item.indent {
                        assert(whole == out@ + Seq::<u32>::empty());
                        return out;
                    }
                    let want = match level {
                        Some(l) => l,
                        None => child.indent,
                    };
                    level = Some(want);
                    if child.indent == want {
                        out.push(m);
                    }
                    assert(whole =~= out@ + children_from(self@, m + 1, end as int, item.indent as nat, Some(want as nat)));
                },
            }
            m += 1;
        }
        assert(whole == out@ + Seq::<u32>::empty());
        out
    }

    /// The outermost item above `item` in its list.
    fn top_item(&self, item: Item) -> (r: Item)
        requires
            lists_fit(self@),
            (item.line as int) < self@.len(),
            item_at(self@, item.line as int) == Some(item),
        ensures
            r == top_item(self@, item),
            (r.line as int) < self@.len(),
            item_at(self@, r.line as int) == Some(r),
        decreases item.line,
    {
        match self.owner_above(item.line, item.indent) {
            Some(p) => {
                proof {
                    lemma_owner_above_line(self@, item.line as int, item.indent as nat);
                }
                if p.line < item.line {
                    self.top_item(p)
                } else {
                    item
                }
            },
            None => item,
        }
    }

    /// First and last line of the whole list containing `n`.
    pub fn list_span(&self, n: u32) -> (r: Option<(u32, u32)>)
        requires
            lists_fit(self@),
        ensures
            r == list_span_at(self@, n as int),
    {
        let item = match self.enclosing_item(n) {
            None => return None,
            Some(item) => item,
        };
        proof {
            lemma_enclosing_exists(self@, n as int);
        }
        let top = self.top_item(item);
        let sibs = self.siblings_of(top);
        assert(sibs@.len() >= 1);
        let first = sibs[0];
        let last = sibs[sibs.len() - 1];
        assert(sibs@.last() == last);
        Some((first, self.item_end(last)))
    }
}

/// An item found by a scan is an item of the document.
proof fn lemma_enclosing_exists(ls: Seq<Seq<char>>, n: int)
    requires
        ls.len() <= u32::MAX,
    ensures
        match enclosing_at(ls, n) {
            Some(it) => (it.line as int) < ls.len() && item_at(ls, it.line as int) == Some(it),
            None => true,
        },
{
    if item_at(ls, n) is None && 0 <= n < ls.len() && !is_headline(ls[n]) {
        lemma_owner_above_line(ls, n, indent_width(ls[n]));
    }
}

proof fn lemma_owner_above_line(ls: Seq<Seq<char>>, scan: int, indent: nat)
    requires
        ls.len() <= u32::MAX,
    ensures
        match owner_above(ls, scan, indent) {
            Some(it) => 0 <= it.line < scan && (it.line as int) < ls.len() && item_at(ls, it.line as int) == Some(it),
            None => true,
        },
    decreases scan,
{
    if 0 < scan <= ls.len() {
        lemma_owner_above_line(ls, scan - 1, indent);
    }
}

proof fn lemma_item_end_bound(ls: Seq<Seq<char>>, start: int)
    requires
        0 <= start < ls.len(),
    ensures
        start <= item_end_at(ls, start) < ls.len(),
{
    if item_at(ls, start) is Some {
        lemma_item_end_from_bound(ls, start + 1, item_at(ls, start)->0.indent as nat, start);
    }
}

proof fn lemma_item_end_from_bound(ls: Seq<Seq<char>>, n: int, indent: nat, end: int)
    requires
        0 <= end < ls.len(),
        end < n,
    ensures
        end <= item_end_from(ls, n, indent, end) < ls.len(),
    decreases ls.len() - n,
{
    if 0 <= n < ls.len() {
        if blank(ls[n]) {
            lemma_item_end_from_bound(ls, n + 1, indent, end);
        } else if !(is_headline(ls[n]) || indent_width(ls[n]) <= indent) {
            lemma_item_end_from_bound(ls, n + 1, indent, n);
        }
    }
}


// ── renumbering ──

/// `item`'s line with its marker replaced by `bullet`, and everything else —
/// indent, spacing, checkbox, text — as it was written.
pub open spec fn renumbered_text(ls: Seq<Seq<char>>, item: Item, bullet: Bullet) -> Option<Seq<char>> {
    if (item.line as int) < ls.len() {
        let text = ls[item.line as int];
        match parse_item(text, item.indent as nat) {
            None => None,
            Some((_, ml, _)) => match chars_in_bytes(text, item.indent as int) {
                Some(k) => Some(text.take(k as int) + bullet_text(bullet) + text.skip((k + ml) as int)),
                None => None,
            },
        }
    } else {
        None
    }
}

/// The counters left once every level deeper than `indent` is closed.
pub open spec fn pop_deeper(levels: Seq<(usize, u32)>, indent: usize) -> Seq<(usize, u32)>
    decreases levels.len(),
{
    if levels.len() > 0 && levels.last().0 > indent {
        pop_deeper(levels.drop_last(), indent)
    } else {
        levels
    }
}

/// One line of a renumber: the open levels' counters and the rewritten
/// lines so far, after line `n`.
pub open spec fn renumber_step(
    ls: Seq<Seq<char>>,
    levels: Seq<(usize, u32)>,
    out: Seq<(u32, Seq<char>)>,
    n: int,
) -> (Seq<(usize, u32)>, Seq<(u32, Seq<char>)>) {
    match item_at(ls, n) {
        None => (levels, out),
        Some(item) => {
            let lv = pop_deeper(levels, item.indent);
            match item.bullet {
                Bullet::Ordered { n: current, delim } => {
                    let lv2 = if lv.len() == 0 || lv.last().0 != item.indent { lv.push((item.indent, 1u32)) } else { lv };
                    let want = lv2.last().1;
                    let lv3 = lv2.update(lv2.len() - 1, (item.indent, (want + 1) as u32));
                    if want == current {
                        (lv3, out)
                    } else {
                        match renumbered_text(ls, item, Bullet::Ordered { n: want, delim }) {
                            Some(t) => (lv3, out.push((n as u32, t))),
                            None => (lv3, out),
                        }
                    }
                },
                _ => (lv, out),
            }
        },
    }
}

/// A renumber over lines `start..n`.
pub open spec fn renumber_upto(ls: Seq<Seq<char>>, start: int, n: int) -> (Seq<(usize, u32)>, Seq<(u32, Seq<char>)>)
    decreases n - start,
{
    if n <= start {
        (Seq::empty(), Seq::empty())
    } else {
        let (levels, out) = renumber_upto(ls, start, n - 1);
        renumber_step(ls, levels, out, n - 1)
    }
}

/// The lines a renumber of `span` changes, with their new text.
pub open spec fn renumber_span(ls: Seq<Seq<char>>, span: (u32, u32)) -> Seq<(u32, Seq<char>)> {
    renumber_upto(ls, span.0 as int, span.1 + 1).1
}

/// Changed lines as text.
pub open spec fn edits_view(v: Seq<(u32, String)>) -> Seq<(u32, Seq<char>)> {
    v.map_values(|e: (u32, String)| (e.0, e.1@))
}

/// The counters of a renumber are bounded by the lines it has passed.
pub open spec fn counters_fit(levels: Seq<(usize, u32)>, bound: int) -> bool {
    forall|j: int| 0 <= j < levels.len() ==> (#[trigger] levels[j]).1 <= bound
}

proof fn lemma_pop_deeper(levels: Seq<(usize, u32)>, indent: usize, bound: int)
    requires
        counters_fit(levels, bound),
    ensures
        counters_fit(pop_deeper(levels, indent), bound),
        pop_deeper(levels, indent).len() <= levels.len(),
        pop_deeper(levels, indent) == levels.take(pop_deeper(levels, indent).len() as int),
    decreases levels.len(),
{
    if levels.len() > 0 && levels.last().0 > indent {
        lemma_pop_deeper(levels.drop_last(), indent, bound);
        let p = pop_deeper(levels.drop_last(), indent);
        assert(levels.drop_last().take(p.len() as int) == levels.take(p.len() as int));
    } else {
        assert(levels.take(levels.len() as int) == levels);
    }
}

/// `item`'s line with its marker replaced.
fn renumbered(lists: &Lists, item: &Item, bullet: Bullet) -> (r: Option<String>)
    requires
        lists_fit(lists@),
    ensures
        match renumbered_text(lists@, *item, bullet) {
            Some(t) => r is Some && r->0@ == t,
            None => r is None,
        },
{
    let text = match lists.text(item.line) {
        None => return None,
        Some(t) => t,
    };
    assert(byte_len(lists@[item.line as int]) <= LINE_LIMIT);
    let parsed = match parse_line(text.as_str(), item.indent) {
        None => return None,
        Some(p) => p,
    };
    let s = chars_of(text.as_str());
    let k = match chars_in_bytes_of(s.as_slice(), item.indent) {
        None => return None,
        Some(k) => k,
    };
    proof {
        lemma_chars_in_bytes(s@, item.indent as int);
        lemma_marker_fits(s@.skip(k as int), item.indent as nat);
    }
    assert(k + parsed.marker_len <= s@.len());
    let mut out: Vec<char> = Vec::new();
    extend_chars(&mut out, &s.as_slice()[0..k]);
    let b = bullet.render();
    let bc = chars_of(b.as_str());
    extend_chars(&mut out, bc.as_slice());
    let n = s.len();
    extend_chars(&mut out, &s.as_slice()[k + parsed.marker_len..n]);
    assert(s@.subrange(0, k as int) == s@.take(k as int));
    assert(s@.subrange(k + parsed.marker_len, n as int) == s@.skip(k + parsed.marker_len));
    Some(string_of(out.as_slice()))
}

/// Rewrite ordered-list numbering across `span`, per indent level, each
/// level restarting at 1. Answers only the lines that change, so a caller can
/// fold them into one edit. Unordered items are untouched, and leaving a
/// level drops its counter, so two sublists under different parents each
/// start at 1.
pub fn renumber(lists: &Lists, span: (u32, u32)) -> (r: Vec<(u32, String)>)
    requires
        lists_fit(lists@),
    ensures
        edits_view(r@) == renumber_span(lists@, span),
{
    let ghost ls = lists@;
    let mut out: Vec<(u32, String)> = Vec::new();
    let mut levels: Vec<(usize, u32)> = Vec::new();
    assert(edits_view(out@) =~= Seq::<(u32, Seq<char>)>::empty());
    if span.0 > span.1 {
        return out;
    }
    let mut n: u32 = span.0;
    loop
        invariant_except_break
            renumber_upto(ls, span.0 as int, n as int) == (levels@, edits_view(out@)),
            counters_fit(levels@, (if (n as int) <= ls.len() { n as int } else { ls.len() as int }) + 1),
        invariant
            lists_fit(ls),
            ls == lists@,
            span.0 <= n <= span.1,
        ensures
            renumber_upto(ls, span.0 as int, span.1 + 1) == (levels@, edits_view(out@)),
        decreases span.1 - n,
    {
        let ghost bound = (if (n as int) <= ls.len() { n as int } else { ls.len() as int }) + 1;
        let ghost levels0 = levels@;
        let ghost out0 = edits_view(out@);
        match lists.item_at(n) {
            None => {
                assert(renumber_step(ls, levels0, out0, n as int) == (levels0, out0));
            },
            Some(item) => {
                proof {
                    lemma_pop_deeper(levels0, item.indent, bound);
                }
                let ghost popped = pop_deeper(levels0, item.indent);
                while levels.len() > 0 && levels[levels.len() - 1].0 > item.indent
                    invariant
                        pop_deeper(levels@, item.indent) == popped,
                    ensures
                        levels@ == popped,
                    decreases levels@.len(),
                {
                    let ghost before = levels@;
                    levels.pop();
                    assert(levels@ == before.drop_last());
                }
                assert(counters_fit(levels@, bound));
                match item.bullet {
                    Bullet::Ordered { n: current, delim } => {
                        if levels.len() == 0 || levels[levels.len() - 1].0 != item.indent {
                            levels.push((item.indent, 1));
                        }
                        assert(counters_fit(levels@, bound));
                        let idx = levels.len() - 1;
                        let (ind, want) = levels[idx];
                        assert(levels@[idx as int].1 <= bound);
                        assert(want + 1 <= u32::MAX);
                        levels.set(idx, (ind, want + 1));
                        if want != current {
                            match renumbered(lists, &item, Bullet::Ordered { n: want, delim }) {
                                Some(t) => {
                                    let ghost o1 = edits_view(out@);
                                    out.push((n, t));
                                    assert(edits_view(out@) =~= o1.push((n, t@)));
                                },
                                None => {},
                            }
                        }
                        assert(counters_fit(levels@, bound + 1));
                    },
                    _ => {},
                }
            },
        }
        assert(renumber_upto(ls, span.0 as int, n + 1) == renumber_step(ls, levels0, out0, n as int));
        assert(renumber_upto(ls, span.0 as int, n + 1) == (levels@, edits_view(out@)));
        if n == span.1 {
            break;
        }
        n += 1;
    }
    out
}


// ── moving and indenting ──

/// An item's offsets lie within its line.
proof fn lemma_parse_item_bound(line: Seq<char>, indent: nat)
    requires
        byte_len(line) <= u32::MAX,
    ensures
        match parse_item(line, indent) {
            Some((it, ml, _)) => it.content_byte <= byte_len(line) && it.indent == indent && indent <= byte_len(line),
            None => true,
        },
{
    match chars_in_bytes(line, indent as int) {
        None => {},
        Some(k) => {
            lemma_chars_in_bytes(line, indent as int);
            lemma_byte_len_split(line, k as int);
            let rest = line.skip(k as int);
            lemma_marker_fits(rest, indent);
            match marker_of(rest, indent) {
                None => {},
                Some((_, ml)) => {
                    lemma_ascii_prefix(rest, ml);
                    lemma_byte_len_split(rest, ml as int);
                    let after = rest.skip(ml as int);
                    crate::text::lemma_leading_ws_bound(after);
                    lemma_byte_len_split(after, leading_ws(after) as int);
                    let body = after.skip(leading_ws(after) as int);
                    if checkbox_of(body) is Some {
                        lemma_ascii_prefix(body, 3);
                        lemma_byte_len_split(body, 3);
                        let ab = body.skip(3);
                        crate::text::lemma_leading_ws_bound(ab);
                        lemma_byte_len_split(ab, leading_ws(ab) as int);
                    }
                },
            }
        },
    }
}

/// An item's offsets lie within its line, which fits a [`Lists`].
proof fn lemma_item_bound(ls: Seq<Seq<char>>, n: int)
    requires
        lists_fit(ls),
    ensures
        match item_at(ls, n) {
            Some(it) => it.content_byte <= LINE_LIMIT && it.indent <= LINE_LIMIT && it.line == n && 0 <= n < ls.len(),
            None => true,
        },
{
    if 0 <= n < ls.len() {
        assert(byte_len(ls[n]) <= LINE_LIMIT);
        lemma_parse_item_bound(ls[n], indent_width(ls[n]));
    }
}

/// The last line of an item's own text, from line `n` on, given it reaches
/// `end` so far: wrapped text deeper than the bullet, up to a blank line, a
/// headline, a bullet or a line as shallow as the item.
pub open spec fn own_end_from(ls: Seq<Seq<char>>, n: int, indent: nat, end: int) -> int
    decreases ls.len() - n,
{
    if n < 0 || n >= ls.len() {
        end
    } else {
        let t = ls[n];
        if blank(t) || is_headline(t) || item_at(ls, n) is Some || indent_width(t) <= indent {
            end
        } else {
            own_end_from(ls, n + 1, indent, n)
        }
    }
}

/// The last line of `item` not counting its nested children: its own text
/// plus its continuation lines.
pub open spec fn own_end_of(ls: Seq<Seq<char>>, item: Item) -> int {
    own_end_from(ls, item.line + 1, item.indent as nat, item.line as int)
}

/// The indent of the nearest item above line `n` shallower than `indent`,
/// before a headline; 0 when there is none.
pub open spec fn parent_indent_from(ls: Seq<Seq<char>>, n: int, indent: nat) -> nat
    decreases n,
{
    if n <= 0 || n > ls.len() {
        0
    } else {
        let t = ls[n - 1];
        if blank(t) {
            parent_indent_from(ls, n - 1, indent)
        } else if is_headline(t) {
            0
        } else {
            match item_at(ls, n - 1) {
                Some(a) => if (a.indent as nat) < indent { a.indent as nat } else { parent_indent_from(ls, n - 1, indent) },
                None => parent_indent_from(ls, n - 1, indent),
            }
        }
    }
}

/// The last line of `item`'s own text.
fn own_end(lists: &Lists, item: &Item) -> (r: u32)
    requires
        lists_fit(lists@),
        (item.line as int) < lists@.len(),
    ensures
        r == own_end_from(lists@, item.line + 1, item.indent as nat, item.line as int),
        item.line <= r < lists@.len(),
{
    let mut end = item.line;
    let mut n = item.line + 1;
    while (n as usize) < lists.lines.len()
        invariant
            lists_fit(lists@),
            item.line < n <= lists@.len(),
            item.line <= end < n,
            own_end_from(lists@, item.line + 1, item.indent as nat, item.line as int)
                == own_end_from(lists@, n as int, item.indent as nat, end as int),
        decreases lists@.len() - n,
    {
        if lists.blank_at(n) || lists.headline_at(n) || lists.item_at(n).is_some() || lists.indent_at(n) <= item.indent {
            return end;
        }
        end = n;
        n += 1;
    }
    end
}

/// The indent an outdent moves to: the enclosing parent item's own indent.
fn parent_indent(lists: &Lists, item: &Item) -> (r: usize)
    requires
        lists_fit(lists@),
        (item.line as int) < lists@.len(),
    ensures
        r == parent_indent_from(lists@, item.line as int, item.indent as nat),
{
    let mut n = item.line;
    while n > 0
        invariant
            lists_fit(lists@),
            n <= item.line < lists@.len(),
            parent_indent_from(lists@, item.line as int, item.indent as nat) == parent_indent_from(lists@, n as int, item.indent as nat),
        decreases n,
    {
        n -= 1;
        if lists.blank_at(n) {
            continue;
        }
        if lists.headline_at(n) {
            return 0;
        }
        match lists.item_at(n) {
            Some(above) => {
                if above.indent < item.indent {
                    return above.indent;
                }
            },
            None => {},
        }
    }
    0
}

/// `k` spaces.
pub open spec fn spaces(k: nat) -> Seq<char> {
    Seq::new(k, |i: int| ' ')
}

/// Lines `n..=end` moved `shift` bytes right (left when negative), never past
/// column 0, blank lines left alone.
pub open spec fn shifted_lines(ls: Seq<Seq<char>>, n: int, end: int, shift: int) -> Seq<(u32, Seq<char>)>
    decreases end + 1 - n,
{
    if n > end || n < 0 || n >= ls.len() {
        Seq::empty()
    } else {
        let t = ls[n];
        let here = if blank(t) {
            Seq::empty()
        } else {
            let w = indent_width(t) + shift;
            seq![(n as u32, spaces(if w > 0 { w as nat } else { 0 }) + trim_start(t))]
        };
        here + shifted_lines(ls, n + 1, end, shift)
    }
}

/// The column an item at `start` moves to for `delta`: the previous
/// sibling's content column when indenting, the parent's indent when
/// outdenting. `None` when refused: an outdent at column 0, an indent with no
/// previous sibling, or no shift at all.
pub open spec fn shift_target(ls: Seq<Seq<char>>, item: Item, delta: int) -> Option<int> {
    if delta > 0 {
        let before = siblings_before(ls, item.line as int, item.indent as nat);
        if before.len() == 0 {
            None
        } else {
            match item_at(ls, before.last() as int) {
                Some(p) => Some(p.content_byte as int),
                None => None,
            }
        }
    } else if delta < 0 {
        if item.indent == 0 { None } else { Some(parent_indent_from(ls, item.line as int, item.indent as nat) as int) }
    } else {
        None
    }
}

/// What [`shift_item`] answers.
pub open spec fn shift_of(ls: Seq<Seq<char>>, start: int, delta: int, with_children: bool) -> Option<Seq<(u32, Seq<char>)>> {
    match item_at(ls, start) {
        None => None,
        Some(item) => match shift_target(ls, item, delta) {
            None => None,
            Some(target) => {
                let shift = target - item.indent;
                if shift == 0 {
                    None
                } else {
                    let end = if with_children { item_end_at(ls, start) } else { own_end_of(ls, item) };
                    Some(shifted_lines(ls, start, end, shift))
                }
            },
        }
    }
}

/// `text` with its leading whitespace replaced by `width` spaces.
fn reindented(text: &str, width: usize) -> (r: String)
    ensures
        r@ == spaces(width as nat) + trim_start(text@),
{
    let s = chars_of(text);
    let n = s.len();
    let a = skip_ws(&s, 0, n);
    assert(s@.subrange(0, n as int) == s@);
    let mut out: Vec<char> = Vec::new();
    let mut k: usize = 0;
    while k < width
        invariant
            k <= width,
            out@ == spaces(k as nat),
        decreases width - k,
    {
        out.push(' ');
        k += 1;
        assert(out@ =~= spaces(k as nat));
    }
    extend_chars(&mut out, &s.as_slice()[a..n]);
    assert(s@.subrange(a as int, n as int) == trim_start(s@));
    string_of(out.as_slice())
}

/// Re-indent the item at `start` by `delta` levels, carrying its
/// continuation lines and — when `with_children` — its nested items. Answers
/// only the lines that change; `None` when the shift is refused.
///
/// A level is not a fixed number of spaces: indenting nests the item under
/// its previous sibling, so the new indent is that sibling's content column.
/// Refused: an outdent at column zero (a top-level item does not silently
/// become a headline), and an indent with no previous sibling (a sublist
/// needs an owner).
pub fn shift_item(lists: &Lists, start: u32, delta: isize, with_children: bool) -> (r: Option<Vec<(u32, String)>>)
    requires
        lists_fit(lists@),
    ensures
        match shift_of(lists@, start as int, delta as int, with_children) {
            None => r is None,
            Some(v) => r is Some && edits_view(r->0@) == v,
        },
{
    let ghost ls = lists@;
    let item = match lists.item_at(start) {
        None => return None,
        Some(item) => item,
    };
    proof {
        lemma_item_bound(ls, start as int);
    }
    let target: usize = if delta > 0 {
        let sibs = lists.siblings(start);
        assert(enclosing_at(ls, start as int) == Some(item));
        // The siblings before `start` come first, in order.
        let ghost before = siblings_before(ls, item.line as int, item.indent as nat);
        let mut k: usize = 0;
        let mut prev: Option<u32> = None;
        proof {
            lemma_siblings_before_below(ls, start as int, item.indent as nat);
        }
        while k < sibs.len() && sibs[k] < start
            invariant
                sibs@ == before + seq![item.line] + siblings_after(ls, item.line + 1, item.indent as nat),
                k <= before.len(),
                item.line == start,
                forall|j: int| 0 <= j < before.len() ==> (#[trigger] before[j]) < start,
                prev == (if k == 0 { None } else { Some(before[k - 1]) }),
            decreases sibs@.len() - k,
        {
            prev = Some(sibs[k]);
            k += 1;
        }
        let p = match prev {
            None => {
                proof {
                    if before.len() > 0 {
                        assert(sibs@[0] == before[0]);
                    }
                }
                return None;
            },
            Some(p) => p,
        };
        assert(k == before.len()) by {
            if k < before.len() {
                assert(sibs@[k as int] == before[k as int]);
            }
        }
        match lists.item_at(p) {
            None => return None,
            Some(pi) => {
                proof {
                    lemma_item_bound(ls, p as int);
                }
                pi.content_byte as usize
            },
        }
    } else if delta < 0 {
        if item.indent == 0 {
            return None;
        }
        let t = parent_indent(lists, &item);
        proof {
            lemma_parent_indent_bound(ls, item.line as int, item.indent as nat);
        }
        t
    } else {
        return None;
    };
    let shift: isize = target as isize - item.indent as isize;
    if shift == 0 {
        return None;
    }
    let end = if with_children {
        proof {
            lemma_item_end_bound(ls, start as int);
        }
        lists.item_end(start)
    } else {
        own_end(lists, &item)
    };
    let mut out: Vec<(u32, String)> = Vec::new();
    let mut n = start;
    let ghost whole = shifted_lines(ls, start as int, end as int, shift as int);
    assert(edits_view(out@) =~= Seq::<(u32, Seq<char>)>::empty());
    while n <= end
        invariant
            lists_fit(ls),
            ls == lists@,
            start <= n <= end + 1,
            end < ls.len(),
            -LINE_LIMIT <= shift <= LINE_LIMIT,
            whole == shifted_lines(ls, start as int, end as int, shift as int),
            whole == edits_view(out@) + shifted_lines(ls, n as int, end as int, shift as int),
        decreases end + 1 - n,
    {
        let ghost o0 = edits_view(out@);
        if !lists.blank_at(n) {
            let w = lists.indent_at(n) as isize + shift;
            let width: usize = if w > 0 { w as usize } else { 0 };
            let t = reindented(lists.lines[n as usize].as_str(), width);
            out.push((n, t));
            assert(edits_view(out@) =~= o0.push((n, t@)));
        }
        assert(o0 + shifted_lines(ls, n as int, end as int, shift as int) =~= edits_view(out@) + shifted_lines(ls, n + 1, end as int, shift as int));
        n += 1;
    }
    assert(edits_view(out@) + Seq::<(u32, Seq<char>)>::empty() == edits_view(out@));
    Some(out)
}

proof fn lemma_siblings_before_below(ls: Seq<Seq<char>>, scan: int, indent: nat)
    ensures
        forall|j: int| 0 <= j < siblings_before(ls, scan, indent).len() ==> (#[trigger] siblings_before(ls, scan, indent)[j]) < scan,
        ls.len() <= u32::MAX ==> forall|j: int| 0 <= j < siblings_before(ls, scan, indent).len() ==> (#[trigger] siblings_before(ls, scan, indent)[j]) < scan,
    decreases scan,
{
    if 0 < scan <= ls.len() {
        lemma_siblings_before_below(ls, scan - 1, indent);
        let prev = siblings_before(ls, scan - 1, indent);
        let t = ls[scan - 1];
        if !blank(t) && !(is_headline(t) || indent_width(t) < indent) {
            let cur = siblings_before(ls, scan, indent);
            assert forall|j: int| 0 <= j < cur.len() implies (#[trigger] cur[j]) < scan by {
                if j < prev.len() {
                    assert(cur[j] == prev[j]);
                }
            }
        }
    }
}

proof fn lemma_parent_indent_bound(ls: Seq<Seq<char>>, n: int, indent: nat)
    ensures
        parent_indent_from(ls, n, indent) <= indent,
    decreases n,
{
    if 0 < n <= ls.len() {
        lemma_parent_indent_bound(ls, n - 1, indent);
    }
}

/// The text of the item at `n` and everything it carries, lines joined by
/// `\n`; `None` past the end.
pub open spec fn block_text(ls: Seq<Seq<char>>, n: int) -> Option<Seq<char>> {
    if 0 <= n < ls.len() {
        Some(crate::text::join(ls.subrange(n, item_end_at(ls, n) + 1), seq!['\n']))
    } else {
        None
    }
}

/// The item at `n` and everything it carries, as it stands.
fn block(lists: &Lists, n: u32) -> (r: Option<String>)
    requires
        lists_fit(lists@),
    ensures
        match block_text(lists@, n as int) {
            Some(t) => r is Some && r->0@ == t,
            None => r is None,
        },
{
    if (n as usize) >= lists.lines.len() {
        return None;
    }
    let end = lists.item_end(n);
    proof {
        lemma_item_end_bound(lists@, n as int);
    }
    let mut parts: Vec<String> = Vec::new();
    let mut i = n;
    while i <= end
        invariant
            lists_fit(lists@),
            n <= i <= end + 1,
            end < lists@.len(),
            texts_of_lines(parts@) == lists@.subrange(n as int, i as int),
        decreases end + 1 - i,
    {
        assert(lists@[i as int] == lists.lines@[i as int]@);
        let t = lists.lines[i as usize].clone();
        assert(t@ == lists@[i as int]);
        let ghost p0 = parts@;
        parts.push(t);
        assert(parts@ == p0.push(t));
        assert(texts_of_lines(parts@).len() == texts_of_lines(p0).len() + 1);
        assert forall|k: int| 0 <= k < texts_of_lines(parts@).len() implies texts_of_lines(parts@)[k] == lists@.subrange(n as int, i + 1)[k] by {
            if k < texts_of_lines(p0).len() {
                assert(texts_of_lines(parts@)[k] == parts@[k]@);
                assert(parts@[k] == p0[k]);
                assert(texts_of_lines(p0)[k] == p0[k]@);
                assert(lists@.subrange(n as int, i as int)[k] == lists@[n + k]);
            } else {
                assert(texts_of_lines(parts@)[k] == parts@[k]@);
            }
        }
        assert(texts_of_lines(parts@) =~= lists@.subrange(n as int, i + 1));
        i += 1;
    }
    let j = crate::text::join_chars(parts.as_slice(), "\n");
    proof {
        reveal_strlit("\n");
        assert("\n"@ =~= seq!['\n']);
    }
    Some(string_of(j.as_slice()))
}

/// Lines as text.
pub open spec fn texts_of_lines(v: Seq<String>) -> Seq<Seq<char>> {
    crate::text::texts_of(v)
}

/// Where `x` first occurs in `s`.
pub open spec fn index_of_line(s: Seq<u32>, x: u32) -> Option<int>
    decreases s.len(),
{
    if s.len() == 0 {
        None
    } else if s[0] == x {
        Some(0)
    } else {
        match index_of_line(s.drop_first(), x) {
            Some(i) => Some(i + 1),
            None => None,
        }
    }
}

/// The two siblings a move of `start` by `delta` swaps, in document order.
pub open spec fn move_pair(ls: Seq<Seq<char>>, start: int, delta: int) -> Option<(u32, u32)> {
    let sibs = siblings_at(ls, start);
    match index_of_line(sibs, start as u32) {
        None => None,
        Some(idx) => if delta < 0 {
            if idx >= 1 { Some((sibs[idx - 1], start as u32)) } else { None }
        } else if delta > 0 {
            if idx + 1 < sibs.len() { Some((start as u32, sibs[idx + 1])) } else { None }
        } else {
            None
        },
    }
}

/// What [`move_item`] answers: the later sibling's block above the earlier
/// one's.
pub open spec fn moved_text(ls: Seq<Seq<char>>, start: int, delta: int) -> Option<Seq<char>> {
    match move_pair(ls, start, delta) {
        None => None,
        Some((first, second)) => {
            let (a, b) = if delta < 0 { (block_text(ls, start), block_text(ls, first as int)) } else { (block_text(ls, second as int), block_text(ls, start)) };
            match (a, b) {
                (Some(x), Some(y)) => Some(x + seq!['\n'] + y),
                _ => None,
            }
        },
    }
}

/// What [`move_span`] answers: from the first of the two siblings through
/// the end of the second.
pub open spec fn moved_span(ls: Seq<Seq<char>>, start: int, delta: int) -> Option<(u32, u32)> {
    match move_pair(ls, start, delta) {
        None => None,
        Some((first, second)) => Some((first, item_end_at(ls, second as int) as u32)),
    }
}

/// Where `start` sits among `sibs`.
fn position(sibs: &Vec<u32>, start: u32) -> (r: Option<usize>)
    ensures
        match index_of_line(sibs@, start) {
            Some(i) => r == Some(i as usize),
            None => r is None,
        },
{
    let mut i: usize = 0;
    assert(sibs@.skip(0) == sibs@);
    while i < sibs.len()
        invariant
            i <= sibs@.len(),
            index_of_line(sibs@, start) == (match index_of_line(sibs@.skip(i as int), start) {
                Some(j) => Some(j + i),
                None => None,
            }),
        decreases sibs@.len() - i,
    {
        assert(sibs@.skip(i as int)[0] == sibs@[i as int]);
        assert(sibs@.skip(i as int).drop_first() == sibs@.skip(i + 1));
        if sibs[i] == start {
            return Some(i);
        }
        i += 1;
    }
    None
}

/// The two siblings a move swaps.
fn pair(lists: &Lists, start: u32, delta: isize) -> (r: Option<(u32, u32)>)
    requires
        lists_fit(lists@),
    ensures
        r == move_pair(lists@, start as int, delta as int),
{
    let sibs = lists.siblings(start);
    assert(sibs@.skip(0) == sibs@);
    let idx = match position(&sibs, start) {
        None => return None,
        Some(i) => i,
    };
    proof {
        lemma_index_of_line(sibs@, start);
    }
    if delta < 0 {
        if idx >= 1 { Some((sibs[idx - 1], start)) } else { None }
    } else if delta > 0 {
        if idx + 1 < sibs.len() { Some((start, sibs[idx + 1])) } else { None }
    } else {
        None
    }
}

proof fn lemma_index_of_line(s: Seq<u32>, x: u32)
    ensures
        match index_of_line(s, x) {
            Some(i) => 0 <= i < s.len(),
            None => true,
        },
    decreases s.len(),
{
    if s.len() > 0 && s[0] != x {
        lemma_index_of_line(s.drop_first(), x);
    }
}

/// Swap the item at `start` with its previous (`delta < 0`) or next
/// (`delta > 0`) sibling, carrying continuation lines and children: the
/// rewritten block, with no trailing newline. `None` at either end of the
/// sibling chain, so a move never splices an item into a neighbouring list.
pub fn move_item(lists: &Lists, start: u32, delta: isize) -> (r: Option<String>)
    requires
        lists_fit(lists@),
    ensures
        match moved_text(lists@, start as int, delta as int) {
            Some(t) => r is Some && r->0@ == t,
            None => r is None,
        },
{
    let (first, second) = match pair(lists, start, delta) {
        None => return None,
        Some(p) => p,
    };
    let (a, b) = if delta < 0 { (block(lists, start), block(lists, first)) } else { (block(lists, second), block(lists, start)) };
    match (a, b) {
        (Some(x), Some(y)) => {
            let mut out = chars_of(x.as_str());
            out.push('\n');
            let yc = chars_of(y.as_str());
            extend_chars(&mut out, yc.as_slice());
            Some(string_of(out.as_slice()))
        },
        _ => None,
    }
}

/// The line span [`move_item`]'s block is written over: from the first of
/// the two swapped siblings through the end of the second.
pub fn move_span(lists: &Lists, start: u32, delta: isize) -> (r: Option<(u32, u32)>)
    requires
        lists_fit(lists@),
    ensures
        r == moved_span(lists@, start as int, delta as int),
{
    match pair(lists, start, delta) {
        None => None,
        Some((first, second)) => Some((first, lists.item_end(second))),
    }
}


/// Every line a renumber answers exists, and its new text differs from what
/// is there: a renumber answers only the lines that change.
pub open spec fn changes_only(ls: Seq<Seq<char>>, out: Seq<(u32, Seq<char>)>) -> bool {
    forall|i: int| 0 <= i < out.len() ==> (#[trigger] out[i]).0 < ls.len() && out[i].1 != ls[out[i].0 as int]
}

/// A renumber answers only the lines that change.
pub proof fn lemma_renumber_changes_only(ls: Seq<Seq<char>>, span: (u32, u32))
    requires
        ls.len() <= u32::MAX,
        forall|i: int| 0 <= i < ls.len() ==> byte_len(#[trigger] ls[i]) <= u32::MAX,
    ensures
        changes_only(ls, renumber_span(ls, span)),
{
    lemma_renumber_upto_changes_only(ls, span.0 as int, span.1 + 1);
}

proof fn lemma_renumber_upto_changes_only(ls: Seq<Seq<char>>, start: int, n: int)
    requires
        ls.len() <= u32::MAX,
        forall|i: int| 0 <= i < ls.len() ==> byte_len(#[trigger] ls[i]) <= u32::MAX,
    ensures
        changes_only(ls, renumber_upto(ls, start, n).1),
    decreases n - start,
{
    if n > start {
        lemma_renumber_upto_changes_only(ls, start, n - 1);
        let (levels, out) = renumber_upto(ls, start, n - 1);
        let (_, out2) = renumber_step(ls, levels, out, n - 1);
        if out2.len() > out.len() {
            let item = item_at(ls, n - 1)->0;
            match item.bullet {
                Bullet::Ordered { n: current, delim } => {
                    let lv = pop_deeper(levels, item.indent);
                    let lv2 = if lv.len() == 0 || lv.last().0 != item.indent { lv.push((item.indent, 1u32)) } else { lv };
                    let want = lv2.last().1;
                    lemma_renumbered_differs(ls, item, current, want, delim);
                    assert(out2 == out.push(((n - 1) as u32, renumbered_text(ls, item, Bullet::Ordered { n: want, delim })->0)));
                    assert forall|i: int| 0 <= i < out2.len() implies (#[trigger] out2[i]).0 < ls.len() && out2[i].1 != ls[out2[i].0 as int] by {
                        if i < out.len() {
                            assert(out2[i] == out[i]);
                        }
                    }
                },
                _ => {},
            }
        }
    }
}

/// Rewriting an ordered item's number to a different number changes its
/// line.
proof fn lemma_renumbered_differs(ls: Seq<Seq<char>>, item: Item, current: u32, want: u32, delim: Delim)
    requires
        ls.len() <= u32::MAX,
        forall|i: int| 0 <= i < ls.len() ==> byte_len(#[trigger] ls[i]) <= u32::MAX,
        item_at(ls, item.line as int) == Some(item),
        item.bullet == (Bullet::Ordered { n: current, delim }),
        want != current,
    ensures
        match renumbered_text(ls, item, Bullet::Ordered { n: want, delim }) {
            Some(t) => t != ls[item.line as int],
            None => true,
        },
{
    let text = ls[item.line as int];
    match renumbered_text(ls, item, Bullet::Ordered { n: want, delim }) {
        None => {},
        Some(t) => {
            let k = chars_in_bytes(text, item.indent as int)->0;
            lemma_chars_in_bytes(text, item.indent as int);
            let rest = text.skip(k as int);
            let (_, ml, _) = parse_item(text, item.indent as nat)->0;
            lemma_marker_fits(rest, item.indent as nat);
            let d = digit_run(rest);
            crate::text::lemma_digit_run_bound(rest);
            let b = bullet_text(Bullet::Ordered { n: want, delim });
            crate::text::lemma_decimal_digits(want as nat);
            if t == text {
                assert(t == text.take(k as int) + b + text.skip((k + ml) as int));
                assert(text =~= text.take(k as int) + rest.take(ml as int) + text.skip((k + ml) as int));
                assert(b.len() == ml);
                assert(t.subrange(k as int, (k + ml) as int) =~= b);
                assert(text.subrange(k as int, (k + ml) as int) =~= rest.take(ml as int));
                assert(b == rest.take(ml as int));
                let dw = decimal(want as nat);
                assert(dw.len() == d);
                assert(dw =~= rest.take(d as int)) by {
                    assert forall|i: int| 0 <= i < d implies dw[i] == rest.take(d as int)[i] by {
                        assert(b[i] == dw[i]);
                        assert(rest.take(ml as int)[i] == rest[i]);
                    }
                }
                assert(dw[0] != '+') by {
                    assert(crate::text::is_digit(dw[0]));
                }
                assert(unsigned_value(dw) == Some(want as nat));
                assert(parse_u32(rest.take(d as int)) == Some(want));
                assert(item.indent as nat == indent_width(text)) by {
                    crate::text::lemma_leading_ws_bound(text);
                    crate::text::lemma_byte_len_monotone(text, leading_ws(text) as int, text.len() as int);
                    assert(text.take(text.len() as int) =~= text);
                }
                assert(marker_of(rest, item.indent as nat) == Some((item.bullet, ml)));
                assert(!(rest[0] == '-' || rest[0] == '+' || rest[0] == '*'));
                assert(parse_u32(rest.take(d as int)) == Some(current));
                assert(false);
            }
        },
    }
}


// ── the item a line belongs to ──

/// A line that starts an item is no headline: a `*` bullet at column 0 is
/// not a bullet, and an indented line does not open with `*`.
proof fn lemma_item_line_not_headline(t: Seq<char>)
    requires
        parse_item(t, indent_width(t)) is Some,
    ensures
        !is_headline(t),
{
    crate::text::lemma_leading_ws_bound(t);
    if t.len() > 0 && t[0] == '*' {
        assert(!crate::text::is_ws(t[0]));
        assert(leading_ws(t) == 0);
        assert(t.take(0) =~= Seq::<char>::empty());
        assert(indent_width(t) == 0);
        assert(t.skip(0) =~= t);
        assert(marker_of(t, 0) is None);
    }
    if !(t.len() > 0 && t[0] == '*') {
        assert(crate::headline::star_run(t) == 0);
    }
}

proof fn lemma_owner_above(ls: Seq<Seq<char>>, scan: int, indent: nat)
    requires
        ls.len() <= u32::MAX,
    ensures
        owner_above(ls, scan, indent) matches Some(e) ==> {
            &&& 0 <= e.line < scan <= ls.len()
            &&& item_at(ls, e.line as int) == Some(e)
            &&& forall|k: int| e.line <= k < scan ==> !is_headline(#[trigger] ls[k])
        },
    decreases scan,
{
    if 0 < scan <= ls.len() {
        let t = ls[scan - 1];
        if blank(t) || (!is_headline(t) && indent_width(t) >= indent) {
            lemma_owner_above(ls, scan - 1, indent);
            if blank(t) {
                crate::text::lemma_leading_ws_bound(t);
                crate::text::lemma_trailing_ws_bound(crate::text::trim_start(t));
                if t.len() > 0 && t[0] == '*' {
                    assert(!crate::text::is_ws(t[0]));
                    assert(leading_ws(t) == 0);
                    assert(crate::text::trim_start(t) =~= t);
                    assert(!crate::text::is_ws(crate::text::trim_start(t)[0]));
                    assert(false);
                }
                assert(crate::headline::star_run(t) == 0);
            }
        } else if !is_headline(t) {
            if let Some(e) = item_at(ls, scan - 1) {
                lemma_item_line_not_headline(t);
            }
        }
    }
}

/// The item a line belongs to: an item starting at the line is its own; any
/// other answer starts above it, with no headline in between; and a headline
/// belongs to no item.
pub proof fn lemma_enclosing_item(ls: Seq<Seq<char>>, n: int)
    requires
        0 <= n < ls.len() <= u32::MAX,
    ensures
        item_at(ls, n) matches Some(it) ==> enclosing_at(ls, n) == Some(it),
        enclosing_at(ls, n) matches Some(e) ==> {
            &&& e.line <= n
            &&& item_at(ls, e.line as int) == Some(e)
            &&& forall|k: int| e.line <= k <= n ==> !is_headline(#[trigger] ls[k])
        },
        is_headline(ls[n]) ==> enclosing_at(ls, n) is None,
{
    match item_at(ls, n) {
        Some(it) => {
            lemma_item_line_not_headline(ls[n]);
        },
        None => {
            if !is_headline(ls[n]) {
                lemma_owner_above(ls, n, indent_width(ls[n]));
            }
        },
    }
}

} // verus!
