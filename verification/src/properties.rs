//! Reading and writing an entry's `:PROPERTIES:` drawer.
//!
//! The answer to "put this key here" is an edit over lines, not a rewritten
//! file: [`PropertyEdit`] names the line and what happens to it. The one thing
//! every writer must agree on — which line a drawer starts on — is
//! [`drawer_line_for`].
use vstd::prelude::*;

use crate::planning::{parse as parse_planning_line, parse_planning};
use crate::text::{
    chars_of, eq_ignore_case, eq_ignore_case_at, extend_chars, find, find_in, is_ws, leading_ws,
    matches_at, skip_ws, skip_ws_back, string_of, to_ascii_lower, trailing_ws, trim, trim_end,
    trim_range, trim_start,
};

verus! {

/// What writing one property comes to, as an edit over lines. `text` is whole
/// lines with no trailing newline.
#[derive(Debug, Clone, PartialEq, Eq)]
pub enum PropertyEdit {
    /// Insert `text` before line `at`, pushing what is there down.
    Insert { at: u32, text: String },
    /// Replace line `at` entirely with `text`.
    Replace { at: u32, text: String },
}

/// The document's lines, as text.
pub open spec fn lines_view(lines: Seq<String>) -> Seq<Seq<char>> {
    lines.map_values(|s: String| s@)
}

/// The line an entry's drawer starts on: one past the headline, or one past
/// the planning line when the headline has one, since a drawer above the plan
/// would take the plan out of the entry.
pub open spec fn drawer_line(lines: Seq<Seq<char>>, headline: int) -> int {
    let first = headline + 1;
    if 0 <= first < lines.len() && parse_planning(lines[first]) is Some {
        first + 1
    } else {
        first
    }
}

/// `s` padded on the right with spaces to `width` characters.
pub open spec fn pad_right(s: Seq<char>, width: nat) -> Seq<char> {
    if s.len() >= width {
        s
    } else {
        s + Seq::new((width - s.len()) as nat, |i: int| ' ')
    }
}

/// `:KEY: value` as org writes it (`%-10s %s`), trailing whitespace trimmed.
pub open spec fn property_line(indent: Seq<char>, key: Seq<char>, value: Seq<char>) -> Seq<char> {
    trim_end(indent + pad_right(seq![':'] + key + seq![':'], 10) + seq![' '] + value)
}

/// The line opens a properties drawer.
pub open spec fn opens_drawer_text(text: Seq<char>) -> bool {
    eq_ignore_case(trim(text), ":properties:"@)
}

/// The line declares `key`, whatever the case of either.
pub open spec fn declares_text(text: Seq<char>, key: Seq<char>) -> bool {
    let t = trim(text);
    t.len() > 0 && t[0] == ':' && match find(t.skip(1), seq![':']) {
        Some(i) => eq_ignore_case(trim(t.skip(1).take(i)), key),
        None => false,
    }
}

/// The line ends a drawer walk: `:END:`, or a headline when the drawer was
/// never closed.
pub open spec fn ends_walk(text: Seq<char>) -> bool {
    let t = trim(text);
    eq_ignore_case(t, ":end:"@) || (t.len() > 0 && t[0] == '*')
}

/// The first line from `i` on that declares `key`, before the walk ends.
pub open spec fn declaring_line(lines: Seq<Seq<char>>, i: int, key: Seq<char>) -> Option<int>
    decreases lines.len() - i,
{
    if i < 0 || i >= lines.len() {
        None
    } else if ends_walk(lines[i]) {
        None
    } else if declares_text(lines[i], key) {
        Some(i)
    } else {
        declaring_line(lines, i + 1, key)
    }
}

/// The edit `set_entry_property` makes: `(replace?, line, text)`.
pub open spec fn property_edit(lines: Seq<Seq<char>>, headline: int, key: Seq<char>, value: Seq<char>) -> (bool, int, Seq<char>) {
    let first = drawer_line(lines, headline);
    if !(0 <= first < lines.len() && opens_drawer_text(lines[first])) {
        (false, first, ":PROPERTIES:\n"@ + property_line(Seq::<char>::empty(), key, value) + "\n:END:"@)
    } else {
        match declaring_line(lines, first + 1, key) {
            Some(i) => (true, i, property_line(lines[i].take(leading_ws(lines[i]) as int), key, value)),
            None => (false, first + 1, property_line(
                lines[first].take(leading_ws(lines[first]) as int),
                key,
                value,
            )),
        }
    }
}

/// The line an entry's `:PROPERTIES:` drawer starts on, whether or not one is
/// there yet.
pub fn drawer_line_for(lines: &[String], headline_line: u32) -> (r: u32)
    requires
        headline_line < u32::MAX - 1,
    ensures
        r == drawer_line(lines_view(lines@), headline_line as int),
{
    let first = headline_line + 1;
    if (first as usize) < lines.len() {
        if parse_planning_line(lines[first as usize].as_str()).is_some() {
            return first + 1;
        }
    }
    first
}

/// `:KEY:` padded the way org writes it, so a property written here sits flush
/// with the ones org wrote. A long key is left unpadded, never truncated.
pub fn format_property(indent: &str, key: &str, value: &str) -> (r: String)
    ensures
        r@ == property_line(indent@, key@, value@),
{
    let mut out = chars_of(indent);
    let mut name: Vec<char> = Vec::new();
    name.push(':');
    let k = chars_of(key);
    extend_chars(&mut name, k.as_slice());
    name.push(':');
    let ghost n0 = name@;
    assert(n0 == seq![':'] + key@ + seq![':']);
    while name.len() < 10
        invariant
            n0.len() <= name@.len() <= (if n0.len() >= 10 { n0.len() } else { 10 }),
            name@ == n0 + Seq::new((name@.len() - n0.len()) as nat, |i: int| ' '),
        decreases 10 - name@.len(),
    {
        name.push(' ');
        assert(name@ =~= n0 + Seq::new((name@.len() - n0.len()) as nat, |i: int| ' '));
    }
    assert(name@ =~= pad_right(n0, 10));
    extend_chars(&mut out, name.as_slice());
    out.push(' ');
    let v = chars_of(value);
    extend_chars(&mut out, v.as_slice());
    let ghost full = indent@ + pad_right(seq![':'] + key@ + seq![':'], 10) + seq![' '] + value@;
    assert(out@ =~= full);
    let n = out.len();
    assert(out@.subrange(0, n as int) == out@);
    let e = skip_ws_back(&out, 0, n);
    let r = string_of(&out.as_slice()[0..e]);
    assert(r@ =~= trim_end(full));
    r
}

/// Is `text` the opener of a properties drawer?
fn opens_drawer(text: &str) -> (b: bool)
    ensures
        b == opens_drawer_text(text@),
{
    let t = chars_of(text);
    let n = t.len();
    assert(t@.subrange(0, n as int) == t@);
    let (a, b) = trim_range(&t, 0, n);
    let p = chars_of(":properties:");
    eq_ignore_case_at(&t, a, b, p.as_slice())
}

/// The whitespace `text` begins with.
fn leading_ws_of(text: &str) -> (r: String)
    ensures
        r@ == text@.take(leading_ws(text@) as int),
{
    let t = chars_of(text);
    let n = t.len();
    assert(t@.subrange(0, n as int) == t@);
    let e = skip_ws(&t, 0, n);
    string_of(&t.as_slice()[0..e])
}

/// Does this drawer line declare `key`? Case-insensitively: a second `:id:`
/// beside an existing `:ID:` would give one property two values.
fn declares(text: &str, key: &str) -> (b: bool)
    ensures
        b == declares_text(text@, key@),
{
    let t = chars_of(text);
    let n = t.len();
    assert(t@.subrange(0, n as int) == t@);
    let (a, b) = trim_range(&t, 0, n);
    let ghost tt = t@.subrange(a as int, b as int);
    if a == b || t[a] != ':' {
        return false;
    }
    let colon = [':'];
    assert(colon@ == seq![':']);
    assert(tt.skip(1) == t@.subrange(a + 1, b as int));
    match find_in(&t, a + 1, b, &colon) {
        None => false,
        Some(i) => {
            assert(tt.skip(1).take(i - (a + 1)) == t@.subrange(a + 1, i as int));
            let (na, nb) = trim_range(&t, a + 1, i);
            let k = chars_of(key);
            eq_ignore_case_at(&t, na, nb, k.as_slice())
        },
    }
}

/// Whether a drawer walk stops at `text`.
fn ends_walk_exec(text: &str) -> (b: bool)
    ensures
        b == ends_walk(text@),
{
    let t = chars_of(text);
    let n = t.len();
    assert(t@.subrange(0, n as int) == t@);
    let (a, b) = trim_range(&t, 0, n);
    let e = chars_of(":end:");
    eq_ignore_case_at(&t, a, b, e.as_slice()) || (a < b && t[a] == '*')
}

/// The edit that makes `:KEY: value` true of the entry at `headline_line`.
///
/// | State | Answer |
/// |---|---|
/// | No drawer | insert a whole `:PROPERTIES:` / `:KEY:` / `:END:` block |
/// | Drawer, key absent | insert the line just inside the opener |
/// | Drawer, key present | replace that line |
///
/// A drawer that is never closed stops the walk at the next headline, so the
/// property never lands on the entry below.
pub fn set_entry_property(lines: &[String], headline_line: u32, key: &str, value: &str) -> (r: PropertyEdit)
    requires
        headline_line < u32::MAX - 2,
        lines@.len() < u32::MAX,
    ensures
        ({
            let (replace, at, text) = property_edit(lines_view(lines@), headline_line as int, key@, value@);
            match r {
                PropertyEdit::Insert { at: a, text: t } => !replace && a == at && t@ == text,
                PropertyEdit::Replace { at: a, text: t } => replace && a == at && t@ == text,
            }
        }),
{
    let ghost lv = lines_view(lines@);
    let first = drawer_line_for(lines, headline_line);
    if (first as usize) >= lines.len() || !opens_drawer(lines[first as usize].as_str()) {
        let mut out = chars_of(":PROPERTIES:\n");
        let p = format_property("", key, value);
        let pc = chars_of(p.as_str());
        extend_chars(&mut out, pc.as_slice());
        let end = chars_of("\n:END:");
        extend_chars(&mut out, end.as_slice());
        proof {
            reveal_strlit("");
        }
        return PropertyEdit::Insert { at: first, text: string_of(out.as_slice()) };
    }
    let opener = &lines[first as usize];
    assert(lv[first as int] == opener@);
    let indent = leading_ws_of(opener.as_str());
    let mut i: u32 = first + 1;
    loop
        invariant
            first + 1 <= i <= lines@.len(),
            lv == lines_view(lines@),
            lines@.len() < u32::MAX,
            first == drawer_line(lv, headline_line as int),
            first < lv.len(),
            opens_drawer_text(lv[first as int]),
            declaring_line(lv, first + 1, key@) == declaring_line(lv, i as int, key@),
        ensures
            declaring_line(lv, first + 1, key@) is None,
        decreases lines@.len() - i,
    {
        if (i as usize) >= lines.len() {
            break;
        }
        let text = &lines[i as usize];
        assert(lv[i as int] == text@);
        if ends_walk_exec(text.as_str()) {
            break;
        }
        if declares(text.as_str(), key) {
            assert(declaring_line(lv, i as int, key@) == Some(i as int));
            let ind = leading_ws_of(text.as_str());
            let t = format_property(ind.as_str(), key, value);
            return PropertyEdit::Replace { at: i, text: t };
        }
        i += 1;
    }
    PropertyEdit::Insert { at: first + 1, text: format_property(indent.as_str(), key, value) }
}

/// Lines `from..=to`, up to byte `to_len` of line `to`, rewritten as `text`.
#[derive(Debug, Clone, PartialEq, Eq)]
pub struct PropertyWrite {
    pub from: u32,
    pub to: u32,
    pub to_len: u32,
    pub text: String,
}

/// Whether `w` is the write that `key: value` comes to on the entry at
/// `headline`. A replace rewrites its line; an insert rewrites the line above
/// with the new lines after it, which stays correct at the end of the
/// document, and is no write when that line is not there.
pub open spec fn property_write_is(w: Option<PropertyWrite>, lines: Seq<Seq<char>>, headline: int, key: Seq<char>, value: Seq<char>) -> bool {
    let (replace, at, text) = property_edit(lines, headline, trim(key), trim(value));
    if trim(key).len() == 0 {
        w is None
    } else if replace {
        w matches Some(x) && x.from == at && x.to == at && x.to_len == (if at < lines.len() {
            crate::text::byte_len(lines[at])
        } else {
            0
        }) && x.text@ == text
    } else {
        let above = if at == 0 { 0 } else { at - 1 };
        if above < lines.len() {
            w matches Some(x) && x.from == above && x.to == above && x.to_len == crate::text::byte_len(lines[above])
                && x.text@ == lines[above] + seq!['\n'] + text
        } else {
            w is None
        }
    }
}

/// The bytes `s` takes.
fn bytes_of(s: &str) -> (r: u32)
    requires
        crate::text::byte_len(s@) <= u32::MAX,
    ensures
        r == crate::text::byte_len(s@),
{
    let c = chars_of(s);
    assert(c@.subrange(0, c@.len() as int) == c@);
    crate::text::byte_len_in(&c, 0, c.len())
}

/// Set property `key` to `value` on the entry at `headline_line`, both
/// answers trimmed, as one write over the document's lines. A blank key is
/// no write: writing `::` into a drawer is the worst answer to a hop that did
/// not run.
pub fn property_write(lines: &[String], headline_line: u32, key: &str, value: &str) -> (r: Option<PropertyWrite>)
    requires
        headline_line < u32::MAX - 2,
        lines@.len() < u32::MAX,
        forall|i: int| 0 <= i < lines@.len() ==> crate::text::byte_len(#[trigger] lines@[i]@) <= u32::MAX,
    ensures
        property_write_is(r, lines_view(lines@), headline_line as int, key@, value@),
{
    let ghost lv = lines_view(lines@);
    let kc = chars_of(key);
    let kn = kc.len();
    assert(kc@.subrange(0, kn as int) == kc@);
    let (ka, kb) = trim_range(&kc, 0, kn);
    if ka == kb {
        return None;
    }
    let k = string_of(&kc.as_slice()[ka..kb]);
    let vc = chars_of(value);
    let vn = vc.len();
    assert(vc@.subrange(0, vn as int) == vc@);
    let (va, vb) = trim_range(&vc, 0, vn);
    let v = string_of(&vc.as_slice()[va..vb]);
    match set_entry_property(lines, headline_line, k.as_str(), v.as_str()) {
        PropertyEdit::Replace { at, text } => {
            let len = if (at as usize) < lines.len() {
                assert(lv[at as int] == lines@[at as int]@);
                bytes_of(lines[at as usize].as_str())
            } else {
                0
            };
            Some(PropertyWrite { from: at, to: at, to_len: len, text })
        },
        PropertyEdit::Insert { at, text } => {
            let above = if at == 0 { 0 } else { at - 1 };
            if (above as usize) < lines.len() {
                assert(lv[above as int] == lines@[above as int]@);
                let prev = lines[above as usize].as_str();
                let len = bytes_of(prev);
                let mut out = chars_of(prev);
                out.push('\n');
                let tc = chars_of(text.as_str());
                extend_chars(&mut out, tc.as_slice());
                assert(out@ =~= lv[above as int] + seq!['\n'] + text@);
                Some(PropertyWrite { from: above, to: above, to_len: len, text: string_of(out.as_slice()) })
            } else {
                None
            }
        },
    }
}


// ── a key written twice ──

/// A key that reads back as itself: not blank, no whitespace at either end,
/// no `:` inside, and not `END`, whose empty line would read as the drawer's
/// close.
pub open spec fn plain_key(key: Seq<char>) -> bool {
    &&& key.len() > 0
    &&& !is_ws(key[0])
    &&& !is_ws(key.last())
    &&& forall|i: int| 0 <= i < key.len() ==> #[trigger] key[i] != ':'
    &&& !eq_ignore_case(key, "end"@)
}

/// Trailing whitespace is all `trim_end` removes: a character that is not
/// whitespace stays, with everything before it.
proof fn lemma_trim_end_keeps(x: Seq<char>, p: int)
    requires
        0 <= p < x.len(),
        !is_ws(x[p]),
    ensures
        p < trim_end(x).len(),
        forall|i: int| 0 <= i <= p ==> #[trigger] trim_end(x)[i] == x[i],
{
    crate::text::lemma_trailing_ws_bound(x);
}

/// `line` opens with `ind`, then `:key:`.
spec fn opens_with(line: Seq<char>, ind: Seq<char>, key: Seq<char>) -> bool {
    &&& line.len() >= ind.len() + key.len() + 2
    &&& forall|i: int| 0 <= i < ind.len() ==> #[trigger] line[i] == ind[i]
    &&& line[ind.len() as int] == ':'
    &&& forall|i: int| 0 <= i < key.len() ==> #[trigger] line[ind.len() + 1 + i] == key[i]
    &&& line[(ind.len() + key.len() + 1) as int] == ':'
}

#[verifier::spinoff_prover]
proof fn lemma_line_opens(ind: Seq<char>, key: Seq<char>, value: Seq<char>)
    ensures
        opens_with(property_line(ind, key, value), ind, key),
{
    let name = seq![':'] + key + seq![':'];
    let full = ind + pad_right(name, 10) + seq![' '] + value;
    let n = ind.len() as int;
    let k = key.len() as int;
    assert forall|i: int| 0 <= i < k + 2 implies #[trigger] full[n + i] == name[i] by {
        assert(full[n + i] == pad_right(name, 10)[i]);
    }
    assert(full[n + k + 1] == ':');
    lemma_trim_end_keeps(full, n + k + 1);
    let line = property_line(ind, key, value);
    assert forall|i: int| 0 <= i < n implies #[trigger] line[i] == ind[i] by {
        assert(full[i] == ind[i]);
    }
    assert forall|i: int| 0 <= i < k implies #[trigger] line[n + 1 + i] == key[i] by {
        assert(full[n + 1 + i] == name[1 + i]);
    }
    assert(line[n] == full[n]);
    assert(line[n + k + 1] == full[n + k + 1]);
}

/// A line that opens with whitespace, then `:key:`, declares `key` and does
/// not end the drawer.
#[verifier::spinoff_prover]
proof fn lemma_opens_declares(line: Seq<char>, ind: Seq<char>, key: Seq<char>)
    requires
        opens_with(line, ind, key),
        forall|i: int| 0 <= i < ind.len() ==> is_ws(#[trigger] ind[i]),
        plain_key(key),
    ensures
        leading_ws(line) == ind.len(),
        line.take(ind.len() as int) == ind,
        declares_text(line, key),
{
    let n = ind.len() as int;
    let k = key.len() as int;
    crate::text::lemma_leading_ws_at(line, n);
    assert(line.take(n) =~= ind);
    let y = trim_start(line);
    assert(y =~= line.skip(n));
    assert(y[k + 1] == ':');
    lemma_trim_end_keeps(y, k + 1);
    let t = trim(line);
    assert(t[0] == y[0]);
    let u = t.skip(1);
    assert forall|i: int| 0 <= i < k implies #[trigger] u[i] == key[i] by {
        assert(u[i] == t[i + 1]);
        assert(t[i + 1] == y[i + 1]);
        assert(y[i + 1] == line[n + 1 + i]);
        assert(line[ind.len() + 1 + i] == key[i]);
    }
    assert(u[k] == y[k + 1]);
    assert(u.subrange(k, k + 1) =~= seq![':']);
    assert forall|j: int| 0 <= j < k implies !matches_at(u, seq![':'], j) by {
        assert(u.subrange(j, j + 1)[0] == u[j]);
    }
    crate::text::lemma_find_is(u, seq![':'], k);
    assert(u.take(k) =~= key);
    crate::text::lemma_leading_ws_at(key, 0);
    crate::text::lemma_trailing_ws_at(key, k);
    assert(trim_start(key) =~= key);
    assert(trim(key) =~= key);
}

/// A line that opens with whitespace, then `:key:` for a plain key, is not
/// a drawer's close.
#[verifier::spinoff_prover]
proof fn lemma_opens_not_end(line: Seq<char>, ind: Seq<char>, key: Seq<char>)
    requires
        opens_with(line, ind, key),
        forall|i: int| 0 <= i < ind.len() ==> is_ws(#[trigger] ind[i]),
        plain_key(key),
    ensures
        !ends_walk(line),
{
    let n = ind.len() as int;
    let k = key.len() as int;
    crate::text::lemma_leading_ws_at(line, n);
    let y = trim_start(line);
    assert(y =~= line.skip(n));
    lemma_trim_end_keeps(y, k + 1);
    let t = trim(line);
    assert(t[0] == y[0]);
    assert(t[k + 1] == y[k + 1]);
    reveal_strlit(":end:");
    reveal_strlit("end");
    if eq_ignore_case(t, ":end:"@) {
        let lt = to_ascii_lower(t);
        let le = to_ascii_lower(":end:"@);
        assert(lt.len() == 5);
        if k < 3 {
            assert(lt[k + 1] == crate::text::ascii_lower(t[k + 1]));
            assert(le[k + 1] != ':');
        } else {
            assert forall|i: int| 0 <= i < 3 implies #[trigger] to_ascii_lower(key)[i] == to_ascii_lower("end"@)[i] by {
                assert(lt[i + 1] == le[i + 1]);
                assert(t[i + 1] == y[i + 1]);
                assert(y[i + 1] == line[n + 1 + i]);
                assert(line[ind.len() + 1 + i] == key[i]);
                assert(lt[i + 1] == crate::text::ascii_lower(t[i + 1]));
                assert(le[i + 1] == to_ascii_lower("end"@)[i]);
            }
            assert(to_ascii_lower(key) =~= to_ascii_lower("end"@));
        }
    }
}

/// The document once `key: value` is set on the entry at `headline`: the
/// lines the edit writes, put in place.
pub open spec fn written(ls: Seq<Seq<char>>, headline: int, key: Seq<char>, value: Seq<char>) -> Seq<Seq<char>> {
    let first = drawer_line(ls, headline);
    if !(0 <= first < ls.len() && opens_drawer_text(ls[first])) {
        ls.take(first) + seq![":PROPERTIES:"@, property_line(Seq::<char>::empty(), key, value), ":END:"@] + ls.skip(first)
    } else {
        match declaring_line(ls, first + 1, key) {
            Some(i) => ls.update(i, property_line(ls[i].take(leading_ws(ls[i]) as int), key, value)),
            None => ls.take(first + 1) + seq![
                property_line(ls[first].take(leading_ws(ls[first]) as int), key, value),
            ] + ls.skip(first + 1),
        }
    }
}

/// The line the property is written on, and its indent.
pub open spec fn written_place(ls: Seq<Seq<char>>, headline: int, key: Seq<char>) -> (int, Seq<char>) {
    let first = drawer_line(ls, headline);
    if !(0 <= first < ls.len() && opens_drawer_text(ls[first])) {
        (first + 1, Seq::<char>::empty())
    } else {
        match declaring_line(ls, first + 1, key) {
            Some(i) => (i, ls[i].take(leading_ws(ls[i]) as int)),
            None => (first + 1, ls[first].take(leading_ws(ls[first]) as int)),
        }
    }
}

proof fn lemma_declaring_line_range(ls: Seq<Seq<char>>, j: int, key: Seq<char>)
    ensures
        declaring_line(ls, j, key) matches Some(i) ==> 0 <= j <= i < ls.len() && declares_text(ls[i], key)
            && forall|k: int| j <= k < i ==> !ends_walk(#[trigger] ls[k]) && !declares_text(ls[k], key),
    decreases ls.len() - j,
{
    if 0 <= j < ls.len() && !ends_walk(ls[j]) && !declares_text(ls[j], key) {
        lemma_declaring_line_range(ls, j + 1, key);
    }
}

proof fn lemma_declaring_line_same(ls: Seq<Seq<char>>, w: Seq<Seq<char>>, j: int, i: int, key: Seq<char>)
    requires
        0 <= j <= i < w.len(),
        forall|k: int| j <= k < i ==> #[trigger] w[k] == ls[k] && !ends_walk(ls[k]) && !declares_text(ls[k], key),
        declares_text(w[i], key),
        !ends_walk(w[i]),
    ensures
        declaring_line(w, j, key) == Some(i),
    decreases i - j,
{
    if j < i {
        assert(w[j] == ls[j]);
        lemma_declaring_line_same(ls, w, j + 1, i, key);
    }
}

/// The drawer's opener is no planning line.
proof fn lemma_opener_not_planning()
    ensures
        crate::planning::parse_planning(":PROPERTIES:"@) is None,
        opens_drawer_text(":PROPERTIES:"@),
{
    reveal_strlit(":PROPERTIES:");
    reveal_strlit(":properties:");
    reveal_strlit("CLOSED:");
    reveal_strlit("DEADLINE:");
    reveal_strlit("SCHEDULED:");
    let p = ":PROPERTIES:"@;
    crate::text::lemma_leading_ws_at(p, 0);
    crate::text::lemma_trailing_ws_at(p, p.len() as int);
    assert(trim_start(p) =~= p);
    assert(trim(p) =~= p);
    assert(p.subrange(0, 7)[0] != "CLOSED:"@[0]);
    assert(p.subrange(0, 9)[0] != "DEADLINE:"@[0]);
    assert(p.subrange(0, 10)[0] != "SCHEDULED:"@[0]);
    assert(crate::planning::keyword_at(p) is None);
    assert(to_ascii_lower(p) =~= to_ascii_lower(":properties:"@));
}

/// Setting a key and then setting it again replaces the line the first
/// write put there: a key is never declared twice, wherever the drawer was.
pub proof fn lemma_second_write_replaces(ls: Seq<Seq<char>>, headline: int, key: Seq<char>, v1: Seq<char>, v2: Seq<char>)
    requires
        0 <= headline < ls.len(),
        plain_key(key),
    ensures
        ({
            let (at, ind) = written_place(ls, headline, key);
            &&& written(ls, headline, key, v1)[at] == property_line(ind, key, v1)
            &&& property_edit(written(ls, headline, key, v1), headline, key, v2) == (true, at, property_line(ind, key, v2))
        }),
{
    let first = drawer_line(ls, headline);
    let w = written(ls, headline, key, v1);
    let (at, ind) = written_place(ls, headline, key);
    lemma_opener_not_planning();
    if !(0 <= first < ls.len() && opens_drawer_text(ls[first])) {
        assert(w[first] == ":PROPERTIES:"@);
        assert(w[first + 1] == property_line(ind, key, v1));
        if first == headline + 1 {
            assert(drawer_line(w, headline) == first);
        } else {
            assert(w[headline + 1] == ls[headline + 1]);
            assert(drawer_line(w, headline) == first);
        }
    } else {
        lemma_declaring_line_range(ls, first + 1, key);
        crate::text::lemma_leading_ws_bound(ls[first]);
        assert(w[headline + 1] == ls[headline + 1]);
        assert(drawer_line(w, headline) == first);
        assert(w[first] == ls[first]);
        match declaring_line(ls, first + 1, key) {
            Some(i) => {
                crate::text::lemma_leading_ws_bound(ls[i]);
            },
            None => {},
        }
    }
    assert(forall|i: int| 0 <= i < ind.len() ==> is_ws(#[trigger] ind[i]));
    lemma_line_opens(ind, key, v1);
    lemma_opens_declares(property_line(ind, key, v1), ind, key);
    lemma_opens_not_end(property_line(ind, key, v1), ind, key);
    assert(w[at] == property_line(ind, key, v1));
    if 0 <= first < ls.len() && opens_drawer_text(ls[first]) {
        if let Some(i) = declaring_line(ls, first + 1, key) {
            lemma_declaring_line_same(ls, w, first + 1, i, key);
        } else {
            lemma_declaring_line_same(ls, w, first + 1, first + 1, key);
        }
    } else {
        lemma_declaring_line_same(ls, w, first + 1, first + 1, key);
    }
}

/// The lines an insert puts in: the text of the edit, line by line.
pub open spec fn inserted_lines(ls: Seq<Seq<char>>, headline: int, key: Seq<char>, value: Seq<char>) -> Seq<Seq<char>> {
    let first = drawer_line(ls, headline);
    if !(0 <= first < ls.len() && opens_drawer_text(ls[first])) {
        seq![":PROPERTIES:"@, property_line(Seq::<char>::empty(), key, value), ":END:"@]
    } else {
        seq![property_line(ls[first].take(leading_ws(ls[first]) as int), key, value)]
    }
}

/// [`written`] is the document with the edit applied: a replace puts its text
/// on its line, an insert puts its text's lines before its line.
pub proof fn lemma_written_is_the_edit(ls: Seq<Seq<char>>, headline: int, key: Seq<char>, value: Seq<char>)
    requires
        0 <= headline < ls.len(),
    ensures
        ({
            let (replace, at, text) = property_edit(ls, headline, key, value);
            &&& replace ==> written(ls, headline, key, value) == ls.update(at, text)
            &&& !replace ==> written(ls, headline, key, value) == ls.take(at) + inserted_lines(ls, headline, key, value)
                + ls.skip(at) && crate::text::join(inserted_lines(ls, headline, key, value), seq!['\n']) == text
        }),
{
    reveal_strlit(":PROPERTIES:\n");
    reveal_strlit("\n:END:");
    reveal_strlit(":PROPERTIES:");
    reveal_strlit(":END:");
    let first = drawer_line(ls, headline);
    let block = inserted_lines(ls, headline, key, value);
    if !(0 <= first < ls.len() && opens_drawer_text(ls[first])) {
        let l = property_line(Seq::<char>::empty(), key, value);
        let sep = seq!['\n'];
        assert(block.drop_last().drop_last() =~= seq![":PROPERTIES:"@]);
        assert(block.drop_last() =~= seq![":PROPERTIES:"@, l]);
        assert(crate::text::join(block.drop_last().drop_last(), sep) == ":PROPERTIES:"@);
        assert(crate::text::join(block.drop_last(), sep) == ":PROPERTIES:"@ + sep + l);
        assert(crate::text::join(block, sep) == ":PROPERTIES:"@ + sep + l + sep + ":END:"@);
        assert(crate::text::join(block, sep) =~= ":PROPERTIES:\n"@ + l + "\n:END:"@);
    } else if declaring_line(ls, first + 1, key) is None {
        assert(ls.take(first + 1) + block + ls.skip(first + 1) =~= written(ls, headline, key, value));
    }
}

} // verus!
