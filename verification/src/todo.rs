//! TODO keywords: reading the configured sequence, naming a headline by its
//! title, and the styling and highlighting a keyword gets.
//!
//! The sequence keeps emacs' spelling — `sequence: TODO(t) NEXT(n) | DONE(d)`
//! — with its fast-select keys and logging specs, so a configuration pasted
//! from emacs keeps meaning what it meant.
use vstd::prelude::*;

use crate::headline::{headline_level, level_of};
use crate::roam::{headline_title, title_of_headline};
use crate::text::{chars_of, extend_chars, is_ws, is_ws_char, string_of, texts_of, trim, trim_range};

verus! {

/// A character a keyword may be spelled with: letters, digits, `_` and `-`.
/// Nothing else, because a keyword ends up inside a highlight query.
pub open spec fn keyword_char(c: char) -> bool {
    ('a' <= c <= 'z') || ('A' <= c <= 'Z') || ('0' <= c <= '9') || c == '_' || c == '-'
}

/// The whitespace-separated words of `s` after `k` characters: those
/// finished, and the one in progress.
pub open spec fn words_state(s: Seq<char>, k: int) -> (Seq<Seq<char>>, Seq<char>)
    decreases k,
{
    if k <= 0 {
        (Seq::empty(), Seq::empty())
    } else {
        let (out, cur) = words_state(s, k - 1);
        if is_ws(s[k - 1]) {
            (if cur.len() > 0 { out.push(cur) } else { out }, Seq::empty())
        } else {
            (out, cur.push(s[k - 1]))
        }
    }
}

/// The whitespace-separated words of `s`.
pub open spec fn words(s: Seq<char>) -> Seq<Seq<char>> {
    let (out, cur) = words_state(s, s.len() as int);
    if cur.len() > 0 { out.push(cur) } else { out }
}

/// The keyword a word of the sequence names, if it names one: `|` divides
/// the active states from the done ones and `sequence:` introduces a line;
/// neither is a keyword. A fast-select key or logging spec in brackets,
/// `TODO(t)` or `DONE(d!)`, is not part of the name.
pub open spec fn keyword_of(w: Seq<char>) -> Option<Seq<char>> {
    let name = w.take(first_paren(w));
    if w == seq!['|'] || w.last() == ':' {
        None
    } else if name.len() > 0 && forall|i: int| 0 <= i < name.len() ==> keyword_char(#[trigger] name[i]) {
        Some(name)
    } else {
        None
    }
}

/// Where the first `(` of `w` is, or its length when it has none.
pub open spec fn first_paren(w: Seq<char>) -> int
    decreases w.len(),
{
    if w.len() == 0 {
        0
    } else if w[0] == '(' {
        0
    } else {
        1 + first_paren(w.drop_first())
    }
}

/// The keywords of every word, in order.
pub open spec fn keywords_in(ws: Seq<Seq<char>>) -> Seq<Seq<char>>
    decreases ws.len(),
{
    if ws.len() == 0 {
        Seq::empty()
    } else {
        keywords_in(ws.drop_last()) + match keyword_of(ws.last()) {
            Some(k) => seq![k],
            None => Seq::empty(),
        }
    }
}

proof fn lemma_first_paren(w: Seq<char>, k: int)
    requires
        0 <= k <= w.len(),
        forall|i: int| 0 <= i < k ==> w[i] != '(',
        k < w.len() ==> w[k] == '(',
    ensures
        first_paren(w) == k,
    decreases k,
{
    if k > 0 {
        assert(w[0] != '(');
        assert forall|i: int| 0 <= i < k - 1 implies w.drop_first()[i] != '(' by {
            assert(w.drop_first()[i] == w[i + 1]);
        }
        if k < w.len() {
            assert(w.drop_first()[k - 1] == w[k]);
        }
        lemma_first_paren(w.drop_first(), k - 1);
    }
}

/// The keyword one word of the sequence names.
fn keyword_of_word(w: &[char]) -> (r: Option<String>)
    requires
        w@.len() > 0,
    ensures
        match keyword_of(w@) {
            Some(k) => r is Some && r->0@ == k,
            None => r is None,
        },
{
    let n = w.len();
    if (n == 1 && w[0] == '|') || w[n - 1] == ':' {
        proof {
            if n == 1 && w[0] == '|' {
                assert(w@ =~= seq!['|']);
            }
        }
        return None;
    }
    assert(w@ != seq!['|']) by {
        if w@ == seq!['|'] {
            assert(w@.len() == 1 && w@[0] == '|');
        }
    }
    let mut p: usize = 0;
    while p < n && w[p] != '('
        invariant
            p <= n == w@.len(),
            forall|i: int| 0 <= i < p ==> w@[i] != '(',
        decreases n - p,
    {
        p += 1;
    }
    proof {
        lemma_first_paren(w@, p as int);
    }
    let ghost name = w@.take(p as int);
    if p == 0 {
        return None;
    }
    let mut i: usize = 0;
    while i < p
        invariant
            i <= p <= n == w@.len(),
            name == w@.take(p as int),
            first_paren(w@) == p,
            w@ != seq!['|'],
            w@.last() != ':',
            forall|j: int| 0 <= j < i ==> keyword_char(#[trigger] name[j]),
        decreases p - i,
    {
        let c = w[i];
        assert(name[i as int] == c);
        if !(('a' <= c && c <= 'z') || ('A' <= c && c <= 'Z') || ('0' <= c && c <= '9') || c == '_' || c == '-') {
            assert(!keyword_char(name[i as int]));
            return None;
        }
        i += 1;
    }
    Some(string_of(&w[0..p]))
}

/// The keywords the configured sequence names, in order.
pub open spec fn sequence_keywords(text: Seq<char>) -> Seq<Seq<char>> {
    keywords_in(words(text))
}

/// Every keyword the sequence lines in `text` name, in order: active states
/// and done states alike.
pub fn parse_keywords(text: &str) -> (r: Vec<String>)
    ensures
        texts_of(r@) == sequence_keywords(text@),
{
    let s = chars_of(text);
    let mut out: Vec<String> = Vec::new();
    let mut cur: Vec<char> = Vec::new();
    let ghost mut ws: Seq<Seq<char>> = Seq::empty();
    let mut k: usize = 0;
    assert(texts_of(out@) =~= keywords_in(ws));
    while k < s.len()
        invariant
            k <= s@.len(),
            s@ == text@,
            words_state(s@, k as int) == (ws, cur@),
            texts_of(out@) == keywords_in(ws),
        decreases s@.len() - k,
    {
        let c = s[k];
        if is_ws_char(c) {
            if cur.len() > 0 {
                let ghost before = texts_of(out@);
                match keyword_of_word(cur.as_slice()) {
                    Some(kw) => {
                        out.push(kw);
                    },
                    None => {},
                }
                proof {
                    assert(ws.push(cur@).drop_last() == ws);
                    assert(ws.push(cur@).last() == cur@);
                    ws = ws.push(cur@);
                }
                assert(texts_of(out@) =~= keywords_in(ws));
            }
            cur = Vec::new();
        } else {
            cur.push(c);
        }
        k += 1;
    }
    if cur.len() > 0 {
        match keyword_of_word(cur.as_slice()) {
            Some(kw) => {
                out.push(kw);
            },
            None => {},
        }
        proof {
            assert(ws.push(cur@).drop_last() == ws);
            assert(ws.push(cur@).last() == cur@);
            ws = ws.push(cur@);
        }
        assert(texts_of(out@) =~= keywords_in(ws));
    }
    out
}

/// The title of a headline line: what follows the stars, without its TODO
/// keyword, priority, tags or statistics cookie. `None` for a line that is
/// not a headline.
pub open spec fn title_of_line(line: Seq<char>, keywords: Seq<Seq<char>>) -> Option<Seq<char>> {
    match level_of(line) {
        Some(l) => Some(headline_title(line.skip((l + 1) as int), keywords)),
        None => None,
    }
}

/// The title of the headline on `line`, or `None` when it is not one.
pub fn headline_title_of(line: &str, keywords: &[String]) -> (r: Option<String>)
    ensures
        match title_of_line(line@, texts_of(keywords@)) {
            Some(t) => r is Some && r->0@ == t,
            None => r is None,
        },
{
    match headline_level(line) {
        None => None,
        Some(l) => {
            let s = chars_of(line);
            let n = s.len();
            let rest = string_of(&s.as_slice()[l + 1..n]);
            assert(rest@ == line@.skip(l + 1));
            Some(title_of_headline(rest.as_str(), keywords))
        },
    }
}


// ── how a keyword looks ──

/// `(colour, bold, italic, dim)` for org's conventional vocabulary. Abandoned
/// work is deliberately not `DONE`'s green: achieved versus abandoned is the
/// distinction someone scanning an agenda wants.
pub open spec fn conventional_style(name: Seq<char>) -> Option<(Seq<char>, bool, bool, bool)> {
    if name == "TODO"@ {
        Some(("red"@, true, false, false))
    } else if name == "NEXT"@ {
        Some(("blue"@, true, false, false))
    } else if name == "STARTED"@ || name == "IN-PROGRESS"@ || name == "READING"@ || name == "WATCHING"@ || name == "DOING"@ {
        Some(("orange"@, false, false, false))
    } else if name == "WAITING"@ || name == "HOLD"@ || name == "BLOCKED"@ {
        Some(("yellow"@, false, true, false))
    } else if name == "PROJECT"@ || name == "PROJ"@ {
        Some(("blue"@, false, false, false))
    } else if name == "TO-READ"@ || name == "TO-WATCH"@ || name == "SOMEDAY"@ {
        Some(("yellow"@, false, false, false))
    } else if name == "DONE"@ {
        Some(("green"@, true, false, false))
    } else if name == "CANCELLED"@ || name == "CANCELED"@ || name == "KILL"@ || name == "ABANDONED"@ {
        Some(("overlay"@, false, false, true))
    } else {
        None
    }
}

/// Whether `name` is `lit`.
fn is(name: &[char], lit: &str) -> (b: bool)
    ensures
        b == (name@ == lit@),
{
    let l = chars_of(lit);
    assert(name@.subrange(0, name@.len() as int) == name@);
    crate::text::eq_at(name, 0, name.len(), l.as_slice())
}

/// `(fg, bold, italic, dim)` for a conventional keyword. A keyword not listed
/// inherits the active or done style, and is styled sensibly rather than not
/// at all.
pub fn conventional(name: &str) -> (r: Option<(&'static str, bool, bool, bool)>)
    ensures
        match (conventional_style(name@), r) {
            (Some((fg, b, i, d)), Some((rf, rb, ri, rd))) => rf@ == fg && rb == b && ri == i && rd == d,
            (None, None) => true,
            _ => false,
        },
{
    let n = chars_of(name);
    if is(&n, "TODO") {
        Some(("red", true, false, false))
    } else if is(&n, "NEXT") {
        Some(("blue", true, false, false))
    } else if is(&n, "STARTED") || is(&n, "IN-PROGRESS") || is(&n, "READING") || is(&n, "WATCHING") || is(&n, "DOING") {
        Some(("orange", false, false, false))
    } else if is(&n, "WAITING") || is(&n, "HOLD") || is(&n, "BLOCKED") {
        Some(("yellow", false, true, false))
    } else if is(&n, "PROJECT") || is(&n, "PROJ") {
        Some(("blue", false, false, false))
    } else if is(&n, "TO-READ") || is(&n, "TO-WATCH") || is(&n, "SOMEDAY") {
        Some(("yellow", false, false, false))
    } else if is(&n, "DONE") {
        Some(("green", true, false, false))
    } else if is(&n, "CANCELLED") || is(&n, "CANCELED") || is(&n, "KILL") || is(&n, "ABANDONED") {
        Some(("overlay", false, false, true))
    } else {
        None
    }
}

/// The highlight rule for one keyword: the capture name is the keyword's own
/// theme element, and `.` anchors it to the start of the headline's item, so
/// a keyword in the middle of a title stays prose.
pub open spec fn rule_text(k: Seq<char>) -> Seq<char> {
    "(headline (item . (expr) @org.todo."@ + k + ")\n  (#eq? @org.todo."@ + k + " \""@ + k + "\"))\n"@
}

/// The rules for every keyword, in order.
pub open spec fn rules_text(ks: Seq<Seq<char>>) -> Seq<char>
    decreases ks.len(),
{
    if ks.len() == 0 {
        Seq::empty()
    } else {
        rules_text(ks.drop_last()) + rule_text(ks.last())
    }
}

/// The TODO-keyword highlight rules, one per keyword, generated from the
/// configured sequence. The keyword parser admits only keyword characters,
/// so no name needs escaping; the rules are built for whatever names come.
pub fn rules(keywords: &[String]) -> (r: String)
    ensures
        r@ == rules_text(texts_of(keywords@)),
{
    let ghost ks = texts_of(keywords@);
    let a = chars_of("(headline (item . (expr) @org.todo.");
    let b = chars_of(")\n  (#eq? @org.todo.");
    let c = chars_of(" \"");
    let d = chars_of("\"))\n");
    let mut out: Vec<char> = Vec::new();
    let mut i: usize = 0;
    while i < keywords.len()
        invariant
            i <= keywords@.len(),
            ks == texts_of(keywords@),
            a@ == "(headline (item . (expr) @org.todo."@,
            b@ == ")\n  (#eq? @org.todo."@,
            c@ == " \""@,
            d@ == "\"))\n"@,
            out@ == rules_text(ks.take(i as int)),
        decreases keywords@.len() - i,
    {
        let k = chars_of(keywords[i].as_str());
        assert(ks[i as int] == k@);
        extend_chars(&mut out, a.as_slice());
        extend_chars(&mut out, k.as_slice());
        extend_chars(&mut out, b.as_slice());
        extend_chars(&mut out, k.as_slice());
        extend_chars(&mut out, c.as_slice());
        extend_chars(&mut out, k.as_slice());
        extend_chars(&mut out, d.as_slice());
        assert(ks.take(i + 1).drop_last() == ks.take(i as int));
        assert(ks.take(i + 1).last() == k@);
        assert(out@ =~= rules_text(ks.take(i + 1)));
        i += 1;
    }
    assert(ks.take(keywords@.len() as int) == ks);
    string_of(out.as_slice())
}

} // verus!
