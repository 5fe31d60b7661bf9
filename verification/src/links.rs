//! Org's links: inline images, and the link under the cursor.
//!
//! An image is a link ALONE on its line (`[[file:img/diagram.png]]`), because
//! a block can only hang below a line, never inside one. Opening a link has no
//! such rule: the cursor may sit in one mid-sentence.
use vstd::prelude::*;

use crate::headline::texts;
use crate::text::{
    byte_len, byte_len_in, chars_of, eq_at, find, find_in, last_index_in, last_index_of,
    lemma_byte_len_monotone, lemma_last_index_of, lowered, matches_at, starts_with_at, string_of,
    to_ascii_lower, trim, trim_range,
};

verus! {

/// One image link found in a buffer.
#[derive(Debug, Clone, PartialEq, Eq)]
pub struct ImageLink {
    /// 0-based line the link occupies, which is the line the block hangs below.
    pub line: u32,
    /// The path exactly as written; the host resolves it.
    pub path: String,
    /// The link's description, when it has a non-blank one: the alt text.
    pub description: Option<String>,
}

pub open spec fn opt_text(o: Option<String>) -> Option<Seq<char>> {
    match o {
        Some(s) => Some(s@),
        None => None,
    }
}

/// `s` begins with `p`.
pub open spec fn starts(s: Seq<char>, p: Seq<char>) -> bool {
    matches_at(s, p, 0)
}

/// A character a URI scheme may be spelled with.
pub open spec fn scheme_char(c: char) -> bool {
    ('a' <= c <= 'z') || ('A' <= c <= 'Z') || ('0' <= c <= '9') || c == '+'
}

/// `s` starts with a `scheme:` of at least two characters. A single character
/// before the `:` is a drive letter (`c:/img/a.png`), not a scheme. Counting
/// characters rather than bytes gives the same answer, because a scheme is
/// ASCII and a non-ASCII character before the `:` rules it out either way.
pub open spec fn has_scheme_text(s: Seq<char>) -> bool {
    match find(s, seq![':']) {
        Some(i) => i > 1 && forall|j: int| 0 <= j < i ==> scheme_char(#[trigger] s[j]),
        None => false,
    }
}

/// The extensions treated as images.
pub open spec fn image_ext(e: Seq<char>) -> bool {
    e == "png"@ || e == "jpg"@ || e == "jpeg"@ || e == "gif"@ || e == "webp"@ || e == "svg"@
        || e == "bmp"@
}

/// `path` names an image: it has a dot, and what follows the last one is an
/// image extension in any letter case.
pub open spec fn is_image_path(path: Seq<char>) -> bool {
    match last_index_of(path, '.') {
        Some(i) => image_ext(to_ascii_lower(path.skip(i + 1))),
        None => false,
    }
}

/// `[[inner]]` alone on the line (surrounding whitespace aside): `inner`.
pub open spec fn bracketed(line: Seq<char>) -> Option<Seq<char>> {
    let t = trim(line);
    if t.len() >= 4 && starts(t, "[["@) && t.subrange(t.len() - 2, t.len() as int) == "]]"@ {
        Some(t.subrange(2, t.len() - 2))
    } else {
        None
    }
}

/// The path and description of a link's inside, split at the first `][`.
pub open spec fn split_description(inner: Seq<char>) -> (Seq<char>, Option<Seq<char>>) {
    match find(inner, "]["@) {
        Some(i) => (inner.take(i), Some(inner.skip(i + 2))),
        None => (inner, None),
    }
}

/// The file a link path names, when it names one: after `file:`, or the bare
/// path when it carries no other scheme.
pub open spec fn file_path(path: Seq<char>) -> Option<Seq<char>> {
    if starts(path, "file:"@) {
        Some(path.skip(5))
    } else if !has_scheme_text(path) {
        Some(path)
    } else {
        None
    }
}

/// What [`image_link`] answers for a line: `(path, description)`.
pub open spec fn image_of(line: Seq<char>) -> Option<(Seq<char>, Option<Seq<char>>)> {
    match bracketed(line) {
        None => None,
        Some(inner) => {
            let (path, description) = split_description(inner);
            match file_path(path) {
                None => None,
                Some(p) => if trim(p).len() == 0 || !is_image_path(p) {
                    None
                } else {
                    Some((p, match description {
                        Some(d) => if trim(d).len() == 0 { None } else { Some(d) },
                        None => None,
                    }))
                },
            }
        },
    }
}

/// The image link `line` consists of, if the line is nothing but one.
pub fn image_link(line: &str, line_no: u32) -> (r: Option<ImageLink>)
    ensures
        match image_of(line@) {
            None => r is None,
            Some((path, description)) => r is Some && r->0.line == line_no && r->0.path@ == path
                && opt_text(r->0.description) == description,
        },
{
    proof {
        reveal_strlit("[[");
        reveal_strlit("]]");
        reveal_strlit("][");
        reveal_strlit("file:");
    }
    let s = chars_of(line);
    let n = s.len();
    assert(s@.subrange(0, n as int) == s@);
    let (a, b) = trim_range(&s, 0, n);
    let ghost t = s@.subrange(a as int, b as int);
    let open = chars_of("[[");
    let close = chars_of("]]");
    if b - a < 4 {
        return None;
    }
    assert(s@.subrange(b - 2, b as int) == t.subrange(t.len() - 2, t.len() as int));
    if !starts_with_at(&s, a, b, open.as_slice()) || !eq_at(&s, b - 2, b, close.as_slice()) {
        return None;
    }
    let lo = a + 2;
    let hi = b - 2;
    assert(t.subrange(2, t.len() - 2) == s@.subrange(lo as int, hi as int));
    let ghost inner = s@.subrange(lo as int, hi as int);
    let sep = chars_of("][");
    let (plo, phi, desc) = match find_in(&s, lo, hi, sep.as_slice()) {
        Some(i) => {
            assert(inner.take(i - lo) == s@.subrange(lo as int, i as int));
            assert(inner.skip(i - lo + 2) == s@.subrange(i + 2, hi as int));
            (lo, i, Some(string_of(&s.as_slice()[i + 2..hi])))
        },
        None => (lo, hi, None),
    };
    let ghost path = s@.subrange(plo as int, phi as int);
    assert(path == split_description(inner).0);
    let file = chars_of("file:");
    let start = if starts_with_at(&s, plo, phi, file.as_slice()) {
        assert(path.skip(5) == s@.subrange(plo + 5, phi as int));
        plo + 5
    } else if !has_scheme(&s, plo, phi) {
        plo
    } else {
        return None;
    };
    let ghost p = s@.subrange(start as int, phi as int);
    assert(file_path(path) == Some(p));
    let (ta, tb) = trim_range(&s, start, phi);
    if ta == tb || !is_image(&s, start, phi) {
        return None;
    }
    let description = match desc {
        Some(d) => {
            let dc = chars_of(d.as_str());
            let dn = dc.len();
            assert(dc@.subrange(0, dn as int) == dc@);
            let (da, db) = trim_range(&dc, 0, dn);
            if da == db {
                None
            } else {
                Some(d)
            }
        },
        None => None,
    };
    Some(ImageLink { line: line_no, path: string_of(&s.as_slice()[start..phi]), description })
}

/// Whether `s[lo..hi]` starts with a `scheme:` (see [`has_scheme_text`]).
fn has_scheme(s: &[char], lo: usize, hi: usize) -> (b: bool)
    requires
        lo <= hi <= s@.len(),
    ensures
        b == has_scheme_text(s@.subrange(lo as int, hi as int)),
{
    let ghost t = s@.subrange(lo as int, hi as int);
    let colon = [':'];
    assert(colon@ == seq![':']);
    match find_in(s, lo, hi, &colon) {
        None => false,
        Some(i) => {
            if i - lo <= 1 {
                return false;
            }
            let mut j = lo;
            while j < i
                invariant
                    lo <= j <= i <= hi <= s@.len(),
                    t == s@.subrange(lo as int, hi as int),
                    find(t, seq![':']) == Some(i - lo),
                    forall|k: int| 0 <= k < j - lo ==> scheme_char(#[trigger] t[k]),
                decreases i - j,
            {
                let c = s[j];
                assert(t[j - lo] == c);
                if !(('a' <= c && c <= 'z') || ('A' <= c && c <= 'Z') || ('0' <= c && c <= '9') || c == '+') {
                    assert(!scheme_char(t[j - lo]));
                    return false;
                }
                j += 1;
            }
            true
        },
    }
}

/// Whether `s[lo..hi]` names an image (see [`is_image_path`]).
fn is_image(s: &[char], lo: usize, hi: usize) -> (b: bool)
    requires
        lo <= hi <= s@.len(),
    ensures
        b == is_image_path(s@.subrange(lo as int, hi as int)),
{
    let ghost t = s@.subrange(lo as int, hi as int);
    match last_index_in(s, lo, hi, '.') {
        None => false,
        Some(d) => {
            proof {
                lemma_last_index_of(t, '.');
            }
            assert(t.skip(d - lo + 1) == s@.subrange(d + 1, hi as int));
            let e = lowered(s, d + 1, hi);
            let en = e.len();
            assert(e@.subrange(0, en as int) == e@);
            let png = chars_of("png");
            let jpg = chars_of("jpg");
            let jpeg = chars_of("jpeg");
            let gif = chars_of("gif");
            let webp = chars_of("webp");
            let svg = chars_of("svg");
            let bmp = chars_of("bmp");
            eq_at(&e, 0, en, png.as_slice()) || eq_at(&e, 0, en, jpg.as_slice())
                || eq_at(&e, 0, en, jpeg.as_slice()) || eq_at(&e, 0, en, gif.as_slice())
                || eq_at(&e, 0, en, webp.as_slice()) || eq_at(&e, 0, en, svg.as_slice())
                || eq_at(&e, 0, en, bmp.as_slice())
        },
    }
}

/// What a link points at.
#[derive(Debug, Clone, PartialEq, Eq)]
pub enum Target {
    /// A file on disk, path as written (the host resolves it).
    File(String),
    /// An external URI — `http:`, `https:`, `mailto:` and friends.
    Uri(String),
    /// An internal `*Headline` reference, resolved by searching this buffer.
    Headline(String),
    /// An org-id reference, `[[id:…]]`. Recognised, so that it is never
    /// mistaken for a file that was never meant to exist.
    Id(String),
}

/// A link target as text, by kind.
pub enum LinkTo {
    File(Seq<char>),
    Uri(Seq<char>),
    Headline(Seq<char>),
    Id(Seq<char>),
}

impl View for Target {
    type V = LinkTo;

    open spec fn view(&self) -> LinkTo {
        match self {
            Target::File(s) => LinkTo::File(s@),
            Target::Uri(s) => LinkTo::Uri(s@),
            Target::Headline(s) => LinkTo::Headline(s@),
            Target::Id(s) => LinkTo::Id(s@),
        }
    }
}

/// A link found under the cursor, with its byte span.
#[derive(Debug, Clone, PartialEq, Eq)]
pub struct Link {
    pub start: usize,
    pub end: usize,
    pub target: Target,
}

/// What a link's path points at. `file:` is checked before `id:`, and `id:`
/// before the generic scheme test, so `[[id:X]]` is neither a file nor a URI
/// while `[[file:id:weird.org]]` is still a file.
pub open spec fn classify_text(path: Seq<char>) -> Option<LinkTo> {
    let p = trim(path);
    if p.len() == 0 {
        None
    } else if p[0] == '*' {
        let h = trim(p.skip(1));
        if h.len() == 0 { None } else { Some(LinkTo::Headline(h)) }
    } else if starts(p, "file:"@) {
        let f = p.skip(5);
        if trim(f).len() == 0 { None } else { Some(LinkTo::File(f)) }
    } else if starts(p, "id:"@) {
        let id = trim(p.skip(3));
        if id.len() == 0 { None } else { Some(LinkTo::Id(id)) }
    } else if has_scheme_text(p) {
        Some(LinkTo::Uri(p))
    } else {
        Some(LinkTo::File(p))
    }
}

/// The link scan from character `i` on: the first `[[…]]` whose byte span
/// holds `byte`, as `(open, close, target)` in characters. A link whose span
/// holds the cursor but whose target is empty answers `None`.
pub open spec fn link_from(s: Seq<char>, i: int, byte: int) -> Option<(int, int, Option<LinkTo>)>
    decreases s.len() - i,
{
    if i < 0 || i > s.len() {
        None
    } else {
        match find(s.skip(i), "[["@) {
            None => None,
            Some(o) => {
                let open = i + o;
                match find(s.skip(open), "]]"@) {
                    None => None,
                    Some(c) => {
                        let close = open + c + 2;
                        if close <= i || close > s.len() {
                            None
                        } else if byte_len(s.take(open)) <= byte < byte_len(s.take(close)) {
                            Some((open, close, classify_text(split_description(s.subrange(open + 2, close - 2)).0)))
                        } else if close <= i {
                            None
                        } else {
                            link_from(s, close, byte)
                        }
                    },
                }
            },
        }
    }
}

/// What [`link_at`] answers: the link holding `byte`, by byte span and target.
pub open spec fn link_at_text(s: Seq<char>, byte: int) -> Option<(nat, nat, LinkTo)> {
    match link_from(s, 0, byte) {
        Some((open, close, Some(t))) => Some((byte_len(s.take(open)), byte_len(s.take(close)), t)),
        _ => None,
    }
}

/// The link containing byte `byte` of `line`, if the cursor is inside one.
/// Unlike [`image_link`], the link need not be alone on its line.
pub fn link_at(line: &str, byte: usize) -> (r: Option<Link>)
    requires
        byte_len(line@) <= u32::MAX,
    ensures
        match link_at_text(line@, byte as int) {
            None => r is None,
            Some((start, end, t)) => r is Some && r->0.start == start && r->0.end == end && r->0.target@ == t,
        },
{
    let s = chars_of(line);
    let open_pat = chars_of("[[");
    let close_pat = chars_of("]]");
    let mut i: usize = 0;
    proof {
        reveal_strlit("[[");
        reveal_strlit("]]");
        reveal_strlit("][");
    }
    loop
        invariant
            i <= s@.len(),
            s@ == line@,
            open_pat@ == "[["@,
            close_pat@ == "]]"@,
            byte_len(line@) <= u32::MAX,
            link_from(s@, 0, byte as int) == link_from(s@, i as int, byte as int),
        decreases s@.len() - i,
    {
        proof {
            reveal_strlit("[[");
            reveal_strlit("]]");
            reveal_strlit("][");
        }
        let o = find_in(&s, i, s.len(), open_pat.as_slice());
        assert(s@.subrange(i as int, s@.len() as int) == s@.skip(i as int));
        let open = match o {
            None => return None,
            Some(open) => open,
        };
        let c = find_in(&s, open, s.len(), close_pat.as_slice());
        assert(s@.subrange(open as int, s@.len() as int) == s@.skip(open as int));
        let cpos = match c {
            None => return None,
            Some(cpos) => cpos,
        };
        let close = cpos + 2;
        proof {
            // `[[` sits at `open`, so `]]` cannot start before `open + 2`.
            crate::text::lemma_find_some(s@.skip(i as int), "[["@);
            crate::text::lemma_find_some(s@.skip(open as int), "]]"@);
            assert(s@.skip(i as int).subrange(open - i, open - i + 2) == s@.skip(open as int).subrange(0, 2));
            assert(s@.skip(open as int).subrange(0, 2) == "[["@);
            if cpos < open + 2 {
                let k = cpos - open;
                assert(s@.skip(open as int).subrange(k, k + 2) == "]]"@);
                assert(s@.skip(open as int).subrange(k, k + 2)[0] == s@.skip(open as int)[k]);
                assert(s@.skip(open as int).subrange(0, 2)[k] == s@.skip(open as int)[k]);
                assert("]]"@[0] == ']');
                assert("[["@[k] == '[');
            }
            lemma_byte_len_monotone(s@, open as int, s@.len() as int);
            lemma_byte_len_monotone(s@, close as int, s@.len() as int);
            assert(s@.take(s@.len() as int) == s@);
        }
        let bo = byte_len_in(&s, 0, open);
        let bc = byte_len_in(&s, 0, close);
        assert(s@.subrange(0, open as int) == s@.take(open as int));
        assert(s@.subrange(0, close as int) == s@.take(close as int));
        if (bo as usize) <= byte && byte < (bc as usize) {
            let sep = chars_of("][");
            let plo = open + 2;
            let phi = cpos;
            let ghost inner = s@.subrange(plo as int, phi as int);
            let pend = match find_in(&s, plo, phi, sep.as_slice()) {
                Some(k) => {
                    assert(inner.take(k - plo) == s@.subrange(plo as int, k as int));
                    k
                },
                None => phi,
            };
            let target = classify(&s, plo, pend);
            return match target {
                Some(t) => Some(Link { start: bo as usize, end: bc as usize, target: t }),
                None => None,
            };
        }
        i = close;
    }
}

/// What the link path `s[lo..hi]` points at (see [`classify_text`]).
fn classify(s: &[char], lo: usize, hi: usize) -> (r: Option<Target>)
    requires
        lo <= hi <= s@.len(),
    ensures
        match classify_text(s@.subrange(lo as int, hi as int)) {
            None => r is None,
            Some(t) => r is Some && r->0@ == t,
        },
{
    proof {
        reveal_strlit("file:");
        reveal_strlit("id:");
    }
    let ghost path = s@.subrange(lo as int, hi as int);
    let (a, b) = trim_range(s, lo, hi);
    let ghost p = s@.subrange(a as int, b as int);
    if a == b {
        return None;
    }
    assert(p[0] == s@[a as int]);
    if s[a] == '*' {
        assert(p.skip(1) == s@.subrange(a + 1, b as int));
        let (ha, hb) = trim_range(s, a + 1, b);
        if ha == hb {
            return None;
        }
        return Some(Target::Headline(string_of(&s[ha..hb])));
    }
    let file = chars_of("file:");
    if starts_with_at(s, a, b, file.as_slice()) {
        assert(p.skip(5) == s@.subrange(a + 5, b as int));
        let (fa, fb) = trim_range(s, a + 5, b);
        if fa == fb {
            return None;
        }
        return Some(Target::File(string_of(&s[a + 5..b])));
    }
    let id = chars_of("id:");
    if starts_with_at(s, a, b, id.as_slice()) {
        assert(p.skip(3) == s@.subrange(a + 3, b as int));
        let (ia, ib) = trim_range(s, a + 3, b);
        if ia == ib {
            return None;
        }
        return Some(Target::Id(string_of(&s[ia..ib])));
    }
    if has_scheme(s, a, b) {
        return Some(Target::Uri(string_of(&s[a..b])));
    }
    Some(Target::File(string_of(&s[a..b])))
}


/// The first line from `i` on, below `count`, whose headline title is `title`.
pub open spec fn title_line_from(lines: Seq<Seq<char>>, i: int, count: int, title: Seq<char>, keywords: Seq<Seq<char>>) -> Option<int>
    decreases count - i,
{
    if i < 0 || i >= count {
        None
    } else if i < lines.len() && crate::todo::title_of_line(lines[i], keywords) == Some(title) {
        Some(i)
    } else {
        title_line_from(lines, i + 1, count, title, keywords)
    }
}

/// The 0-based line of the headline whose title is `title`, among the first
/// `line_count` lines. Exact and case-sensitive, like org's own internal
/// links: jumping to the wrong heading is worse than not jumping. The TODO
/// keyword and priority are not part of the title.
pub fn find_headline(lines: &[String], line_count: u32, title: &str, keywords: &[String]) -> (r: Option<u32>)
    ensures
        match title_line_from(texts(lines@), 0, line_count as int, title@, crate::text::texts_of(keywords@)) {
            Some(i) => r == Some(i as u32),
            None => r is None,
        },
{
    let ghost ls = texts(lines@);
    let want = chars_of(title);
    let mut i: u32 = 0;
    while i < line_count
        invariant
            i <= line_count,
            ls == texts(lines@),
            want@ == title@,
            title_line_from(ls, 0, line_count as int, title@, crate::text::texts_of(keywords@))
                == title_line_from(ls, i as int, line_count as int, title@, crate::text::texts_of(keywords@)),
        decreases line_count - i,
    {
        if (i as usize) < lines.len() {
            assert(ls[i as int] == lines@[i as int]@);
            match crate::todo::headline_title_of(lines[i as usize].as_str(), keywords) {
                Some(t) => {
                    let tc = chars_of(t.as_str());
                    if eq_at(&tc, 0, tc.len(), want.as_slice()) {
                        assert(tc@.subrange(0, tc@.len() as int) == tc@);
                        return Some(i);
                    }
                    assert(tc@.subrange(0, tc@.len() as int) == tc@);
                },
                None => {},
            }
        }
        i += 1;
    }
    None
}

/// Where following the link under the caret goes.
#[derive(Debug, Clone, PartialEq, Eq)]
pub enum Follow {
    /// Open the file as a buffer, at its start.
    OpenFile(String),
    /// Hand the URI to the system.
    OpenUri(String),
    /// Move the caret to this headline line of the buffer.
    MoveTo(u32),
    /// An internal reference that names no headline here: the warning.
    NoHeadline(String),
    /// An `id:` reference, resolved through the note index.
    FollowId(String),
}

/// The warning for an internal reference that names no headline.
pub open spec fn no_headline_message(title: Seq<char>) -> Seq<char> {
    "org: no headline named \""@ + title + "\""@
}

/// Follow the link at byte `at_byte` of line `at_line`. An internal
/// `*Headline` reference searches this buffer only and matches the title
/// exactly; naming nothing is a warning, not a jump somewhere arbitrary.
/// `None` when the caret is in no link.
pub fn open_link(lines: &[String], at_line: u32, at_byte: u32, keywords: &[String]) -> (r: Option<Follow>)
    requires
        lines@.len() <= u32::MAX,
        at_line < lines@.len() ==> byte_len(lines@[at_line as int]@) <= u32::MAX,
    ensures
        at_line >= lines@.len() ==> r is None,
        at_line < lines@.len() ==> match link_at_text(texts(lines@)[at_line as int], at_byte as int) {
            None => r is None,
            Some((_, _, t)) => match t {
                LinkTo::File(p) => r matches Some(Follow::OpenFile(q)) && q@ == p,
                LinkTo::Uri(u) => r matches Some(Follow::OpenUri(q)) && q@ == u,
                LinkTo::Id(i) => r matches Some(Follow::FollowId(q)) && q@ == i,
                LinkTo::Headline(h) => match title_line_from(
                    texts(lines@),
                    0,
                    lines@.len() as int,
                    h,
                    crate::text::texts_of(keywords@),
                ) {
                    Some(i) => r == Some(Follow::MoveTo(i as u32)),
                    None => r matches Some(Follow::NoHeadline(m)) && m@ == no_headline_message(h),
                },
            },
        },
{
    if at_line as usize >= lines.len() {
        return None;
    }
    let text = lines[at_line as usize].as_str();
    let link = match link_at(text, at_byte as usize) {
        Some(link) => link,
        None => {
            return None;
        },
    };
    match link.target {
        Target::File(path) => Some(Follow::OpenFile(path)),
        Target::Uri(uri) => Some(Follow::OpenUri(uri)),
        Target::Id(id) => Some(Follow::FollowId(id)),
        Target::Headline(title) => match find_headline(lines, lines.len() as u32, title.as_str(), keywords) {
            Some(target) => Some(Follow::MoveTo(target)),
            None => {
                let mut m = chars_of("org: no headline named \"");
                let t = chars_of(title.as_str());
                crate::text::extend_chars(&mut m, t.as_slice());
                m.push('"');
                proof {
                    reveal_strlit("\"");
                    assert("\""@ =~= seq!['"']);
                }
                Some(Follow::NoHeadline(string_of(m.as_slice())))
            },
        },
    }
}

/// Whether line `i` is a headline titled `title`.
pub open spec fn titled(lines: Seq<Seq<char>>, i: int, title: Seq<char>, keywords: Seq<Seq<char>>) -> bool {
    0 <= i < lines.len() && crate::todo::title_of_line(lines[i], keywords) == Some(title)
}

proof fn lemma_title_line_from(lines: Seq<Seq<char>>, s: int, count: int, title: Seq<char>, keywords: Seq<Seq<char>>)
    requires
        0 <= s,
    ensures
        match title_line_from(lines, s, count, title, keywords) {
            Some(i) => s <= i < count && titled(lines, i, title, keywords) && forall|j: int|
                s <= j < i ==> !titled(lines, j, title, keywords),
            None => forall|j: int| s <= j < count ==> !titled(lines, j, title, keywords),
        },
    decreases count - s,
{
    if s < count {
        lemma_title_line_from(lines, s + 1, count, title, keywords);
    }
}

/// A `*Title` link finds the first of the searched lines whose headline
/// title is the title — the buffer's very first line included — and finds
/// nothing only when no searched line is such a headline.
pub proof fn lemma_find_headline_first_match(lines: Seq<Seq<char>>, count: int, title: Seq<char>, keywords: Seq<Seq<char>>)
    ensures
        forall|i: int| #![trigger titled(lines, i, title, keywords)]
            0 <= i < count && titled(lines, i, title, keywords) && (forall|j: int| 0 <= j < i ==> !titled(lines, j, title, keywords))
                ==> title_line_from(lines, 0, count, title, keywords) == Some(i),
        title_line_from(lines, 0, count, title, keywords) matches Some(i) ==> 0 <= i < count && titled(lines, i, title, keywords),
        (forall|i: int| 0 <= i < count ==> !titled(lines, i, title, keywords)) ==> title_line_from(lines, 0, count, title, keywords) is None,
{
    lemma_title_line_from(lines, 0, count, title, keywords);
}

} // verus!
