//! What makes a file's contents into roam nodes.
//!
//! A **node** is a title, an id, and its links to other nodes. A file node is
//! a file whose top-level property drawer carries an `:ID:` (title from
//! `#+title:`, tags from `#+filetags:`); a headline node is any headline whose
//! drawer carries one.
//!
//! Structure comes from the parse tree, as an [`Outline`]; characters come
//! from the text. [`extract`] is a pure function of `(path, text, outline,
//! keywords)`: properties are read from the lines a drawer spans, links are
//! found by scanning text, and the outline decides which node owns the line a
//! link sits on.
use vstd::prelude::*;
use vstd::pervasive::VecAdditionalExecFns;

use crate::headline::texts;
use crate::text::{
    chars_of, eq_ignore_case, eq_ignore_case_at, find, find_in, find_ws, find_ws_in, is_ws,
    is_ws_char, last_index_in, last_index_of, lemma_last_index_of, lines, lines_of, matches_at,
    owned, skip_ws, skip_ws_back, string_of, texts_of, trim, trim_end, trim_range, trim_start,
    to_ascii_lower,
};

verus! {

/// One roam node, as it lands in the store. Tags are resolved: inheritance is
/// already applied.
#[derive(Debug, Clone, PartialEq, Eq)]
pub struct Node {
    /// The `:ID:` verbatim, as written.
    pub id: String,
    pub title: String,
    /// `:ROAM_ALIASES:`: other names the node is findable under.
    pub aliases: Vec<String>,
    /// Own tags plus every ancestor's plus the file's, flattened.
    pub tags: Vec<String>,
    /// `:ROAM_REFS:`.
    pub refs: Vec<String>,
    pub file: String,
    /// 0 for a file node, else the headline's line.
    pub line: u32,
    /// 0 for a file node, else headline depth.
    pub level: u32,
}

/// A node as text.
pub struct NodeView {
    pub id: Seq<char>,
    pub title: Seq<char>,
    pub aliases: Seq<Seq<char>>,
    pub tags: Seq<Seq<char>>,
    pub refs: Seq<Seq<char>>,
    pub file: Seq<char>,
    pub line: u32,
    pub level: u32,
}

impl View for Node {
    type V = NodeView;

    open spec fn view(&self) -> NodeView {
        NodeView {
            id: self.id@,
            title: self.title@,
            aliases: texts_of(self.aliases@),
            tags: texts_of(self.tags@),
            refs: texts_of(self.refs@),
            file: self.file@,
            line: self.line,
            level: self.level,
        }
    }
}

/// One node plus the ids it points at.
#[derive(Debug, Clone, PartialEq, Eq)]
pub struct Extracted {
    pub node: Node,
    /// Ids this node links to, deduplicated, in first-appearance order.
    pub links: Vec<String>,
}

/// The structural facts [`extract`] needs from the parse tree.
#[derive(Debug, Clone, Default, PartialEq, Eq)]
pub struct Outline {
    /// Line range (inclusive) of the file-level `:PROPERTIES:` drawer, if the
    /// file opens with one.
    pub file_drawer: Option<(u32, u32)>,
    /// `(name, value)` for every top-level `#+keyword:` line.
    pub directives: Vec<(String, String)>,
    /// Every headline section, in document order (parents before children).
    pub sections: Vec<Section>,
}

/// One headline's structural facts.
#[derive(Debug, Clone, Default, PartialEq, Eq)]
pub struct Section {
    /// The headline's own line.
    pub headline_line: u32,
    /// The last line this section covers, subsections included.
    pub end_line: u32,
    /// Headline depth.
    pub level: u32,
    /// The headline text as written, TODO keyword / priority / tags still on it.
    pub raw_title: String,
    /// Tags written on this headline itself.
    pub own_tags: Vec<String>,
    /// Line range (inclusive) of this headline's property drawer, if any.
    pub drawer: Option<(u32, u32)>,
    /// Index into [`Outline::sections`] of the enclosing section, if any.
    pub parent: Option<usize>,
}

/// `(name, value)` pairs as text.
pub open spec fn pairs_view(p: Seq<(String, String)>) -> Seq<(Seq<char>, Seq<char>)> {
    p.map_values(|kv: (String, String)| (kv.0@, kv.1@))
}

// ── properties ──

/// The `(name, value)` a drawer line carries, if it is a property line.
/// The `:PROPERTIES:` / `:END:` fence is not a property, and neither is a line
/// with an empty name.
pub open spec fn property_line(line: Seq<char>) -> Option<(Seq<char>, Seq<char>)> {
    let t = trim(line);
    if eq_ignore_case(t, ":properties:"@) || eq_ignore_case(t, ":end:"@) {
        None
    } else if !(t.len() > 0 && t[0] == ':') {
        None
    } else {
        let rest = t.skip(1);
        match find(rest, seq![':']) {
            None => None,
            Some(i) => {
                let name = trim(rest.take(i));
                if name.len() == 0 {
                    None
                } else {
                    Some((name, trim(rest.skip(i + 1))))
                }
            },
        }
    }
}

/// The properties on lines `i..=last` that exist.
pub open spec fn properties_from(lines: Seq<Seq<char>>, i: int, last: int) -> Seq<(Seq<char>, Seq<char>)>
    decreases last + 1 - i,
{
    if i > last || i < 0 || i >= lines.len() {
        Seq::empty()
    } else {
        match property_line(lines[i]) {
            Some(p) => seq![p] + properties_from(lines, i + 1, last),
            None => properties_from(lines, i + 1, last),
        }
    }
}

#[verifier::rlimit(40)]
fn property_of_line(line: &str) -> (r: Option<(String, String)>)
    ensures
        match (property_line(line@), r) {
            (None, None) => true,
            (Some((n, v)), Some((rn, rv))) => rn@ == n && rv@ == v,
            _ => false,
        },
{
    let s = chars_of(line);
    let len = s.len();
    assert(s@.subrange(0, len as int) == s@);
    let (a, b) = trim_range(&s, 0, len);
    let ghost t = s@.subrange(a as int, b as int);
    let opener = chars_of(":properties:");
    let end = chars_of(":end:");
    if eq_ignore_case_at(&s, a, b, opener.as_slice()) || eq_ignore_case_at(&s, a, b, end.as_slice()) {
        return None;
    }
    if a == b || s[a] != ':' {
        return None;
    }
    assert(t.skip(1) == s@.subrange(a + 1, b as int));
    let colon = [':'];
    assert(colon@ == seq![':']);
    match find_in(&s, a + 1, b, &colon) {
        None => None,
        Some(i) => {
            assert(t.skip(1).take(i - (a + 1)) == s@.subrange(a + 1, i as int));
            assert(t.skip(1).skip(i - (a + 1) + 1) == s@.subrange(i + 1, b as int));
            let (na, nb) = trim_range(&s, a + 1, i);
            if na == nb {
                return None;
            }
            let (va, vb) = trim_range(&s, i + 1, b);
            Some((string_of(&s.as_slice()[na..nb]), string_of(&s.as_slice()[va..vb])))
        },
    }
}

/// The `:KEY: value` pairs on the lines `first..=last` of a drawer. Read from
/// the lines rather than the tree, so a file-level drawer and a headline's are
/// read by one set of rules.
pub fn properties_in_lines(lines: &[String], first: u32, last: u32) -> (r: Vec<(String, String)>)
    ensures
        pairs_view(r@) == properties_from(texts(lines@), first as int, last as int),
{
    let ghost ls = texts(lines@);
    let mut out: Vec<(String, String)> = Vec::new();
    let mut i: u32 = first;
    loop
        invariant
            first <= i,
            ls == texts(lines@),
            pairs_view(out@) + properties_from(ls, i as int, last as int) == properties_from(ls, first as int, last as int),
        decreases last + 1 - i,
    {
        if i > last || (i as usize) >= lines.len() {
            assert(properties_from(ls, i as int, last as int) == Seq::<(Seq<char>, Seq<char>)>::empty());
            assert(pairs_view(out@) + Seq::<(Seq<char>, Seq<char>)>::empty() == pairs_view(out@));
            return out;
        }
        assert(ls[i as int] == lines@[i as int]@);
        let ghost before = pairs_view(out@);
        match property_of_line(lines[i as usize].as_str()) {
            Some(p) => {
                out.push(p);
                assert(pairs_view(out@) == before.push((p.0@, p.1@)));
                assert(before + properties_from(ls, i as int, last as int) =~= pairs_view(out@)
                    + properties_from(ls, i + 1, last as int));
            },
            None => {},
        }
        if i == last {
            assert(properties_from(ls, i + 1, last as int) == Seq::<(Seq<char>, Seq<char>)>::empty());
            assert(pairs_view(out@) + Seq::<(Seq<char>, Seq<char>)>::empty() == pairs_view(out@));
            return out;
        }
        i += 1;
    }
}

/// The value under the first name equal to `name` in any letter case, trimmed;
/// `None` when there is none or it is blank.
pub open spec fn lookup(pairs: Seq<(Seq<char>, Seq<char>)>, name: Seq<char>) -> Option<Seq<char>>
    decreases pairs.len(),
{
    if pairs.len() == 0 {
        None
    } else if eq_ignore_case(pairs[0].0, name) {
        let v = trim(pairs[0].1);
        if v.len() == 0 { None } else { Some(v) }
    } else {
        lookup(pairs.drop_first(), name)
    }
}

/// A single property's value, case-insensitively by name.
pub fn property(props: &[(String, String)], name: &str) -> (r: Option<String>)
    ensures
        match lookup(pairs_view(props@), name@) {
            None => r is None,
            Some(v) => r is Some && r->0@ == v,
        },
{
    let ghost ps = pairs_view(props@);
    let key = chars_of(name);
    let mut i: usize = 0;
    assert(ps.skip(0) == ps);
    while i < props.len()
        invariant
            i <= props@.len(),
            ps == pairs_view(props@),
            key@ == name@,
            lookup(ps, name@) == lookup(ps.skip(i as int), name@),
        decreases props@.len() - i,
    {
        let n = chars_of(props[i].0.as_str());
        let nl = n.len();
        assert(n@.subrange(0, nl as int) == n@);
        assert(ps.skip(i as int)[0] == ps[i as int]);
        assert(ps.skip(i as int).drop_first() == ps.skip(i + 1));
        if eq_ignore_case_at(&n, 0, nl, key.as_slice()) {
            let v = chars_of(props[i].1.as_str());
            let vl = v.len();
            assert(v@.subrange(0, vl as int) == v@);
            let (a, b) = trim_range(&v, 0, vl);
            if a == b {
                return None;
            }
            return Some(string_of(&v.as_slice()[a..b]));
        }
        i += 1;
    }
    None
}

/// The state of the list reader after `k` characters of `raw`: the items so
/// far, the item in progress, and whether a quote is open.
pub open spec fn list_state(raw: Seq<char>, k: int) -> (Seq<Seq<char>>, Seq<char>, bool)
    decreases k,
{
    if k <= 0 {
        (Seq::empty(), Seq::empty(), false)
    } else {
        let (out, cur, quoted) = list_state(raw, k - 1);
        let c = raw[k - 1];
        if c == '"' {
            if quoted && cur.len() > 0 {
                (out.push(cur), Seq::empty(), false)
            } else {
                (out, cur, !quoted)
            }
        } else if is_ws(c) && !quoted {
            if cur.len() > 0 { (out.push(cur), Seq::empty(), quoted) } else { (out, cur, quoted) }
        } else {
            (out, cur.push(c), quoted)
        }
    }
}

/// The items of a list value: split on whitespace, except inside double
/// quotes, which group an item and are dropped. `"Honey Garlic" Chicken` is
/// two items.
pub open spec fn list_items(raw: Seq<char>) -> Seq<Seq<char>> {
    let (out, cur, _) = list_state(raw, raw.len() as int);
    if cur.len() > 0 { out.push(cur) } else { out }
}

/// A property whose value is a list — `:ROAM_ALIASES:` and `:ROAM_REFS:`.
pub open spec fn property_items(props: Seq<(Seq<char>, Seq<char>)>, name: Seq<char>) -> Seq<Seq<char>> {
    match lookup(props, name) {
        Some(raw) => list_items(raw),
        None => Seq::empty(),
    }
}

/// A property whose value is a list. Org quotes an item containing spaces.
pub fn property_list(props: &[(String, String)], name: &str) -> (r: Vec<String>)
    ensures
        texts_of(r@) == property_items(pairs_view(props@), name@),
{
    let raw = match property(props, name) {
        None => {
            let empty: Vec<String> = Vec::new();
            assert(texts_of(empty@) =~= Seq::<Seq<char>>::empty());
            return empty;
        },
        Some(raw) => raw,
    };
    let s = chars_of(raw.as_str());
    let mut out: Vec<String> = Vec::new();
    let mut current: Vec<char> = Vec::new();
    let mut quoted = false;
    let mut k: usize = 0;
    while k < s.len()
        invariant
            k <= s@.len(),
            s@ == raw@,
            list_state(s@, k as int) == (texts_of(out@), current@, quoted),
        decreases s@.len() - k,
    {
        let c = s[k];
        let ghost before = texts_of(out@);
        if c == '"' {
            quoted = !quoted;
            if !quoted && current.len() > 0 {
                out.push(string_of(current.as_slice()));
                assert(texts_of(out@) =~= before.push(current@));
                current = Vec::new();
            }
        } else if is_ws_char(c) && !quoted {
            if current.len() > 0 {
                out.push(string_of(current.as_slice()));
                assert(texts_of(out@) =~= before.push(current@));
                current = Vec::new();
            }
        } else {
            current.push(c);
        }
        proof {
            assert(current@ == list_state(s@, k + 1).1);
        }
        k += 1;
    }
    let ghost before = texts_of(out@);
    if current.len() > 0 {
        out.push(string_of(current.as_slice()));
        assert(texts_of(out@) =~= before.push(current@));
    }
    out
}

// ── tags ──

/// A tag separator: `:`, a space or a tab.
pub open spec fn tag_sep(c: char) -> bool {
    c == ':' || c == ' ' || c == '\t'
}

/// `out` with `piece` added, trimmed, when it is not blank.
pub open spec fn keep_piece(out: Seq<Seq<char>>, piece: Seq<char>) -> Seq<Seq<char>> {
    if trim(piece).len() > 0 { out.push(trim(piece)) } else { out }
}

/// The tags after `k` characters of `raw`: those finished, and the piece in
/// progress.
pub open spec fn tags_state(raw: Seq<char>, k: int) -> (Seq<Seq<char>>, Seq<char>)
    decreases k,
{
    if k <= 0 {
        (Seq::empty(), Seq::empty())
    } else {
        let (out, cur) = tags_state(raw, k - 1);
        if tag_sep(raw[k - 1]) {
            (keep_piece(out, cur), Seq::empty())
        } else {
            (out, cur.push(raw[k - 1]))
        }
    }
}

/// `:a:b:c:` is `[a, b, c]`; a space-separated list reads the same.
pub open spec fn tag_list(raw: Seq<char>) -> Seq<Seq<char>> {
    let (out, cur) = tags_state(raw, raw.len() as int);
    keep_piece(out, cur)
}

fn push_piece(out: &mut Vec<String>, piece: &Vec<char>)
    ensures
        texts_of(final(out)@) == keep_piece(texts_of(old(out)@), piece@),
{
    let n = piece.len();
    assert(piece@.subrange(0, n as int) == piece@);
    let (a, b) = trim_range(piece.as_slice(), 0, n);
    if a < b {
        let ghost before = texts_of(out@);
        out.push(string_of(&piece.as_slice()[a..b]));
        assert(texts_of(out@) =~= before.push(trim(piece@)));
    }
}

/// `:a:b:c:` → `["a", "b", "c"]`, also accepting a bare space-separated list,
/// which org tolerates in `#+filetags:`.
pub fn split_tags(raw: &str) -> (r: Vec<String>)
    ensures
        texts_of(r@) == tag_list(raw@),
{
    let s = chars_of(raw);
    let mut out: Vec<String> = Vec::new();
    let mut cur: Vec<char> = Vec::new();
    let mut k: usize = 0;
    while k < s.len()
        invariant
            k <= s@.len(),
            s@ == raw@,
            tags_state(s@, k as int) == (texts_of(out@), cur@),
        decreases s@.len() - k,
    {
        let c = s[k];
        if c == ':' || c == ' ' || c == '\t' {
            push_piece(&mut out, &cur);
            cur = Vec::new();
        } else {
            cur.push(c);
        }
        k += 1;
    }
    push_piece(&mut out, &cur);
    out
}

// ── titles ──

/// `raw` with a leading TODO keyword removed, when its first word is one.
pub open spec fn without_keyword(s: Seq<char>, keywords: Seq<Seq<char>>) -> Seq<char> {
    match find_ws(s) {
        Some(i) => if keywords.contains(s.take(i)) { trim_start(s.skip(i + 1)) } else { s },
        None => s,
    }
}

/// `s` with a leading priority cookie (`[#A]`) removed.
pub open spec fn without_priority(s: Seq<char>) -> Seq<char> {
    if s.len() >= 2 && s[0] == '[' && s[1] == '#' {
        match find(s.skip(2), seq![']']) {
            Some(j) => trim_start(s.skip(2).skip(j + 1)),
            None => s,
        }
    } else {
        s
    }
}

/// Where the whitespace before a trailing tag list is, for a title `s` that
/// ends in `:`: the last whitespace character, if any.
pub open spec fn last_ws(s: Seq<char>) -> Option<int>
    decreases s.len(),
{
    if s.len() == 0 {
        None
    } else if is_ws(s.last()) {
        Some(s.len() - 1)
    } else {
        last_ws(s.drop_last())
    }
}

/// `s` (already trimmed at the end) with a trailing tag list `:a:b:` removed.
/// Only a genuine tag list after whitespace: a title ending in a colon stays.
pub open spec fn without_tags(s: Seq<char>) -> Seq<char> {
    if s.len() > 0 && s.last() == ':' {
        match last_ws(s) {
            Some(open) => {
                let tail = s.skip(open + 1);
                if tail.len() > 2 && tail[0] == ':' && tail.last() == ':' {
                    trim_end(s.take(open))
                } else {
                    s
                }
            },
            None => s,
        }
    } else {
        s
    }
}

/// A statistics cookie's inside: digits, `/` and `%`.
pub open spec fn cookie_char(c: char) -> bool {
    ('0' <= c <= '9') || c == '/' || c == '%'
}

/// `s` with a trailing statistics cookie (`[2/5]`, `[40%]`) removed.
pub open spec fn without_cookie(s: Seq<char>) -> Seq<char> {
    if s.len() > 0 && s.last() == ']' {
        match last_index_of(s, '[') {
            Some(open) => {
                let inner = s.subrange(open + 1, s.len() - 1);
                if inner.len() > 0 && forall|i: int| 0 <= i < inner.len() ==> cookie_char(#[trigger] inner[i]) {
                    trim_end(s.take(open))
                } else {
                    s
                }
            },
            None => s,
        }
    } else {
        s
    }
}

/// A headline's title: the text with its TODO keyword, priority cookie, any
/// trailing tag list and any statistics cookie removed.
pub open spec fn headline_title(raw: Seq<char>, keywords: Seq<Seq<char>>) -> Seq<char> {
    without_cookie(without_tags(trim_end(without_priority(without_keyword(trim(raw), keywords)))))
}

/// The title text just before the tag-list step, whose last whitespace
/// character the step cuts after.
pub open spec fn before_tags(raw: Seq<char>, keywords: Seq<Seq<char>>) -> Seq<char> {
    trim_end(without_priority(without_keyword(trim(raw), keywords)))
}

/// Titles [`strip_headline`] reads without fault: when the text before the
/// tag step ends in `:`, the whitespace it cuts after is one byte wide. (A
/// wider one, such as a no-break space before a tag list, has no character
/// boundary where the cut falls.)
pub open spec fn strip_fits(raw: Seq<char>, keywords: Seq<Seq<char>>) -> bool {
    let s = before_tags(raw, keywords);
    s.len() > 0 && s.last() == ':' ==> match last_ws(s) {
        Some(open) => (s[open] as u32) < 0x80,
        None => true,
    }
}

pub proof fn lemma_last_ws(s: Seq<char>)
    ensures
        match last_ws(s) {
            Some(i) => 0 <= i < s.len() && is_ws(s[i]) && forall|j: int| i < j < s.len() ==> !is_ws(#[trigger] s[j]),
            None => forall|j: int| 0 <= j < s.len() ==> !is_ws(#[trigger] s[j]),
        },
    decreases s.len(),
{
    if s.len() > 0 && !is_ws(s.last()) {
        lemma_last_ws(s.drop_last());
        assert forall|j: int| 0 <= j < s.len() - 1 implies s[j] == s.drop_last()[j] by {}
    }
}

/// Whether `keywords` holds `w`, exactly.
pub fn is_keyword_in(w: &[char], keywords: &[String]) -> (b: bool)
    ensures
        b == texts_of(keywords@).contains(w@),
{
    let ghost ks = texts_of(keywords@);
    let wn = w.len();
    let mut i: usize = 0;
    while i < keywords.len()
        invariant
            i <= keywords@.len(),
            ks == texts_of(keywords@),
            wn == w@.len(),
            forall|j: int| 0 <= j < i ==> ks[j] != w@,
        decreases keywords@.len() - i,
    {
        let k = chars_of(keywords[i].as_str());
        assert(ks[i as int] == k@);
        if crate::text::eq_at(&k, 0, k.len(), w) {
            assert(k@.subrange(0, k@.len() as int) == k@);
            assert(ks[i as int] == w@);
            return true;
        }
        assert(k@.subrange(0, k@.len() as int) == k@);
        i += 1;
    }
    assert(!ks.contains(w@));
    false
}

/// The start of `s[a..b]` once a leading TODO keyword is dropped.
fn drop_keyword(s: &[char], a: usize, b: usize, todo_keywords: &[String]) -> (r: usize)
    requires
        a <= b <= s@.len(),
    ensures
        a <= r <= b,
        s@.subrange(r as int, b as int) == without_keyword(s@.subrange(a as int, b as int), texts_of(todo_keywords@)),
{
    let ghost s0 = s@.subrange(a as int, b as int);
    match find_ws_in(s, a, b) {
        Some(i) => {
            assert(s0.take(i - a) == s@.subrange(a as int, i as int));
            if is_keyword_in(&s[a..i], todo_keywords) {
                assert(s0.skip(i - a + 1) == s@.subrange(i + 1, b as int));
                let r = skip_ws(s, i + 1, b);
                assert(s@.subrange(r as int, b as int) == trim_start(s@.subrange(i + 1, b as int)));
                return r;
            }
            a
        },
        None => a,
    }
}

/// The start of `s[a..b]` once a leading priority cookie is dropped.
fn drop_priority(s: &[char], a: usize, b: usize) -> (r: usize)
    requires
        a <= b <= s@.len(),
    ensures
        a <= r <= b,
        s@.subrange(r as int, b as int) == without_priority(s@.subrange(a as int, b as int)),
{
    let ghost s1 = s@.subrange(a as int, b as int);
    if b - a >= 2 && s[a] == '[' && s[a + 1] == '#' {
        let close = [']'];
        assert(close@ == seq![']']);
        assert(s1.skip(2) == s@.subrange(a + 2, b as int));
        match find_in(s, a + 2, b, &close) {
            Some(j) => {
                assert(s1.skip(2).skip(j - (a + 2) + 1) == s@.subrange(j + 1, b as int));
                let r = skip_ws(s, j + 1, b);
                assert(s@.subrange(r as int, b as int) == trim_start(s@.subrange(j + 1, b as int)));
                r
            },
            None => a,
        }
    } else {
        a
    }
}

/// The end of `s[a..b]` once a trailing tag list is dropped.
fn drop_tags(s: &[char], a: usize, b: usize) -> (r: usize)
    requires
        a <= b <= s@.len(),
    ensures
        a <= r <= b,
        s@.subrange(a as int, r as int) == without_tags(s@.subrange(a as int, b as int)),
{
    let ghost s3 = s@.subrange(a as int, b as int);
    if b > a && s[b - 1] == ':' {
        assert(s3.last() == s@[b - 1]);
        let mut w = b;
        assert(s@.subrange(a as int, w as int) == s3);
        while w > a && !is_ws_char(s[w - 1])
            invariant
                a <= w <= b <= s@.len(),
                s3 == s@.subrange(a as int, b as int),
                last_ws(s3) == last_ws(s@.subrange(a as int, w as int)),
            decreases w - a,
        {
            assert(s@.subrange(a as int, w as int).drop_last() == s@.subrange(a as int, w - 1));
            assert(s@.subrange(a as int, w as int).last() == s@[w - 1]);
            w -= 1;
        }
        if w > a {
            let open = w - 1;
            assert(s@.subrange(a as int, w as int).last() == s@[open as int]);
            assert(last_ws(s3) == Some(open - a));
            assert(s3.skip(open - a + 1) == s@.subrange(w as int, b as int));
            if b - w > 2 && s[w] == ':' && s[b - 1] == ':' {
                assert(s3.take(open - a) == s@.subrange(a as int, open as int));
                return skip_ws_back(s, a, open);
            }
            b
        } else {
            assert(s@.subrange(a as int, w as int).len() == 0);
            b
        }
    } else {
        b
    }
}

/// The end of `s[a..b]` once a trailing statistics cookie is dropped.
fn drop_cookie(s: &[char], a: usize, b: usize) -> (r: usize)
    requires
        a <= b <= s@.len(),
    ensures
        a <= r <= b,
        s@.subrange(a as int, r as int) == without_cookie(s@.subrange(a as int, b as int)),
{
    let ghost s4 = s@.subrange(a as int, b as int);
    if b > a && s[b - 1] == ']' {
        assert(s4.last() == s@[b - 1]);
        match last_index_in(s, a, b, '[') {
            Some(open) => {
                proof {
                    lemma_last_index_of(s4, '[');
                }
                let ghost inner = s4.subrange(open - a + 1, s4.len() - 1);
                assert(inner == s@.subrange(open + 1, b - 1));
                let mut k = open + 1;
                let mut all = true;
                while k < b - 1
                    invariant
                        open + 1 <= k <= b - 1,
                        b <= s@.len(),
                        inner == s@.subrange(open + 1, b - 1),
                        all == forall|i: int| 0 <= i < k - (open + 1) ==> cookie_char(#[trigger] inner[i]),
                    decreases b - 1 - k,
                {
                    let c = s[k];
                    assert(inner[k - (open + 1)] == c);
                    if !(('0' <= c && c <= '9') || c == '/' || c == '%') {
                        all = false;
                    }
                    k += 1;
                }
                if k > open + 1 && all {
                    assert(s4.take(open - a) == s@.subrange(a as int, open as int));
                    return skip_ws_back(s, a, open);
                }
                b
            },
            None => b,
        }
    } else {
        b
    }
}

/// A headline's title (see [`headline_title`]), for any text.
pub fn title_of_headline(raw: &str, todo_keywords: &[String]) -> (r: String)
    ensures
        r@ == headline_title(raw@, texts_of(todo_keywords@)),
{
    let s = chars_of(raw);
    let n = s.len();
    assert(s@.subrange(0, n as int) == s@);
    let (a0, b0) = trim_range(&s, 0, n);
    let a1 = drop_keyword(&s, a0, b0, todo_keywords);
    let a2 = drop_priority(&s, a1, b0);
    let b3 = skip_ws_back(&s, a2, b0);
    assert(s@.subrange(a2 as int, b3 as int) =~= trim_end(s@.subrange(a2 as int, b0 as int)));
    let b4 = drop_tags(&s, a2, b3);
    let b5 = drop_cookie(&s, a2, b4);
    string_of(&s.as_slice()[a2..b5])
}

/// A headline's title: the text with its TODO keyword, priority cookie, any
/// trailing tag list and any statistics cookie removed. Which words are
/// keywords is configuration, so the list is a parameter.
///
/// The tag step cuts one byte after the last whitespace character, so a
/// title whose tag list follows a wider whitespace character (a no-break
/// space) is outside what this reads; see [`strip_fits`].
pub fn strip_headline(raw: &str, todo_keywords: &[String]) -> (r: String)
    requires
        strip_fits(raw@, texts_of(todo_keywords@)),
    ensures
        r@ == headline_title(raw@, texts_of(todo_keywords@)),
{
    title_of_headline(raw, todo_keywords)
}


// ── links ──

/// `pat` occurs at `i` in `s`, in any ASCII letter case.
pub open spec fn ci_match(s: Seq<char>, pat: Seq<char>, i: int) -> bool {
    0 <= i && i + pat.len() <= s.len() && eq_ignore_case(s.subrange(i, i + pat.len()), pat)
}

/// The first `j >= i` where `pat` occurs in `s` in any letter case.
pub open spec fn find_ci_from(s: Seq<char>, pat: Seq<char>, i: int) -> Option<int>
    decreases s.len() + 1 - i,
{
    if i < 0 || i + pat.len() > s.len() {
        None
    } else if ci_match(s, pat, i) {
        Some(i)
    } else {
        find_ci_from(s, pat, i + 1)
    }
}

pub proof fn lemma_find_ci_from(s: Seq<char>, pat: Seq<char>, i: int)
    requires
        0 <= i,
    ensures
        match find_ci_from(s, pat, i) {
            Some(j) => i <= j && j + pat.len() <= s.len() && ci_match(s, pat, j),
            None => true,
        },
    decreases s.len() + 1 - i,
{
    if i + pat.len() <= s.len() && !ci_match(s, pat, i) {
        lemma_find_ci_from(s, pat, i + 1);
    }
}

/// `str::find` in any ASCII letter case: where `needle` first occurs in
/// `s[lo..hi]`, as an index into `s`. `[[ID:` and `[[Id:` are both org.
pub fn find_ignore_ascii_case(s: &[char], lo: usize, hi: usize, needle: &[char]) -> (r: Option<usize>)
    requires
        lo <= hi <= s@.len(),
    ensures
        match find_ci_from(s@.subrange(0, hi as int), needle@, lo as int) {
            Some(j) => r == Some(j as usize),
            None => r is None,
        },
{
    let ghost t = s@.subrange(0, hi as int);
    if needle.len() == 0 {
        assert(t.subrange(lo as int, lo as int) =~= needle@);
        return Some(lo);
    }
    let mut i = lo;
    while i <= hi && needle.len() <= hi - i
        invariant
            lo <= i,
            hi <= s@.len(),
            t == s@.subrange(0, hi as int),
            needle@.len() >= 1,
            find_ci_from(t, needle@, lo as int) == find_ci_from(t, needle@, i as int),
        decreases hi + 1 - i,
    {
        assert(t.subrange(i as int, i + needle@.len()) == s@.subrange(i as int, i + needle@.len()));
        if eq_ignore_case_at(s, i, i + needle.len(), needle) {
            return Some(i);
        }
        i += 1;
    }
    None
}

/// The opener of an id link, `[[id:`.
pub open spec fn id_open() -> Seq<char> {
    seq!['[', '[', 'i', 'd', ':']
}

/// Every `[[id:<ID>]` target from character `i` of `s` on, in order. The scan
/// ends an id at `]`, so `[[id:X]]` and `[[id:X][description]]` both work.
pub open spec fn id_links_from(s: Seq<char>, i: int) -> Seq<Seq<char>>
    decreases s.len() - i,
{
    if i < 0 {
        Seq::empty()
    } else {
        match find_ci_from(s, id_open(), i) {
            None => Seq::empty(),
            Some(at) => {
                let start = at + 5;
                let end = match find(s.skip(start), seq![']']) {
                    Some(e) => start + e,
                    None => s.len() as int,
                };
                let id = trim(s.subrange(start, end));
                let here = if id.len() > 0 { seq![id] } else { Seq::empty() };
                if end >= s.len() || end < i {
                    here
                } else {
                    here + id_links_from(s, end + 1)
                }
            },
        }
    }
}

/// Every `[[id:…]]` target on one line, in order.
pub open spec fn id_links(line: Seq<char>) -> Seq<Seq<char>> {
    id_links_from(line, 0)
}

/// Every `[[id:<ID>]` target on one line, in order. Textual, because a link
/// whose description contains spaces is not one node of the parse tree.
pub fn id_links_in(line: &str) -> (r: Vec<String>)
    ensures
        texts_of(r@) == id_links(line@),
{
    let s = chars_of(line);
    let open = ['[', '[', 'i', 'd', ':'];
    assert(open@ == id_open());
    let close = [']'];
    assert(close@ == seq![']']);
    let mut out: Vec<String> = Vec::new();
    let mut i: usize = 0;
    assert(s@.subrange(0, s@.len() as int) == s@);
    loop
        invariant
            i <= s@.len(),
            s@ == line@,
            open@ == id_open(),
            close@ == seq![']'],
            s@.subrange(0, s@.len() as int) == s@,
            texts_of(out@) + id_links_from(s@, i as int) == id_links(s@),
        decreases s@.len() - i,
    {
        let at = match find_ignore_ascii_case(&s, i, s.len(), &open) {
            None => {
                assert(texts_of(out@) + Seq::<Seq<char>>::empty() == texts_of(out@));
                return out;
            },
            Some(at) => at,
        };
        proof {
            lemma_find_ci_from(s@, id_open(), i as int);
        }
        let start = at + 5;
        let found = find_in(&s, start, s.len(), &close);
        assert(s@.subrange(start as int, s@.len() as int) == s@.skip(start as int));
        let end = match found {
            Some(e) => e,
            None => s.len(),
        };
        let (a, b) = trim_range(&s, start, end);
        let ghost before = texts_of(out@);
        if a < b {
            out.push(string_of(&s.as_slice()[a..b]));
            assert(texts_of(out@) =~= before + seq![s@.subrange(a as int, b as int)]);
        } else {
            assert(texts_of(out@) =~= before + Seq::<Seq<char>>::empty());
        }
        if end >= s.len() {
            return out;
        }
        assert(texts_of(out@) + id_links_from(s@, end + 1) =~= before + id_links_from(s@, i as int));
        i = end + 1;
    }
}

// ── tag inheritance, directives, file names ──

/// A section's own tags, then each ancestor's, innermost first. Parents come
/// before their children in an outline, so the walk goes down in index.
pub open spec fn chain_tags(sections: Seq<Section>, i: int) -> Seq<Seq<char>>
    decreases i,
{
    if i < 0 || i >= sections.len() {
        Seq::empty()
    } else {
        texts_of(sections[i].own_tags@) + match sections[i].parent {
            Some(p) => if (p as int) < i { chain_tags(sections, p as int) } else { Seq::empty() },
            None => Seq::empty(),
        }
    }
}

/// `acc` extended by each of `xs` not already in it, in order.
pub open spec fn add_new(acc: Seq<Seq<char>>, xs: Seq<Seq<char>>) -> Seq<Seq<char>>
    decreases xs.len(),
{
    if xs.len() == 0 {
        acc
    } else {
        add_new(if acc.contains(xs[0]) { acc } else { acc.push(xs[0]) }, xs.drop_first())
    }
}

/// The outline's shape: parents before children.
pub open spec fn outline_wf(outline: Outline) -> bool {
    forall|i: int| 0 <= i < outline.sections@.len() ==> match (#[trigger] outline.sections@[i]).parent {
        Some(p) => (p as int) < i,
        None => true,
    }
}

fn add_tags(out: &mut Vec<String>, tags: &[String])
    ensures
        texts_of(final(out)@) == add_new(texts_of(old(out)@), texts_of(tags@)),
{
    let ghost ts = texts_of(tags@);
    let mut k: usize = 0;
    assert(ts.skip(0) == ts);
    while k < tags.len()
        invariant
            k <= tags@.len(),
            ts == texts_of(tags@),
            add_new(texts_of(old(out)@), ts) == add_new(texts_of(out@), ts.skip(k as int)),
        decreases tags@.len() - k,
    {
        let tag = &tags[k];
        assert(ts.skip(k as int)[0] == tag@);
        assert(ts.skip(k as int).drop_first() == ts.skip(k + 1));
        let ghost acc = texts_of(out@);
        if !is_keyword_in(chars_of(tag.as_str()).as_slice(), out.as_slice()) {
            out.push(tag.clone());
            assert(texts_of(out@) =~= acc.push(tag@));
        }
        k += 1;
    }
    assert(ts.skip(tags@.len() as int) == Seq::<Seq<char>>::empty());
}

/// A headline node's tags: its own, plus every ancestor's, plus the file's,
/// each once (org tags are case-sensitive), innermost first.
pub fn inherited_tags(outline: &Outline, index: usize, file_tags: &[String]) -> (r: Vec<String>)
    requires
        outline_wf(*outline),
        index < outline.sections@.len(),
    ensures
        texts_of(r@) == add_new(Seq::empty(), chain_tags(outline.sections@, index as int) + texts_of(file_tags@)),
{
    let ghost secs = outline.sections@;
    let mut out: Vec<String> = Vec::new();
    assert(texts_of(out@) =~= Seq::<Seq<char>>::empty());
    let mut cursor: Option<usize> = Some(index);
    while cursor.is_some()
        invariant
            secs == outline.sections@,
            outline_wf(*outline),
            match cursor { Some(c) => c < secs.len(), None => true },
            add_new(Seq::empty(), chain_tags(secs, index as int) + texts_of(file_tags@))
                == add_new(texts_of(out@), (match cursor {
                    Some(c) => chain_tags(secs, c as int),
                    None => Seq::empty(),
                }) + texts_of(file_tags@)),
        decreases match cursor { Some(c) => c + 1, None => 0 },
    {
        let i = match cursor { Some(i) => i, None => 0 };
        let section = &outline.sections[i];
        let ghost rest = match section.parent {
            Some(p) => if (p as int) < i { chain_tags(secs, p as int) } else { Seq::empty() },
            None => Seq::empty(),
        };
        assert(section.parent matches Some(p) ==> (p as int) < i);
        proof {
            lemma_add_new_append(texts_of(out@), texts_of(section.own_tags@), rest + texts_of(file_tags@));
            assert(chain_tags(secs, i as int) + texts_of(file_tags@) == texts_of(section.own_tags@) + (rest + texts_of(file_tags@)));
        }
        add_tags(&mut out, section.own_tags.as_slice());
        cursor = section.parent;
    }
    add_tags(&mut out, file_tags);
    proof {
        lemma_add_new_append(texts_of(Seq::<String>::empty()), Seq::empty(), Seq::empty());
    }
    assert(Seq::<Seq<char>>::empty() + texts_of(file_tags@) == texts_of(file_tags@));
    out
}

pub proof fn lemma_add_new_append(acc: Seq<Seq<char>>, xs: Seq<Seq<char>>, ys: Seq<Seq<char>>)
    ensures
        add_new(acc, xs + ys) == add_new(add_new(acc, xs), ys),
    decreases xs.len(),
{
    if xs.len() == 0 {
        assert(xs + ys == ys);
    } else {
        assert((xs + ys)[0] == xs[0]);
        assert((xs + ys).drop_first() == xs.drop_first() + ys);
        lemma_add_new_append(if acc.contains(xs[0]) { acc } else { acc.push(xs[0]) }, xs.drop_first(), ys);
    }
}

/// The value of the first `#+<name>:` directive, in any letter case, when it
/// is not blank.
pub fn directive(outline: &Outline, name: &str) -> (r: Option<String>)
    ensures
        match lookup(pairs_view(outline.directives@), name@) {
            None => r is None,
            Some(v) => r is Some && r->0@ == v,
        },
{
    property(outline.directives.as_slice(), name)
}

/// A path's file name without its extension.
pub open spec fn stem(path: Seq<char>) -> Seq<char> {
    let name = match last_index_of(path, '/') {
        Some(i) => path.skip(i + 1),
        None => path,
    };
    match last_index_of(name, '.') {
        Some(j) => name.take(j),
        None => name,
    }
}

/// A path's filename without its extension: the fallback title for a file
/// node with no `#+title:`.
pub fn file_stem(path: &str) -> (r: String)
    ensures
        r@ == stem(path@),
{
    let s = chars_of(path);
    let n = s.len();
    assert(s@.subrange(0, n as int) == s@);
    let start = match last_index_in(&s, 0, n, '/') {
        Some(i) => {
            proof {
                lemma_last_index_of(s@, '/');
            }
            assert(s@.skip(i + 1) == s@.subrange(i + 1, n as int));
            i + 1
        },
        None => 0,
    };
    let ghost name = s@.subrange(start as int, n as int);
    let end = match last_index_in(&s, start, n, '.') {
        Some(j) => {
            proof {
                lemma_last_index_of(name, '.');
            }
            assert(name.take(j - start) == s@.subrange(start as int, j as int));
            j
        },
        None => n,
    };
    string_of(&s.as_slice()[start..end])
}


// ── nodes ──

/// The properties of a drawer's line range.
pub open spec fn drawer_props(lines: Seq<Seq<char>>, drawer: Option<(u32, u32)>) -> Seq<(Seq<char>, Seq<char>)> {
    match drawer {
        Some((a, b)) => properties_from(lines, a as int, b as int),
        None => Seq::empty(),
    }
}

/// The file's own `:ID:`.
pub open spec fn file_id(lines: Seq<Seq<char>>, o: Outline) -> Option<Seq<char>> {
    lookup(drawer_props(lines, o.file_drawer), "ID"@)
}

/// The tags of `#+filetags:`.
pub open spec fn file_tags_of(o: Outline) -> Seq<Seq<char>> {
    match lookup(pairs_view(o.directives@), "filetags"@) {
        Some(v) => tag_list(v),
        None => Seq::empty(),
    }
}

/// Section `i`'s `:ID:`.
pub open spec fn section_id(lines: Seq<Seq<char>>, o: Outline, i: int) -> Option<Seq<char>> {
    lookup(drawer_props(lines, o.sections@[i].drawer), "ID"@)
}

/// The file node, when the file's drawer carries an `:ID:`. Its title is
/// `#+title:`, or the file name's stem when there is none.
pub open spec fn file_node(path: Seq<char>, lines: Seq<Seq<char>>, o: Outline) -> Option<NodeView> {
    let props = drawer_props(lines, o.file_drawer);
    match file_id(lines, o) {
        None => None,
        Some(id) => Some(NodeView {
            id: id,
            title: match lookup(pairs_view(o.directives@), "title"@) {
                Some(t) => t,
                None => stem(path),
            },
            aliases: property_items(props, "ROAM_ALIASES"@),
            tags: file_tags_of(o),
            refs: property_items(props, "ROAM_REFS"@),
            file: path,
            line: 0,
            level: 0,
        }),
    }
}

/// Section `i`'s node, when its drawer carries an `:ID:`.
pub open spec fn section_node(
    path: Seq<char>,
    lines: Seq<Seq<char>>,
    o: Outline,
    keywords: Seq<Seq<char>>,
    i: int,
) -> Option<NodeView> {
    let sec = o.sections@[i];
    let props = drawer_props(lines, sec.drawer);
    match section_id(lines, o, i) {
        None => None,
        Some(id) => Some(NodeView {
            id: id,
            title: headline_title(sec.raw_title@, keywords),
            aliases: property_items(props, "ROAM_ALIASES"@),
            tags: add_new(Seq::empty(), chain_tags(o.sections@, i) + file_tags_of(o)),
            refs: property_items(props, "ROAM_REFS"@),
            file: path,
            line: sec.headline_line,
            level: sec.level,
        }),
    }
}

/// The nodes of the file node and the first `k` sections, in that order.
pub open spec fn nodes_upto(
    path: Seq<char>,
    lines: Seq<Seq<char>>,
    o: Outline,
    keywords: Seq<Seq<char>>,
    k: int,
) -> Seq<NodeView>
    decreases k,
{
    if k <= 0 {
        match file_node(path, lines, o) {
            Some(n) => seq![n],
            None => Seq::empty(),
        }
    } else {
        nodes_upto(path, lines, o, keywords, k - 1) + match section_node(path, lines, o, keywords, k - 1) {
            Some(n) => seq![n],
            None => Seq::empty(),
        }
    }
}

/// How many nodes the file and the first `k` sections make.
pub open spec fn count_upto(lines: Seq<Seq<char>>, o: Outline, k: int) -> nat
    decreases k,
{
    if k <= 0 {
        if file_id(lines, o) is Some { 1 } else { 0 }
    } else {
        count_upto(lines, o, k - 1) + if section_id(lines, o, k - 1) is Some { 1nat } else { 0nat }
    }
}

/// Which node each section made, by index among the nodes.
pub open spec fn section_nodes(lines: Seq<Seq<char>>, o: Outline) -> Seq<Option<usize>> {
    Seq::new(o.sections@.len(), |i: int| if section_id(lines, o, i) is Some {
        Some(count_upto(lines, o, i) as usize)
    } else {
        None
    })
}

/// The innermost node among the first `k` sections whose span holds `line`:
/// `(level, node)`. Among equal levels the first wins.
pub open spec fn best_in(sections: Seq<Section>, sn: Seq<Option<usize>>, line: u32, k: int) -> Option<(u32, usize)>
    decreases k,
{
    if k <= 0 {
        None
    } else {
        let b = best_in(sections, sn, line, k - 1);
        let sec = sections[k - 1];
        let deeper = match b {
            None => true,
            Some((lv, _)) => sec.level > lv,
        };
        if sec.headline_line <= line <= sec.end_line && sn[k - 1] is Some && deeper {
            Some((sec.level, sn[k - 1]->0))
        } else {
            b
        }
    }
}

/// Which node owns `line`: the innermost section with a node whose span holds
/// it, else the file node.
pub open spec fn owner_in(sections: Seq<Section>, sn: Seq<Option<usize>>, file_node: Option<usize>, line: u32) -> Option<usize> {
    match best_in(sections, sn, line, sections.len() as int) {
        Some((_, n)) => Some(n),
        None => file_node,
    }
}

/// Which node owns `line`. Innermost rather than nearest-preceding, because
/// sections nest: a link in a deep subsection belongs to it when it has an id
/// and to the closest ancestor that does when it does not.
pub fn owning_node(outline: &Outline, section_node: &[Option<usize>], file_node: Option<usize>, line: u32) -> (r: Option<usize>)
    requires
        section_node@.len() == outline.sections@.len(),
    ensures
        r == owner_in(outline.sections@, section_node@, file_node, line),
{
    let mut best: Option<(u32, usize)> = None;
    let mut i: usize = 0;
    while i < outline.sections.len()
        invariant
            i <= outline.sections@.len(),
            section_node@.len() == outline.sections@.len(),
            best == best_in(outline.sections@, section_node@, line, i as int),
        decreases outline.sections@.len() - i,
    {
        let section = &outline.sections[i];
        if line >= section.headline_line && line <= section.end_line {
            match section_node[i] {
                Some(node) => {
                    let better = match best {
                        None => true,
                        Some((level, _)) => section.level > level,
                    };
                    if better {
                        best = Some((section.level, node));
                    }
                },
                None => {},
            }
        }
        i += 1;
    }
    match best {
        Some((_, n)) => Some(n),
        None => file_node,
    }
}

/// `acc` extended by each of `xs` that it holds in no letter case, in order.
pub open spec fn add_new_ci(acc: Seq<Seq<char>>, xs: Seq<Seq<char>>) -> Seq<Seq<char>>
    decreases xs.len(),
{
    if xs.len() == 0 {
        acc
    } else {
        add_new_ci(
            if exists|j: int| 0 <= j < acc.len() && eq_ignore_case(#[trigger] acc[j], xs[0]) { acc } else { acc.push(xs[0]) },
            xs.drop_first(),
        )
    }
}

/// The ids node `k` links to, from the first `n` lines: each target once,
/// across letter case, in first-appearance order.
pub open spec fn links_upto(lines: Seq<Seq<char>>, o: Outline, k: usize, n: int) -> Seq<Seq<char>>
    decreases n,
{
    if n <= 0 {
        Seq::empty()
    } else {
        let prev = links_upto(lines, o, k, n - 1);
        let file_node = if file_id(lines, o) is Some { Some(0usize) } else { None };
        if (n - 1) <= u32::MAX && owner_in(o.sections@, section_nodes(lines, o), file_node, (n - 1) as u32) == Some(k) {
            add_new_ci(prev, id_links(lines[n - 1]))
        } else {
            prev
        }
    }
}

/// What [`extract`] needs: parents before children, few enough sections to
/// count, and titles [`strip_headline`] reads without fault.
pub open spec fn extract_fits(text: Seq<char>, o: Outline, keywords: Seq<Seq<char>>) -> bool {
    &&& outline_wf(o)
    &&& o.sections@.len() < usize::MAX
    &&& lines(text).len() <= u32::MAX
    &&& forall|i: int| 0 <= i < o.sections@.len() && (#[trigger] section_id(lines(text), o, i)) is Some
            ==> strip_fits(o.sections@[i].raw_title@, keywords)
}

/// `r` holds exactly the nodes and links `extract` promises.
pub open spec fn extracted_are(r: Seq<Extracted>, path: Seq<char>, text: Seq<char>, o: Outline, keywords: Seq<Seq<char>>) -> bool {
    let ls = lines(text);
    let nodes = nodes_upto(path, ls, o, keywords, o.sections@.len() as int);
    &&& r.len() == nodes.len()
    &&& forall|k: int| 0 <= k < r.len() ==> {
        &&& (#[trigger] r[k]).node@ == nodes[k]
        &&& texts_of(r[k].links@) == links_upto(ls, o, k as usize, ls.len() as int)
    }
}


/// A copy of `v`.
pub fn clone_strings(v: &[String]) -> (r: Vec<String>)
    ensures
        r@ == v@,
{
    let mut out: Vec<String> = Vec::new();
    let mut i: usize = 0;
    while i < v.len()
        invariant
            i <= v@.len(),
            out@ == v@.take(i as int),
        decreases v@.len() - i,
    {
        out.push(v[i].clone());
        assert(out@ =~= v@.take(i + 1));
        i += 1;
    }
    assert(v@.take(v@.len() as int) == v@);
    out
}

/// Whether `items` holds `t` in some letter case.
fn contains_ci(items: &[String], t: &[char]) -> (b: bool)
    ensures
        b == exists|j: int| 0 <= j < items@.len() && eq_ignore_case(#[trigger] texts_of(items@)[j], t@),
{
    let ghost ts = texts_of(items@);
    let mut i: usize = 0;
    while i < items.len()
        invariant
            i <= items@.len(),
            ts == texts_of(items@),
            forall|j: int| 0 <= j < i ==> !eq_ignore_case(#[trigger] ts[j], t@),
        decreases items@.len() - i,
    {
        let c = chars_of(items[i].as_str());
        let n = c.len();
        assert(c@.subrange(0, n as int) == c@);
        assert(ts[i as int] == c@);
        if eq_ignore_case_at(&c, 0, n, t) {
            return true;
        }
        i += 1;
    }
    false
}

/// `links` extended by each target it does not hold in any letter case.
fn add_links(links: &mut Vec<String>, targets: &[String])
    ensures
        texts_of(final(links)@) == add_new_ci(texts_of(old(links)@), texts_of(targets@)),
{
    let ghost ts = texts_of(targets@);
    let mut k: usize = 0;
    assert(ts.skip(0) == ts);
    while k < targets.len()
        invariant
            k <= targets@.len(),
            ts == texts_of(targets@),
            add_new_ci(texts_of(old(links)@), ts) == add_new_ci(texts_of(links@), ts.skip(k as int)),
        decreases targets@.len() - k,
    {
        let t = &targets[k];
        assert(ts.skip(k as int)[0] == t@);
        assert(ts.skip(k as int).drop_first() == ts.skip(k + 1));
        let ghost acc = texts_of(links@);
        let tc = chars_of(t.as_str());
        if !contains_ci(links.as_slice(), tc.as_slice()) {
            links.push(t.clone());
            assert(texts_of(links@) =~= acc.push(t@));
        }
        k += 1;
    }
    assert(ts.skip(targets@.len() as int) == Seq::<Seq<char>>::empty());
}

/// The properties of a drawer range, read from the lines.
fn drawer_properties(lines: &[String], drawer: Option<(u32, u32)>) -> (r: Vec<(String, String)>)
    ensures
        pairs_view(r@) == drawer_props(texts(lines@), drawer),
{
    match drawer {
        Some((a, b)) => properties_in_lines(lines, a, b),
        None => {
            let v: Vec<(String, String)> = Vec::new();
            assert(pairs_view(v@) =~= Seq::<(Seq<char>, Seq<char>)>::empty());
            v
        },
    }
}

/// Every node in `text`, with the links each one owns.
///
/// Pure: no tree, no host calls, no configuration beyond `todo_keywords`
/// (which decides what a title's leading word means). `path` is recorded
/// verbatim on each node. A link belongs to the innermost node whose span
/// holds its line, and each node lists each target once.
pub fn extract(path: &str, text: &str, outline: &Outline, todo_keywords: &[String]) -> (r: Vec<Extracted>)
    requires
        extract_fits(text@, *outline, texts_of(todo_keywords@)),
    ensures
        extracted_are(r@, path@, text@, *outline, texts_of(todo_keywords@)),
{
    let ghost kw = texts_of(todo_keywords@);
    let ghost o = *outline;
    let ls = lines_of(text);
    let ghost lt = lines(text@);
    assert(texts(ls@) == lt);
    let file_props = drawer_properties(ls.as_slice(), outline.file_drawer);
    let file_tags = match directive(outline, "filetags") {
        Some(v) => split_tags(v.as_str()),
        None => {
            let v: Vec<String> = Vec::new();
            assert(texts_of(v@) =~= Seq::<Seq<char>>::empty());
            v
        },
    };
    assert(texts_of(file_tags@) == file_tags_of(o));

    // The file node.
    let mut nodes: Vec<Node> = Vec::new();
    let mut file_node_index: Option<usize> = None;
    match property(file_props.as_slice(), "ID") {
        Some(id) => {
            let title = match directive(outline, "title") {
                Some(t) => t,
                None => file_stem(path),
            };
            file_node_index = Some(0);
            nodes.push(Node {
                id,
                title,
                aliases: property_list(file_props.as_slice(), "ROAM_ALIASES"),
                tags: clone_strings(file_tags.as_slice()),
                refs: property_list(file_props.as_slice(), "ROAM_REFS"),
                file: owned(path),
                line: 0,
                level: 0,
            });
        },
        None => {},
    }
    assert(nodes@.map_values(|n: Node| n@) =~= nodes_upto(path@, lt, o, kw, 0));

    // Headline nodes. A section with no `:ID:` is not a node, but is still
    // walked, because its tags reach any descendant that is one.
    let mut section_node: Vec<Option<usize>> = Vec::new();
    let mut i: usize = 0;
    while i < outline.sections.len()
        invariant
            i <= outline.sections@.len(),
            o == *outline,
            extract_fits(text@, o, kw),
            kw == texts_of(todo_keywords@),
            lt == lines(text@),
            texts(ls@) == lt,
            texts_of(file_tags@) == file_tags_of(o),
            file_node_index == (if file_id(lt, o) is Some { Some(0usize) } else { None }),
            nodes@.map_values(|n: Node| n@) == nodes_upto(path@, lt, o, kw, i as int),
            nodes@.len() == count_upto(lt, o, i as int),
            section_node@ == section_nodes(lt, o).take(i as int),
        decreases outline.sections@.len() - i,
    {
        let section = &outline.sections[i];
        let props = drawer_properties(ls.as_slice(), section.drawer);
        let ghost before = nodes@.map_values(|n: Node| n@);
        match property(props.as_slice(), "ID") {
            Some(id) => {
                assert(section_id(lt, o, i as int) is Some);
                let node = Node {
                    id,
                    title: strip_headline(section.raw_title.as_str(), todo_keywords),
                    aliases: property_list(props.as_slice(), "ROAM_ALIASES"),
                    tags: inherited_tags(outline, i, file_tags.as_slice()),
                    refs: property_list(props.as_slice(), "ROAM_REFS"),
                    file: owned(path),
                    line: section.headline_line,
                    level: section.level,
                };
                section_node.push(Some(nodes.len()));
                nodes.push(node);
                assert(nodes@.map_values(|n: Node| n@) =~= before + seq![node@]);
            },
            None => {
                section_node.push(None);
                assert(nodes@.map_values(|n: Node| n@) =~= before + Seq::<NodeView>::empty());
            },
        }
        assert(section_node@ =~= section_nodes(lt, o).take(i + 1));
        i += 1;
    }
    assert(section_node@ =~= section_nodes(lt, o));

    // Links, attributed to the node that owns their line.
    let mut links: Vec<Vec<String>> = Vec::new();
    let mut k: usize = 0;
    while k < nodes.len()
        invariant
            k <= nodes@.len(),
            links@.len() == k,
            forall|j: int| 0 <= j < k ==> texts_of((#[trigger] links@[j])@) == Seq::<Seq<char>>::empty(),
        decreases nodes@.len() - k,
    {
        let v: Vec<String> = Vec::new();
        assert(texts_of(v@) =~= Seq::<Seq<char>>::empty());
        links.push(v);
        k += 1;
    }
    let mut n: usize = 0;
    while n < ls.len()
        invariant
            n <= ls@.len(),
            o == *outline,
            lt == lines(text@),
            texts(ls@) == lt,
            lt.len() <= u32::MAX,
            section_node@ == section_nodes(lt, o),
            section_node@.len() == o.sections@.len(),
            file_node_index == (if file_id(lt, o) is Some { Some(0usize) } else { None }),
            links@.len() == nodes@.len(),
            nodes@.len() == count_upto(lt, o, o.sections@.len() as int),
            forall|j: int| 0 <= j < links@.len() ==> texts_of((#[trigger] links@[j])@) == links_upto(lt, o, j as usize, n as int),
        decreases ls@.len() - n,
    {
        let owner = owning_node(outline, section_node.as_slice(), file_node_index, n as u32);
        assert(lt[n as int] == ls@[n as int]@);
        let ghost prev = links@;
        match owner {
            Some(w) => {
                proof {
                    lemma_owner_bound(lt, o, n as u32);
                }
                let targets = id_links_in(ls[n].as_str());
                let mut l: Vec<String> = Vec::new();
                links.set_and_swap(w, &mut l);
                assert(l == prev[w as int]);
                add_links(&mut l, targets.as_slice());
                let ghost added = l;
                links.set(w, l);
                assert forall|j: int| 0 <= j < links@.len() implies texts_of((#[trigger] links@[j])@) == links_upto(lt, o, j as usize, n + 1) by {
                    assert(links_upto(lt, o, j as usize, n + 1) == (if owner_in(o.sections@, section_nodes(lt, o), file_node_index, n as u32) == Some(j as usize) {
                        add_new_ci(links_upto(lt, o, j as usize, n as int), id_links(lt[n as int]))
                    } else {
                        links_upto(lt, o, j as usize, n as int)
                    }));
                    if j == w {
                        assert(links@[j] == added);
                        assert(texts_of(targets@) == id_links(lt[n as int]));
                        assert(texts_of(prev[j]@) == links_upto(lt, o, j as usize, n as int));
                        assert(texts_of(added@) == add_new_ci(texts_of(prev[j]@), texts_of(targets@)));
                        assert(owner_in(o.sections@, section_nodes(lt, o), file_node_index, n as u32) == Some(j as usize));
                    } else {
                        assert(links@[j] == prev[j]);
                        assert(j < links.len());
                        assert(j as usize != w);
                    }
                }
            },
            None => {
                assert forall|j: int| 0 <= j < links@.len() implies texts_of((#[trigger] links@[j])@) == links_upto(lt, o, j as usize, n + 1) by {
                    assert(links_upto(lt, o, j as usize, n + 1) == links_upto(lt, o, j as usize, n as int));
                }
            },
        }
        n += 1;
    }

    // Pair each node with its links.
    let mut out: Vec<Extracted> = Vec::new();
    let mut nodes = nodes;
    let mut links = links;
    let ghost all_nodes = nodes@;
    let ghost all_links = links@;
    let total = nodes.len();
    let mut k: usize = 0;
    while k < total
        invariant
            k <= all_nodes.len(),
            total == all_nodes.len(),
            nodes@.len() == all_nodes.len(),
            links@.len() == all_nodes.len(),
            forall|j: int| k <= j < all_nodes.len() ==> nodes@[j] == all_nodes[j] && links@[j] == all_links[j],
            out@.len() == k,
            forall|j: int| 0 <= j < k ==> (#[trigger] out@[j]).node == all_nodes[j] && out@[j].links == all_links[j],
        decreases all_nodes.len() - k,
    {
        let mut node = Node {
            id: String::new(),
            title: String::new(),
            aliases: Vec::new(),
            tags: Vec::new(),
            refs: Vec::new(),
            file: String::new(),
            line: 0,
            level: 0,
        };
        nodes.set_and_swap(k, &mut node);
        let mut l: Vec<String> = Vec::new();
        links.set_and_swap(k, &mut l);
        out.push(Extracted { node, links: l });
        k += 1;
    }
    out
}

/// The node that owns a line is one of the nodes.
proof fn lemma_owner_bound(lines: Seq<Seq<char>>, o: Outline, line: u32)
    ensures
        match owner_in(o.sections@, section_nodes(lines, o), if file_id(lines, o) is Some { Some(0usize) } else { None }, line) {
            Some(w) => (w as int) < count_upto(lines, o, o.sections@.len() as int),
            None => true,
        },
{
    let sn = section_nodes(lines, o);
    lemma_best_in_bound(lines, o, line, o.sections@.len() as int);
    lemma_count_monotone(lines, o, 0, o.sections@.len() as int);
}

proof fn lemma_best_in_bound(lines: Seq<Seq<char>>, o: Outline, line: u32, k: int)
    requires
        0 <= k <= o.sections@.len(),
    ensures
        match best_in(o.sections@, section_nodes(lines, o), line, k) {
            Some((_, w)) => (w as int) < count_upto(lines, o, o.sections@.len() as int),
            None => true,
        },
    decreases k,
{
    if k > 0 {
        lemma_best_in_bound(lines, o, line, k - 1);
        lemma_count_monotone(lines, o, k, o.sections@.len() as int);
        let sn = section_nodes(lines, o);
        if sn[k - 1] is Some {
            assert(count_upto(lines, o, k) == count_upto(lines, o, k - 1) + 1);
        }
    }
}

proof fn lemma_count_monotone(lines: Seq<Seq<char>>, o: Outline, i: int, j: int)
    requires
        0 <= i <= j,
    ensures
        count_upto(lines, o, i) <= count_upto(lines, o, j),
    decreases j - i,
{
    if i < j {
        lemma_count_monotone(lines, o, i, j - 1);
    }
}


// ── what extraction promises ──

/// No two entries are the same id in any letter case.
pub open spec fn distinct_ci(s: Seq<Seq<char>>) -> bool {
    forall|i: int, j: int| 0 <= i < j < s.len() ==> !eq_ignore_case(#[trigger] s[i], #[trigger] s[j])
}

/// No two entries are the same.
pub open spec fn distinct(s: Seq<Seq<char>>) -> bool {
    forall|i: int, j: int| 0 <= i < j < s.len() ==> #[trigger] s[i] != #[trigger] s[j]
}

proof fn lemma_add_new_ci_distinct(acc: Seq<Seq<char>>, xs: Seq<Seq<char>>)
    requires
        distinct_ci(acc),
    ensures
        distinct_ci(add_new_ci(acc, xs)),
    decreases xs.len(),
{
    if xs.len() > 0 {
        let next = if exists|j: int| 0 <= j < acc.len() && eq_ignore_case(#[trigger] acc[j], xs[0]) { acc } else { acc.push(xs[0]) };
        if !(exists|j: int| 0 <= j < acc.len() && eq_ignore_case(#[trigger] acc[j], xs[0])) {
            assert forall|i: int, j: int| 0 <= i < j < next.len() implies !eq_ignore_case(#[trigger] next[i], #[trigger] next[j]) by {
                if j == acc.len() {
                    assert(next[j] == xs[0]);
                    assert(next[i] == acc[i]);
                } else {
                    assert(next[i] == acc[i] && next[j] == acc[j]);
                }
            }
        }
        lemma_add_new_ci_distinct(next, xs.drop_first());
    }
}

proof fn lemma_add_new_distinct(acc: Seq<Seq<char>>, xs: Seq<Seq<char>>)
    requires
        distinct(acc),
    ensures
        distinct(add_new(acc, xs)),
    decreases xs.len(),
{
    if xs.len() > 0 {
        let next = if acc.contains(xs[0]) { acc } else { acc.push(xs[0]) };
        if !acc.contains(xs[0]) {
            assert forall|i: int, j: int| 0 <= i < j < next.len() implies #[trigger] next[i] != #[trigger] next[j] by {
                if j == acc.len() {
                    assert(next[i] == acc[i]);
                    if acc[i] == xs[0] {
                        assert(acc.contains(xs[0]));
                    }
                } else {
                    assert(next[i] == acc[i] && next[j] == acc[j]);
                }
            }
        }
        lemma_add_new_distinct(next, xs.drop_first());
    }
}

proof fn lemma_links_distinct(lines: Seq<Seq<char>>, o: Outline, k: usize, n: int)
    ensures
        distinct_ci(links_upto(lines, o, k, n)),
    decreases n,
{
    if n > 0 {
        lemma_links_distinct(lines, o, k, n - 1);
        lemma_add_new_ci_distinct(links_upto(lines, o, k, n - 1), id_links(lines[n - 1]));
    }
}

/// What a node lists is deduplicated: a note that links to one target three
/// times, in any letter case, has one backlink to it; and a headline node's
/// inherited tags name each tag once.
pub proof fn lemma_extracted_are_deduplicated(path: Seq<char>, text: Seq<char>, o: Outline, keywords: Seq<Seq<char>>, r: Seq<Extracted>)
    requires
        extracted_are(r, path, text, o, keywords),
    ensures
        forall|k: int| 0 <= k < r.len() ==> distinct_ci(texts_of((#[trigger] r[k]).links@)),
        forall|k: int| 0 <= k < r.len() ==> distinct((#[trigger] r[k]).node@.tags) || r[k].node@.tags == file_tags_of(o),
{
    let ls = lines(text);
    assert forall|k: int| 0 <= k < r.len() implies distinct_ci(texts_of((#[trigger] r[k]).links@)) by {
        lemma_links_distinct(ls, o, k as usize, ls.len() as int);
    }
    assert forall|k: int| 0 <= k < r.len() implies distinct((#[trigger] r[k]).node@.tags) || r[k].node@.tags == file_tags_of(o) by {
        lemma_node_tags(path, ls, o, keywords, o.sections@.len() as int, k);
    }
}

proof fn lemma_node_tags(path: Seq<char>, lines: Seq<Seq<char>>, o: Outline, keywords: Seq<Seq<char>>, n: int, k: int)
    requires
        0 <= k < nodes_upto(path, lines, o, keywords, n).len(),
    ensures
        distinct(nodes_upto(path, lines, o, keywords, n)[k].tags) || nodes_upto(path, lines, o, keywords, n)[k].tags == file_tags_of(o),
    decreases n,
{
    if n > 0 {
        let prev = nodes_upto(path, lines, o, keywords, n - 1);
        if k < prev.len() {
            lemma_node_tags(path, lines, o, keywords, n - 1, k);
            assert(nodes_upto(path, lines, o, keywords, n)[k] == prev[k]);
        } else {
            lemma_add_new_distinct(Seq::empty(), chain_tags(o.sections@, n - 1) + file_tags_of(o));
        }
    }
}

proof fn lemma_nodes_upto_index(path: Seq<char>, lines: Seq<Seq<char>>, o: Outline, keywords: Seq<Seq<char>>, n: int)
    requires
        0 <= n <= o.sections@.len(),
    ensures
        nodes_upto(path, lines, o, keywords, n).len() == count_upto(lines, o, n),
        file_id(lines, o) is Some ==> nodes_upto(path, lines, o, keywords, n)[0] == file_node(path, lines, o)->0,
        forall|i: int| 0 <= i < n && (#[trigger] section_id(lines, o, i)) is Some ==> nodes_upto(path, lines, o, keywords, n)[count_upto(lines, o, i) as int]
            == section_node(path, lines, o, keywords, i)->0,
    decreases n,
{
    if n > 0 {
        lemma_nodes_upto_index(path, lines, o, keywords, n - 1);
        let prev = nodes_upto(path, lines, o, keywords, n - 1);
        let cur = nodes_upto(path, lines, o, keywords, n);
        assert forall|i: int| 0 <= i < n && (#[trigger] section_id(lines, o, i)) is Some implies cur[count_upto(lines, o, i) as int]
            == section_node(path, lines, o, keywords, i)->0 by {
            if i < n - 1 {
                lemma_count_monotone(lines, o, i + 1, n - 1);
                assert(cur[count_upto(lines, o, i) as int] == prev[count_upto(lines, o, i) as int]);
            }
        }
        if file_id(lines, o) is Some {
            lemma_count_monotone(lines, o, 0, n - 1);
            assert(cur[0] == prev[0]);
        }
    }
}

/// Every node reads its id, aliases and refs from its own drawer: the file
/// node from the file's drawer, a headline node from its headline's — refs
/// from `:ROAM_REFS:` and aliases from `:ROAM_ALIASES:`, never one for the
/// other — and a headline node stands at its headline's line and depth.
pub proof fn lemma_nodes_read_their_own_drawer(path: Seq<char>, text: Seq<char>, o: Outline, keywords: Seq<Seq<char>>, r: Seq<Extracted>)
    requires
        extracted_are(r, path, text, o, keywords),
    ensures
        file_id(lines(text), o) matches Some(id) ==> {
            &&& r.len() > 0
            &&& r[0].node@.id == id
            &&& r[0].node@.refs == property_items(drawer_props(lines(text), o.file_drawer), "ROAM_REFS"@)
            &&& r[0].node@.aliases == property_items(drawer_props(lines(text), o.file_drawer), "ROAM_ALIASES"@)
            &&& r[0].node@.line == 0
        },
        forall|i: int| 0 <= i < o.sections@.len() && #[trigger] section_id(lines(text), o, i) is Some ==> {
            let n = r[count_upto(lines(text), o, i) as int].node@;
            let props = drawer_props(lines(text), o.sections@[i].drawer);
            &&& count_upto(lines(text), o, i) < r.len()
            &&& Some(n.id) == lookup(props, "ID"@)
            &&& n.refs == property_items(props, "ROAM_REFS"@)
            &&& n.aliases == property_items(props, "ROAM_ALIASES"@)
            &&& n.line == o.sections@[i].headline_line
            &&& n.level == o.sections@[i].level
        },
{
    let ls = lines(text);
    let len = o.sections@.len() as int;
    lemma_nodes_upto_index(path, ls, o, keywords, len);
    if file_id(ls, o) is Some {
        lemma_count_monotone(ls, o, 0, len);
        assert(r[0].node@ == nodes_upto(path, ls, o, keywords, len)[0]);
    }
    assert forall|i: int| 0 <= i < len && #[trigger] section_id(ls, o, i) is Some implies {
        let n = r[count_upto(ls, o, i) as int].node@;
        let props = drawer_props(ls, o.sections@[i].drawer);
        &&& count_upto(ls, o, i) < r.len()
        &&& Some(n.id) == lookup(props, "ID"@)
        &&& n.refs == property_items(props, "ROAM_REFS"@)
        &&& n.aliases == property_items(props, "ROAM_ALIASES"@)
        &&& n.line == o.sections@[i].headline_line
        &&& n.level == o.sections@[i].level
    } by {
        lemma_count_monotone(ls, o, i + 1, len);
        assert(count_upto(ls, o, i + 1) == count_upto(ls, o, i) + 1);
        let k = count_upto(ls, o, i) as int;
        assert(r[k].node@ == nodes_upto(path, ls, o, keywords, len)[k]);
    }
}

} // verus!
