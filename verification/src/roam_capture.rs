//! `${field}`: what a roam template knows about the node it is making, and the
//! `:ID:` every new note must carry.
//!
//! `%` interpolates the capture context; `${}` interpolates the node being
//! created — its title, slug, id. The `${}` pass runs first, so a title
//! containing `%U` is inserted as text: user data never becomes template
//! syntax. An unknown `${field}` survives verbatim, because a typo that did
//! not expand can be found and fixed while one that vanished cannot.
use vstd::prelude::*;

use crate::text::{
    chars_of, extend_chars, find, find_in, join, join_chars, lemma_find_some, lines, lines_of,
    matches_at, string_of, texts_of, trim, trim_range,
};

verus! {

/// What a roam template may interpolate about the node being created.
#[derive(Debug, Clone, Default)]
pub struct Node<'a> {
    /// The title the user typed into the picker.
    pub title: &'a str,
    /// The filename slug derived from it.
    pub slug: &'a str,
    /// The freshly-minted `:ID:`.
    pub id: &'a str,
    /// A link back to the capture this note was started from, or empty.
    pub origin: &'a str,
}

/// The opener of a field, `${`.
pub open spec fn field_open() -> Seq<char> {
    seq!['$', '{']
}

/// What `${name}` expands to: the node's title, slug, id or origin, or the
/// placeholder itself, braces included, for any other name.
pub open spec fn field_value(name: Seq<char>, node: Node) -> Seq<char> {
    if name == "title"@ {
        node.title@
    } else if name == "slug"@ {
        node.slug@
    } else if name == "id"@ {
        node.id@
    } else if name == "origin"@ {
        node.origin@
    } else {
        field_open() + name + seq!['}']
    }
}

/// `s` with every `${name}` expanded. An unterminated `${` takes the rest of
/// the text with it, verbatim.
pub open spec fn expanded(s: Seq<char>, node: Node) -> Seq<char>
    decreases s.len(),
{
    match find(s, field_open()) {
        None => s,
        Some(at) => {
            proof {
                lemma_find_some(s, field_open());
            }
            let after = s.skip(at + 2);
            match find(after, seq!['}']) {
                None => s,
                Some(close) => {
                    proof {
                        lemma_find_some(after, seq!['}']);
                    }
                    s.take(at) + field_value(after.take(close), node) + expanded(after.skip(close + 1), node)
                },
            }
        },
    }
}

/// What the field named by `s[lo..hi]` expands to.
fn field_text(s: &[char], lo: usize, hi: usize, node: &Node<'_>) -> (r: Vec<char>)
    requires
        lo <= hi <= s@.len(),
    ensures
        r@ == field_value(s@.subrange(lo as int, hi as int), *node),
{
    let title = chars_of("title");
    let slug = chars_of("slug");
    let id = chars_of("id");
    let origin = chars_of("origin");
    if crate::text::eq_at(s, lo, hi, title.as_slice()) {
        chars_of(node.title)
    } else if crate::text::eq_at(s, lo, hi, slug.as_slice()) {
        chars_of(node.slug)
    } else if crate::text::eq_at(s, lo, hi, id.as_slice()) {
        chars_of(node.id)
    } else if crate::text::eq_at(s, lo, hi, origin.as_slice()) {
        chars_of(node.origin)
    } else {
        let mut out: Vec<char> = Vec::new();
        out.push('$');
        out.push('{');
        extend_chars(&mut out, &s[lo..hi]);
        out.push('}');
        assert(out@ =~= field_open() + s@.subrange(lo as int, hi as int) + seq!['}']);
        out
    }
}

/// Expand `${title}` / `${slug}` / `${id}` / `${origin}` in `body`. A `$`
/// that does not open a `${` is literal, so prices and shell variables are
/// untouched.
pub fn expand_fields(body: &str, node: &Node<'_>) -> (r: String)
    ensures
        r@ == expanded(body@, *node),
{
    proof {
        reveal_strlit("title");
        reveal_strlit("slug");
        reveal_strlit("id");
        reveal_strlit("origin");
    }
    let s = chars_of(body);
    let n = s.len();
    let open = ['$', '{'];
    assert(open@ == field_open());
    let close = ['}'];
    assert(close@ == seq!['}']);
    let mut out: Vec<char> = Vec::new();
    let mut i: usize = 0;
    assert(s@.skip(0) == s@);
    loop
        invariant
            i <= n == s@.len(),
            s@ == body@,
            open@ == field_open(),
            close@ == seq!['}'],
            out@ + expanded(s@.skip(i as int), *node) == expanded(body@, *node),
        decreases n - i,
    {
        let ghost rest = s@.skip(i as int);
        assert(s@.subrange(i as int, n as int) == rest);
        let at = match find_in(&s, i, n, &open) {
            None => {
                extend_chars(&mut out, &s.as_slice()[i..n]);
                return string_of(out.as_slice());
            },
            Some(at) => at,
        };
        proof {
            lemma_find_some(rest, field_open());
        }
        let ghost after = rest.skip(at - i + 2);
        assert(after == s@.skip(at + 2));
        assert(s@.subrange(at + 2, n as int) == after);
        let c = match find_in(&s, at + 2, n, &close) {
            None => {
                extend_chars(&mut out, &s.as_slice()[i..n]);
                return string_of(out.as_slice());
            },
            Some(c) => c,
        };
        proof {
            lemma_find_some(after, seq!['}']);
        }
        extend_chars(&mut out, &s.as_slice()[i..at]);
        assert(s@.subrange(i as int, at as int) == rest.take(at - i));
        let ghost name = after.take(c - (at + 2));
        assert(s@.subrange(at + 2, c as int) == name);
        let v = field_text(&s, at + 2, c, node);
        extend_chars(&mut out, v.as_slice());
        assert(after.skip(c - (at + 2) + 1) == s@.skip(c + 1));
        i = c + 1;
    }
}

/// A line is the drawer opener `:PROPERTIES:`, exactly, once trimmed.
pub open spec fn is_opener(line: Seq<char>) -> bool {
    trim(line) == ":PROPERTIES:"@
}

/// The `:ID:` of a file-level drawer, looking from line `i` on: the first
/// non-blank value of a line starting `:ID:`, before the `:END:`.
pub open spec fn id_from(ls: Seq<Seq<char>>, i: int) -> Option<Seq<char>>
    decreases ls.len() - i,
{
    if i < 1 || i >= ls.len() {
        None
    } else {
        let t = trim(ls[i]);
        if t == ":END:"@ {
            None
        } else if t.len() >= 4 && t.take(4) == ":ID:"@ && trim(t.skip(4)).len() > 0 {
            Some(trim(t.skip(4)))
        } else {
            id_from(ls, i + 1)
        }
    }
}

/// The `:ID:` of the drawer that opens `body`, or `None`. Only the first
/// element: a drawer further down belongs to a headline, or to nothing.
pub open spec fn file_level_id_of(body: Seq<char>) -> Option<Seq<char>> {
    let ls = lines(body);
    if ls.len() == 0 || !is_opener(ls[0]) {
        None
    } else {
        id_from(ls, 1)
    }
}

/// The `:ID:` of the file-level drawer — the one that opens the file — or
/// `None`.
pub fn file_level_id(body: &str) -> (r: Option<String>)
    ensures
        match file_level_id_of(body@) {
            Some(id) => r is Some && r->0@ == id,
            None => r is None,
        },
{
    proof {
        reveal_strlit(":PROPERTIES:");
        reveal_strlit(":END:");
        reveal_strlit(":ID:");
    }
    let ls = lines_of(body);
    let ghost lt = lines(body@);
    assert(texts_of(ls@) == lt);
    let opener = chars_of(":PROPERTIES:");
    let end = chars_of(":END:");
    let idp = chars_of(":ID:");
    if ls.len() == 0 {
        return None;
    }
    assert(lt[0] == ls@[0]@);
    if !trimmed_is(ls[0].as_str(), opener.as_slice()) {
        return None;
    }
    let mut i: usize = 1;
    while i < ls.len()
        invariant
            1 <= i <= ls@.len(),
            texts_of(ls@) == lt,
            lt == lines(body@),
            file_level_id_of(body@) == id_from(lt, 1),
            ":ID:"@.len() == 4,
            end@ == ":END:"@,
            idp@ == ":ID:"@,
            id_from(lt, 1) == id_from(lt, i as int),
        decreases ls@.len() - i,
    {
        assert(lt[i as int] == ls@[i as int]@);
        let t = chars_of(ls[i].as_str());
        let tn = t.len();
        assert(t@.subrange(0, tn as int) == t@);
        let (a, b) = trim_range(&t, 0, tn);
        let ghost tt = t@.subrange(a as int, b as int);
        if crate::text::eq_at(&t, a, b, end.as_slice()) {
            return None;
        }
        if b - a >= 4 && crate::text::eq_at(&t, a, a + 4, idp.as_slice()) {
            assert(tt.take(4) == t@.subrange(a as int, a + 4));
            assert(tt.skip(4) == t@.subrange(a + 4, b as int));
            let (va, vb) = trim_range(&t, a + 4, b);
            if va < vb {
                return Some(string_of(&t.as_slice()[va..vb]));
            }
        } else {
            proof {
                if tt.len() >= 4 {
                    assert(tt.take(4) == t@.subrange(a as int, a + 4));
                }
            }
        }
        i += 1;
    }
    None
}

/// Whether `text`, trimmed, is `lit`.
fn trimmed_is(text: &str, lit: &[char]) -> (b: bool)
    ensures
        b == (trim(text@) == lit@),
{
    let t = chars_of(text);
    let n = t.len();
    assert(t@.subrange(0, n as int) == t@);
    let (a, b) = trim_range(&t, 0, n);
    crate::text::eq_at(&t, a, b, lit)
}

/// The drawer line that carries `id`.
pub open spec fn id_line(id: Seq<char>) -> Seq<char> {
    ":ID:       "@ + id
}

/// What [`ensure_id`] answers: `body` itself when its file-level drawer has
/// an id; the id first inside the drawer `body` opens with; or a fresh drawer
/// above everything.
pub open spec fn with_id(body: Seq<char>, id: Seq<char>) -> Seq<char> {
    let ls = lines(body);
    if file_level_id_of(body) is Some {
        body
    } else if ls.len() > 0 && is_opener(ls[0]) {
        ":PROPERTIES:\n"@ + id_line(id) + seq!['\n'] + join(ls.skip(1), seq!['\n'])
            + (if body.len() > 0 && body.last() == '\n' { seq!['\n'] } else { Seq::empty() })
    } else {
        ":PROPERTIES:\n"@ + id_line(id) + "\n:END:\n"@ + body
    }
}

/// Guarantee the node's `:ID:`. An existing one is adopted, never replaced:
/// overwriting would re-identify a note every link already points at. An
/// absent one is written, as the first property of the drawer that opens the
/// file, or in a fresh drawer above everything, `#+title:` included.
pub fn ensure_id(body: &str, id: &str) -> (r: String)
    ensures
        r@ == with_id(body@, id@),
{
    proof {
        reveal_strlit(":PROPERTIES:");
    }
    if file_level_id(body).is_some() {
        return crate::text::owned(body);
    }
    let ls = lines_of(body);
    let ghost lt = lines(body@);
    assert(texts_of(ls@) == lt);
    let opener = chars_of(":PROPERTIES:");
    let mut out = chars_of(":PROPERTIES:\n");
    let idl = chars_of(":ID:       ");
    extend_chars(&mut out, idl.as_slice());
    let idc = chars_of(id);
    extend_chars(&mut out, idc.as_slice());
    let ghost head = out@;
    assert(head == ":PROPERTIES:\n"@ + id_line(id@));
    if ls.len() > 0 && trimmed_is(ls[0].as_str(), opener.as_slice()) {
        assert(lt[0] == ls@[0]@);
        out.push('\n');
        let n = ls.len();
        let rest_lines = &ls.as_slice()[1..n];
        assert(texts_of(rest_lines@) == lt.skip(1));
        let j = join_chars(rest_lines, "\n");
        proof {
            reveal_strlit("\n");
            assert("\n"@ =~= seq!['\n']);
        }
        extend_chars(&mut out, j.as_slice());
        let b = chars_of(body);
        if b.len() > 0 && b[b.len() - 1] == '\n' {
            out.push('\n');
        }
        assert(out@ =~= with_id(body@, id@));
        return string_of(out.as_slice());
    }
    let tail = chars_of("\n:END:\n");
    extend_chars(&mut out, tail.as_slice());
    let b = chars_of(body);
    extend_chars(&mut out, b.as_slice());
    string_of(out.as_slice())
}

/// A note's filename: the template's pattern with its `${…}` fields
/// expanded, or the timestamp and slug when the template names none.
pub open spec fn note_filename(pattern: Option<Seq<char>>, node: Node, stamp: Seq<char>) -> Seq<char> {
    match pattern {
        Some(p) => expanded(p, node),
        None => if node.slug@.len() == 0 {
            stamp + ".org"@
        } else {
            stamp + seq!['-'] + node.slug@ + ".org"@
        },
    }
}

/// The note's filename for one template and node. Takes `${…}` and nothing
/// else: a `%U` in a filename would put spaces and brackets into a path.
pub fn roam_note_filename(pattern: Option<&str>, node: &Node<'_>, stamp: &str) -> (r: String)
    ensures
        r@ == note_filename(match pattern { Some(p) => Some(p@), None => None }, *node, stamp@),
{
    match pattern {
        Some(p) => expand_fields(p, node),
        None => {
            let mut out = chars_of(stamp);
            let slug = chars_of(node.slug);
            if slug.len() > 0 {
                out.push('-');
                extend_chars(&mut out, slug.as_slice());
            }
            let ext = chars_of(".org");
            extend_chars(&mut out, ext.as_slice());
            string_of(out.as_slice())
        },
    }
}


/// The `:ID:` a note has after [`ensure_id`]: the one it already had, or the
/// one given. An existing id is adopted, never replaced; an absent one is
/// written where the file-level drawer is read.
pub proof fn lemma_ensure_id_gives_an_id(body: Seq<char>, id: Seq<char>)
    requires
        trim(id).len() > 0,
        !id.contains('\n'),
    ensures
        file_level_id_of(with_id(body, id)) == match file_level_id_of(body) {
            Some(existing) => Some(existing),
            None => Some(trim(id)),
        },
        file_level_id_of(body) is Some ==> with_id(body, id) == body,
        forall|id2: Seq<char>| #[trigger] with_id(with_id(body, id), id2) == with_id(body, id),
{
    if file_level_id_of(body) is None {
        let ls = lines(body);
        let idl = id_line(id);
        reveal_strlit(":PROPERTIES:");
        reveal_strlit(":ID:       ");
        reveal_strlit(":PROPERTIES:\n");
        reveal_strlit("\n:END:\n");
        reveal_strlit(":END:\n");
        reveal_strlit(":ID:");
        reveal_strlit(":END:");
        let opener = ":PROPERTIES:"@;
        assert(":PROPERTIES:\n"@ =~= opener + seq!['\n']);
        assert(!opener.contains('\n')) by {
            if opener.contains('\n') {
                let k = choose|k: int| 0 <= k < opener.len() && opener[k] == '\n';
            }
        }
        assert(!idl.contains('\n')) by {
            if idl.contains('\n') {
                let k = choose|k: int| 0 <= k < idl.len() && idl[k] == '\n';
                if k >= 11 {
                    assert(idl[k] == id[k - 11]);
                    assert(id.contains('\n'));
                }
            }
        }
        // The id's line reads back as the id.
        lemma_id_line_reads(id);
        let rest = if ls.len() > 0 && is_opener(ls[0]) {
            join(ls.skip(1), seq!['\n']) + (if body.len() > 0 && body.last() == '\n' { seq!['\n'] } else { Seq::empty() })
        } else {
            ":END:\n"@ + body
        };
        if !(ls.len() > 0 && is_opener(ls[0])) {
            assert("\n:END:\n"@ =~= seq!['\n'] + ":END:\n"@);
        }
        let out = opener + seq!['\n'] + (idl + seq!['\n'] + rest);
        assert(with_id(body, id) =~= out);
        crate::text::lemma_lines_prepend(opener, idl + seq!['\n'] + rest);
        crate::text::lemma_lines_prepend_any(idl, rest);
        let lo = lines(out);
        assert(lo =~= seq![opener] + (seq![crate::text::strip_cr(idl)] + lines(rest)));
        assert(lo[0] == opener);
        assert(lo[1] == crate::text::strip_cr(idl));
        lemma_trim_strip_cr(idl);
        assert(trim(opener) == opener) by {
            lemma_no_ws_trim(opener);
        }
        assert(id_from(lo, 1) == Some(trim(id)));
    }
}

/// A text with no whitespace at either end trims to itself.
proof fn lemma_no_ws_trim(s: Seq<char>)
    requires
        s.len() > 0,
        !crate::text::is_ws(s[0]),
        !crate::text::is_ws(s.last()),
    ensures
        trim(s) == s,
{
    crate::text::lemma_leading_ws_at(s, 0);
    assert(crate::text::trim_start(s) == s);
    crate::text::lemma_trailing_ws_at(s, s.len() as int);
}

/// Trimming keeps exactly the window from the first character that is not
/// whitespace to the last.
proof fn lemma_trim_window(s: Seq<char>, a: int, b: int)
    requires
        0 <= a < b <= s.len(),
        forall|i: int| 0 <= i < a ==> crate::text::is_ws(#[trigger] s[i]),
        forall|i: int| b <= i < s.len() ==> crate::text::is_ws(#[trigger] s[i]),
        !crate::text::is_ws(s[a]),
        !crate::text::is_ws(s[b - 1]),
    ensures
        trim(s) == s.subrange(a, b),
{
    crate::text::lemma_leading_ws_at(s, a);
    let u = s.skip(a);
    assert forall|i: int| b - a <= i < u.len() implies crate::text::is_ws(#[trigger] u[i]) by {
        assert(u[i] == s[a + i]);
    }
    assert(u[b - a - 1] == s[b - 1]);
    crate::text::lemma_trailing_ws_at(u, b - a);
    assert(u.take(b - a) =~= s.subrange(a, b));
}

/// Where the text of a non-blank `s` starts and ends.
proof fn lemma_trim_bounds(s: Seq<char>) -> (w: (int, int))
    requires
        trim(s).len() > 0,
    ensures
        0 <= w.0 < w.1 <= s.len(),
        forall|i: int| 0 <= i < w.0 ==> crate::text::is_ws(#[trigger] s[i]),
        forall|i: int| w.1 <= i < s.len() ==> crate::text::is_ws(#[trigger] s[i]),
        !crate::text::is_ws(s[w.0]),
        !crate::text::is_ws(s[w.1 - 1]),
        trim(s) == s.subrange(w.0, w.1),
{
    crate::text::lemma_leading_ws_bound(s);
    crate::text::lemma_trailing_ws_bound(s);
    let a = crate::text::leading_ws(s) as int;
    let b = s.len() - crate::text::trailing_ws(s);
    if a >= s.len() {
        assert(crate::text::trim_start(s).len() == 0);
    }
    assert(!crate::text::is_ws(s[a]));
    assert(a < b);
    lemma_trim_window(s, a, b);
    (a, b)
}

/// A trailing `\r` is whitespace: dropping it does not change what a
/// non-blank text trims to.
proof fn lemma_trim_strip_cr(x: Seq<char>)
    requires
        trim(x).len() > 0,
    ensures
        trim(crate::text::strip_cr(x)) == trim(x),
{
    let (a, b) = lemma_trim_bounds(x);
    if x.len() > 0 && x.last() == '\r' {
        let y = x.drop_last();
        assert(crate::text::is_ws(x[x.len() - 1]));
        assert(b <= y.len());
        assert forall|i: int| b <= i < y.len() implies crate::text::is_ws(#[trigger] y[i]) by {
            assert(y[i] == x[i]);
        }
        lemma_trim_window(y, a, b);
        assert(y.subrange(a, b) =~= x.subrange(a, b));
    }
}

/// `:ID:       <id>` reads back as the id, trimmed.
proof fn lemma_id_line_reads(id: Seq<char>)
    requires
        trim(id).len() > 0,
    ensures
        trim(id_line(id)) != ":END:"@,
        trim(id_line(id)).len() >= 4,
        trim(id_line(id)).take(4) == ":ID:"@,
        trim(trim(id_line(id)).skip(4)) == trim(id),
{
    reveal_strlit(":ID:       ");
    reveal_strlit(":ID:");
    reveal_strlit(":END:");
    let (a, b) = lemma_trim_bounds(id);
    let l = id_line(id);
    assert(l.len() == 11 + id.len());
    assert forall|i: int| 11 + b <= i < l.len() implies crate::text::is_ws(#[trigger] l[i]) by {
        assert(l[i] == id[i - 11]);
    }
    assert(l[11 + b - 1] == id[b - 1]);
    assert(l[0] == ':');
    lemma_trim_window(l, 0, 11 + b);
    let t = trim(l);
    assert(t.take(4) =~= ":ID:"@);
    let v = t.skip(4);
    assert(v.len() == 7 + b);
    assert forall|i: int| 0 <= i < 7 + a implies crate::text::is_ws(#[trigger] v[i]) by {
        if i >= 7 {
            assert(v[i] == id[i - 7]);
        }
    }
    assert(v[7 + a] == id[a]);
    assert(v[7 + b - 1] == id[b - 1]);
    lemma_trim_window(v, 7 + a, 7 + b);
    assert(v.subrange(7 + a, 7 + b) =~= id.subrange(a, b));
    assert(t != ":END:"@) by {
        if t == ":END:"@ {
            assert(t.len() == 5);
        }
    }
}


/// A body with no `${` in it comes back unchanged.
pub proof fn lemma_no_fields_no_change(body: Seq<char>, node: Node)
    requires
        find(body, field_open()) is None,
    ensures
        expanded(body, node) == body,
{
}

/// Whether a trimmed drawer line is `:ID:` with a value.
pub open spec fn names_id(t: Seq<char>) -> bool {
    t.len() >= 4 && t.take(4) == ":ID:"@ && trim(t.skip(4)).len() > 0
}

proof fn lemma_id_from_reaches(ls: Seq<Seq<char>>, j: int, k: int)
    requires
        1 <= j <= k < ls.len(),
        forall|m: int| j <= m < k ==> trim(#[trigger] ls[m]) != ":END:"@ && !names_id(trim(ls[m])),
        names_id(trim(ls[k])),
    ensures
        id_from(ls, j) == Some(trim(trim(ls[k]).skip(4))),
    decreases k - j,
{
    reveal_strlit(":ID:");
    reveal_strlit(":END:");
    if j < k {
        lemma_id_from_reaches(ls, j + 1, k);
    } else {
        let t = trim(ls[k]);
        if t == ":END:"@ {
            assert(t.take(4)[3] == ':');
            assert(":END:"@[3] == ':');
            assert(t.take(4)[1] == t[1]);
            assert(":ID:"@[1] == 'I');
        }
    }
}

/// The file's id is the first `:ID:` with a value anywhere in the drawer that
/// opens the file, whatever other properties come before it; and a note that
/// has one keeps its body whole when an id is ensured.
pub proof fn lemma_drawer_id_anywhere(body: Seq<char>, k: int, id: Seq<char>)
    requires
        0 < k < lines(body).len(),
        trim(lines(body)[0]) == ":PROPERTIES:"@,
        forall|j: int| 1 <= j < k ==> trim(#[trigger] lines(body)[j]) != ":END:"@ && !names_id(trim(lines(body)[j])),
        names_id(trim(lines(body)[k])),
    ensures
        file_level_id_of(body) == Some(trim(trim(lines(body)[k]).skip(4))),
        with_id(body, id) == body,
{
    lemma_id_from_reaches(lines(body), 1, k);
}

} // verus!
