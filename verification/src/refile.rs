//! Refile targets: where a subtree can go.
//!
//! A target is a file (append) or a headline in it (insert after the
//! headline's whole subtree). The picker shows each headline by its path —
//! `notes.org  Work / Q3` — because two headings called `Notes` under
//! different parents are common and indistinguishable by title alone.
//!
//! A chosen target travels back to the refile action as an opaque token,
//! `path\tline`, which [`decode`] treats as untrusted input.
use vstd::prelude::*;

use crate::headline::{outline_text, texts, Entry};
use crate::text::{
    chars_in_bytes, chars_in_bytes_of, chars_of, decimal, extend_chars, find, find_in, join,
    join_chars, lemma_decimal_digits, lines, lines_of, parse_u32, parse_u32_in, push_decimal,
    string_of, texts_of, trim, trim_range, unsigned_value, all_digits, digits_value, matches_at,
    first_match, lemma_find_is,
};

verus! {

/// One place a subtree can be filed.
pub struct Target {
    /// Absolute path of the target file.
    pub file: String,
    /// The 0-based line to insert before, or `None` to append at the end.
    /// Past the end is fine: "after the last headline in the file".
    pub before_line: Option<u32>,
    /// What the user reads in the picker: `notes.org  Work / Q3`.
    pub label: String,
}

/// A headline's text without its stars: what follows the first `level` bytes,
/// trimmed. The TODO keyword and tags stay, because the picker matches on
/// what is shown.
pub open spec fn title_text(line: Seq<char>, level: nat) -> Seq<char> {
    match chars_in_bytes(line, level as int) {
        Some(k) => trim(line.skip(k as int)),
        None => Seq::empty(),
    }
}

/// What `targets_from` needs of an outline entry whose line exists: a depth
/// of at least one, at a character boundary of the line.
pub open spec fn entry_fits(lines: Seq<Seq<char>>, e: Entry, max_level: usize) -> bool {
    (e.line as int) < lines.len() ==> {
        &&& e.level >= 1
        &&& chars_in_bytes(lines[e.line as int], e.level as int) is Some
        &&& e.level <= max_level ==> e.end_line < u32::MAX
    }
}

/// The ancestor titles after the first `n` outline entries: the path of the
/// most recent headline.
pub open spec fn path_after(lines: Seq<Seq<char>>, outline: Seq<Entry>, n: int) -> Seq<Seq<char>>
    decreases n,
{
    if n <= 0 {
        Seq::empty()
    } else {
        let prev = path_after(lines, outline, n - 1);
        let e = outline[n - 1];
        if (e.line as int) < lines.len() {
            let keep = if e.level - 1 <= prev.len() { e.level - 1 } else { prev.len() as int };
            prev.take(keep).push(title_text(lines[e.line as int], e.level as nat))
        } else {
            prev
        }
    }
}

/// The picker label of a headline target.
pub open spec fn target_label(name: Seq<char>, path: Seq<Seq<char>>) -> Seq<char> {
    name + "  "@ + join(path, " / "@)
}

/// `(before_line, label)` of every target after the first `n` outline
/// entries: the file itself first, then each headline no deeper than
/// `max_level`.
pub open spec fn targets_after(
    name: Seq<char>,
    lines: Seq<Seq<char>>,
    outline: Seq<Entry>,
    max_level: usize,
    n: int,
) -> Seq<(Option<u32>, Seq<char>)>
    decreases n,
{
    if n <= 0 {
        seq![(None, name)]
    } else {
        let prev = targets_after(name, lines, outline, max_level, n - 1);
        let e = outline[n - 1];
        if (e.line as int) < lines.len() && e.level <= max_level {
            prev.push((Some((e.end_line + 1) as u32), target_label(name, path_after(lines, outline, n))))
        } else {
            prev
        }
    }
}

/// Every target the file and `outline` offer: the file first, because "put
/// this in `inbox.org`" is the answer when no headline is right.
pub open spec fn targets_spec(
    name: Seq<char>,
    lines: Seq<Seq<char>>,
    outline: Seq<Entry>,
    max_level: usize,
) -> Seq<(Option<u32>, Seq<char>)> {
    targets_after(name, lines, outline, max_level, outline.len() as int)
}

/// `r` is the targets `spec` describes, every one in `file`.
pub open spec fn targets_are(r: Seq<Target>, file: Seq<char>, spec: Seq<(Option<u32>, Seq<char>)>) -> bool {
    &&& r.len() == spec.len()
    &&& forall|i: int| 0 <= i < r.len() ==> {
        &&& (#[trigger] r[i]).file@ == file
        &&& r[i].before_line == spec[i].0
        &&& r[i].label@ == spec[i].1
    }
}

/// Every headline in `text` down to `max_level`, plus the file itself.
pub fn targets_in(file: &str, display_name: &str, text: &str, max_level: usize) -> (r: Vec<Target>)
    requires
        lines(text@).len() < u32::MAX,
    ensures
        targets_are(r@, file@, targets_spec(display_name@, lines(text@), outline_of(lines(text@)), max_level)),
{
    let ls = lines_of(text);
    let outline = outline_text(ls.as_slice());
    proof {
        assert(texts(ls@) == lines(text@));
        lemma_outline_fits(texts(ls@), max_level);
        assert forall|i: int| 0 <= i < outline@.len() implies entry_fits(texts(ls@), #[trigger] outline@[i], max_level) by {
            assert(outline@[i] == outline_of(texts(ls@))[i]);
        }
    }
    targets_from(file, display_name, ls.as_slice(), outline.as_slice(), max_level)
}

/// The outline [`targets_in`] reads from text.
pub open spec fn outline_of(lines: Seq<Seq<char>>) -> Seq<Entry> {
    crate::headline::outline_from(lines, 0)
}

proof fn lemma_outline_fits(lines: Seq<Seq<char>>, max_level: usize)
    requires
        lines.len() < u32::MAX,
    ensures
        forall|i: int| 0 <= i < outline_of(lines).len() ==> entry_fits(lines, #[trigger] outline_of(lines)[i], max_level),
{
    lemma_outline_from_fits(lines, 0, max_level);
}

proof fn lemma_outline_from_fits(lines: Seq<Seq<char>>, from: int, max_level: usize)
    requires
        lines.len() < u32::MAX,
        0 <= from,
    ensures
        forall|i: int| 0 <= i < crate::headline::outline_from(lines, from).len()
            ==> entry_fits(lines, #[trigger] crate::headline::outline_from(lines, from)[i], max_level),
    decreases lines.len() - from,
{
    if from < lines.len() {
        lemma_outline_from_fits(lines, from + 1, max_level);
        match crate::headline::level_of(lines[from]) {
            Some(l) if l <= usize::MAX => {
                crate::headline::lemma_subtree_end_from(lines, from + 1, l);
                let rest = crate::headline::outline_from(lines, from + 1);
                let e = crate::headline::outline_from(lines, from)[0];
                assert(e.line == from as u32);
                assert(e.level == l as usize);
                lemma_stars_are_ascii(lines[from], l);
                assert forall|i: int| 0 <= i < crate::headline::outline_from(lines, from).len()
                    implies entry_fits(lines, #[trigger] crate::headline::outline_from(lines, from)[i], max_level) by {
                    if i > 0 {
                        assert(crate::headline::outline_from(lines, from)[i] == rest[i - 1]);
                    }
                }
            },
            _ => {
                assert(crate::headline::outline_from(lines, from) == crate::headline::outline_from(lines, from + 1));
            },
        }
    }
}

/// A headline's stars are one byte each, so its depth in bytes is a
/// character boundary.
proof fn lemma_stars_are_ascii(s: Seq<char>, l: nat)
    requires
        crate::headline::level_of(s) == Some(l),
    ensures
        chars_in_bytes(s, l as int) == Some(l),
{
    lemma_star_prefix(s, l);
}

proof fn lemma_star_prefix(s: Seq<char>, l: nat)
    requires
        l <= crate::headline::star_run(s),
        l <= s.len(),
    ensures
        chars_in_bytes(s, l as int) == Some(l),
    decreases l,
{
    if l > 0 {
        assert(s[0] == '*');
        lemma_star_prefix(s.drop_first(), (l - 1) as nat);
    }
}

/// [`targets_in`] over an outline someone else produced. Each headline is
/// shown by its path, and inserts after its whole subtree.
pub fn targets_from(
    file: &str,
    display_name: &str,
    lines: &[String],
    outline: &[Entry],
    max_level: usize,
) -> (r: Vec<Target>)
    requires
        forall|i: int| 0 <= i < outline@.len() ==> entry_fits(texts(lines@), #[trigger] outline@[i], max_level),
    ensures
        targets_are(r@, file@, targets_spec(display_name@, texts(lines@), outline@, max_level)),
{
    let ghost ls = texts(lines@);
    let mut out: Vec<Target> = Vec::new();
    out.push(Target { file: crate::text::owned(file), before_line: None, label: crate::text::owned(display_name) });
    let name = chars_of(display_name);
    let mut stack: Vec<String> = Vec::new();
    let mut n: usize = 0;
    while n < outline.len()
        invariant
            n <= outline@.len(),
            ls == texts(lines@),
            name@ == display_name@,
            forall|i: int| 0 <= i < outline@.len() ==> entry_fits(ls, #[trigger] outline@[i], max_level),
            texts_of(stack@) == path_after(ls, outline@, n as int),
            targets_are(out@, file@, targets_after(display_name@, ls, outline@, max_level, n as int)),
        decreases outline@.len() - n,
    {
        let entry = outline[n];
        assert(entry_fits(ls, outline@[n as int], max_level));
        if (entry.line as usize) < lines.len() {
            let text = &lines[entry.line as usize];
            assert(ls[entry.line as int] == text@);
            let ghost prev = texts_of(stack@);
            stack.truncate(entry.level - 1);
            let title = title_of(text.as_str(), entry.level);
            stack.push(title);
            proof {
                let keep = if entry.level - 1 <= prev.len() { entry.level - 1 } else { prev.len() as int };
                assert(texts_of(stack@) =~= prev.take(keep).push(title_text(text@, entry.level as nat)));
            }
            if entry.level <= max_level {
                let mut label = name.clone();
                label.push(' ');
                label.push(' ');
                let path = join_chars(stack.as_slice(), " / ");
                extend_chars(&mut label, path.as_slice());
                proof {
                    reveal_strlit("  ");
                    assert(label@ =~= target_label(display_name@, texts_of(stack@)));
                }
                let t = Target {
                    file: crate::text::owned(file),
                    before_line: Some(entry.end_line + 1),
                    label: string_of(label.as_slice()),
                };
                let ghost before = out@;
                out.push(t);
                proof {
                    let spec = targets_after(display_name@, ls, outline@, max_level, n + 1);
                    assert(spec == targets_after(display_name@, ls, outline@, max_level, n as int).push(
                        (Some((entry.end_line + 1) as u32), target_label(display_name@, path_after(ls, outline@, n + 1)))));
                    assert forall|i: int| 0 <= i < out@.len() implies {
                        &&& (#[trigger] out@[i]).file@ == file@
                        &&& out@[i].before_line == spec[i].0
                        &&& out@[i].label@ == spec[i].1
                    } by {
                        if i < before.len() {
                            assert(out@[i] == before[i]);
                        }
                    }
                }
            }
        }
        n += 1;
    }
    out
}

/// The headline's text without its stars.
fn title_of(line: &str, level: usize) -> (r: String)
    requires
        chars_in_bytes(line@, level as int) is Some,
    ensures
        r@ == title_text(line@, level as nat),
{
    let t = chars_of(line);
    let k = chars_in_bytes_of(t.as_slice(), level);
    proof {
        crate::text::lemma_chars_in_bytes(t@, level as int);
    }
    match k {
        Some(k) => {
            let (a, b) = trim_range(&t, k, t.len());
            assert(t@.subrange(k as int, t@.len() as int) == t@.skip(k as int));
            string_of(&t.as_slice()[a..b])
        },
        None => String::new(),
    }
}

/// The token for a target: `path\tline`, with an empty line meaning append.
pub open spec fn token(file: Seq<char>, before_line: Option<u32>) -> Seq<char> {
    match before_line {
        Some(n) => file + seq!['\t'] + decimal(n as nat),
        None => file + seq!['\t'],
    }
}

/// Encode a target as the opaque token the picker hands back at `accept`. A
/// tab, because a path may contain almost anything else.
pub fn encode(target: &Target) -> (r: String)
    ensures
        r@ == token(target.file@, target.before_line),
{
    let mut out = chars_of(target.file.as_str());
    out.push('\t');
    match target.before_line {
        Some(n) => push_decimal(&mut out, n as u64),
        None => {},
    }
    string_of(out.as_slice())
}

/// What a token says: the path, and the line or `None` for append. `None`
/// overall when the token is malformed: no tab, an empty path, or a line that
/// is not a `u32`.
pub open spec fn token_meaning(t: Seq<char>) -> Option<(Seq<char>, Option<u32>)> {
    match find(t, seq!['\t']) {
        None => None,
        Some(i) => {
            let path = t.take(i);
            let line = t.skip(i + 1);
            if path.len() == 0 {
                None
            } else if line.len() == 0 {
                Some((path, None))
            } else {
                match parse_u32(line) {
                    Some(n) => Some((path, Some(n))),
                    None => None,
                }
            }
        }
    }
}

/// The inverse of [`encode`]: the path and line a token carries, or `None`
/// when it is malformed. The token crosses the boundary twice, so it is
/// untrusted here.
pub fn decode(token: &str) -> (r: Option<(String, Option<u32>)>)
    ensures
        match (token_meaning(token@), r) {
            (None, None) => true,
            (Some((path, line)), Some((p, l))) => p@ == path && l == line,
            _ => false,
        },
{
    let t = chars_of(token);
    let tab = ['\t'];
    assert(tab@ == seq!['\t']);
    assert(t@.subrange(0, t@.len() as int) == t@);
    match find_in(&t, 0, t.len(), &tab) {
        None => None,
        Some(i) => {
            assert(t@.subrange(0, i as int) == t@.take(i as int));
            assert(t@.subrange(i + 1, t@.len() as int) == t@.skip(i + 1));
            if i == 0 {
                return None;
            }
            let path = string_of(&t.as_slice()[0..i]);
            if i + 1 == t.len() {
                return Some((path, None));
            }
            match parse_u32_in(&t, i + 1, t.len()) {
                Some(n) => Some((path, Some(n))),
                None => None,
            }
        },
    }
}

/// A token decodes to the target it was made from, whenever the path is not
/// empty and holds no tab.
pub proof fn lemma_decode_encode(file: Seq<char>, before_line: Option<u32>)
    requires
        file.len() > 0,
        !file.contains('\t'),
    ensures
        token_meaning(token(file, before_line)) == Some((file, before_line)),
{
    let t = token(file, before_line);
    assert(matches_at(t, seq!['\t'], file.len() as int)) by {
        assert(t.subrange(file.len() as int, (file.len() + 1) as int) =~= seq!['\t']);
    }
    assert forall|j: int| 0 <= j < file.len() implies !matches_at(t, seq!['\t'], j) by {
        if matches_at(t, seq!['\t'], j) {
            assert(t.subrange(j, j + 1)[0] == t[j]);
            assert(t[j] == file[j]);
        }
    }
    assert(first_match(t, seq!['\t'], file.len() as int));
    lemma_find_is(t, seq!['\t'], file.len() as int);
    assert(t.take(file.len() as int) =~= file);
    match before_line {
        Some(n) => {
            lemma_decimal_digits(n as nat);
            let d = decimal(n as nat);
            assert(t.skip((file.len() + 1) as int) =~= d);
            assert(d[0] != '+');
            assert(unsigned_value(d) == Some(n as nat));
        },
        None => {
            assert(t.skip((file.len() + 1) as int) =~= Seq::<char>::empty());
        },
    }
}


/// The file itself is always the first target, and it appends: "put this in
/// `inbox.org`" is the answer when no headline is right.
pub proof fn lemma_file_target_first(name: Seq<char>, lines: Seq<Seq<char>>, outline: Seq<Entry>, max_level: usize)
    ensures
        targets_spec(name, lines, outline, max_level).len() >= 1,
        targets_spec(name, lines, outline, max_level)[0] == (None::<u32>, name),
{
    lemma_targets_keep_first(name, lines, outline, max_level, outline.len() as int);
}

proof fn lemma_targets_keep_first(name: Seq<char>, lines: Seq<Seq<char>>, outline: Seq<Entry>, max_level: usize, n: int)
    ensures
        targets_after(name, lines, outline, max_level, n).len() >= 1,
        targets_after(name, lines, outline, max_level, n)[0] == (None::<u32>, name),
    decreases n,
{
    if n > 0 {
        lemma_targets_keep_first(name, lines, outline, max_level, n - 1);
    }
}

/// A headline entry's title, as its path shows it.
pub open spec fn entry_title(lines: Seq<Seq<char>>, e: Entry) -> Seq<char> {
    title_text(lines[e.line as int], e.level as nat)
}

/// In an outline that skips no level, a headline's path has one title per
/// level: for each shallower level, the headline it sits under at that level
/// — the nearest one above with nothing as shallow in between — and last its
/// own.
pub proof fn lemma_path_names_ancestors(lines: Seq<Seq<char>>, outline: Seq<Entry>, j: int)
    requires
        0 <= j < outline.len(),
        forall|q: int| 0 <= q <= j ==> (#[trigger] outline[q].line as int) < lines.len() && outline[q].level >= 1,
        outline[0].level == 1,
        forall|q: int| 0 < q <= j ==> #[trigger] outline[q].level <= outline[q - 1].level + 1,
    ensures
        path_after(lines, outline, j + 1).len() == outline[j].level,
        forall|m: int| #![trigger outline[m]]
            0 <= m <= j && (forall|q: int| m < q <= j ==> #[trigger] outline[q].level > outline[m].level)
                ==> path_after(lines, outline, j + 1)[outline[m].level - 1] == entry_title(lines, outline[m]),
    decreases j,
{
    let e = outline[j];
    assert(e.line < lines.len() && e.level >= 1);
    if j > 0 {
        lemma_path_names_ancestors(lines, outline, j - 1);
        let prev = path_after(lines, outline, j);
        assert(outline[j].level <= outline[j - 1].level + 1);
        let cur = path_after(lines, outline, j + 1);
        assert(cur == prev.take(e.level - 1).push(entry_title(lines, e)));
        assert forall|m: int| #![trigger outline[m]]
            0 <= m <= j && (forall|q: int| m < q <= j ==> #[trigger] outline[q].level > outline[m].level)
                implies cur[outline[m].level - 1] == entry_title(lines, outline[m]) by {
            if m < j {
                assert(outline[j].level > outline[m].level);
                assert forall|q: int| m < q <= j - 1 implies #[trigger] outline[q].level > outline[m].level by {
                    assert(m < q <= j);
                }
                assert(prev[outline[m].level - 1] == entry_title(lines, outline[m]));
            }
        }
    } else {
        assert(path_after(lines, outline, 0) == Seq::<Seq<char>>::empty());
        assert(path_after(lines, outline, 1) =~= seq![entry_title(lines, e)]);
    }
}

} // verus!
