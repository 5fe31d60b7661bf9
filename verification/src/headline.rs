//! Headlines read from text: which lines are headlines, how deep, and where
//! each one's subtree ends.
//!
//! A headline is a run of `*` at column 0 followed by a space. `**bold**` at
//! column 0 is body text, and reading it as a level-2 headline would reparent
//! everything under it.
//!
//! This is the reading from lines alone. When the host has parsed the
//! buffer, the editor takes sections and subtrees from its syntax tree, which
//! also knows a `*` inside a source block is no headline; lines are read here
//! only when there is no tree, and the tree is the host's, not modelled here.
use vstd::prelude::*;

use crate::text::chars_of;

verus! {

/// How many `*` `s` begins with.
pub open spec fn star_run(s: Seq<char>) -> nat
    decreases s.len(),
{
    if s.len() > 0 && s[0] == '*' {
        1 + star_run(s.drop_first())
    } else {
        0
    }
}

pub proof fn lemma_star_run(s: Seq<char>, k: int)
    requires
        0 <= k <= s.len(),
        forall|i: int| 0 <= i < k ==> s[i] == '*',
        k < s.len() ==> s[k] != '*',
    ensures
        star_run(s) == k,
    decreases k,
{
    if k > 0 {
        assert forall|i: int| 0 <= i < k - 1 implies s.drop_first()[i] == '*' by {
            assert(s.drop_first()[i] == s[i + 1]);
        }
        if k < s.len() {
            assert(s.drop_first()[k - 1] == s[k]);
        }
        lemma_star_run(s.drop_first(), k - 1);
    }
}

/// The outline level of a headline line (`** Foo` is 2), or `None` when the
/// line is not a headline.
pub open spec fn level_of(s: Seq<char>) -> Option<nat> {
    let k = star_run(s);
    if k > 0 && k < s.len() && s[k as int] == ' ' {
        Some(k)
    } else {
        None
    }
}

/// The outline level of `text`, when it is a headline.
pub fn headline_level(text: &str) -> (r: Option<usize>)
    ensures
        match r {
            Some(l) => level_of(text@) == Some(l as nat),
            None => level_of(text@) is None,
        },
{
    let t = chars_of(text);
    let mut k: usize = 0;
    while k < t.len() && t[k] == '*'
        invariant
            k <= t@.len(),
            forall|i: int| 0 <= i < k ==> t@[i] == '*',
        decreases t@.len() - k,
    {
        k += 1;
    }
    proof {
        lemma_star_run(t@, k as int);
    }
    if k > 0 && k < t.len() && t[k] == ' ' {
        Some(k)
    } else {
        None
    }
}

/// One headline of an outline: its line, its depth, and the last line its
/// subtree covers.
#[derive(Debug, Clone, Copy, PartialEq, Eq)]
pub struct Entry {
    pub line: u32,
    pub level: usize,
    pub end_line: u32,
}

/// The last line of the subtree whose headline of depth `level` sits just
/// above line `j`: the line before the next headline at `level` or shallower,
/// or the last line of the document.
pub open spec fn subtree_end_from(lines: Seq<Seq<char>>, j: int, level: nat) -> int
    decreases lines.len() - j,
{
    if j < 0 || j >= lines.len() {
        lines.len() - 1
    } else if level_of(lines[j]) is Some && level_of(lines[j])->0 <= level {
        j - 1
    } else {
        subtree_end_from(lines, j + 1, level)
    }
}

pub proof fn lemma_subtree_end_from(lines: Seq<Seq<char>>, j: int, level: nat)
    requires
        0 <= j <= lines.len(),
    ensures
        j - 1 <= subtree_end_from(lines, j, level) < lines.len(),
    decreases lines.len() - j,
{
    if j < lines.len() && !(level_of(lines[j]) is Some && level_of(lines[j])->0 <= level) {
        lemma_subtree_end_from(lines, j + 1, level);
    }
}

/// Every headline from line `i` on, in document order.
pub open spec fn outline_from(lines: Seq<Seq<char>>, i: int) -> Seq<Entry>
    decreases lines.len() - i,
{
    if i < 0 || i >= lines.len() {
        Seq::empty()
    } else {
        match level_of(lines[i]) {
            Some(l) if l <= usize::MAX => seq![Entry {
                line: i as u32,
                level: l as usize,
                end_line: subtree_end_from(lines, i + 1, l) as u32,
            }] + outline_from(lines, i + 1),
            _ => outline_from(lines, i + 1),
        }
    }
}

/// The lines of a document, as text.
pub open spec fn texts(lines: Seq<String>) -> Seq<Seq<char>> {
    lines.map_values(|s: String| s@)
}

/// The last line of the subtree of the headline of depth `level` at `start`.
fn subtree_end(lines: &[String], start: usize, level: usize) -> (r: u32)
    requires
        start < lines@.len() <= u32::MAX,
    ensures
        r == subtree_end_from(texts(lines@), start + 1, level as nat),
{
    let ghost ls = texts(lines@);
    let mut j = start + 1;
    while j < lines.len()
        invariant
            start + 1 <= j <= lines@.len() <= u32::MAX,
            ls == texts(lines@),
            subtree_end_from(ls, start + 1, level as nat) == subtree_end_from(ls, j as int, level as nat),
        decreases lines@.len() - j,
    {
        assert(ls[j as int] == lines@[j as int]@);
        match headline_level(lines[j].as_str()) {
            Some(l) => {
                assert(level_of(ls[j as int]) == Some(l as nat));
                if l <= level {
                    return (j - 1) as u32;
                }
            },
            None => {},
        }
        j += 1;
    }
    (lines.len() - 1) as u32
}

/// Every headline in `lines` with the extent of its subtree.
pub fn outline_text(lines: &[String]) -> (r: Vec<Entry>)
    requires
        lines@.len() <= u32::MAX,
    ensures
        r@ == outline_from(texts(lines@), 0),
{
    let ghost ls = texts(lines@);
    let mut out: Vec<Entry> = Vec::new();
    let mut i: usize = 0;
    while i < lines.len()
        invariant
            i <= lines@.len() <= u32::MAX,
            ls == texts(lines@),
            out@ + outline_from(ls, i as int) == outline_from(ls, 0),
        decreases lines@.len() - i,
    {
        assert(ls[i as int] == lines@[i as int]@);
        match headline_level(lines[i].as_str()) {
            Some(l) => {
                let end = subtree_end(lines, i, l);
                let e = Entry { line: i as u32, level: l, end_line: end };
                proof {
                    lemma_subtree_end_from(ls, i + 1, l as nat);
                    assert(level_of(ls[i as int]) == Some(l as nat));
                    assert(outline_from(ls, i as int) == seq![e] + outline_from(ls, i + 1));
                }
                let ghost before = out@;
                out.push(e);
                assert(before + outline_from(ls, i as int) =~= out@ + outline_from(ls, i + 1));
            },
            None => {},
        }
        i += 1;
    }
    assert(out@ + outline_from(ls, i as int) =~= out@);
    out
}

/// The nearest headline at or above line `n`, with its level. A line past the
/// end of the document is no headline.
pub open spec fn enclosing_from(lines: Seq<Seq<char>>, n: int) -> Option<(int, nat)>
    decreases n + 1,
{
    if n < 0 {
        None
    } else if n < lines.len() && level_of(lines[n]) is Some {
        Some((n, level_of(lines[n])->0))
    } else {
        enclosing_from(lines, n - 1)
    }
}

/// The previous sibling of a headline of depth `level`, scanning up from line
/// `j`: the first headline at `level`, unless one shallower — the parent —
/// comes first.
pub open spec fn prev_sibling_from(lines: Seq<Seq<char>>, j: int, level: nat) -> Option<int>
    decreases j + 1,
{
    if j < 0 || j >= lines.len() {
        None
    } else {
        match level_of(lines[j]) {
            Some(l) => if l < level {
                None
            } else if l == level {
                Some(j)
            } else {
                prev_sibling_from(lines, j - 1, level)
            },
            None => prev_sibling_from(lines, j - 1, level),
        }
    }
}

/// The next sibling of the headline of depth `level` at `start`: the headline
/// just past its subtree, when that one is at the same depth.
pub open spec fn next_sibling_of(lines: Seq<Seq<char>>, start: int, level: nat) -> Option<int> {
    let j = subtree_end_from(lines, start + 1, level) + 1;
    if 0 <= j < lines.len() && level_of(lines[j]) == Some(level) {
        Some(j)
    } else {
        None
    }
}

/// The nearest headline at or above line `n`: its line and level.
pub fn enclosing(lines: &[String], n: u32) -> (r: Option<(u32, usize)>)
    requires
        lines@.len() <= u32::MAX,
    ensures
        match r {
            Some((j, l)) => enclosing_from(texts(lines@), n as int) == Some((j as int, l as nat)),
            None => enclosing_from(texts(lines@), n as int) is None,
        },
{
    let ghost ls = texts(lines@);
    if lines.len() == 0 {
        proof {
            lemma_enclosing_past_end(ls, n as int, -1);
        }
        return None;
    }
    let mut j: usize = if (n as usize) < lines.len() { n as usize } else { lines.len() - 1 };
    proof {
        lemma_enclosing_past_end(ls, n as int, j as int);
    }
    loop
        invariant
            j < lines@.len() <= u32::MAX,
            ls == texts(lines@),
            enclosing_from(ls, n as int) == enclosing_from(ls, j as int),
        decreases j,
    {
        assert(ls[j as int] == lines@[j as int]@);
        match headline_level(lines[j].as_str()) {
            Some(l) => {
                return Some((j as u32, l));
            },
            None => {},
        }
        if j == 0 {
            assert(enclosing_from(ls, -1) is None);
            return None;
        }
        j -= 1;
    }
}

/// Lines past the end of the document are skipped on the way up.
proof fn lemma_enclosing_past_end(ls: Seq<Seq<char>>, n: int, j: int)
    requires
        j == if n < ls.len() { n } else { ls.len() - 1 },
        -1 <= j,
    ensures
        enclosing_from(ls, n) == enclosing_from(ls, j),
    decreases n - j,
{
    if n > j {
        lemma_enclosing_past_end(ls, n - 1, j);
    }
}

/// The previous sibling of the headline of depth `level` at `start`.
pub fn prev_sibling(lines: &[String], start: u32, level: usize) -> (r: Option<u32>)
    requires
        start < lines@.len() <= u32::MAX,
    ensures
        r == match prev_sibling_from(texts(lines@), start - 1, level as nat) {
            Some(j) => Some(j as u32),
            None => None::<u32>,
        },
{
    let ghost ls = texts(lines@);
    let mut j: usize = start as usize;
    while j > 0
        invariant
            j <= start < lines@.len() <= u32::MAX,
            ls == texts(lines@),
            prev_sibling_from(ls, start - 1, level as nat) == prev_sibling_from(ls, j - 1, level as nat),
        decreases j,
    {
        let k = j - 1;
        assert(ls[k as int] == lines@[k as int]@);
        match headline_level(lines[k].as_str()) {
            Some(l) => {
                if l < level {
                    return None;
                } else if l == level {
                    return Some(k as u32);
                }
            },
            None => {},
        }
        j = k;
    }
    None
}

/// The next sibling of the headline of depth `level` at `start`.
pub fn next_sibling(lines: &[String], start: u32, level: usize) -> (r: Option<u32>)
    requires
        start < lines@.len() <= u32::MAX,
    ensures
        r == match next_sibling_of(texts(lines@), start as int, level as nat) {
            Some(j) => Some(j as u32),
            None => None::<u32>,
        },
{
    let ghost ls = texts(lines@);
    let end = subtree_end(lines, start as usize, level);
    proof {
        lemma_subtree_end_from(ls, start + 1, level as nat);
    }
    let j = end as usize + 1;
    if j < lines.len() {
        assert(ls[j as int] == lines@[j as int]@);
        match headline_level(lines[j].as_str()) {
            Some(l) => if l == level {
                Some(j as u32)
            } else {
                None
            },
            None => None,
        }
    } else {
        None
    }
}

/// The last line of the subtree of the headline of depth `level` at `start`.
pub fn subtree_last_line(lines: &[String], start: u32, level: usize) -> (r: u32)
    requires
        start < lines@.len() <= u32::MAX,
    ensures
        r == subtree_end_from(texts(lines@), start + 1, level as nat),
        start <= r < lines@.len(),
{
    proof {
        lemma_subtree_end_from(texts(lines@), start + 1, level as nat);
    }
    subtree_end(lines, start as usize, level)
}

} // verus!
