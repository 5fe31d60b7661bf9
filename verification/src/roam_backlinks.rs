//! `:org-roam-backlinks`: what points at the note you are in.
//!
//! A picker: one row per node that links to the note at point, each jumping
//! to the linking node's own anchor (its headline, or its file's first line).
//! The index knows which nodes link to an id; this module decides which node
//! the cursor is in, what a row shows, and where accepting it goes.
use vstd::prelude::*;

use crate::headline::{headline_level, level_of, texts};
use crate::roam::{lookup, Node};
use crate::text::{
    chars_of, eq_ignore_case, eq_ignore_case_at, find, find_in, last_index_in, last_index_of,
    lemma_last_index_of, owned, string_of, trim, trim_range,
};

verus! {

/// The picker's registered id.
pub const BACKLINKS_PICKER: &'static str = "org-roam-backlinks";

/// A picker source's declaration.
#[derive(Debug)]
pub struct SourceSpec {
    pub id: String,
    pub doc: String,
    /// The arguments the source takes, by name.
    pub args_schema: Vec<String>,
    pub args_hint: String,
    /// Whether the candidates are re-read as the query changes.
    pub live: bool,
    pub create_label: Option<String>,
}

/// A note shown beside a candidate.
#[derive(Debug)]
pub struct Annotation {
    pub text: String,
    /// Where it shows: `comment` is the context column.
    pub slot: String,
}

/// One picker row.
#[derive(Debug)]
pub struct Candidate {
    /// What the query matches against.
    pub text: String,
    pub insert_text: Option<String>,
    /// What the row shows.
    pub display: String,
    pub source: Option<String>,
    pub annotations: Vec<Annotation>,
}

/// A place in a file.
#[derive(Debug, Clone, PartialEq, Eq)]
pub struct Location {
    pub path: String,
    pub line: u32,
    pub col: u32,
}

/// Where a row leads when it is chosen.
#[derive(Debug)]
pub enum Routing {
    /// A file and line to jump to.
    FileLocation(Location),
    /// An opaque token for the source that emitted it.
    Token(String),
}

/// What accepting a row does.
#[derive(Debug)]
pub enum AcceptOutcome {
    JumpToLocation(Location),
}

/// The source's declaration: not live, because the candidate set is one index
/// read and the index does not change while the picker is open.
pub fn spec() -> (r: SourceSpec)
    ensures
        r.id@ == "org-roam-backlinks"@,
        r.doc@ == "Notes that link to the note at point"@,
        r.args_schema@.len() == 0,
        r.args_hint@.len() == 0,
        !r.live,
        r.create_label is None,
{
    SourceSpec {
        id: owned(BACKLINKS_PICKER),
        doc: owned("Notes that link to the note at point"),
        args_schema: Vec::new(),
        args_hint: String::new(),
        live: false,
        create_label: None,
    }
}

/// The message when no roam directory is configured.
pub open spec fn no_directory_error() -> Seq<char> {
    "org-roam: set `org.roam-directory` to the folder your notes live in"@
}

/// The message when the ex-command passed no node id.
pub open spec fn no_id_error() -> Seq<char> {
    "org-roam: backlinks needs a node id"@
}

/// What the backlinks query asks for: the node id, or why it cannot ask.
pub open spec fn query_of(directory_set: bool, args: Seq<String>) -> Result<Seq<char>, Seq<char>> {
    if !directory_set {
        Err(no_directory_error())
    } else if args.len() == 0 || trim(args[0]@).len() == 0 {
        Err(no_id_error())
    } else {
        Ok(args[0]@)
    }
}

/// The id whose backlinks the picker lists: the first argument, when the
/// roam directory is configured and the argument is not blank.
pub fn backlinks_query(roam_directory_set: bool, args: &[String]) -> (r: Result<String, String>)
    ensures
        match (query_of(roam_directory_set, args@), r) {
            (Ok(id), Ok(s)) => s@ == id,
            (Err(e), Err(s)) => s@ == e,
            _ => false,
        },
{
    if !roam_directory_set {
        return Err(owned("org-roam: set `org.roam-directory` to the folder your notes live in"));
    }
    if args.len() == 0 {
        return Err(owned("org-roam: backlinks needs a node id"));
    }
    let a = chars_of(args[0].as_str());
    let n = a.len();
    assert(a@.subrange(0, n as int) == a@);
    let (lo, hi) = trim_range(&a, 0, n);
    if lo == hi {
        return Err(owned("org-roam: backlinks needs a node id"));
    }
    Ok(args[0].clone())
}

/// The rows for the nodes that link to the note, each one
/// (`row`) as [`row`] builds it.
pub open spec fn rows_are(rows: Seq<(Candidate, Routing)>, nodes: Seq<Node>) -> bool {
    &&& rows.len() == nodes.len()
    &&& forall|i: int| 0 <= i < rows.len() ==> row_is(#[trigger] rows[i], nodes[i])
}

/// The picker's rows: one per node that links to the note. An empty list is
/// an honest empty picker — nothing links here yet — not an error.
/// `linking` is what the index answers for [`backlinks_query`]'s id.
pub fn init(roam_directory_set: bool, args: &[String], linking: &[Node]) -> (r: Result<Vec<(Candidate, Routing)>, String>)
    ensures
        match (query_of(roam_directory_set, args@), r) {
            (Ok(_), Ok(rows)) => rows_are(rows@, linking@),
            (Err(e), Err(s)) => s@ == e,
            _ => false,
        },
{
    match backlinks_query(roam_directory_set, args) {
        Err(e) => Err(e),
        Ok(_) => {
            let mut out: Vec<(Candidate, Routing)> = Vec::new();
            let mut i: usize = 0;
            while i < linking.len()
                invariant
                    i <= linking@.len(),
                    out@.len() == i,
                    forall|j: int| 0 <= j < i ==> row_is(#[trigger] out@[j], linking@[j]),
                decreases linking@.len() - i,
            {
                out.push(row(&linking[i]));
                i += 1;
            }
            Ok(out)
        },
    }
}

/// A path's last component.
pub open spec fn basename(path: Seq<char>) -> Seq<char> {
    match last_index_of(path, '/') {
        Some(i) => path.skip(i + 1),
        None => path,
    }
}

/// `row` is the row for `node`: its title, annotated with its file's name,
/// jumping to the node's own line.
pub open spec fn row_is(row: (Candidate, Routing), node: Node) -> bool {
    let (raw, routing) = row;
    &&& raw.text@ == node.title@
    &&& raw.display@ == node.title@
    &&& raw.insert_text is None
    &&& raw.source matches Some(s) && s@ == "org-roam-backlinks"@
    &&& raw.annotations@.len() == 1
    &&& raw.annotations@[0].text@ == basename(node.file@)
    &&& raw.annotations@[0].slot@ == "comment"@
    &&& routing matches Routing::FileLocation(loc) && loc.path@ == node.file@ && loc.line == node.line && loc.col == 0
}

/// One linking node's row: its title, with its file's basename beside it so
/// two notes with similar titles can be told apart.
pub fn row(node: &Node) -> (r: (Candidate, Routing))
    ensures
        row_is(r, *node),
{
    let mut annotations: Vec<Annotation> = Vec::new();
    annotations.push(Annotation { text: file_label(node.file.as_str()), slot: owned("comment") });
    let raw = Candidate {
        text: node.title.clone(),
        insert_text: None,
        display: node.title.clone(),
        source: Some(owned(BACKLINKS_PICKER)),
        annotations,
    };
    (raw, Routing::FileLocation(Location { path: node.file.clone(), line: node.line, col: 0 }))
}

/// The basename of `path`, for the row's context column.
pub fn file_label(path: &str) -> (r: String)
    ensures
        r@ == basename(path@),
{
    let s = chars_of(path);
    let n = s.len();
    assert(s@.subrange(0, n as int) == s@);
    match last_index_in(&s, 0, n, '/') {
        Some(i) => {
            proof {
                lemma_last_index_of(s@, '/');
            }
            assert(s@.skip(i + 1) == s@.subrange(i + 1, n as int));
            string_of(&s.as_slice()[i + 1..n])
        },
        None => string_of(s.as_slice()),
    }
}

/// The message for a routing token this source did not emit.
pub open spec fn foreign_token_error() -> Seq<char> {
    "org-roam: backlinks got a routing token it did not emit"@
}

/// Resolve a chosen row: jump to the linking node, file and line, so a
/// headline node lands on its headline.
pub fn accept(routing: Routing) -> (r: Result<AcceptOutcome, String>)
    ensures
        match (routing, r) {
            (Routing::FileLocation(loc), Ok(AcceptOutcome::JumpToLocation(to))) => to == loc,
            (Routing::Token(_), Err(e)) => e@ == foreign_token_error(),
            _ => false,
        },
{
    match routing {
        Routing::FileLocation(loc) => Ok(AcceptOutcome::JumpToLocation(loc)),
        Routing::Token(_) => Err(owned("org-roam: backlinks got a routing token it did not emit")),
    }
}

/// The `:ID:` value a drawer line carries, when it names `ID` in any case
/// and the value is not blank.
pub open spec fn id_of_line(t: Seq<char>) -> Option<Seq<char>> {
    if t.len() > 0 && t[0] == ':' {
        match find(t.skip(1), seq![':']) {
            Some(i) => if eq_ignore_case(trim(t.skip(1).take(i)), "id"@) && trim(t.skip(1).skip(i + 1)).len() > 0 {
                Some(trim(t.skip(1).skip(i + 1)))
            } else {
                None
            },
            None => None,
        }
    } else {
        None
    }
}

/// The id in a drawer's lines from `i` on, before its `:END:` or a
/// headline.
pub open spec fn drawer_id_from(ls: Seq<Seq<char>>, i: int) -> Option<Seq<char>>
    decreases ls.len() - i,
{
    if i < 0 || i >= ls.len() {
        None
    } else {
        let t = trim(ls[i]);
        if eq_ignore_case(t, ":end:"@) || (t.len() > 0 && t[0] == '*') {
            None
        } else {
            match id_of_line(t) {
                Some(id) => Some(id),
                None => drawer_id_from(ls, i + 1),
            }
        }
    }
}

/// The `:ID:` of the property drawer starting at line `first`, if there is
/// one there.
pub open spec fn drawer_id_at(ls: Seq<Seq<char>>, first: int) -> Option<Seq<char>> {
    if 0 <= first < ls.len() && eq_ignore_case(trim(ls[first]), ":properties:"@) {
        drawer_id_from(ls, first + 1)
    } else {
        None
    }
}

/// The walk up from line `n`: the nearest headline above, shallower than
/// `max_level`, whose drawer carries an id; passing a headline without one
/// leaves only its ancestors to answer. At the top, the file's own drawer.
pub open spec fn node_id_walk(ls: Seq<Seq<char>>, n: int, max_level: int) -> Option<Seq<char>>
    decreases n,
{
    let text = if 0 <= n < ls.len() { ls[n] } else { Seq::empty() };
    let (found, next_max) = match level_of(text) {
        Some(l) => if l < max_level { (drawer_id_at(ls, n + 1), l as int) } else { (None, max_level) },
        None => (None, max_level),
    };
    if found is Some {
        found
    } else if n <= 0 {
        drawer_id_at(ls, 0)
    } else {
        node_id_walk(ls, n - 1, next_max)
    }
}

/// The id of the innermost node containing `cursor_line`.
pub open spec fn node_id_of(ls: Seq<Seq<char>>, line_count: u32, cursor_line: u32) -> Option<Seq<char>> {
    let last = if line_count == 0 { 0 } else { line_count - 1 };
    node_id_walk(ls, if cursor_line < last { cursor_line as int } else { last as int }, u32::MAX as int)
}

/// Whether `s[lo..hi]` is `lit` in any letter case.
fn is_ci(s: &[char], lo: usize, hi: usize, lit: &str) -> (b: bool)
    requires
        lo <= hi <= s@.len(),
    ensures
        b == eq_ignore_case(s@.subrange(lo as int, hi as int), lit@),
{
    let l = chars_of(lit);
    eq_ignore_case_at(s, lo, hi, l.as_slice())
}

/// The id a trimmed drawer line carries.
fn id_in_line(t: &[char], a: usize, b: usize) -> (r: Option<String>)
    requires
        a <= b <= t@.len(),
    ensures
        match id_of_line(t@.subrange(a as int, b as int)) {
            Some(id) => r is Some && r->0@ == id,
            None => r is None,
        },
{
    let ghost tt = t@.subrange(a as int, b as int);
    if a == b || t[a] != ':' {
        return None;
    }
    assert(tt.skip(1) == t@.subrange(a + 1, b as int));
    let colon = [':'];
    assert(colon@ == seq![':']);
    match find_in(t, a + 1, b, &colon) {
        None => None,
        Some(i) => {
            assert(tt.skip(1).take(i - (a + 1)) == t@.subrange(a + 1, i as int));
            assert(tt.skip(1).skip(i - (a + 1) + 1) == t@.subrange(i + 1, b as int));
            let (na, nb) = trim_range(t, a + 1, i);
            let (va, vb) = trim_range(t, i + 1, b);
            if is_ci(t, na, nb, "id") && va < vb {
                Some(string_of(&t[va..vb]))
            } else {
                None
            }
        },
    }
}

/// The `:ID:` of the property drawer starting at `first`, if there is one.
/// `None` when `first` does not open a drawer, so a caller can use it as
/// "does this headline have an id".
fn drawer_id(lines: &[String], first: u32) -> (r: Option<String>)
    requires
        lines@.len() < u32::MAX,
    ensures
        match drawer_id_at(texts(lines@), first as int) {
            Some(id) => r is Some && r->0@ == id,
            None => r is None,
        },
{
    let ghost ls = texts(lines@);
    if (first as usize) >= lines.len() {
        return None;
    }
    assert(ls[first as int] == lines@[first as int]@);
    let f = chars_of(lines[first as usize].as_str());
    let fnn = f.len();
    assert(f@.subrange(0, fnn as int) == f@);
    let (fa, fb) = trim_range(&f, 0, fnn);
    if !is_ci(&f, fa, fb, ":properties:") {
        return None;
    }
    let mut i = first + 1;
    while (i as usize) < lines.len()
        invariant
            i <= lines@.len() < u32::MAX,
            ls == texts(lines@),
            drawer_id_at(ls, first as int) == drawer_id_from(ls, first + 1),
            drawer_id_from(ls, first + 1) == drawer_id_from(ls, i as int),
        decreases lines@.len() - i,
    {
        assert(ls[i as int] == lines@[i as int]@);
        let t = chars_of(lines[i as usize].as_str());
        let tn = t.len();
        assert(t@.subrange(0, tn as int) == t@);
        let (a, b) = trim_range(&t, 0, tn);
        if is_ci(&t, a, b, ":end:") || (a < b && t[a] == '*') {
            return None;
        }
        match id_in_line(&t, a, b) {
            Some(id) => return Some(id),
            None => {},
        }
        i += 1;
    }
    None
}

/// The id of the innermost node containing `cursor_line`, or `None` when the
/// cursor is not inside a node.
///
/// Walks up: the nearest headline at or above the cursor whose drawer
/// carries an `:ID:` wins, and failing that the file's own drawer. A headline
/// without an id is not a node, and passing one means only its ancestors —
/// shallower headlines — may answer, so a previous sibling never does.
pub fn node_id_at(lines: &[String], line_count: u32, cursor_line: u32) -> (r: Option<String>)
    requires
        lines@.len() < u32::MAX,
    ensures
        match node_id_of(texts(lines@), line_count, cursor_line) {
            Some(id) => r is Some && r->0@ == id,
            None => r is None,
        },
{
    let ghost ls = texts(lines@);
    let last = if line_count == 0 { 0 } else { line_count - 1 };
    let mut n = if cursor_line < last { cursor_line } else { last };
    let mut max_level: u64 = 4294967295;
    loop
        invariant
            lines@.len() < u32::MAX,
            ls == texts(lines@),
            max_level <= u32::MAX,
            node_id_of(ls, line_count, cursor_line) == node_id_walk(ls, n as int, max_level as int),
        decreases n,
    {
        let level = if (n as usize) < lines.len() {
            assert(ls[n as int] == lines@[n as int]@);
            headline_level(lines[n as usize].as_str())
        } else {
            assert(level_of(Seq::<char>::empty()) is None);
            None
        };
        match level {
            Some(l) => {
                if (l as u64) < max_level {
                    match drawer_id(lines, n + 1) {
                        Some(id) => return Some(id),
                        None => {},
                    }
                    max_level = l as u64;
                }
            },
            None => {},
        }
        if n == 0 {
            return drawer_id(lines, 0);
        }
        n -= 1;
    }
}


/// Where the walk up from line `n` finds its node: the headline's line, or
/// -1 for the file's own drawer; `None` when neither carries an id.
pub open spec fn node_line_walk(ls: Seq<Seq<char>>, n: int, max_level: int) -> Option<int>
    decreases n,
{
    let text = if 0 <= n < ls.len() { ls[n] } else { Seq::empty() };
    let (found, next_max) = match level_of(text) {
        Some(l) => if l < max_level { (drawer_id_at(ls, n + 1) is Some, l as int) } else { (false, max_level) },
        None => (false, max_level),
    };
    if found {
        Some(n)
    } else if n <= 0 {
        if drawer_id_at(ls, 0) is Some { Some(-1) } else { None }
    } else {
        node_line_walk(ls, n - 1, next_max)
    }
}

/// The id of the node a walk found.
pub open spec fn id_of_node(ls: Seq<Seq<char>>, node: Option<int>) -> Option<Seq<char>> {
    match node {
        Some(j) => if j >= 0 { drawer_id_at(ls, j + 1) } else { drawer_id_at(ls, 0) },
        None => None,
    }
}

/// A headline at depth `level` or shallower.
pub open spec fn at_most(s: Seq<char>, level: nat) -> bool {
    level_of(s) matches Some(m) && m <= level
}

/// The walk finds its id at its node. Started below every headline it has
/// passed being at least `max_level` deep, a headline node it finds has no
/// headline as shallow as itself between it and `n0`.
proof fn lemma_node_line_walk(ls: Seq<Seq<char>>, n: int, max_level: int, n0: int)
    requires
        n <= n0,
        forall|k: int| n < k <= n0 && 0 <= k < ls.len() ==> (level_of(#[trigger] ls[k]) matches Some(m) ==> m >= max_level),
    ensures
        node_id_walk(ls, n, max_level) == id_of_node(ls, node_line_walk(ls, n, max_level)),
        node_line_walk(ls, n, max_level) matches Some(j) ==> j >= 0 ==> {
            &&& j <= n
            &&& 0 <= j < ls.len()
            &&& level_of(ls[j]) is Some
            &&& forall|k: int| j < k <= n0 && 0 <= k < ls.len() ==> !at_most(#[trigger] ls[k], level_of(ls[j])->0)
        },
    decreases n,
{
    let text = if 0 <= n < ls.len() { ls[n] } else { Seq::empty() };
    if !(0 <= n < ls.len()) {
        assert(level_of(text) is None) by {
            assert(crate::headline::star_run(text) == 0);
        }
    }
    match level_of(text) {
        Some(l) => {
            if l < max_level && drawer_id_at(ls, n + 1) is Some {
                assert(node_line_walk(ls, n, max_level) == Some(n));
                assert forall|k: int| n < k <= n0 && 0 <= k < ls.len() implies !at_most(#[trigger] ls[k], l) by {
                    if level_of(ls[k]) is Some {
                        assert(level_of(ls[k])->0 >= max_level);
                    }
                }
            } else if n > 0 {
                let next_max = if l < max_level { l as int } else { max_level };
                assert forall|k: int| n - 1 < k <= n0 && 0 <= k < ls.len() implies (level_of(#[trigger] ls[k]) matches Some(
                    m,
                ) ==> m >= next_max) by {
                    if k == n {
                        assert(ls[k] == text);
                    }
                }
                lemma_node_line_walk(ls, n - 1, next_max, n0);
            }
        },
        None => {
            if n > 0 {
                assert forall|k: int| n - 1 < k <= n0 && 0 <= k < ls.len() implies (level_of(#[trigger] ls[k]) matches Some(
                    m,
                ) ==> m >= max_level) by {
                    if k == n {
                        assert(ls[k] == text);
                    }
                }
                lemma_node_line_walk(ls, n - 1, max_level, n0);
            }
        },
    }
}

/// The node the caret is in is one whose subtree reaches the caret: a
/// headline node is found only when no headline as shallow as it stands
/// between it and the caret's line, so a previous sibling — or anything
/// outside the subtree — is never taken for it. The id answered is that
/// node's.
pub proof fn lemma_node_contains_caret(ls: Seq<Seq<char>>, line_count: u32, cursor_line: u32)
    ensures
        ({
            let last = if line_count == 0 { 0 } else { line_count - 1 };
            let n0 = if cursor_line < last { cursor_line as int } else { last as int };
            let node = node_line_walk(ls, n0, u32::MAX as int);
            &&& node_id_of(ls, line_count, cursor_line) == id_of_node(ls, node)
            &&& (node matches Some(j) ==> j >= 0 ==> {
                &&& j <= n0
                &&& level_of(ls[j]) is Some
                &&& forall|k: int| j < k <= n0 && 0 <= k < ls.len() ==> !at_most(#[trigger] ls[k], level_of(ls[j])->0)
            })
        }),
{
    let last = if line_count == 0 { 0 } else { line_count - 1 };
    let n0 = if cursor_line < last { cursor_line as int } else { last as int };
    lemma_node_line_walk(ls, n0, u32::MAX as int, n0);
}

/// A line that ends a drawer walk: `:END:` in any case, or a headline.
pub open spec fn ends_drawer(t: Seq<char>) -> bool {
    eq_ignore_case(t, ":end:"@) || (t.len() > 0 && t[0] == '*')
}

proof fn lemma_drawer_id_reaches(ls: Seq<Seq<char>>, j: int, k: int, v: Seq<char>)
    requires
        0 <= j <= k < ls.len(),
        forall|m: int| j <= m < k ==> !ends_drawer(trim(#[trigger] ls[m])) && id_of_line(trim(ls[m])) is None,
        !ends_drawer(trim(ls[k])),
        id_of_line(trim(ls[k])) == Some(v),
    ensures
        drawer_id_from(ls, j) == Some(v),
    decreases k - j,
{
    if j < k {
        lemma_drawer_id_reaches(ls, j + 1, k, v);
    }
}

proof fn lemma_walk_reaches(ls: Seq<Seq<char>>, n: int, h: int, v: Seq<char>)
    requires
        0 <= h <= n < ls.len(),
        level_of(ls[h]) matches Some(l) && l < u32::MAX,
        forall|j: int| h < j <= n ==> level_of(#[trigger] ls[j]) is None,
        drawer_id_at(ls, h + 1) == Some(v),
    ensures
        node_id_walk(ls, n, u32::MAX as int) == Some(v),
    decreases n,
{
    if n > h {
        assert(level_of(ls[n]) is None);
        lemma_walk_reaches(ls, n - 1, h, v);
    }
}

/// A headline whose drawer carries an `:ID:` with a value is a node, and the
/// caret anywhere in its own lines belongs to it: the id is the first one in
/// the drawer, wherever it sits among the other properties.
pub proof fn lemma_headline_drawer_id_anywhere(
    ls: Seq<Seq<char>>,
    line_count: u32,
    cursor: u32,
    h: int,
    k: int,
    v: Seq<char>,
)
    requires
        cursor < line_count <= ls.len(),
        0 <= h <= cursor,
        level_of(ls[h]) matches Some(l) && l < u32::MAX,
        forall|j: int| h < j <= cursor ==> level_of(#[trigger] ls[j]) is None,
        h + 1 < k < ls.len(),
        eq_ignore_case(trim(ls[h + 1]), ":properties:"@),
        forall|j: int| h + 1 < j < k ==> !ends_drawer(trim(#[trigger] ls[j])) && id_of_line(trim(ls[j])) is None,
        !ends_drawer(trim(ls[k])),
        id_of_line(trim(ls[k])) == Some(v),
    ensures
        node_id_of(ls, line_count, cursor) == Some(v),
{
    lemma_drawer_id_reaches(ls, h + 2, k, v);
    assert(drawer_id_at(ls, h + 1) == Some(v));
    lemma_walk_reaches(ls, cursor as int, h, v);
}

} // verus!
