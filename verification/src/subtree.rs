//! What the headline keys do to the document's lines: the text objects that
//! select a headline or its subtree, moving a subtree past its sibling, and
//! where the caret lands when a headline's stars change.
//!
//! Each answer is a range of lines or bytes; turning it into an edit of the
//! buffer is the host's.
//!
//! Headlines and subtrees are read from the lines, as [`crate::headline`]
//! reads them; where the host has a syntax tree, it is not modelled here.
use vstd::prelude::*;

use crate::headline::{
    enclosing, enclosing_from, headline_level, level_of, lemma_subtree_end_from, next_sibling,
    next_sibling_of, prev_sibling, prev_sibling_from, subtree_end_from, subtree_last_line, texts,
};
use crate::text::{byte_len, byte_len_in, chars_of, join, join_chars, owned, string_of, texts_of};

verus! {

/// A place in the document: a line, and a byte within it.
#[derive(Debug, Clone, Copy, PartialEq, Eq, Structural)]
pub struct Position {
    pub line: u32,
    pub byte: u32,
}

/// From `start` up to `end`.
#[derive(Debug, Clone, Copy, PartialEq, Eq, Structural)]
pub struct Range {
    pub start: Position,
    pub end: Position,
}

/// The headline text objects.
#[derive(Debug, Clone, Copy, PartialEq, Eq, Structural)]
pub enum TextObject {
    /// The headline's title: after the stars and their space.
    InnerHeadline,
    /// The whole headline line.
    AroundHeadline,
    /// Everything under the headline, the headline left standing.
    InnerSubtree,
    /// The whole subtree, headline and all.
    AroundSubtree,
}

/// Lines whose count and byte lengths fit the positions that name them.
pub open spec fn lines_fit(ls: Seq<Seq<char>>) -> bool {
    &&& ls.len() <= u32::MAX
    &&& forall|i: int| 0 <= i < ls.len() ==> byte_len(#[trigger] ls[i]) <= u32::MAX
}

pub open spec fn pos(line: int, byte: int) -> Position {
    Position { line: line as u32, byte: byte as u32 }
}

/// What `object` selects for the headline of `stars` stars at line `start`.
pub open spec fn object_range(ls: Seq<Seq<char>>, start: int, stars: nat, object: TextObject) -> Range {
    let head = byte_len(ls[start]);
    let end = subtree_end_from(ls, start + 1, stars);
    match object {
        TextObject::InnerHeadline => Range { start: pos(start, stars + 1int), end: pos(start, head as int) },
        TextObject::AroundHeadline => Range { start: pos(start, 0), end: pos(start, head as int) },
        TextObject::InnerSubtree => if end == start {
            // A childless headline: an empty range at its end.
            Range { start: pos(start, head as int), end: pos(start, head as int) }
        } else {
            Range { start: pos(start + 1, 0), end: pos(end, byte_len(ls[end]) as int) }
        },
        TextObject::AroundSubtree => Range { start: pos(start, 0), end: pos(end, byte_len(ls[end]) as int) },
    }
}

pub open spec fn no_headline_error() -> Seq<char> {
    "org: no headline at or above the cursor"@
}

proof fn lemma_enclosing_from(ls: Seq<Seq<char>>, n: int)
    ensures
        enclosing_from(ls, n) matches Some((j, l)) ==> 0 <= j <= n && j < ls.len() && level_of(ls[j]) == Some(l),
    decreases n + 1,
{
    if n >= 0 && !(n < ls.len() && level_of(ls[n]) is Some) {
        lemma_enclosing_from(ls, n - 1);
    }
}

proof fn lemma_prev_sibling_from(ls: Seq<Seq<char>>, j: int, level: nat)
    ensures
        prev_sibling_from(ls, j, level) matches Some(k) ==> 0 <= k <= j && k < ls.len() && level_of(ls[k]) == Some(level),
    decreases j + 1,
{
    if 0 <= j < ls.len() {
        lemma_prev_sibling_from(ls, j - 1, level);
    }
}

/// The bytes `s` takes.
fn line_bytes(s: &str) -> (r: u32)
    requires
        byte_len(s@) <= u32::MAX,
    ensures
        r == byte_len(s@),
{
    let c = chars_of(s);
    assert(c@.subrange(0, c@.len() as int) == c@);
    byte_len_in(&c, 0, c.len())
}

/// The range a headline text object selects, for the headline at or above
/// line `at`; an error when there is none.
pub fn text_object_range(lines: &[String], at: u32, object: TextObject) -> (r: Result<Range, String>)
    requires
        lines_fit(texts(lines@)),
    ensures
        match enclosing_from(texts(lines@), at as int) {
            None => r matches Err(e) && e@ == no_headline_error(),
            Some((start, stars)) => r == Ok::<Range, String>(object_range(texts(lines@), start, stars, object)),
        },
{
    let ghost ls = texts(lines@);
    let (start, stars) = match enclosing(lines, at) {
        Some(found) => found,
        None => {
            return Err(owned("org: no headline at or above the cursor"));
        },
    };
    proof {
        lemma_enclosing_from(ls, at as int);
        assert(ls[start as int] == lines@[start as int]@);
        crate::text::lemma_len_le_bytes(ls[start as int]);
    }
    let head = line_bytes(lines[start as usize].as_str());
    let range = match object {
        TextObject::InnerHeadline => Range {
            start: Position { line: start, byte: (stars + 1) as u32 },
            end: Position { line: start, byte: head },
        },
        TextObject::AroundHeadline => Range {
            start: Position { line: start, byte: 0 },
            end: Position { line: start, byte: head },
        },
        TextObject::InnerSubtree => {
            let end = subtree_last_line(lines, start, stars);
            if end == start {
                Range { start: Position { line: start, byte: head }, end: Position { line: start, byte: head } }
            } else {
                assert(ls[end as int] == lines@[end as int]@);
                let tail = line_bytes(lines[end as usize].as_str());
                Range { start: Position { line: start + 1, byte: 0 }, end: Position { line: end, byte: tail } }
            }
        },
        TextObject::AroundSubtree => {
            let end = subtree_last_line(lines, start, stars);
            assert(ls[end as int] == lines@[end as int]@);
            let tail = line_bytes(lines[end as usize].as_str());
            Range { start: Position { line: start, byte: 0 }, end: Position { line: end, byte: tail } }
        },
    };
    Ok(range)
}

/// Lines `from..=to` rewritten as `text`, the range ending at byte `to_len`
/// of line `to` — the last line's end, not its newline — with the caret put at
/// `cursor`.
#[derive(Debug, Clone, PartialEq, Eq)]
pub struct Replacement {
    pub from: u32,
    pub to: u32,
    pub to_len: u32,
    pub text: String,
    pub cursor: Position,
}

/// The two subtrees a move swaps, in document order: `(first, first_end,
/// second, second_end)`. Moving up swaps the subtree at `at` with its previous
/// sibling, moving down with its next; `None` when there is no such sibling.
pub open spec fn swap_spans(ls: Seq<Seq<char>>, at: int, up: bool) -> Option<(int, int, int, int)> {
    match enclosing_from(ls, at) {
        None => None,
        Some((start, level)) => {
            let end = subtree_end_from(ls, start + 1, level);
            if up {
                match prev_sibling_from(ls, start - 1, level) {
                    None => None,
                    Some(prev) => Some((prev, start - 1, start, end)),
                }
            } else {
                match next_sibling_of(ls, start, level) {
                    None => None,
                    Some(next) => Some((start, end, next, subtree_end_from(ls, next + 1, level))),
                }
            }
        },
    }
}

/// The swapped lines of a move: the second subtree, then the first.
pub open spec fn swapped_lines(ls: Seq<Seq<char>>, spans: (int, int, int, int)) -> Seq<Seq<char>> {
    ls.subrange(spans.2, spans.3 + 1) + ls.subrange(spans.0, spans.1 + 1)
}

/// Where the caret goes when a move swaps `spans`: it rides its own subtree.
pub open spec fn moved_caret(at: Position, spans: (int, int, int, int), up: bool) -> Position {
    let jumped = if up { spans.2 - spans.0 } else { spans.3 - spans.1 };
    let line = if up { at.line - jumped } else { at.line + jumped };
    Position { line: line as u32, byte: at.byte }
}

/// What moving the subtree at `at` does: the lines rewritten, the new text,
/// and the caret.
pub open spec fn subtree_move(ls: Seq<Seq<char>>, at: Position, up: bool) -> Option<(int, int, int, Seq<char>, Position)> {
    match swap_spans(ls, at.line as int, up) {
        None => None,
        Some(spans) => Some((
            spans.0,
            spans.3,
            byte_len(ls[spans.3]) as int,
            join(swapped_lines(ls, spans), seq!['\n']),
            moved_caret(at, spans, up),
        )),
    }
}

/// The document after a move, line by line.
pub open spec fn moved_lines(ls: Seq<Seq<char>>, at: Position, up: bool) -> Seq<Seq<char>> {
    match swap_spans(ls, at.line as int, up) {
        None => ls,
        Some(spans) => ls.take(spans.0) + swapped_lines(ls, spans) + ls.skip(spans.3 + 1),
    }
}

/// The caret after a move.
pub open spec fn moved_cursor(ls: Seq<Seq<char>>, at: Position, up: bool) -> Position {
    match swap_spans(ls, at.line as int, up) {
        None => at,
        Some(spans) => moved_caret(at, spans, up),
    }
}

/// Lines `lo..=hi` appended to `out`.
fn push_lines(out: &mut Vec<String>, lines: &[String], lo: u32, hi: u32)
    requires
        lo <= hi < lines@.len(),
    ensures
        final(out)@ == old(out)@ + lines@.subrange(lo as int, hi + 1),
{
    let ghost start = out@;
    let mut i = lo as usize;
    while i <= hi as usize
        invariant
            lo <= i <= hi + 1,
            hi < lines@.len(),
            out@ == start + lines@.subrange(lo as int, i as int),
        decreases hi + 1 - i,
    {
        out.push(lines[i].clone());
        assert(out@ =~= start + lines@.subrange(lo as int, i + 1));
        i += 1;
    }
}

/// Swap the subtree at the caret with its previous (`up`) or next sibling, as
/// one replacement of both. Sibling, not the adjacent headline: moving past a
/// deeper headline would splice the subtree into another parent. `None` when
/// there is no sibling that way, or no headline at all.
pub fn move_subtree(lines: &[String], at: Position, up: bool) -> (r: Option<Replacement>)
    requires
        lines_fit(texts(lines@)),
        up || at.line + lines@.len() <= u32::MAX,
    ensures
        match subtree_move(texts(lines@), at, up) {
            None => r is None,
            Some((from, to, to_len, text, cursor)) => r matches Some(e) && e.from == from && e.to == to
                && e.to_len == to_len && e.text@ == text && e.cursor == cursor,
        },
        r matches Some(e) ==> e.cursor == moved_cursor(texts(lines@), at, up) && moved_lines(texts(lines@), at, up)
            == texts(lines@).take(e.from as int) + swapped_lines(texts(lines@), swap_spans(texts(lines@), at.line as int, up)->0)
            + texts(lines@).skip(e.to + 1),
{
    let ghost ls = texts(lines@);
    let (start, level) = match enclosing(lines, at.line) {
        Some(found) => found,
        None => {
            return None;
        },
    };
    proof {
        lemma_enclosing_from(ls, at.line as int);
    }
    let end = subtree_last_line(lines, start, level);
    let (first, first_end, second, second_end) = if up {
        match prev_sibling(lines, start, level) {
            None => {
                return None;
            },
            Some(prev) => {
                proof {
                    lemma_prev_sibling_from(ls, start - 1, level as nat);
                }
                (prev, start - 1, start, end)
            },
        }
    } else {
        match next_sibling(lines, start, level) {
            None => {
                return None;
            },
            Some(next) => (start, end, next, subtree_last_line(lines, next, level)),
        }
    };
    assert(swap_spans(ls, at.line as int, up) == Some((first as int, first_end as int, second as int, second_end as int)));
    let mut swapped: Vec<String> = Vec::new();
    push_lines(&mut swapped, lines, second, second_end);
    push_lines(&mut swapped, lines, first, first_end);
    let joined = join_chars(swapped.as_slice(), "\n");
    let text = string_of(joined.as_slice());
    proof {
        reveal_strlit("\n");
        assert("\n"@ =~= seq!['\n']);
        assert(texts_of(swapped@) =~= swapped_lines(ls, (first as int, first_end as int, second as int, second_end as int)));
        assert(ls[second_end as int] == lines@[second_end as int]@);
    }
    let to_len = line_bytes(lines[second_end as usize].as_str());
    let jumped = if up { second - first } else { second_end - first_end };
    let line = if up { at.line - jumped } else { at.line + jumped };
    Some(Replacement { from: first, to: second_end, to_len, text, cursor: Position { line, byte: at.byte } })
}

/// A new sibling after the subtree at the caret: the subtree's last line
/// rewritten with a newline and the new headline's stars after it, and the
/// caret where its title goes.
pub open spec fn sibling_insert(ls: Seq<Seq<char>>, at: Position) -> Option<(int, Seq<char>, Position)> {
    match enclosing_from(ls, at.line as int) {
        None => None,
        Some((start, level)) => {
            let end = subtree_end_from(ls, start + 1, level);
            Some((
                end,
                ls[end] + seq!['\n'] + Seq::new(level, |i: int| '*') + seq![' '],
                pos(end + 1, level + 1int),
            ))
        },
    }
}

/// Insert a new sibling headline after the subtree at the caret — after its
/// children, not in front of them, so none of them is reparented — with the
/// caret ready on its title. `None` in a file's preamble, where there is no
/// level to take.
pub fn meta_return(lines: &[String], at: Position) -> (r: Option<Replacement>)
    requires
        lines_fit(texts(lines@)),
    ensures
        match sibling_insert(texts(lines@), at) {
            None => r is None,
            Some((end, text, cursor)) => r matches Some(e) && e.from == end && e.to == end && e.to_len
                == byte_len(texts(lines@)[end]) && e.text@ == text && e.cursor == cursor,
        },
{
    let ghost ls = texts(lines@);
    let (start, level) = match enclosing(lines, at.line) {
        Some(found) => found,
        None => {
            return None;
        },
    };
    proof {
        lemma_enclosing_from(ls, at.line as int);
        crate::text::lemma_len_le_bytes(ls[start as int]);
    }
    let end = subtree_last_line(lines, start, level);
    assert(ls[end as int] == lines@[end as int]@);
    let last = lines[end as usize].as_str();
    let to_len = line_bytes(last);
    let mut out = chars_of(last);
    out.push('\n');
    let mut k: usize = 0;
    while k < level
        invariant
            k <= level,
            out@ == ls[end as int] + seq!['\n'] + Seq::new(k as nat, |i: int| '*'),
        decreases level - k,
    {
        out.push('*');
        k += 1;
        assert(out@ =~= ls[end as int] + seq!['\n'] + Seq::new(k as nat, |i: int| '*'));
    }
    out.push(' ');
    let text = string_of(out.as_slice());
    Some(Replacement {
        from: end,
        to: end,
        to_len,
        text,
        cursor: Position { line: end + 1, byte: (level + 1) as u32 },
    })
}

/// Where the caret lands after the stars of lines `start..=end` change by
/// `delta`: on its own line, its byte moved by `delta` and floored at 0 when
/// its line is a headline in the span, untouched otherwise.
pub fn clamped_cursor(lines: &[String], at: Position, start: u32, end: u32, delta: isize) -> (r: Position)
    requires
        at.byte + delta <= isize::MAX,
    ensures
        r.line == at.line,
        r.byte == if start <= at.line <= end && at.line < lines@.len() && level_of(lines@[at.line as int]@) is Some {
            (if at.byte + delta < 0 { 0 } else { at.byte + delta }) as u32
        } else {
            at.byte
        },
{
    let moved = at.line >= start && at.line <= end && (at.line as usize) < lines.len() && headline_level(
        lines[at.line as usize].as_str(),
    ).is_some();
    let byte = if moved {
        let v = at.byte as i64 + delta as i64;
        if v < 0 {
            0
        } else {
            v as u32
        }
    } else {
        at.byte
    };
    Position { line: at.line, byte }
}


// ── a move undone ──

/// A headline at `level` or shallower: where a subtree of depth `level` stops.
pub open spec fn stops(s: Seq<char>, level: nat) -> bool {
    level_of(s) is Some && level_of(s)->0 <= level
}

proof fn lemma_enclosing_is(ls: Seq<Seq<char>>, n: int, j: int)
    requires
        0 <= j <= n < ls.len(),
        level_of(ls[j]) is Some,
        forall|k: int| j < k <= n ==> level_of(#[trigger] ls[k]) is None,
    ensures
        enclosing_from(ls, n) == Some((j, level_of(ls[j])->0)),
    decreases n - j,
{
    if n > j {
        lemma_enclosing_is(ls, n - 1, j);
    }
}

proof fn lemma_enclosing_conv(ls: Seq<Seq<char>>, n: int)
    requires
        n < ls.len(),
    ensures
        enclosing_from(ls, n) matches Some((j, l)) ==> 0 <= j <= n && level_of(ls[j]) == Some(l) && forall|k: int|
            j < k <= n ==> level_of(#[trigger] ls[k]) is None,
    decreases n + 1,
{
    if n >= 0 && level_of(ls[n]) is None {
        lemma_enclosing_conv(ls, n - 1);
    }
}

proof fn lemma_subtree_end_is(ls: Seq<Seq<char>>, j: int, e: int, level: nat)
    requires
        0 <= j <= e + 1,
        e < ls.len(),
        forall|k: int| j <= k <= e ==> !stops(#[trigger] ls[k], level),
        e + 1 == ls.len() || stops(ls[e + 1], level),
    ensures
        subtree_end_from(ls, j, level) == e,
    decreases e + 1 - j,
{
    if j <= e {
        assert(!stops(ls[j], level));
        lemma_subtree_end_is(ls, j + 1, e, level);
    }
}

proof fn lemma_subtree_end_conv(ls: Seq<Seq<char>>, j: int, level: nat)
    requires
        0 <= j <= ls.len(),
    ensures
        j - 1 <= subtree_end_from(ls, j, level) < ls.len(),
        forall|k: int| j <= k <= subtree_end_from(ls, j, level) ==> !stops(#[trigger] ls[k], level),
        subtree_end_from(ls, j, level) + 1 == ls.len() || stops(ls[subtree_end_from(ls, j, level) + 1], level),
    decreases ls.len() - j,
{
    if j < ls.len() && !stops(ls[j], level) {
        lemma_subtree_end_conv(ls, j + 1, level);
        assert forall|k: int| j <= k <= subtree_end_from(ls, j, level) implies !stops(#[trigger] ls[k], level) by {
            if k > j {
                assert(j + 1 <= k <= subtree_end_from(ls, j + 1, level));
            }
        }
    }
}

proof fn lemma_prev_sibling_is(ls: Seq<Seq<char>>, j: int, f: int, level: nat)
    requires
        0 <= f <= j < ls.len(),
        level_of(ls[f]) == Some(level),
        forall|k: int| f < k <= j ==> !stops(#[trigger] ls[k], level),
    ensures
        prev_sibling_from(ls, j, level) == Some(f),
    decreases j - f,
{
    if j > f {
        assert(!stops(ls[j], level));
        lemma_prev_sibling_is(ls, j - 1, f, level);
    }
}

proof fn lemma_prev_sibling_conv(ls: Seq<Seq<char>>, j: int, level: nat)
    requires
        j < ls.len(),
    ensures
        prev_sibling_from(ls, j, level) matches Some(f) ==> 0 <= f <= j && level_of(ls[f]) == Some(level) && forall|k: int|
            f < k <= j ==> !stops(#[trigger] ls[k], level),
    decreases j + 1,
{
    if j >= 0 {
        lemma_prev_sibling_conv(ls, j - 1, level);
    }
}

/// What the up-move's spans say of the document.
proof fn lemma_up_spans(ls: Seq<Seq<char>>, n: int)
    requires
        0 <= n < ls.len(),
        swap_spans(ls, n, true) is Some,
    ensures
        swap_spans(ls, n, true) matches Some((f, fe, s, se)) && {
            &&& 0 <= f < s <= n <= se < ls.len()
            &&& fe == s - 1
            &&& level_of(ls[s]) is Some && level_of(ls[f]) == level_of(ls[s])
            &&& forall|k: int| s < k <= n ==> level_of(#[trigger] ls[k]) is None
            &&& forall|k: int| s < k <= se ==> !stops(#[trigger] ls[k], level_of(ls[s])->0)
            &&& forall|k: int| f < k < s ==> !stops(#[trigger] ls[k], level_of(ls[s])->0)
            &&& se + 1 == ls.len() || stops(ls[se + 1], level_of(ls[s])->0)
        },
{
    lemma_enclosing_conv(ls, n);
    let (s, level) = enclosing_from(ls, n)->0;
    lemma_subtree_end_conv(ls, s + 1, level);
    lemma_prev_sibling_conv(ls, s - 1, level);
    let se = subtree_end_from(ls, s + 1, level);
    if se < n {
        assert(level_of(ls[se + 1]) is None);
    }
}

/// What the down-move's spans say of the document.
proof fn lemma_down_spans(ls: Seq<Seq<char>>, n: int)
    requires
        0 <= n < ls.len(),
        swap_spans(ls, n, false) is Some,
    ensures
        swap_spans(ls, n, false) matches Some((s, se, x, xe)) && {
            &&& 0 <= s <= n <= se < x <= xe < ls.len()
            &&& x == se + 1
            &&& level_of(ls[s]) is Some && level_of(ls[x]) == level_of(ls[s])
            &&& forall|k: int| s < k <= n ==> level_of(#[trigger] ls[k]) is None
            &&& forall|k: int| s < k <= se ==> !stops(#[trigger] ls[k], level_of(ls[s])->0)
            &&& forall|k: int| x < k <= xe ==> !stops(#[trigger] ls[k], level_of(ls[s])->0)
            &&& xe + 1 == ls.len() || stops(ls[xe + 1], level_of(ls[s])->0)
        },
{
    lemma_enclosing_conv(ls, n);
    let (s, level) = enclosing_from(ls, n)->0;
    lemma_subtree_end_conv(ls, s + 1, level);
    let se = subtree_end_from(ls, s + 1, level);
    if se < n {
        assert(level_of(ls[se + 1]) is None);
    }
    lemma_subtree_end_conv(ls, se + 2, level);
}

/// Lines `f..s` and `s..=se` traded places.
pub open spec fn swap_blocks(ls: Seq<Seq<char>>, f: int, s: int, se: int) -> Seq<Seq<char>> {
    ls.take(f) + ls.subrange(s, se + 1) + ls.subrange(f, s) + ls.skip(se + 1)
}

proof fn lemma_swap_blocks(ls: Seq<Seq<char>>, f: int, s: int, se: int)
    requires
        0 <= f <= s <= se < ls.len(),
    ensures
        swap_blocks(ls, f, s, se).len() == ls.len(),
        forall|k: int| 0 <= k < f ==> #[trigger] swap_blocks(ls, f, s, se)[k] == ls[k],
        forall|k: int| f <= k < f + se + 1 - s ==> #[trigger] swap_blocks(ls, f, s, se)[k] == ls[s + k - f],
        forall|k: int| f + se + 1 - s <= k <= se ==> #[trigger] swap_blocks(ls, f, s, se)[k] == ls[k - (se + 1 - s)],
        forall|k: int| se < k < ls.len() ==> #[trigger] swap_blocks(ls, f, s, se)[k] == ls[k],
{
}

proof fn lemma_swap_blocks_twice(ls: Seq<Seq<char>>, f: int, s: int, se: int)
    requires
        0 <= f < s <= se < ls.len(),
    ensures
        swap_blocks(swap_blocks(ls, f, s, se), f, f + se + 1 - s, se) == ls,
{
    let ls2 = swap_blocks(ls, f, s, se);
    lemma_swap_blocks(ls, f, s, se);
    lemma_swap_blocks(ls2, f, f + se + 1 - s, se);
    assert(swap_blocks(ls2, f, f + se + 1 - s, se) =~= ls);
}

/// After an up-move, the caret's subtree and the one it jumped are the
/// spans a down-move swaps.
#[verifier::spinoff_prover]
proof fn lemma_up_then_down_spans(ls: Seq<Seq<char>>, n: int)
    requires
        0 <= n < ls.len(),
        swap_spans(ls, n, true) is Some,
    ensures
        swap_spans(ls, n, true) matches Some((f, fe, s, se)) && swap_spans(swap_blocks(ls, f, s, se), n - (s - f), false)
            == Some((f, f + se - s, f + se + 1 - s, se)),
{
    lemma_up_spans(ls, n);
    let (f, fe, s, se) = swap_spans(ls, n, true)->0;
    let level = level_of(ls[s])->0;
    let b = se + 1 - s;
    let ls2 = swap_blocks(ls, f, s, se);
    let n2 = n - (s - f);
    lemma_swap_blocks(ls, f, s, se);
    assert forall|k: int| f < k <= n2 implies level_of(#[trigger] ls2[k]) is None by {
        assert(ls2[k] == ls[s + k - f]);
    }
    assert(ls2[f] == ls[s]);
    lemma_enclosing_is(ls2, n2, f);
    assert forall|k: int| f + 1 <= k <= f + b - 1 implies !stops(#[trigger] ls2[k], level) by {
        assert(ls2[k] == ls[s + k - f]);
    }
    assert(ls2[f + b] == ls[f]);
    lemma_subtree_end_is(ls2, f + 1, f + b - 1, level);
    assert(next_sibling_of(ls2, f, level) == Some(f + b));
    assert forall|k: int| f + b + 1 <= k <= se implies !stops(#[trigger] ls2[k], level) by {
        assert(ls2[k] == ls[k - b]);
    }
    if se + 1 < ls.len() {
        assert(ls2[se + 1] == ls[se + 1]);
    }
    lemma_subtree_end_is(ls2, f + b + 1, se, level);
}

/// After a down-move, the caret's subtree and the one it jumped are the
/// spans an up-move swaps.
#[verifier::spinoff_prover]
proof fn lemma_down_then_up_spans(ls: Seq<Seq<char>>, n: int)
    requires
        0 <= n < ls.len(),
        swap_spans(ls, n, false) is Some,
    ensures
        swap_spans(ls, n, false) matches Some((s, se, x, xe)) && swap_spans(swap_blocks(ls, s, x, xe), n + (xe - se), true)
            == Some((s, s + xe - x, s + xe + 1 - x, xe)),
{
    lemma_down_spans(ls, n);
    let (s, se, x, xe) = swap_spans(ls, n, false)->0;
    let level = level_of(ls[s])->0;
    let b = xe + 1 - x;
    let ls2 = swap_blocks(ls, s, x, xe);
    let n2 = n + b;
    lemma_swap_blocks(ls, s, x, xe);
    assert(ls2[s + b] == ls[s]);
    assert forall|k: int| s + b < k <= n2 implies level_of(#[trigger] ls2[k]) is None by {
        assert(ls2[k] == ls[k - b]);
    }
    lemma_enclosing_is(ls2, n2, s + b);
    assert forall|k: int| s + b + 1 <= k <= xe implies !stops(#[trigger] ls2[k], level) by {
        assert(ls2[k] == ls[k - b]);
    }
    if xe + 1 < ls.len() {
        assert(ls2[xe + 1] == ls[xe + 1]);
    }
    lemma_subtree_end_is(ls2, s + b + 1, xe, level);
    assert(ls2[s] == ls[x]);
    assert forall|k: int| s < k <= s + b - 1 implies !stops(#[trigger] ls2[k], level) by {
        assert(ls2[k] == ls[x + k - s]);
    }
    lemma_prev_sibling_is(ls2, s + b - 1, s, level);
}

/// Moving a subtree up and then down again puts the document and the caret
/// back as they were.
#[verifier::spinoff_prover]
#[verifier::rlimit(50)]
pub proof fn lemma_move_up_then_down(ls: Seq<Seq<char>>, at: Position)
    requires
        at.line < ls.len() <= u32::MAX,
        swap_spans(ls, at.line as int, true) is Some,
    ensures
        swap_spans(moved_lines(ls, at, true), moved_cursor(ls, at, true).line as int, false) is Some,
        moved_lines(moved_lines(ls, at, true), moved_cursor(ls, at, true), false) == ls,
        moved_cursor(moved_lines(ls, at, true), moved_cursor(ls, at, true), false) == at,
{
    let n = at.line as int;
    lemma_up_spans(ls, n);
    lemma_up_then_down_spans(ls, n);
    let spans = swap_spans(ls, n, true)->0;
    let (f, fe, s, se) = spans;
    let ls2 = swap_blocks(ls, f, s, se);
    let at2 = moved_caret(at, spans, true);
    assert(moved_lines(ls, at, true) == ls2);
    assert(moved_cursor(ls, at, true) == at2);
    assert(at2.line == n - (s - f));
    let back = (f, f + se - s, f + se + 1 - s, se);
    assert(swap_spans(ls2, at2.line as int, false) == Some(back));
    lemma_swap_blocks_twice(ls, f, s, se);
    assert(moved_lines(ls2, at2, false) == swap_blocks(ls2, f, f + se + 1 - s, se));
    assert(moved_cursor(ls2, at2, false) == moved_caret(at2, back, false));
}

/// Moving a subtree down and then up again puts the document and the caret
/// back as they were.
#[verifier::spinoff_prover]
pub proof fn lemma_move_down_then_up(ls: Seq<Seq<char>>, at: Position)
    requires
        at.line < ls.len() <= u32::MAX,
        swap_spans(ls, at.line as int, false) is Some,
    ensures
        swap_spans(moved_lines(ls, at, false), moved_cursor(ls, at, false).line as int, true) is Some,
        moved_lines(moved_lines(ls, at, false), moved_cursor(ls, at, false), true) == ls,
        moved_cursor(moved_lines(ls, at, false), moved_cursor(ls, at, false), true) == at,
{
    let n = at.line as int;
    lemma_down_spans(ls, n);
    lemma_down_then_up_spans(ls, n);
    let spans = swap_spans(ls, n, false)->0;
    let (s, se, x, xe) = spans;
    let ls2 = swap_blocks(ls, s, x, xe);
    let at2 = moved_caret(at, spans, false);
    assert(moved_lines(ls, at, false) == ls2);
    assert(moved_cursor(ls, at, false) == at2);
    assert(at2.line == n + (xe - se));
    let back = (s, s + xe - x, s + xe + 1 - x, xe);
    assert(swap_spans(ls2, at2.line as int, true) == Some(back));
    lemma_swap_blocks_twice(ls, s, x, xe);
    assert(moved_lines(ls2, at2, true) == swap_blocks(ls2, s, s + xe + 1 - x, xe));
    assert(moved_cursor(ls2, at2, true) == moved_caret(at2, back, true));
}

} // verus!
