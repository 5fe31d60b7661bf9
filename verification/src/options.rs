//! The plugin's list options, once the host has read them.
//!
//! A `list<string>` option's elements are trimmed and blank ones dropped: an
//! element that is not there is not an element. A list is never split, so a
//! path holding a colon or a comma survives whole.
use vstd::prelude::*;

use crate::text::{chars_of, eq_ignore_case, eq_ignore_case_at, join, to_ascii_lower, join_chars, string_of, texts_of, trim, trim_range};
use crate::todo::{parse_keywords, sequence_keywords};

verus! {

/// The elements of a list option, trimmed, blank ones dropped.
pub open spec fn kept(values: Seq<Seq<char>>) -> Seq<Seq<char>>
    decreases values.len(),
{
    if values.len() == 0 {
        Seq::empty()
    } else {
        kept(values.drop_last()) + if trim(values.last()).len() > 0 {
            seq![trim(values.last())]
        } else {
            Seq::empty()
        }
    }
}

/// A list option's value: each element trimmed, blank elements dropped. An
/// empty result is "no opinion", not "nothing".
pub fn string_list(values: &[String]) -> (r: Vec<String>)
    ensures
        texts_of(r@) == kept(texts_of(values@)),
{
    let ghost vs = texts_of(values@);
    let mut out: Vec<String> = Vec::new();
    let mut i: usize = 0;
    while i < values.len()
        invariant
            i <= values@.len(),
            vs == texts_of(values@),
            texts_of(out@) == kept(vs.take(i as int)),
        decreases values@.len() - i,
    {
        let s = chars_of(values[i].as_str());
        let n = s.len();
        assert(s@.subrange(0, n as int) == s@);
        let (a, b) = trim_range(&s, 0, n);
        let ghost before = texts_of(out@);
        assert(vs.take(i + 1).drop_last() == vs.take(i as int));
        assert(vs.take(i + 1).last() == s@);
        if a < b {
            out.push(string_of(&s.as_slice()[a..b]));
            assert(texts_of(out@) =~= before + seq![trim(s@)]);
        } else {
            assert(texts_of(out@) =~= before + Seq::<Seq<char>>::empty());
        }
        i += 1;
    }
    assert(vs.take(values@.len() as int) == vs);
    out
}

/// The keyword sequence org ships with.
pub open spec fn default_sequence() -> Seq<char> {
    "TODO | DONE"@
}

/// The configured sequence lines, or the default when none are set.
pub open spec fn keyword_lines(values: Seq<Seq<char>>) -> Seq<Seq<char>> {
    if kept(values).len() == 0 {
        seq![default_sequence()]
    } else {
        kept(values)
    }
}

/// `org.todo-keywords`: one sequence line per element, in emacs' own
/// spelling, or the default sequence when the option is unset or blank.
pub fn todo_keyword_lines(values: &[String]) -> (r: Vec<String>)
    ensures
        texts_of(r@) == keyword_lines(texts_of(values@)),
{
    let lines = string_list(values);
    if lines.len() == 0 {
        let mut d: Vec<String> = Vec::new();
        d.push(crate::text::owned("TODO | DONE"));
        assert(texts_of(d@) =~= seq![default_sequence()]);
        d
    } else {
        lines
    }
}

/// The keywords the configured lines name, or the default sequence's when
/// they name none — an empty sequence would make cycling a dead key.
pub open spec fn configured_keywords(values: Seq<Seq<char>>) -> Seq<Seq<char>> {
    let parsed = sequence_keywords(join(keyword_lines(values), seq!['\n']));
    if parsed.len() == 0 {
        sequence_keywords(default_sequence())
    } else {
        parsed
    }
}

/// Every TODO keyword the option configures.
pub fn todo_keywords(values: &[String]) -> (r: Vec<String>)
    ensures
        texts_of(r@) == configured_keywords(texts_of(values@)),
{
    let lines = todo_keyword_lines(values);
    let joined = join_chars(lines.as_slice(), "\n");
    proof {
        reveal_strlit("\n");
        assert("\n"@ =~= seq!['\n']);
    }
    let text = string_of(joined.as_slice());
    let parsed = parse_keywords(text.as_str());
    if parsed.len() == 0 {
        parse_keywords("TODO | DONE")
    } else {
        parsed
    }
}


/// Every element a list option keeps is trimmed and not blank.
pub proof fn lemma_kept_are_trimmed(values: Seq<Seq<char>>)
    ensures
        forall|i: int| 0 <= i < kept(values).len() ==> {
            &&& (#[trigger] kept(values)[i]).len() > 0
            &&& exists|j: int| 0 <= j < values.len() && kept(values)[i] == trim(values[j])
        },
    decreases values.len(),
{
    if values.len() > 0 {
        lemma_kept_are_trimmed(values.drop_last());
        let prev = kept(values.drop_last());
        assert forall|i: int| 0 <= i < kept(values).len() implies {
            &&& (#[trigger] kept(values)[i]).len() > 0
            &&& exists|j: int| 0 <= j < values.len() && kept(values)[i] == trim(values[j])
        } by {
            if i < prev.len() {
                assert(kept(values)[i] == prev[i]);
                let j = choose|j: int| 0 <= j < values.drop_last().len() && prev[i] == trim(values.drop_last()[j]);
                assert(values.drop_last()[j] == values[j]);
            } else {
                assert(kept(values)[i] == trim(values.last()));
                assert(values.last() == values[values.len() - 1]);
            }
        }
    }
}

/// Whether `c` is an ASCII letter.
pub open spec fn ascii_letter(c: char) -> bool {
    ('a' <= c && c <= 'z') || ('A' <= c && c <= 'Z')
}

/// The last priority letter: the option's first character when it is an
/// ASCII letter, `C` otherwise; `C` when the option is unset.
pub open spec fn priority_letter(value: Option<Seq<char>>) -> char {
    let v = match value {
        Some(v) => v,
        None => "C"@,
    };
    if v.len() > 0 && ascii_letter(v[0]) {
        v[0]
    } else {
        'C'
    }
}

/// `org.highest-priority`: the lowest priority letter in the cycle — `C`
/// gives `A`/`B`/`C`.
pub fn highest_priority(value: Option<&str>) -> (r: char)
    ensures
        r == priority_letter(match value {
            Some(v) => Some(v@),
            None => None,
        }),
{
    proof {
        reveal_strlit("C");
    }
    let v = match value {
        Some(v) => chars_of(v),
        None => chars_of("C"),
    };
    if v.len() > 0 && (('a' <= v[0] && v[0] <= 'z') || ('A' <= v[0] && v[0] <= 'Z')) {
        v[0]
    } else {
        'C'
    }
}

/// `org.inline-images`: on only when the option reads `true` in any case;
/// off when unset.
pub fn inline_images_enabled(value: Option<&str>) -> (r: bool)
    ensures
        r == match value {
            Some(v) => eq_ignore_case(v@, "true"@),
            None => false,
        },
{
    proof {
        reveal_strlit("true");
        reveal_strlit("false");
    }
    let v = match value {
        Some(v) => chars_of(v),
        None => chars_of("false"),
    };
    let t = chars_of("true");
    let n = v.len();
    assert(v@.subrange(0, n as int) == v@);
    let r = eq_ignore_case_at(&v, 0, n, t.as_slice());
    proof {
        if value is None {
            assert(to_ascii_lower("false"@)[0] != to_ascii_lower("true"@)[0]);
        }
    }
    r
}

} // verus!
