//! Capture drafts: the buffer a capture is drafted in, and the title a
//! captured entry shows in the modeline.
//!
//! A capture buffer is keyed by template, so two templates do not fight over
//! one buffer and re-firing a template returns to the note in progress. Roam
//! drafts are namespaced apart, because a roam template and a capture
//! template sharing a key file to different places.
use vstd::prelude::*;

use crate::headline::star_run;
use crate::text::{chars_of, extend_chars, find, find_in, lines, lines_of, matches_at, string_of, texts_of, trim, trim_range};

verus! {

/// `*prefix*`, or `*prefix:key*` for a template key.
pub open spec fn buffer_name(prefix: Seq<char>, key: Seq<char>) -> Seq<char> {
    if key.len() == 0 {
        seq!['*'] + prefix + seq!['*']
    } else {
        seq!['*'] + prefix + seq![':'] + key + seq!['*']
    }
}

fn named(prefix: &str, key: &str) -> (r: String)
    ensures
        r@ == buffer_name(prefix@, key@),
{
    let mut out: Vec<char> = Vec::new();
    out.push('*');
    extend_chars(&mut out, chars_of(prefix).as_slice());
    let k = chars_of(key);
    if k.len() > 0 {
        out.push(':');
        extend_chars(&mut out, k.as_slice());
    }
    out.push('*');
    string_of(out.as_slice())
}

/// The capture buffer's name for a template key: `*org-capture:KEY*`, or
/// `*org-capture*` for the keyless capture.
pub fn capture_buffer_name(key: &str) -> (r: String)
    ensures
        r@ == buffer_name("org-capture"@, key@),
{
    named("org-capture", key)
}

/// The buffer a roam note is drafted in: `*org-roam-capture:KEY*`.
pub fn roam_capture_buffer_name(key: &str) -> (r: String)
    ensures
        r@ == buffer_name("org-roam-capture"@, key@),
{
    named("org-roam-capture", key)
}

/// The template key a prompt's buffer name carries: what sits between
/// `*org-capture:` and the closing `*`. `None` for a name without that
/// wrapping — a prompt that carried no state, which is not an empty key.
pub open spec fn key_of_name(name: Seq<char>) -> Option<Seq<char>> {
    let prefix = "*org-capture:"@;
    if name.len() >= prefix.len() + 1 && name.take(prefix.len() as int) == prefix && name.last() == '*' {
        Some(name.subrange(prefix.len() as int, name.len() - 1))
    } else {
        None
    }
}

/// The key the host smuggles back with a prompt submit, minus its wrapping.
pub fn capture_key_from_prompt_name(name: &str) -> (r: Option<String>)
    ensures
        match key_of_name(name@) {
            Some(k) => r is Some && r->0@ == k,
            None => r is None,
        },
{
    proof {
        reveal_strlit("*org-capture:");
    }
    let s = chars_of(name);
    let p = chars_of("*org-capture:");
    let n = s.len();
    let pl = p.len();
    if n < pl + 1 {
        return None;
    }
    if !crate::text::eq_at(&s, 0, pl, p.as_slice()) || s[n - 1] != '*' {
        assert(s@.subrange(0, pl as int) == s@.take(pl as int));
        return None;
    }
    assert(s@.subrange(0, pl as int) == s@.take(pl as int));
    Some(string_of(&s.as_slice()[pl..n - 1]))
}

/// A headline's text for the modeline: its stars and TODO keyword gone.
pub open spec fn clock_title_text(text: Seq<char>, keywords: Seq<Seq<char>>) -> Seq<char> {
    let rest = trim(text.skip(star_run(text) as int));
    match find(rest, seq![' ']) {
        Some(i) => if keywords.contains(rest.take(i)) { trim(rest.skip(i + 1)) } else { rest },
        None => rest,
    }
}

/// The headline text, trimmed of its stars and TODO keyword, for the
/// modeline.
pub fn clock_title(text: &str, keywords: &[String]) -> (r: String)
    ensures
        r@ == clock_title_text(text@, texts_of(keywords@)),
{
    let s = chars_of(text);
    let n = s.len();
    let mut k: usize = 0;
    while k < n && s[k] == '*'
        invariant
            k <= n == s@.len(),
            forall|i: int| 0 <= i < k ==> s@[i] == '*',
        decreases n - k,
    {
        k += 1;
    }
    proof {
        crate::headline::lemma_star_run(s@, k as int);
    }
    assert(s@.subrange(k as int, n as int) == s@.skip(k as int));
    let (a, b) = trim_range(&s, k, n);
    let ghost rest = s@.subrange(a as int, b as int);
    let space = [' '];
    assert(space@ == seq![' ']);
    match find_in(&s, a, b, &space) {
        Some(i) => {
            assert(rest.take(i - a) == s@.subrange(a as int, i as int));
            if crate::roam::is_keyword_in(&s.as_slice()[a..i], keywords) {
                assert(rest.skip(i - a + 1) == s@.subrange(i + 1, b as int));
                let (ta, tb) = trim_range(&s, i + 1, b);
                return string_of(&s.as_slice()[ta..tb]);
            }
            string_of(&s.as_slice()[a..b])
        },
        None => string_of(&s.as_slice()[a..b]),
    }
}

/// The first line of `text`, or nothing.
pub open spec fn first_line(text: Seq<char>) -> Seq<char> {
    if lines(text).len() > 0 { lines(text)[0] } else { Seq::empty() }
}

/// The headline of a captured entry, for the modeline.
pub fn captured_title(text: &str, keywords: &[String]) -> (r: String)
    ensures
        r@ == clock_title_text(first_line(text@), texts_of(keywords@)),
{
    let ls = lines_of(text);
    assert(texts_of(ls@) == lines(text@));
    if ls.len() > 0 {
        assert(ls@[0]@ == lines(text@)[0]);
        clock_title(ls[0].as_str(), keywords)
    } else {
        proof {
            reveal_strlit("");
        }
        clock_title("", keywords)
    }
}

} // verus!
