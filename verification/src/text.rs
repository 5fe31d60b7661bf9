//! Character-level text: moving between `str` and a vector of its characters,
//! and the decimal numerals org writes.
use vstd::prelude::*;

verus! {

/// The characters of `s`, in order.
pub fn chars_of(s: &str) -> (v: Vec<char>)
    ensures
        v@ == s@,
{
    let mut v: Vec<char> = Vec::new();
    for c in it: s.chars()
        invariant
            v@ == it.seq().take(it.index() as int),
    {
        v.push(c);
    }
    v
}

/// Calls std's `String::push`, trusted to leave the string as it was with
/// `c` appended at the end, which is what its documentation says it does.
#[verifier::external_body]
fn push_char(s: &mut String, c: char)
    ensures
        final(s)@ == old(s)@.push(c),
{
    s.push(c);
}

/// A `String` holding exactly `v`.
pub fn string_of(v: &[char]) -> (s: String)
    ensures
        s@ == v@,
{
    let mut s = String::new();
    let mut i: usize = 0;
    while i < v.len()
        invariant
            i <= v@.len(),
            s@ == v@.take(i as int),
        decreases v@.len() - i,
    {
        push_char(&mut s, v[i]);
        i += 1;
        assert(v@.take(i as int) == v@.take((i - 1) as int).push(v@[i - 1]));
    }
    assert(v@.take(v@.len() as int) == v@);
    s
}

/// Appends every character of `src` to `out`.
pub fn extend_chars(out: &mut Vec<char>, src: &[char])
    ensures
        final(out)@ == old(out)@ + src@,
{
    let mut i: usize = 0;
    while i < src.len()
        invariant
            i <= src@.len(),
            out@ == old(out)@ + src@.take(i as int),
        decreases src@.len() - i,
    {
        out.push(src[i]);
        i += 1;
        assert(src@.take(i as int) == src@.take((i - 1) as int).push(src@[i - 1]));
    }
    assert(src@.take(src@.len() as int) == src@);
}

// ── decimal numerals ──

pub open spec fn is_digit(c: char) -> bool {
    '0' <= c <= '9'
}

pub open spec fn digit_char(d: int) -> char {
    (d + 48) as char
}

pub open spec fn all_digits(s: Seq<char>) -> bool {
    forall|i: int| 0 <= i < s.len() ==> is_digit(#[trigger] s[i])
}

/// `n` written in decimal, with no leading zero.
pub open spec fn decimal(n: nat) -> Seq<char>
    decreases n,
{
    if n < 10 {
        seq![digit_char(n as int)]
    } else {
        decimal(n / 10).push(digit_char((n % 10) as int))
    }
}

/// The number a run of decimal digits spells.
pub open spec fn digits_value(s: Seq<char>) -> nat
    decreases s.len(),
{
    if s.len() == 0 {
        0
    } else {
        (digits_value(s.drop_last()) * 10 + (s.last() as int - 48)) as nat
    }
}

/// The value of `s` as Rust's unsigned `from_str` reads it: an optional `+`,
/// then at least one digit and nothing else.
pub open spec fn unsigned_value(s: Seq<char>) -> Option<nat> {
    let body = if s.len() > 0 && s[0] == '+' { s.drop_first() } else { s };
    if body.len() > 0 && all_digits(body) {
        Some(digits_value(body))
    } else {
        None
    }
}

/// `u32::from_str`.
pub open spec fn parse_u32(s: Seq<char>) -> Option<u32> {
    match unsigned_value(s) {
        Some(v) => if v <= u32::MAX { Some(v as u32) } else { None },
        None => None,
    }
}

/// `i32::from_str`: an optional sign, then at least one digit.
pub open spec fn parse_i32(s: Seq<char>) -> Option<i32> {
    if s.len() > 0 && s[0] == '-' {
        let body = s.drop_first();
        if body.len() > 0 && all_digits(body) && digits_value(body) <= 2147483648 {
            Some((-digits_value(body)) as i32)
        } else {
            None
        }
    } else {
        match unsigned_value(s) {
            Some(v) => if v <= i32::MAX { Some(v as i32) } else { None },
            None => None,
        }
    }
}

pub proof fn lemma_decimal_digits(n: nat)
    ensures
        decimal(n).len() >= 1,
        all_digits(decimal(n)),
        digits_value(decimal(n)) == n,
        n > 0 ==> decimal(n)[0] != '0',
    decreases n,
{
    vstd::arithmetic::div_mod::lemma_fundamental_div_mod(n as int, 10);
    assert(digit_char((n % 10) as int) as int == (n % 10) + 48);
    if n >= 10 {
        lemma_decimal_digits(n / 10);
        let s = decimal(n);
        assert(s.drop_last() == decimal(n / 10));
        assert(s.last() == digit_char((n % 10) as int));
        assert(digits_value(s) == digits_value(decimal(n / 10)) * 10 + (n % 10));
        assert(digits_value(s) == n);
        assert(s[0] == decimal(n / 10)[0]);
    } else {
        assert(digit_char(n as int) as int == n + 48);
        assert(decimal(n).drop_last() =~= Seq::<char>::empty());
        assert(digits_value(Seq::<char>::empty()) == 0);
        assert(digits_value(decimal(n)) == n);
    }
}

/// Digits with no leading zero are the decimal numeral of their value.
pub proof fn lemma_decimal_of_digits(d: Seq<char>)
    requires
        d.len() > 0,
        all_digits(d),
        d[0] != '0',
    ensures
        decimal(digits_value(d)) == d,
    decreases d.len(),
{
    let v = digits_value(d);
    let last = d.last();
    assert(is_digit(last));
    assert(digit_char(last as int - 48) == last);
    if d.len() == 1 {
        assert(d.drop_last() =~= Seq::<char>::empty());
        assert(v == last as int - 48);
        assert(decimal(v) =~= d);
    } else {
        let p = d.drop_last();
        assert(p[0] == d[0]);
        assert(all_digits(p)) by {
            assert forall|i: int| 0 <= i < p.len() implies is_digit(#[trigger] p[i]) by {
                assert(p[i] == d[i]);
            }
        }
        lemma_decimal_of_digits(p);
        lemma_digits_value_prefix(p, 1);
        assert(p.take(1).drop_last() =~= Seq::<char>::empty());
        assert(p.take(1).last() == p[0]);
        assert(digits_value(Seq::<char>::empty()) == 0);
        assert(digits_value(p.take(1)) == p[0] as int - 48);
        assert(is_digit(p[0]));
        let x = digits_value(p);
        let y = last as int - 48;
        assert(v == x * 10 + y);
        assert(v >= 10);
        assert((x * 10 + y) / 10 == x && (x * 10 + y) % 10 == y) by (nonlinear_arith)
            requires
                0 <= y < 10,
                x >= 0,
        ;
        assert(decimal(v) == decimal(x).push(digit_char(y)));
        assert(decimal(v) =~= d);
    }
}

/// A longer run of digits is worth at least as much as its prefix.
pub proof fn lemma_digits_value_prefix(s: Seq<char>, i: int)
    requires
        0 <= i <= s.len(),
        all_digits(s),
    ensures
        digits_value(s.take(i)) <= digits_value(s),
    decreases s.len() - i,
{
    if i < s.len() {
        lemma_digits_value_prefix(s, i + 1);
        assert(s.take(i + 1).drop_last() == s.take(i));
        assert(is_digit(s[i]));
    } else {
        assert(s.take(i) == s);
    }
}

/// Appends `n` in decimal.
pub fn push_decimal(out: &mut Vec<char>, n: u64)
    ensures
        final(out)@ == old(out)@ + decimal(n as nat),
    decreases n,
{
    if n >= 10 {
        push_decimal(out, n / 10);
        out.push(char_of_digit(n % 10));
    } else {
        out.push(char_of_digit(n));
    }
}

fn char_of_digit(d: u64) -> (c: char)
    requires
        d < 10,
    ensures
        c == digit_char(d as int),
{
    if d == 0 { '0' }
    else if d == 1 { '1' }
    else if d == 2 { '2' }
    else if d == 3 { '3' }
    else if d == 4 { '4' }
    else if d == 5 { '5' }
    else if d == 6 { '6' }
    else if d == 7 { '7' }
    else if d == 8 { '8' }
    else { '9' }
}

/// `n` in decimal, left-padded with zeros to at least `width` characters.
pub open spec fn zero_padded(n: nat, width: nat) -> Seq<char> {
    let s = decimal(n);
    if s.len() >= width {
        s
    } else {
        Seq::new((width - s.len()) as nat, |i: int| '0') + s
    }
}

/// Appends `n` zero-padded to `width`, as `{:0width$}` writes it.
pub fn push_padded(out: &mut Vec<char>, n: u64, width: usize)
    ensures
        final(out)@ == old(out)@ + zero_padded(n as nat, width as nat),
{
    let mut digits: Vec<char> = Vec::new();
    push_decimal(&mut digits, n);
    assert(digits@ == decimal(n as nat));
    if digits.len() < width {
        let pad = width - digits.len();
        let ghost start = out@;
        let mut k: usize = 0;
        while k < pad
            invariant
                k <= pad,
                out@ == start + Seq::new(k as nat, |i: int| '0'),
            decreases pad - k,
        {
            out.push('0');
            k += 1;
            assert(Seq::new(k as nat, |i: int| '0') == Seq::new((k - 1) as nat, |i: int| '0').push('0'));
        }
    }
    extend_chars(out, digits.as_slice());
    assert(out@ == old(out)@ + zero_padded(n as nat, width as nat));
}

/// The value of a run of digits, or `None` when it passes `limit`.
fn digits_up_to(s: &[char], start: usize, end: usize, limit: u64) -> (r: Option<u64>)
    requires
        start <= end <= s@.len(),
        all_digits(s@.subrange(start as int, end as int)),
        limit >= 9,
    ensures
        match r {
            Some(v) => v == digits_value(s@.subrange(start as int, end as int)) && v <= limit,
            None => digits_value(s@.subrange(start as int, end as int)) > limit,
        },
{
    let ghost body = s@.subrange(start as int, end as int);
    let mut v: u64 = 0;
    let mut i = start;
    while i < end
        invariant
            start <= i <= end <= s@.len(),
            body == s@.subrange(start as int, end as int),
            all_digits(body),
            v == digits_value(body.take(i - start)),
            v <= limit,
            limit >= 9,
        decreases end - i,
    {
        let c = s[i];
        assert(body[i - start] == c);
        assert(body.take(i - start + 1).drop_last() == body.take(i - start));
        assert(is_digit(c));
        assert(48 <= c as u32 <= 57);
        let d = (c as u32 - 48) as u64;
        assert(d < 10);
        if v > (limit - d) / 10 {
            proof {
                lemma_digits_value_prefix(body, i - start + 1);
            }
            return None;
        }
        v = v * 10 + d;
        i += 1;
    }
    assert(body.take(end - start) == body);
    Some(v)
}

/// Whether `s[start..end]` is all ASCII digits.
pub fn all_digits_in(s: &[char], start: usize, end: usize) -> (b: bool)
    requires
        start <= end <= s@.len(),
    ensures
        b == all_digits(s@.subrange(start as int, end as int)),
{
    let mut i = start;
    while i < end
        invariant
            start <= i <= end <= s@.len(),
            all_digits(s@.subrange(start as int, i as int)),
        decreases end - i,
    {
        if !('0' <= s[i] && s[i] <= '9') {
            assert(!is_digit(s@.subrange(start as int, end as int)[i - start]));
            return false;
        }
        i += 1;
    }
    true
}

/// `u32::from_str` over `s[start..end]`.
pub fn parse_u32_in(s: &[char], start: usize, end: usize) -> (r: Option<u32>)
    requires
        start <= end <= s@.len(),
    ensures
        r == parse_u32(s@.subrange(start as int, end as int)),
{
    let ghost t = s@.subrange(start as int, end as int);
    let mut b = start;
    if b < end && s[b] == '+' {
        b += 1;
        assert(t.drop_first() == s@.subrange(b as int, end as int));
    }
    if b == end || !all_digits_in(s, b, end) {
        return None;
    }
    match digits_up_to(s, b, end, 4294967295) {
        Some(v) => Some(v as u32),
        None => None,
    }
}

/// `i32::from_str` over `s[start..end]`.
pub fn parse_i32_in(s: &[char], start: usize, end: usize) -> (r: Option<i32>)
    requires
        start <= end <= s@.len(),
    ensures
        r == parse_i32(s@.subrange(start as int, end as int)),
{
    let ghost t = s@.subrange(start as int, end as int);
    if start < end && s[start] == '-' {
        let b = start + 1;
        assert(t.drop_first() == s@.subrange(b as int, end as int));
        if b == end || !all_digits_in(s, b, end) {
            return None;
        }
        match digits_up_to(s, b, end, 2147483648) {
            Some(v) => Some((0 - v as i64) as i32),
            None => None,
        }
    } else {
        let mut b = start;
        if b < end && s[b] == '+' {
            b += 1;
            assert(t.drop_first() == s@.subrange(b as int, end as int));
        }
        if b == end || !all_digits_in(s, b, end) {
            return None;
        }
        match digits_up_to(s, b, end, 2147483647) {
            Some(v) => Some(v as i32),
            None => None,
        }
    }
}

/// A run of digits as an `i64`, or `None` when it does not fit.
pub fn parse_digits_i64(s: &[char], start: usize, end: usize) -> (r: Option<i64>)
    requires
        start < end <= s@.len(),
        all_digits(s@.subrange(start as int, end as int)),
    ensures
        match r {
            Some(v) => v == digits_value(s@.subrange(start as int, end as int)),
            None => digits_value(s@.subrange(start as int, end as int)) > i64::MAX,
        },
{
    match digits_up_to(s, start, end, 9223372036854775807) {
        Some(v) => Some(v as i64),
        None => None,
    }
}


// ── whitespace and trimming ──

/// Unicode `White_Space`, which is what `char::is_whitespace` and `str::trim` test.
pub open spec fn is_ws(c: char) -> bool {
    ||| c == ' ' || c == '\t' || c == '\n' || c == '\u{0B}' || c == '\u{0C}' || c == '\r'
    ||| c == '\u{85}' || c == '\u{A0}' || c == '\u{1680}'
    ||| ('\u{2000}' <= c && c <= '\u{200A}')
    ||| c == '\u{2028}' || c == '\u{2029}' || c == '\u{202F}' || c == '\u{205F}' || c == '\u{3000}'
}

pub fn is_ws_char(c: char) -> (b: bool)
    ensures
        b == is_ws(c),
{
    c == ' ' || c == '\t' || c == '\n' || c == '\u{0B}' || c == '\u{0C}' || c == '\r' || c == '\u{85}'
        || c == '\u{A0}' || c == '\u{1680}' || ('\u{2000}' <= c && c <= '\u{200A}') || c == '\u{2028}'
        || c == '\u{2029}' || c == '\u{202F}' || c == '\u{205F}' || c == '\u{3000}'
}

/// How many whitespace characters `s` begins with.
pub open spec fn leading_ws(s: Seq<char>) -> nat
    decreases s.len(),
{
    if s.len() > 0 && is_ws(s[0]) {
        1 + leading_ws(s.drop_first())
    } else {
        0
    }
}

/// How many whitespace characters `s` ends with.
pub open spec fn trailing_ws(s: Seq<char>) -> nat
    decreases s.len(),
{
    if s.len() > 0 && is_ws(s.last()) {
        1 + trailing_ws(s.drop_last())
    } else {
        0
    }
}

pub open spec fn trim_start(s: Seq<char>) -> Seq<char> {
    s.skip(leading_ws(s) as int)
}

pub open spec fn trim_end(s: Seq<char>) -> Seq<char> {
    s.take(s.len() - trailing_ws(s))
}

pub open spec fn trim(s: Seq<char>) -> Seq<char> {
    trim_end(trim_start(s))
}

pub proof fn lemma_leading_ws_bound(s: Seq<char>)
    ensures
        leading_ws(s) <= s.len(),
        forall|i: int| 0 <= i < leading_ws(s) ==> is_ws(#[trigger] s[i]),
        leading_ws(s) < s.len() ==> !is_ws(s[leading_ws(s) as int]),
    decreases s.len(),
{
    if s.len() > 0 && is_ws(s[0]) {
        lemma_leading_ws_bound(s.drop_first());
        assert forall|i: int| 0 <= i < leading_ws(s) implies is_ws(#[trigger] s[i]) by {
            if i > 0 {
                assert(s[i] == s.drop_first()[i - 1]);
            }
        }
    }
}

pub proof fn lemma_trailing_ws_bound(s: Seq<char>)
    ensures
        trailing_ws(s) <= s.len(),
        forall|i: int| s.len() - trailing_ws(s) <= i < s.len() ==> is_ws(#[trigger] s[i]),
        trailing_ws(s) < s.len() ==> !is_ws(s[s.len() - trailing_ws(s) - 1]),
    decreases s.len(),
{
    if s.len() > 0 && is_ws(s.last()) {
        lemma_trailing_ws_bound(s.drop_last());
        assert forall|i: int| s.len() - trailing_ws(s) <= i < s.len() implies is_ws(#[trigger] s[i]) by {
            if i < s.len() - 1 {
                assert(s[i] == s.drop_last()[i]);
            }
        }
    }
}

/// `leading_ws` is determined by where the first non-whitespace character is.
pub proof fn lemma_leading_ws_at(s: Seq<char>, k: int)
    requires
        0 <= k <= s.len(),
        forall|i: int| 0 <= i < k ==> is_ws(#[trigger] s[i]),
        k < s.len() ==> !is_ws(s[k]),
    ensures
        leading_ws(s) == k,
    decreases s.len(),
{
    if k > 0 {
        assert(is_ws(s[0]));
        assert forall|i: int| 0 <= i < k - 1 implies is_ws(#[trigger] s.drop_first()[i]) by {
            assert(s.drop_first()[i] == s[i + 1]);
        }
        if k < s.len() {
            assert(s.drop_first()[k - 1] == s[k]);
        }
        lemma_leading_ws_at(s.drop_first(), k - 1);
    }
}

/// `trailing_ws` is determined by where the last non-whitespace character is.
pub proof fn lemma_trailing_ws_at(s: Seq<char>, k: int)
    requires
        0 <= k <= s.len(),
        forall|i: int| k <= i < s.len() ==> is_ws(#[trigger] s[i]),
        k > 0 ==> !is_ws(s[k - 1]),
    ensures
        trailing_ws(s) == s.len() - k,
    decreases s.len(),
{
    if k < s.len() {
        assert(is_ws(s.last()));
        assert forall|i: int| k <= i < s.len() - 1 implies is_ws(#[trigger] s.drop_last()[i]) by {
            assert(s.drop_last()[i] == s[i]);
        }
        if k > 0 {
            assert(s.drop_last()[k - 1] == s[k - 1]);
        }
        lemma_trailing_ws_at(s.drop_last(), k);
    }
}

/// The first index in `[lo, hi)` that is not whitespace, or `hi`.
pub fn skip_ws(s: &[char], lo: usize, hi: usize) -> (r: usize)
    requires
        lo <= hi <= s@.len(),
    ensures
        lo <= r <= hi,
        r - lo == leading_ws(s@.subrange(lo as int, hi as int)),
{
    let mut i = lo;
    while i < hi && is_ws_char(s[i])
        invariant
            lo <= i <= hi <= s@.len(),
            forall|j: int| lo <= j < i ==> is_ws(#[trigger] s@[j]),
        decreases hi - i,
    {
        i += 1;
    }
    proof {
        let t = s@.subrange(lo as int, hi as int);
        assert forall|j: int| 0 <= j < i - lo implies is_ws(#[trigger] t[j]) by {
            assert(t[j] == s@[lo + j]);
        }
        lemma_leading_ws_at(t, i - lo);
    }
    i
}

/// One past the last index in `[lo, hi)` that is not whitespace, or `lo`.
pub fn skip_ws_back(s: &[char], lo: usize, hi: usize) -> (r: usize)
    requires
        lo <= hi <= s@.len(),
    ensures
        lo <= r <= hi,
        hi - r == trailing_ws(s@.subrange(lo as int, hi as int)),
{
    let mut i = hi;
    while i > lo && is_ws_char(s[i - 1])
        invariant
            lo <= i <= hi <= s@.len(),
            forall|j: int| i <= j < hi ==> is_ws(#[trigger] s@[j]),
        decreases i - lo,
    {
        i -= 1;
    }
    proof {
        let t = s@.subrange(lo as int, hi as int);
        assert forall|j: int| i - lo <= j < t.len() implies is_ws(#[trigger] t[j]) by {
            assert(t[j] == s@[lo + j]);
        }
        lemma_trailing_ws_at(t, i - lo);
    }
    i
}

/// The bounds of `trim(s[lo..hi])` within `s`.
pub fn trim_range(s: &[char], lo: usize, hi: usize) -> (r: (usize, usize))
    requires
        lo <= hi <= s@.len(),
    ensures
        lo <= r.0 <= r.1 <= hi,
        s@.subrange(r.0 as int, r.1 as int) == trim(s@.subrange(lo as int, hi as int)),
        s@.subrange(r.0 as int, hi as int) == trim_start(s@.subrange(lo as int, hi as int)),
{
    let a = skip_ws(s, lo, hi);
    let b = skip_ws_back(s, a, hi);
    proof {
        let t = s@.subrange(lo as int, hi as int);
        assert(trim_start(t) == s@.subrange(a as int, hi as int));
    }
    (a, b)
}

// ── matching ──

/// `pat` occurs in `s` at `i`.
pub open spec fn matches_at(s: Seq<char>, pat: Seq<char>, i: int) -> bool {
    0 <= i && i + pat.len() <= s.len() && s.subrange(i, i + pat.len()) == pat
}

/// `i` is where `pat` first occurs in `s`.
pub open spec fn first_match(s: Seq<char>, pat: Seq<char>, i: int) -> bool {
    matches_at(s, pat, i) && forall|j: int| 0 <= j < i ==> !matches_at(s, pat, j)
}

/// `str::find`: where `pat` first occurs in `s`.
pub open spec fn find(s: Seq<char>, pat: Seq<char>) -> Option<int> {
    if exists|i: int| first_match(s, pat, i) {
        Some(choose|i: int| first_match(s, pat, i))
    } else {
        None
    }
}

pub proof fn lemma_find_is(s: Seq<char>, pat: Seq<char>, i: int)
    requires
        first_match(s, pat, i),
    ensures
        find(s, pat) == Some(i),
{
    let k = choose|k: int| first_match(s, pat, k);
    assert(first_match(s, pat, k));
    if k < i {
        assert(!matches_at(s, pat, k));
    }
    if i < k {
        assert(!matches_at(s, pat, i));
    }
}

pub proof fn lemma_find_some(s: Seq<char>, pat: Seq<char>)
    ensures
        match find(s, pat) {
            Some(i) => first_match(s, pat, i),
            None => forall|j: int| !matches_at(s, pat, j),
        },
{
    if !(exists|i: int| first_match(s, pat, i)) {
        assert forall|j: int| !matches_at(s, pat, j) by {
            if matches_at(s, pat, j) {
                lemma_first_match_exists(s, pat, j);
            }
        }
    }
}

/// Where `pat` occurs, a first occurrence exists.
pub proof fn lemma_first_match_exists(s: Seq<char>, pat: Seq<char>, j: int)
    requires
        matches_at(s, pat, j),
    ensures
        exists|i: int| first_match(s, pat, i),
    decreases j,
{
    if forall|k: int| 0 <= k < j ==> !matches_at(s, pat, k) {
        assert(first_match(s, pat, j));
    } else {
        let k = choose|k: int| 0 <= k < j && matches_at(s, pat, k);
        lemma_first_match_exists(s, pat, k);
    }
}

pub proof fn lemma_find_none(s: Seq<char>, pat: Seq<char>)
    requires
        forall|j: int| 0 <= j ==> !matches_at(s, pat, j),
    ensures
        find(s, pat) is None,
{
}

/// Whether `pat` occurs in `s` at `i`.
pub fn matches_at_exec(s: &[char], i: usize, hi: usize, pat: &[char]) -> (b: bool)
    requires
        i <= hi <= s@.len(),
    ensures
        b == matches_at(s@.subrange(i as int, hi as int), pat@, 0),
{
    let ghost t = s@.subrange(i as int, hi as int);
    if pat.len() > hi - i {
        return false;
    }
    let mut k: usize = 0;
    while k < pat.len()
        invariant
            k <= pat@.len(),
            i + pat@.len() <= hi <= s@.len(),
            t == s@.subrange(i as int, hi as int),
            forall|j: int| 0 <= j < k ==> s@[i + j] == pat@[j],
        decreases pat@.len() - k,
    {
        if s[i + k] != pat[k] {
            assert(t.subrange(0, pat@.len() as int)[k as int] != pat@[k as int]);
            return false;
        }
        k += 1;
    }
    assert(t.subrange(0, pat@.len() as int) =~= pat@);
    true
}

/// Where `pat` first occurs in `s[lo..hi]`, as an index into `s`.
pub fn find_in(s: &[char], lo: usize, hi: usize, pat: &[char]) -> (r: Option<usize>)
    requires
        lo <= hi <= s@.len(),
    ensures
        match r {
            Some(i) => lo <= i && find(s@.subrange(lo as int, hi as int), pat@) == Some(i - lo)
                && i + pat@.len() <= hi,
            None => find(s@.subrange(lo as int, hi as int), pat@) is None,
        },
{
    let ghost t = s@.subrange(lo as int, hi as int);
    let mut i = lo;
    loop
        invariant
            lo <= i <= hi,
            hi <= s@.len(),
            t == s@.subrange(lo as int, hi as int),
            forall|j: int| 0 <= j < i - lo ==> !matches_at(t, pat@, j),
        decreases hi - i,
    {
        if matches_at_exec(s, i, hi, pat) {
            proof {
                assert(matches_at(t, pat@, i - lo)) by {
                    assert(t.subrange(i - lo, i - lo + pat@.len()) =~= s@.subrange(i as int, hi as int).subrange(0, pat@.len() as int));
                }
                lemma_find_is(t, pat@, i - lo);
            }
            return Some(i);
        }
        proof {
            if matches_at(t, pat@, i - lo) {
                assert(t.subrange(i - lo, i - lo + pat@.len()) =~= s@.subrange(i as int, hi as int).subrange(0, pat@.len() as int));
            }
        }
        if i == hi {
            proof {
                lemma_find_none(t, pat@);
            }
            return None;
        }
        i += 1;
    }
}


// ── case, equality, widths ──

pub open spec fn ascii_lower(c: char) -> char {
    if 'A' <= c && c <= 'Z' { ((c as u32) + 32) as char } else { c }
}

/// `str::to_ascii_lowercase`.
pub open spec fn to_ascii_lower(s: Seq<char>) -> Seq<char> {
    s.map_values(|c: char| ascii_lower(c))
}

/// `str::eq_ignore_ascii_case`.
pub open spec fn eq_ignore_case(a: Seq<char>, b: Seq<char>) -> bool {
    to_ascii_lower(a) == to_ascii_lower(b)
}

pub fn lower_char(c: char) -> (r: char)
    ensures
        r == ascii_lower(c),
{
    if 'A' <= c && c <= 'Z' {
        (((c as u32) + 32) as u8) as char
    } else {
        c
    }
}

/// `s[lo..hi]`, ASCII-lowercased.
pub fn lowered(s: &[char], lo: usize, hi: usize) -> (r: Vec<char>)
    requires
        lo <= hi <= s@.len(),
    ensures
        r@ == to_ascii_lower(s@.subrange(lo as int, hi as int)),
{
    let ghost t = s@.subrange(lo as int, hi as int);
    let mut r: Vec<char> = Vec::new();
    let mut i = lo;
    while i < hi
        invariant
            lo <= i <= hi <= s@.len(),
            t == s@.subrange(lo as int, hi as int),
            r@ == to_ascii_lower(t.take(i - lo)),
        decreases hi - i,
    {
        r.push(lower_char(s[i]));
        i += 1;
        assert(to_ascii_lower(t.take(i - lo)) =~= to_ascii_lower(t.take(i - lo - 1)).push(ascii_lower(t[i - lo - 1])));
    }
    assert(t.take(hi - lo) == t);
    r
}

/// Whether `s[lo..hi]` is exactly `pat`.
pub fn eq_at(s: &[char], lo: usize, hi: usize, pat: &[char]) -> (b: bool)
    requires
        lo <= hi <= s@.len(),
    ensures
        b == (s@.subrange(lo as int, hi as int) == pat@),
{
    if hi - lo != pat.len() {
        return false;
    }
    let r = matches_at_exec(s, lo, hi, pat);
    proof {
        let t = s@.subrange(lo as int, hi as int);
        assert(t.subrange(0, pat@.len() as int) == t);
    }
    r
}

/// Whether `s[lo..hi]` equals `pat`, ignoring ASCII case.
pub fn eq_ignore_case_at(s: &[char], lo: usize, hi: usize, pat: &[char]) -> (b: bool)
    requires
        lo <= hi <= s@.len(),
    ensures
        b == eq_ignore_case(s@.subrange(lo as int, hi as int), pat@),
{
    let a = lowered(s, lo, hi);
    let p = lowered(pat, 0, pat.len());
    assert(pat@.subrange(0, pat@.len() as int) == pat@);
    assert(a@.subrange(0, a@.len() as int) == a@);
    eq_at(a.as_slice(), 0, a.len(), p.as_slice())
}

/// Whether `s[lo..hi]` begins with `pat`.
pub fn starts_with_at(s: &[char], lo: usize, hi: usize, pat: &[char]) -> (b: bool)
    requires
        lo <= hi <= s@.len(),
    ensures
        b == matches_at(s@.subrange(lo as int, hi as int), pat@, 0),
{
    matches_at_exec(s, lo, hi, pat)
}

/// The bytes `c` takes in UTF-8 (`char::len_utf8`).
pub open spec fn utf8_width(c: char) -> nat {
    if (c as u32) < 0x80 {
        1
    } else if (c as u32) < 0x800 {
        2
    } else if (c as u32) < 0x10000 {
        3
    } else {
        4
    }
}

/// The bytes `s` takes in UTF-8 (`str::len`).
pub open spec fn byte_len(s: Seq<char>) -> nat
    decreases s.len(),
{
    if s.len() == 0 {
        0
    } else {
        byte_len(s.drop_last()) + utf8_width(s.last())
    }
}

/// Every character takes at least one byte.
pub proof fn lemma_len_le_bytes(s: Seq<char>)
    ensures
        s.len() <= byte_len(s),
    decreases s.len(),
{
    if s.len() > 0 {
        lemma_len_le_bytes(s.drop_last());
    }
}

pub fn utf8_width_of(c: char) -> (w: usize)
    ensures
        w == utf8_width(c),
{
    let v = c as u32;
    if v < 0x80 {
        1
    } else if v < 0x800 {
        2
    } else if v < 0x10000 {
        3
    } else {
        4
    }
}

pub proof fn lemma_byte_len_append(a: Seq<char>, b: Seq<char>)
    ensures
        byte_len(a + b) == byte_len(a) + byte_len(b),
    decreases b.len(),
{
    if b.len() > 0 {
        lemma_byte_len_append(a, b.drop_last());
        assert((a + b).drop_last() == a + b.drop_last());
    } else {
        assert(a + b == a);
    }
}

/// The first whitespace character in `s`.
pub open spec fn first_ws(s: Seq<char>, i: int) -> bool {
    0 <= i < s.len() && is_ws(s[i]) && forall|j: int| 0 <= j < i ==> !is_ws(#[trigger] s[j])
}

/// `str::find(char::is_whitespace)`.
pub open spec fn find_ws(s: Seq<char>) -> Option<int> {
    if exists|i: int| first_ws(s, i) {
        Some(choose|i: int| first_ws(s, i))
    } else {
        None
    }
}

pub fn find_ws_in(s: &[char], lo: usize, hi: usize) -> (r: Option<usize>)
    requires
        lo <= hi <= s@.len(),
    ensures
        match r {
            Some(i) => lo <= i < hi && find_ws(s@.subrange(lo as int, hi as int)) == Some(i - lo),
            None => find_ws(s@.subrange(lo as int, hi as int)) is None,
        },
{
    let ghost t = s@.subrange(lo as int, hi as int);
    let mut i = lo;
    while i < hi
        invariant
            lo <= i <= hi <= s@.len(),
            t == s@.subrange(lo as int, hi as int),
            forall|j: int| 0 <= j < i - lo ==> !is_ws(#[trigger] t[j]),
        decreases hi - i,
    {
        if is_ws_char(s[i]) {
            proof {
                assert(first_ws(t, i - lo));
                let k = choose|k: int| first_ws(t, k);
                assert(first_ws(t, k));
                if k < i - lo {
                    assert(!is_ws(t[k]));
                }
                if k > i - lo {
                    assert(!is_ws(t[i - lo]));
                }
            }
            return Some(i);
        }
        i += 1;
    }
    None
}


/// An owned copy of `s`.
pub fn owned(s: &str) -> (r: String)
    ensures
        r@ == s@,
{
    s.to_owned()
}

/// How many ASCII digits `s` begins with.
pub open spec fn digit_run(s: Seq<char>) -> nat
    decreases s.len(),
{
    if s.len() > 0 && is_digit(s[0]) {
        1 + digit_run(s.drop_first())
    } else {
        0
    }
}

pub proof fn lemma_digit_run_at(s: Seq<char>, k: int)
    requires
        0 <= k <= s.len(),
        forall|i: int| 0 <= i < k ==> is_digit(#[trigger] s[i]),
        k < s.len() ==> !is_digit(s[k]),
    ensures
        digit_run(s) == k,
    decreases s.len(),
{
    if k > 0 {
        assert(is_digit(s[0]));
        assert forall|i: int| 0 <= i < k - 1 implies is_digit(#[trigger] s.drop_first()[i]) by {
            assert(s.drop_first()[i] == s[i + 1]);
        }
        if k < s.len() {
            assert(s.drop_first()[k - 1] == s[k]);
        }
        lemma_digit_run_at(s.drop_first(), k - 1);
    }
}

/// The end of the run of ASCII digits starting at `lo`.
pub fn skip_digits(s: &[char], lo: usize, hi: usize) -> (r: usize)
    requires
        lo <= hi <= s@.len(),
    ensures
        lo <= r <= hi,
        r - lo == digit_run(s@.subrange(lo as int, hi as int)),
        all_digits(s@.subrange(lo as int, r as int)),
{
    let mut i = lo;
    while i < hi && '0' <= s[i] && s[i] <= '9'
        invariant
            lo <= i <= hi <= s@.len(),
            forall|j: int| lo <= j < i ==> is_digit(#[trigger] s@[j]),
        decreases hi - i,
    {
        i += 1;
    }
    proof {
        let t = s@.subrange(lo as int, hi as int);
        assert forall|j: int| 0 <= j < i - lo implies is_digit(#[trigger] t[j]) by {
            assert(t[j] == s@[lo + j]);
        }
        lemma_digit_run_at(t, i - lo);
        assert forall|j: int| 0 <= j < i - lo implies is_digit(#[trigger] s@.subrange(lo as int, i as int)[j]) by {
            assert(s@.subrange(lo as int, i as int)[j] == s@[lo + j]);
        }
    }
    i
}


pub proof fn lemma_one_char_seqs_differ(a: char, b: char)
    requires
        a != b,
    ensures
        seq![a] != seq![b],
{
    assert(seq![a][0] != seq![b][0]);
}

pub proof fn lemma_byte_len_monotone(s: Seq<char>, i: int, j: int)
    requires
        0 <= i <= j <= s.len(),
    ensures
        byte_len(s.take(i)) <= byte_len(s.take(j)),
    decreases j - i,
{
    if i < j {
        lemma_byte_len_monotone(s, i, j - 1);
        assert(s.take(j).drop_last() == s.take(j - 1));
    }
}


/// The UTF-8 length of `s[lo..hi]`, which must fit in a `u32`.
pub fn byte_len_in(s: &[char], lo: usize, hi: usize) -> (r: u32)
    requires
        lo <= hi <= s@.len(),
        byte_len(s@.subrange(lo as int, hi as int)) <= u32::MAX,
    ensures
        r == byte_len(s@.subrange(lo as int, hi as int)),
{
    let ghost t = s@.subrange(lo as int, hi as int);
    let mut acc: u32 = 0;
    let mut i = lo;
    while i < hi
        invariant
            lo <= i <= hi <= s@.len(),
            t == s@.subrange(lo as int, hi as int),
            byte_len(t) <= u32::MAX,
            acc == byte_len(t.take(i - lo)),
        decreases hi - i,
    {
        proof {
            lemma_byte_len_monotone(t, i - lo + 1, t.len() as int);
            assert(t.take(t.len() as int) == t);
            assert(t.take(i - lo + 1).drop_last() == t.take(i - lo));
        }
        acc = acc + utf8_width_of(s[i]) as u32;
        i += 1;
    }
    assert(t.take(hi - lo) == t);
    acc
}


/// How many leading characters of `s` take exactly `b` bytes: `Some` when
/// byte `b` is a character boundary of `s` (`str::is_char_boundary`), `None`
/// when it falls inside a character or past the end.
pub open spec fn chars_in_bytes(s: Seq<char>, b: int) -> Option<nat>
    decreases s.len(),
{
    if b == 0 {
        Some(0)
    } else if b < 0 || s.len() == 0 {
        None
    } else {
        match chars_in_bytes(s.drop_first(), b - utf8_width(s[0])) {
            Some(k) => Some(k + 1),
            None => None,
        }
    }
}

pub proof fn lemma_chars_in_bytes(s: Seq<char>, b: int)
    ensures
        match chars_in_bytes(s, b) {
            Some(k) => k <= s.len() && byte_len(s.take(k as int)) == b,
            None => true,
        },
    decreases s.len(),
{
    if b != 0 && b > 0 && s.len() > 0 {
        lemma_chars_in_bytes(s.drop_first(), b - utf8_width(s[0]));
        match chars_in_bytes(s.drop_first(), b - utf8_width(s[0])) {
            Some(k) => {
                let t = s.take((k + 1) as int);
                assert(t == seq![s[0]] + s.drop_first().take(k as int));
                lemma_byte_len_append(seq![s[0]], s.drop_first().take(k as int));
                lemma_byte_len_single(s[0]);
            },
            None => {},
        }
    }
}

/// A prefix that takes `byte_len(s.take(k))` bytes ends after `k` characters.
pub proof fn lemma_chars_in_bytes_of_prefix(s: Seq<char>, k: int)
    requires
        0 <= k <= s.len(),
    ensures
        chars_in_bytes(s, byte_len(s.take(k)) as int) == Some(k as nat),
    decreases k,
{
    if k > 0 {
        let t = s.take(k);
        assert(t == seq![s[0]] + s.drop_first().take(k - 1));
        lemma_byte_len_append(seq![s[0]], s.drop_first().take(k - 1));
        lemma_byte_len_single(s[0]);
        lemma_chars_in_bytes_of_prefix(s.drop_first(), k - 1);
    } else {
        assert(s.take(0) == Seq::<char>::empty());
    }
}

/// The character index at byte offset `b` of `s`, when that offset is a
/// character boundary.
pub fn chars_in_bytes_of(s: &[char], b: usize) -> (r: Option<usize>)
    ensures
        match chars_in_bytes(s@, b as int) {
            Some(k) => r == Some(k as usize),
            None => r is None,
        },
{
    let mut i: usize = 0;
    let mut acc: usize = 0;
    assert(s@.skip(0) == s@);
    while acc < b && i < s.len()
        invariant
            i <= s@.len(),
            acc <= b,
            chars_in_bytes(s@, b as int) == (match chars_in_bytes(s@.skip(i as int), b - acc) {
                Some(k) => Some((k + i) as nat),
                None => None,
            }),
        decreases s@.len() - i,
    {
        let w = utf8_width_of(s[i]);
        assert(s@.skip(i as int).drop_first() == s@.skip(i + 1));
        assert(s@.skip(i as int)[0] == s@[i as int]);
        if w > b - acc {
            assert(chars_in_bytes(s@.skip(i + 1), b - acc - w) is None) by {
                lemma_chars_in_bytes_negative(s@.skip(i + 1), b - acc - w);
            }
            return None;
        }
        acc = acc + w;
        i = i + 1;
    }
    if acc == b {
        Some(i)
    } else {
        assert(s@.skip(i as int).len() == 0);
        None
    }
}

pub proof fn lemma_byte_len_single(c: char)
    ensures
        byte_len(seq![c]) == utf8_width(c),
        utf8_width(c) >= 1,
{
    assert(seq![c].drop_last() == Seq::<char>::empty());
    assert(seq![c].last() == c);
    assert(byte_len(Seq::<char>::empty()) == 0);
}

pub proof fn lemma_chars_in_bytes_negative(s: Seq<char>, b: int)
    requires
        b < 0,
    ensures
        chars_in_bytes(s, b) is None,
{
}


// ── lines ──

/// Where the line starting at `i` ends: the next `\n`, or the end of `s`.
pub open spec fn line_end(s: Seq<char>, i: int) -> int
    decreases s.len() - i,
{
    if i < 0 || i >= s.len() || s[i] == '\n' {
        i
    } else {
        line_end(s, i + 1)
    }
}

pub proof fn lemma_line_end(s: Seq<char>, i: int)
    requires
        0 <= i <= s.len(),
    ensures
        i <= line_end(s, i) <= s.len(),
        line_end(s, i) < s.len() ==> s[line_end(s, i)] == '\n',
        forall|j: int| i <= j < line_end(s, i) ==> s[j] != '\n',
    decreases s.len() - i,
{
    if i < s.len() && s[i] != '\n' {
        lemma_line_end(s, i + 1);
    }
}

/// A line without the `\r` a CRLF file leaves on it.
pub open spec fn strip_cr(l: Seq<char>) -> Seq<char> {
    if l.len() > 0 && l.last() == '\r' {
        l.drop_last()
    } else {
        l
    }
}

/// `str::lines` from position `i` on: split at `\n`, the `\r` of a `\r\n`
/// dropped — a `\r` that no `\n` follows stays — and no empty line after a
/// final `\n`.
pub open spec fn lines_from(s: Seq<char>, i: int) -> Seq<Seq<char>>
    decreases s.len() + 1 - i,
{
    if i < 0 || i >= s.len() {
        Seq::empty()
    } else {
        proof {
            lemma_line_end(s, i);
        }
        let raw = s.subrange(i, line_end(s, i));
        seq![if line_end(s, i) < s.len() { strip_cr(raw) } else { raw }] + lines_from(s, line_end(s, i) + 1)
    }
}

/// `str::lines`.
pub open spec fn lines(s: Seq<char>) -> Seq<Seq<char>> {
    lines_from(s, 0)
}

/// The lines of `text`, as `str::lines` splits them.
pub fn lines_of(text: &str) -> (r: Vec<String>)
    ensures
        r@.map_values(|l: String| l@) == lines(text@),
{
    let t = chars_of(text);
    let mut out: Vec<String> = Vec::new();
    let mut i: usize = 0;
    while i < t.len()
        invariant
            i <= t@.len(),
            t@ == text@,
            out@.map_values(|l: String| l@) + lines_from(t@, i as int) == lines(t@),
        decreases t@.len() - i,
    {
        let mut e = i;
        while e < t.len() && t[e] != '\n'
            invariant
                i <= e <= t@.len(),
                line_end(t@, i as int) == line_end(t@, e as int),
            decreases t@.len() - e,
        {
            e += 1;
        }
        proof {
            lemma_line_end(t@, i as int);
        }
        let mut stop = e;
        if e < t.len() && stop > i && t[stop - 1] == '\r' {
            stop = stop - 1;
        }
        let line = string_of(&t.as_slice()[i..stop]);
        assert(line@ == (if e < t@.len() { strip_cr(t@.subrange(i as int, e as int)) } else { t@.subrange(i as int, e as int) }));
        let ghost before = out@.map_values(|l: String| l@);
        out.push(line);
        assert(out@.map_values(|l: String| l@) == before.push(line@));
        assert(lines_from(t@, i as int) == seq![line@] + lines_from(t@, e + 1));
        assert(before.push(line@) + lines_from(t@, e + 1) =~= before + (seq![line@] + lines_from(t@, e + 1)));
        if e == t.len() {
            i = e;
        } else {
            i = e + 1;
        }
    }
    assert(lines_from(t@, i as int) == Seq::<Seq<char>>::empty());
    assert(out@.map_values(|l: String| l@) =~= out@.map_values(|l: String| l@) + Seq::<Seq<char>>::empty());
    out
}


// ── joining ──

/// `parts` joined with `sep` between them (`[String]::join`).
pub open spec fn join(parts: Seq<Seq<char>>, sep: Seq<char>) -> Seq<char>
    decreases parts.len(),
{
    if parts.len() == 0 {
        Seq::empty()
    } else if parts.len() == 1 {
        parts[0]
    } else {
        join(parts.drop_last(), sep) + sep + parts.last()
    }
}

/// The texts of `parts`.
pub open spec fn texts_of(parts: Seq<String>) -> Seq<Seq<char>> {
    parts.map_values(|s: String| s@)
}

/// `parts.join(sep)`, as characters.
pub fn join_chars(parts: &[String], sep: &str) -> (r: Vec<char>)
    ensures
        r@ == join(texts_of(parts@), sep@),
{
    let ghost ps = texts_of(parts@);
    let sc = chars_of(sep);
    let mut out: Vec<char> = Vec::new();
    let mut i: usize = 0;
    while i < parts.len()
        invariant
            i <= parts@.len(),
            ps == texts_of(parts@),
            sc@ == sep@,
            out@ == join(ps.take(i as int), sep@),
        decreases parts@.len() - i,
    {
        if i > 0 {
            extend_chars(&mut out, sc.as_slice());
        }
        let p = chars_of(parts[i].as_str());
        extend_chars(&mut out, p.as_slice());
        proof {
            assert(ps.take(i + 1).drop_last() == ps.take(i as int));
            assert(ps.take(i + 1).last() == parts@[i as int]@);
            if i == 0 {
                assert(ps.take(1).len() == 1);
                assert(join(ps.take(0), sep@) == Seq::<char>::empty());
                assert(out@ =~= ps.take(1)[0]);
            }
        }
        i += 1;
    }
    assert(ps.take(parts@.len() as int) == ps);
    out
}


/// Where `c` last occurs in `s` (`str::rfind` of one character).
pub open spec fn last_index_of(s: Seq<char>, c: char) -> Option<int>
    decreases s.len(),
{
    if s.len() == 0 {
        None
    } else if s.last() == c {
        Some(s.len() - 1)
    } else {
        last_index_of(s.drop_last(), c)
    }
}

pub proof fn lemma_last_index_of(s: Seq<char>, c: char)
    ensures
        match last_index_of(s, c) {
            Some(i) => 0 <= i < s.len() && s[i] == c && forall|j: int| i < j < s.len() ==> s[j] != c,
            None => forall|j: int| 0 <= j < s.len() ==> s[j] != c,
        },
    decreases s.len(),
{
    if s.len() > 0 && s.last() != c {
        lemma_last_index_of(s.drop_last(), c);
        assert forall|j: int| 0 <= j < s.len() - 1 implies s[j] == s.drop_last()[j] by {}
    }
}

/// Where `c` last occurs in `s[lo..hi]`, as an index into `s`.
pub fn last_index_in(s: &[char], lo: usize, hi: usize, c: char) -> (r: Option<usize>)
    requires
        lo <= hi <= s@.len(),
    ensures
        match last_index_of(s@.subrange(lo as int, hi as int), c) {
            Some(i) => r == Some((i + lo) as usize),
            None => r is None,
        },
{
    let mut i = hi;
    while i > lo
        invariant
            lo <= i <= hi <= s@.len(),
            last_index_of(s@.subrange(lo as int, hi as int), c) == last_index_of(s@.subrange(lo as int, i as int), c),
        decreases i - lo,
    {
        assert(s@.subrange(lo as int, i as int).drop_last() == s@.subrange(lo as int, i - 1));
        if s[i - 1] == c {
            return Some(i - 1);
        }
        i -= 1;
    }
    None
}


pub proof fn lemma_digit_run_bound(s: Seq<char>)
    ensures
        digit_run(s) <= s.len(),
        forall|i: int| 0 <= i < digit_run(s) ==> is_digit(#[trigger] s[i]),
        digit_run(s) < s.len() ==> !is_digit(s[digit_run(s) as int]),
    decreases s.len(),
{
    if s.len() > 0 && is_digit(s[0]) {
        lemma_digit_run_bound(s.drop_first());
        assert forall|i: int| 0 <= i < digit_run(s) implies is_digit(#[trigger] s[i]) by {
            if i > 0 {
                assert(s[i] == s.drop_first()[i - 1]);
            }
        }
    }
}


/// Where a line ends does not depend on the text before it.
pub proof fn lemma_line_end_shift(p: Seq<char>, r: Seq<char>, j: int)
    requires
        0 <= j <= r.len(),
    ensures
        line_end(p + r, p.len() + j) == p.len() + line_end(r, j),
    decreases r.len() - j,
{
    if j < r.len() && r[j] != '\n' {
        assert((p + r)[p.len() + j] == r[j]);
        lemma_line_end_shift(p, r, j + 1);
    } else if j < r.len() {
        assert((p + r)[p.len() + j] == r[j]);
    }
}

/// The lines after a prefix are the lines of what follows it.
pub proof fn lemma_lines_from_shift(p: Seq<char>, r: Seq<char>, j: int)
    requires
        0 <= j,
    ensures
        lines_from(p + r, p.len() + j) == lines_from(r, j),
    decreases r.len() + 1 - j,
{
    if j < r.len() {
        lemma_line_end_shift(p, r, j);
        lemma_line_end(r, j);
        let e = line_end(r, j);
        assert((p + r).subrange(p.len() + j, p.len() + e) == r.subrange(j, e));
        lemma_lines_from_shift(p, r, e + 1);
        assert(p.len() + e + 1 == p.len() + (e + 1));
    }
}

/// A line without `\n`, not ending in `\r`, then `\n`, then the rest: that
/// line first, then the rest's lines.
pub proof fn lemma_lines_prepend(a: Seq<char>, rest: Seq<char>)
    requires
        !a.contains('\n'),
        a.len() == 0 || a.last() != '\r',
    ensures
        lines(a + seq!['\n'] + rest) == seq![a] + lines(rest),
{
    lemma_lines_prepend_any(a, rest);
}

/// A line without `\n`, then `\n`, then the rest: that line, less a trailing
/// `\r`, first, then the rest's lines.
pub proof fn lemma_lines_prepend_any(a: Seq<char>, rest: Seq<char>)
    requires
        !a.contains('\n'),
    ensures
        lines(a + seq!['\n'] + rest) == seq![strip_cr(a)] + lines(rest),
{
    let s = a + seq!['\n'] + rest;
    assert forall|j: int| 0 <= j < a.len() implies s[j] != '\n' by {
        assert(s[j] == a[j]);
        if a[j] == '\n' {
            assert(a.contains('\n'));
        }
    }
    assert(s[a.len() as int] == '\n');
    lemma_line_end_to(s, 0, a.len() as int);
    assert(s.subrange(0, a.len() as int) == a);
    assert(s == (a + seq!['\n']) + rest);
    lemma_lines_from_shift(a + seq!['\n'], rest, 0);
    assert((a + seq!['\n']).len() + 0 == a.len() + 1);
}

proof fn lemma_line_end_to(s: Seq<char>, i: int, e: int)
    requires
        0 <= i <= e < s.len(),
        s[e] == '\n',
        forall|j: int| i <= j < e ==> s[j] != '\n',
    ensures
        line_end(s, i) == e,
    decreases e - i,
{
    if i < e {
        lemma_line_end_to(s, i + 1, e);
    }
}

} // verus!
