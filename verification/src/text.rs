//! Character-level string helpers with exact specifications.

use vstd::prelude::*;

verus! {

/// The characters of `s`, in order.
pub fn chars_of(s: &str) -> (out: Vec<char>)
    ensures
        out@ == s@,
{
    let mut out: Vec<char> = Vec::new();
    for c in it: s.chars()
        invariant
            out@ == it.seq().take(it.index()),
    {
        out.push(c);
    }
    out
}

/// Collects `chars` into a `String` through std's `FromIterator<&char> for String`.
/// Trusted: std documents that collecting characters into a `String` yields exactly
/// those characters in order.
#[verifier::external_body]
pub(crate) fn string_from_chars(chars: &[char]) -> (s: String)
    ensures
        s@ == chars@,
{
    chars.iter().collect()
}

/// ASCII letters and digits, as `char::is_ascii_alphanumeric` defines them.
pub open spec fn is_ascii_alnum(c: char) -> bool {
    ('0' <= c && c <= '9') || ('a' <= c && c <= 'z') || ('A' <= c && c <= 'Z')
}

/// `c` with an ASCII upper-case letter mapped to its lower-case letter,
/// as `char::to_ascii_lowercase` does.
pub open spec fn ascii_lower_char(c: char) -> char {
    if 'A' <= c && c <= 'Z' {
        ((c as u32) + 32) as char
    } else {
        c
    }
}

/// Every character of `s` mapped by `ascii_lower_char`.
pub open spec fn ascii_lower(s: Seq<char>) -> Seq<char> {
    s.map_values(|c: char| ascii_lower_char(c))
}

pub fn is_ascii_alphanumeric(c: char) -> (r: bool)
    ensures
        r == is_ascii_alnum(c),
{
    ('0' <= c && c <= '9') || ('a' <= c && c <= 'z') || ('A' <= c && c <= 'Z')
}

pub fn to_ascii_lowercase(c: char) -> (r: char)
    ensures
        r == ascii_lower_char(c),
{
    if 'A' <= c && c <= 'Z' {
        let b: u8 = c as u8;
        assert(b as u32 == c as u32);
        ((b + 32) as char)
    } else {
        c
    }
}

/// The characters of `s` mapped by `to_ascii_lowercase`.
pub fn ascii_lowercase(s: &[char]) -> (out: Vec<char>)
    ensures
        out@ == ascii_lower(s@),
{
    let mut out: Vec<char> = Vec::new();
    for i in 0..s.len()
        invariant
            out@ == ascii_lower(s@.take(i as int)),
    {
        out.push(to_ascii_lowercase(s[i]));
        assert(ascii_lower(s@.take(i + 1)) =~= ascii_lower(s@.take(i as int)).push(ascii_lower_char(s@[i as int])));
    }
    assert(s@.take(s.len() as int) =~= s@);
    out
}

/// `s` with every occurrence of the non-empty `from` replaced by `to`, scanning
/// left to right without overlap, as `str::replace` does.
pub open spec fn replaced(s: Seq<char>, from: Seq<char>, to: Seq<char>) -> Seq<char>
    decreases s.len(),
{
    if s.len() == 0 {
        seq![]
    } else if from.len() > 0 && from.len() <= s.len() && s.take(from.len() as int) == from {
        to + replaced(s.skip(from.len() as int), from, to)
    } else {
        seq![s[0]] + replaced(s.skip(1), from, to)
    }
}

/// Whether `pat` occurs in `s` at position `at`.
pub fn occurs_at(s: &[char], at: usize, pat: &[char]) -> (r: bool)
    ensures
        r == (at + pat@.len() <= s@.len() && s@.subrange(at as int, at + pat@.len()) == pat@),
{
    let n = pat.len();
    if at > s.len() || s.len() - at < n {
        return false;
    }
    for t in 0..n
        invariant
            n == pat@.len(),
            at + n <= s.len(),
            forall|q: int| 0 <= q < t ==> s@[at + q] == pat@[q],
    {
        if s[at + t] != pat[t] {
            assert(s@.subrange(at as int, at + n)[t as int] != pat@[t as int]);
            return false;
        }
    }
    assert(s@.subrange(at as int, at + n) =~= pat@);
    true
}

/// `s` with every occurrence of `from` replaced by `to`, as `str::replace` does.
pub fn replace_all(s: &[char], from: &[char], to: &[char]) -> (out: Vec<char>)
    requires
        from@.len() > 0,
    ensures
        out@ == replaced(s@, from@, to@),
{
    let mut out: Vec<char> = Vec::new();
    let mut i: usize = 0;
    assert(s@.skip(0) =~= s@);
    while i < s.len()
        invariant
            i <= s@.len(),
            from@.len() > 0,
            replaced(s@, from@, to@) == out@ + replaced(s@.skip(i as int), from@, to@),
        decreases s@.len() - i,
    {
        let ghost rest = s@.skip(i as int);
        if occurs_at(s, i, from) {
            assert(rest.take(from@.len() as int) =~= s@.subrange(i as int, i + from@.len()));
            assert(rest.skip(from@.len() as int) =~= s@.skip(i + from@.len()));
            let mut t: usize = 0;
            let ghost before = out@;
            while t < to.len()
                invariant
                    t <= to@.len(),
                    out@ == before + to@.take(t as int),
                decreases to@.len() - t,
            {
                out.push(to[t]);
                assert(to@.take(t + 1) =~= to@.take(t as int).push(to@[t as int]));
                t = t + 1;
            }
            assert(to@.take(to@.len() as int) =~= to@);
            assert(out@ + replaced(s@.skip(i + from@.len()), from@, to@) =~= before + (to@ + replaced(rest.skip(from@.len() as int), from@, to@)));
            i = i + from.len();
        } else {
            assert(!(from@.len() <= rest.len() && rest.take(from@.len() as int) == from@)) by {
                if from@.len() <= rest.len() && rest.take(from@.len() as int) == from@ {
                    assert(rest.take(from@.len() as int) =~= s@.subrange(i as int, i + from@.len()));
                }
            }
            assert(rest.skip(1) =~= s@.skip(i + 1));
            let ghost before = out@;
            out.push(s[i]);
            assert(out@ + replaced(s@.skip(i + 1), from@, to@) =~= before + (seq![rest[0]] + replaced(rest.skip(1), from@, to@)));
            i = i + 1;
        }
    }
    assert(s@.skip(i as int).len() == 0);
    assert(out@ + replaced(s@.skip(i as int), from@, to@) =~= out@);
    out
}

/// Whether `needle` occurs in `hay` at position `i`.
pub open spec fn occurs_in_at(hay: Seq<char>, needle: Seq<char>, i: int) -> bool {
    0 <= i && i + needle.len() <= hay.len() && hay.subrange(i, i + needle.len()) == needle
}

/// Whether `needle` occurs anywhere in `hay`, as `str::contains` tells.
pub open spec fn contains_seq(hay: Seq<char>, needle: Seq<char>) -> bool {
    exists|i: int| #[trigger] occurs_in_at(hay, needle, i)
}

/// The first position at or after `from` where `needle` occurs in `hay`.
pub open spec fn first_at_or_after(hay: Seq<char>, needle: Seq<char>, from: int) -> Option<int>
    decreases hay.len() + 1 - from,
{
    if from < 0 || from + needle.len() > hay.len() {
        None
    } else if occurs_in_at(hay, needle, from) {
        Some(from)
    } else {
        first_at_or_after(hay, needle, from + 1)
    }
}

pub proof fn lemma_first_at_or_after(hay: Seq<char>, needle: Seq<char>, from: int)
    requires
        from >= 0,
    ensures
        match first_at_or_after(hay, needle, from) {
            Some(i) => from <= i && occurs_in_at(hay, needle, i)
                && forall|j: int| from <= j < i ==> !#[trigger] occurs_in_at(hay, needle, j),
            None => forall|j: int| from <= j ==> !#[trigger] occurs_in_at(hay, needle, j),
        },
    decreases hay.len() + 1 - from,
{
    if from + needle.len() <= hay.len() && !occurs_in_at(hay, needle, from) {
        lemma_first_at_or_after(hay, needle, from + 1);
    }
}

/// The first position at or after `from` where `needle` occurs in `hay`.
pub fn find_from(hay: &[char], needle: &[char], from: usize) -> (r: Option<usize>)
    ensures
        r == (match first_at_or_after(hay@, needle@, from as int) {
            Some(i) => Some(i as usize),
            None => None::<usize>,
        }),
        match r {
            Some(i) => from <= i && occurs_in_at(hay@, needle@, i as int)
                && forall|j: int| from <= j < i ==> !#[trigger] occurs_in_at(hay@, needle@, j),
            None => forall|j: int| from <= j ==> !#[trigger] occurs_in_at(hay@, needle@, j),
        },
{
    proof {
        lemma_first_at_or_after(hay@, needle@, from as int);
    }
    if from > hay.len() || hay.len() - from < needle.len() {
        return None;
    }
    let last = hay.len() - needle.len();
    let mut i = from;
    loop
        invariant
            from <= i <= last,
            last + needle@.len() == hay@.len(),
            forall|j: int| from <= j < i ==> !#[trigger] occurs_in_at(hay@, needle@, j),
            first_at_or_after(hay@, needle@, from as int) == first_at_or_after(hay@, needle@, i as int),
        decreases last - i,
    {
        if occurs_at(hay, i, needle) {
            return Some(i);
        }
        if i == last {
            assert(first_at_or_after(hay@, needle@, i + 1) is None);
            return None;
        }
        i = i + 1;
    }
}

/// Whether `needle` occurs in `hay`.
pub fn contains_chars(hay: &[char], needle: &[char]) -> (r: bool)
    ensures
        r == contains_seq(hay@, needle@),
{
    match find_from(hay, needle, 0) {
        Some(i) => true,
        None => {
            assert forall|j: int| !#[trigger] occurs_in_at(hay@, needle@, j) by {
                if j < 0 {
                }
            }
            false
        },
    }
}

/// What `str::to_lowercase` returns for a string with the characters `s`: its
/// Unicode lower-case mapping, which std's fixed tables define (character by
/// character, except that a final capital sigma is mapped by its context).
pub uninterp spec fn lowercase_of(s: Seq<char>) -> Seq<char>;

/// Calls `str::to_lowercase`.
/// Trusted: the result is `lowercase_of(s@)`; it depends on the characters of `s` alone
/// (std applies its fixed Unicode case tables).
#[verifier::external_body]
pub(crate) fn to_lowercase(s: &str) -> (r: String)
    ensures
        r@ == lowercase_of(s@),
{
    s.to_lowercase()
}

/// What `str::to_uppercase` returns for a string with the characters `s`: its
/// Unicode upper-case mapping, which std's fixed tables define (a character may
/// map to several, as `ß` maps to `SS`).
pub uninterp spec fn uppercase_of(s: Seq<char>) -> Seq<char>;

/// Calls `str::to_uppercase`.
/// Trusted: the result is `uppercase_of(s@)`; it depends on the characters of `s` alone
/// (std applies its fixed Unicode case tables).
#[verifier::external_body]
pub(crate) fn to_uppercase(s: &str) -> (r: String)
    ensures
        r@ == uppercase_of(s@),
{
    s.to_uppercase()
}

/// The position of the first `c` in `s`, if any.
pub fn find_char(s: &[char], c: char) -> (r: Option<usize>)
    ensures
        match r {
            Some(i) => i < s@.len() && s@[i as int] == c && forall|j: int| 0 <= j < i ==> s@[j] != c,
            None => forall|j: int| 0 <= j < s@.len() ==> s@[j] != c,
        },
{
    for i in 0..s.len()
        invariant
            forall|j: int| 0 <= j < i ==> s@[j] != c,
    {
        if s[i] == c {
            return Some(i);
        }
    }
    None
}

/// The characters `chars[from..to]` as a `String`.
pub fn string_of_range(chars: &[char], from: usize, to: usize) -> (s: String)
    requires
        from <= to <= chars@.len(),
    ensures
        s@ == chars@.subrange(from as int, to as int),
{
    string_from_chars(&chars[from..to])
}

/// Unicode White_Space, as `char::is_whitespace` tells.
pub open spec fn is_ws(c: char) -> bool {
    ('\u{9}' <= c && c <= '\u{d}') || c == ' ' || c == '\u{85}' || c == '\u{a0}' || c == '\u{1680}'
        || ('\u{2000}' <= c && c <= '\u{200a}') || c == '\u{2028}' || c == '\u{2029}'
        || c == '\u{202f}' || c == '\u{205f}' || c == '\u{3000}'
}

pub fn is_whitespace(c: char) -> (r: bool)
    ensures
        r == is_ws(c),
{
    ('\u{9}' <= c && c <= '\u{d}') || c == ' ' || c == '\u{85}' || c == '\u{a0}' || c == '\u{1680}'
        || ('\u{2000}' <= c && c <= '\u{200a}') || c == '\u{2028}' || c == '\u{2029}'
        || c == '\u{202f}' || c == '\u{205f}' || c == '\u{3000}'
}

/// The number of white-space characters at the start of `s`.
pub open spec fn leading_ws(s: Seq<char>) -> nat
    decreases s.len(),
{
    if s.len() > 0 && is_ws(s[0]) {
        1 + leading_ws(s.drop_first())
    } else {
        0
    }
}

/// The number of white-space characters at the end of `s`.
pub open spec fn trailing_ws(s: Seq<char>) -> nat
    decreases s.len(),
{
    if s.len() > 0 && is_ws(s.last()) {
        1 + trailing_ws(s.drop_last())
    } else {
        0
    }
}

/// `s` without its leading white space, as `str::trim_start` gives it.
pub open spec fn trim_start_seq(s: Seq<char>) -> Seq<char> {
    s.skip(leading_ws(s) as int)
}

/// `s` without leading and trailing white space, as `str::trim` gives it.
pub open spec fn trim_seq(s: Seq<char>) -> Seq<char> {
    let t = trim_start_seq(s);
    t.take(t.len() - trailing_ws(t))
}

pub proof fn lemma_leading_ws(s: Seq<char>, i: int)
    requires
        0 <= i <= s.len(),
        forall|j: int| 0 <= j < i ==> is_ws(s[j]),
    ensures
        leading_ws(s) >= i,
        leading_ws(s) <= s.len(),
        i < s.len() && !is_ws(s[i]) ==> leading_ws(s) == i,
        i == s.len() ==> leading_ws(s) == i,
    decreases i,
{
    if i > 0 {
        lemma_leading_ws(s.drop_first(), i - 1);
    } else {
        lemma_leading_ws_bound(s);
    }
}

pub proof fn lemma_leading_ws_bound(s: Seq<char>)
    ensures
        leading_ws(s) <= s.len(),
    decreases s.len(),
{
    if s.len() > 0 {
        lemma_leading_ws_bound(s.drop_first());
    }
}

pub proof fn lemma_trailing_ws(s: Seq<char>, i: int)
    requires
        0 <= i <= s.len(),
        forall|j: int| s.len() - i <= j < s.len() ==> is_ws(s[j]),
    ensures
        trailing_ws(s) >= i,
        trailing_ws(s) <= s.len(),
        i < s.len() && !is_ws(s[s.len() - 1 - i]) ==> trailing_ws(s) == i,
        i == s.len() ==> trailing_ws(s) == i,
    decreases i,
{
    if i > 0 {
        lemma_trailing_ws(s.drop_last(), i - 1);
    } else {
        lemma_trailing_ws_bound(s);
    }
}

pub proof fn lemma_trailing_ws_bound(s: Seq<char>)
    ensures
        trailing_ws(s) <= s.len(),
    decreases s.len(),
{
    if s.len() > 0 {
        lemma_trailing_ws_bound(s.drop_last());
    }
}

/// The position of the first non-white-space character of `s[from..]`.
pub fn skip_ws(s: &[char], from: usize) -> (r: usize)
    requires
        from <= s@.len(),
    ensures
        r == from + leading_ws(s@.skip(from as int)),
        r <= s@.len(),
{
    let mut i = from;
    while i < s.len() && is_whitespace(s[i])
        invariant
            from <= i <= s@.len(),
            forall|j: int| from <= j < i ==> is_ws(s@[j]),
        decreases s@.len() - i,
    {
        i = i + 1;
    }
    proof {
        let t = s@.skip(from as int);
        assert forall|j: int| 0 <= j < i - from implies is_ws(t[j]) by {
            assert(t[j] == s@[from + j]);
        }
        lemma_leading_ws(t, i - from);
    }
    i
}

/// `s` without leading and trailing white space, as `str::trim` gives it.
pub fn trim_chars(s: &[char]) -> (r: Vec<char>)
    ensures
        r@ == trim_seq(s@),
{
    let start = skip_ws(s, 0);
    assert(s@.skip(0) =~= s@);
    let mut end = s.len();
    while end > start && is_whitespace(s[end - 1])
        invariant
            start <= end <= s@.len(),
            forall|j: int| end <= j < s@.len() ==> is_ws(s@[j]),
        decreases end,
    {
        end = end - 1;
    }
    proof {
        let t = s@.skip(start as int);
        assert forall|j: int| t.len() - (s@.len() - end) <= j < t.len() implies is_ws(t[j]) by {
            assert(t[j] == s@[start + j]);
        }
        lemma_trailing_ws(t, s@.len() - end);
        if end > start {
            assert(t[t.len() - 1 - (s@.len() - end)] == s@[end - 1]);
        }
        assert(trim_seq(s@) =~= s@.subrange(start as int, end as int));
    }
    let mut r: Vec<char> = Vec::new();
    let mut i = start;
    while i < end
        invariant
            start <= i <= end <= s@.len(),
            r@ == s@.subrange(start as int, i as int),
        decreases end - i,
    {
        r.push(s[i]);
        assert(s@.subrange(start as int, i + 1) =~= s@.subrange(start as int, i as int).push(s@[i as int]));
        i = i + 1;
    }
    r
}

/// Whether `s` ends with `suffix`.
pub open spec fn ends_with_seq(s: Seq<char>, suffix: Seq<char>) -> bool {
    suffix.len() <= s.len() && s.skip(s.len() - suffix.len()) == suffix
}

pub fn ends_with(s: &[char], suffix: &[char]) -> (r: bool)
    ensures
        r == ends_with_seq(s@, suffix@),
{
    if suffix.len() > s.len() {
        return false;
    }
    let at = s.len() - suffix.len();
    let r = occurs_at(s, at, suffix);
    assert(s@.skip(at as int) =~= s@.subrange(at as int, at + suffix@.len()));
    r
}

/// The value of the decimal digits `s`.
pub open spec fn digits_value(s: Seq<char>) -> int
    decreases s.len(),
{
    if s.len() == 0 {
        0
    } else {
        digits_value(s.drop_last()) * 10 + (s.last() as int - '0' as int)
    }
}

pub open spec fn all_digits(s: Seq<char>) -> bool {
    forall|i: int| 0 <= i < s.len() ==> '0' <= #[trigger] s[i] && s[i] <= '9'
}

/// What `u64::from_str` gives for `s`: an optional `+` followed by at least one
/// decimal digit, with a value that fits in a `u64`; `None` otherwise.
pub open spec fn parse_u64_spec(s: Seq<char>) -> Option<u64> {
    let digits = if s.len() > 0 && s[0] == '+' { s.drop_first() } else { s };
    if digits.len() > 0 && all_digits(digits) && digits_value(digits) <= u64::MAX {
        Some(digits_value(digits) as u64)
    } else {
        None
    }
}

pub proof fn lemma_digits_value_nonneg(s: Seq<char>)
    requires
        all_digits(s),
    ensures
        digits_value(s) >= 0,
    decreases s.len(),
{
    if s.len() > 0 {
        assert(all_digits(s.drop_last())) by {
            assert forall|i: int| 0 <= i < s.drop_last().len() implies '0' <= #[trigger] s.drop_last()[i] && s.drop_last()[i] <= '9' by {
                assert(s.drop_last()[i] == s[i]);
            }
        }
        lemma_digits_value_nonneg(s.drop_last());
        assert('0' <= s[s.len() - 1]);
    }
}

/// Parses a decimal `u64` the way `u64::from_str` does.
pub fn parse_u64(s: &[char]) -> (r: Option<u64>)
    ensures
        r == parse_u64_spec(s@),
{
    let start: usize = if s.len() > 0 && s[0] == '+' { 1 } else { 0 };
    let ghost digits = if s@.len() > 0 && s@[0] == '+' { s@.drop_first() } else { s@ };
    assert(digits =~= s@.skip(start as int));
    if start >= s.len() {
        return None;
    }
    let mut value: u64 = 0;
    let mut i = start;
    while i < s.len()
        invariant
            start <= i <= s@.len(),
            start < s@.len(),
            digits == s@.skip(start as int),
            digits == (if s@.len() > 0 && s@[0] == '+' { s@.drop_first() } else { s@ }),
            all_digits(s@.subrange(start as int, i as int)),
            value as int == digits_value(s@.subrange(start as int, i as int)),
        decreases s@.len() - i,
    {
        let c = s[i];
        let ghost prefix = s@.subrange(start as int, i + 1);
        assert(prefix.drop_last() =~= s@.subrange(start as int, i as int));
        assert(prefix.last() == c);
        assert(digits.take(prefix.len() as int) =~= prefix);
        if c < '0' || c > '9' {
            assert(digits[i - start] == c);
            assert(!all_digits(digits));
            assert(parse_u64_spec(s@) is None);
            return None;
        }
        let d: u64 = (c as u32 - '0' as u32) as u64;
        assert(digits_value(prefix) == value * 10 + d);
        assert(all_digits(prefix)) by {
            assert forall|q: int| 0 <= q < prefix.len() implies '0' <= #[trigger] prefix[q] && prefix[q] <= '9' by {
                if q < prefix.len() - 1 {
                    assert(prefix[q] == s@.subrange(start as int, i as int)[q]);
                }
            }
        }
        match value.checked_mul(10) {
            Some(v10) => match v10.checked_add(d) {
                Some(v) => {
                    value = v;
                },
                None => {
                    proof {
                        lemma_digits_tail_bound(digits, prefix);
                    }
                    return None;
                },
            },
            None => {
                proof {
                    lemma_digits_value_nonneg(s@.subrange(start as int, i as int));
                    lemma_digits_tail_bound(digits, prefix);
                }
                return None;
            },
        }
        i = i + 1;
    }
    assert(s@.subrange(start as int, s@.len() as int) =~= digits);
    Some(value)
}

/// A decimal string is worth at least any of its prefixes (all digits).
pub proof fn lemma_digits_tail_bound(digits: Seq<char>, prefix: Seq<char>)
    requires
        prefix.len() <= digits.len(),
        digits.take(prefix.len() as int) == prefix,
    ensures
        all_digits(digits) ==> digits_value(digits) >= digits_value(prefix),
    decreases digits.len() - prefix.len(),
{
    if prefix.len() == digits.len() {
        assert(digits.take(digits.len() as int) =~= digits);
    }
    if all_digits(digits) && prefix.len() < digits.len() {
        let longer = digits.take(prefix.len() as int + 1);
        assert(longer.drop_last() =~= prefix);
        assert(all_digits(prefix)) by {
            assert forall|q: int| 0 <= q < prefix.len() implies '0' <= #[trigger] prefix[q] && prefix[q] <= '9' by {
                assert(prefix[q] == digits[q]);
            }
        }
        lemma_digits_value_nonneg(prefix);
        assert(digits[prefix.len() as int] >= '0');
        assert(longer.last() == digits[prefix.len() as int]);
        assert(digits_value(longer) >= digits_value(prefix));
        assert(digits.take(longer.len() as int) =~= longer);
        lemma_digits_tail_bound(digits, longer);
    }
}

/// The pieces of `s` between the occurrences of `sep`, as `str::split` gives them
/// (always at least one piece).
pub open spec fn split_seq(s: Seq<char>, sep: char) -> Seq<Seq<char>>
    decreases s.len(),
{
    if s.len() == 0 {
        seq![Seq::<char>::empty()]
    } else {
        let pieces = split_seq(s.drop_last(), sep);
        if s.last() == sep {
            pieces.push(Seq::<char>::empty())
        } else {
            pieces.update(pieces.len() - 1, pieces.last().push(s.last()))
        }
    }
}

pub proof fn lemma_split_nonempty(s: Seq<char>, sep: char)
    ensures
        split_seq(s, sep).len() >= 1,
    decreases s.len(),
{
    if s.len() > 0 {
        lemma_split_nonempty(s.drop_last(), sep);
    }
}

} // verus!
