//! Text as sequences of characters.
//!
//! Everything in this crate that reads a query, a type line or a mana cost
//! reads it as a sequence of `char`s. The helpers here turn a `&str` into one,
//! build a `String` back out of one, and answer the handful of questions every
//! caller asks: equality, ASCII case folding, substrings and whole words.

use vstd::prelude::*;

verus! {

/// One character with ASCII upper case folded to lower case.
pub open spec fn ascii_lower(c: char) -> char {
    if 'A' <= c && c <= 'Z' {
        ((c as u32) + 32) as char
    } else {
        c
    }
}

/// One character with ASCII lower case folded to upper case.
pub open spec fn ascii_upper(c: char) -> char {
    if 'a' <= c && c <= 'z' {
        ((c as u32) - 32) as char
    } else {
        c
    }
}

/// A sequence with ASCII upper case folded to lower case, everything else kept.
pub open spec fn lower(s: Seq<char>) -> Seq<char> {
    s.map_values(|c: char| ascii_lower(c))
}

/// Whether two sequences are equal once ASCII case is ignored.
pub open spec fn eq_ignore_case(a: Seq<char>, b: Seq<char>) -> bool {
    lower(a) =~= lower(b)
}

/// Whether `needle` occurs in `hay` starting at position `i`.
pub open spec fn occurs_at(hay: Seq<char>, needle: Seq<char>, i: int) -> bool {
    0 <= i && i + needle.len() <= hay.len() && hay.subrange(i, i + needle.len()) =~= needle
}

/// Whether `needle` occurs anywhere in `hay`.
pub open spec fn contains(hay: Seq<char>, needle: Seq<char>) -> bool {
    exists|i: int| occurs_at(hay, needle, i)
}

/// Unicode's White_Space property, which is what `char::is_whitespace` and
/// `str::split_whitespace` read.
pub open spec fn is_ws(c: char) -> bool {
    ||| '\u{9}' <= c && c <= '\u{d}'
    ||| c == ' '
    ||| c == '\u{85}'
    ||| c == '\u{a0}'
    ||| c == '\u{1680}'
    ||| '\u{2000}' <= c && c <= '\u{200a}'
    ||| c == '\u{2028}'
    ||| c == '\u{2029}'
    ||| c == '\u{202f}'
    ||| c == '\u{205f}'
    ||| c == '\u{3000}'
}

/// `h[i..j]` is one of the words `split_whitespace` yields: non-empty, free
/// of whitespace, and bounded by whitespace or the ends of the text.
pub open spec fn word_at(h: Seq<char>, i: int, j: int) -> bool {
    &&& 0 <= i < j <= h.len()
    &&& (i == 0 || is_ws(h[i - 1]))
    &&& (j == h.len() || is_ws(h[j]))
    &&& forall|k: int| i <= k < j ==> !is_ws(#[trigger] h[k])
}

/// Whether some whitespace-separated word of `h` equals `w`, ignoring ASCII
/// case.
pub open spec fn has_word_spec(h: Seq<char>, w: Seq<char>) -> bool {
    exists|i: int, j: int| word_at(h, i, j) && eq_ignore_case(h.subrange(i, j), w)
}

/// Whether `c` is an ASCII digit.
pub open spec fn is_digit(c: char) -> bool {
    '0' <= c && c <= '9'
}

/// Whether `c` is an ASCII letter.
pub open spec fn is_alpha(c: char) -> bool {
    ('a' <= c && c <= 'z') || ('A' <= c && c <= 'Z')
}

pub fn is_whitespace(c: char) -> (r: bool)
    ensures
        r == is_ws(c),
{
    ('\u{9}' <= c && c <= '\u{d}') || c == ' ' || c == '\u{85}' || c == '\u{a0}' || c
        == '\u{1680}' || ('\u{2000}' <= c && c <= '\u{200a}') || c == '\u{2028}' || c
        == '\u{2029}' || c == '\u{202f}' || c == '\u{205f}' || c == '\u{3000}'
}

pub fn lower_char(c: char) -> (r: char)
    ensures
        r == ascii_lower(c),
{
    if 'A' <= c && c <= 'Z' {
        let code: u32 = c as u32;
        let lowered: u8 = (code + 32) as u8;
        assert(lowered as u32 == (c as u32) + 32);
        lowered as char
    } else {
        c
    }
}

pub fn upper_char(c: char) -> (r: char)
    ensures
        r == ascii_upper(c),
{
    if 'a' <= c && c <= 'z' {
        let code: u32 = c as u32;
        let raised: u8 = (code - 32) as u8;
        assert(raised as u32 == (c as u32) - 32);
        raised as char
    } else {
        c
    }
}

pub fn is_ascii_digit(c: char) -> (r: bool)
    ensures
        r == is_digit(c),
{
    '0' <= c && c <= '9'
}

pub fn is_ascii_alpha(c: char) -> (r: bool)
    ensures
        r == is_alpha(c),
{
    ('a' <= c && c <= 'z') || ('A' <= c && c <= 'Z')
}

/// The numeric value of a run of ASCII digits.
pub open spec fn digits_value(s: Seq<char>) -> int
    decreases s.len(),
{
    if s.len() == 0 {
        0
    } else {
        digits_value(s.drop_last()) * 10 + (s.last() as int - '0' as int)
    }
}

/// Whether every character is an ASCII digit and there is at least one.
pub open spec fn all_digits(s: Seq<char>) -> bool {
    s.len() > 0 && forall|k: int| 0 <= k < s.len() ==> is_digit(#[trigger] s[k])
}

/// What `u32::from_str` accepts: an optional `+`, then one or more ASCII
/// digits, whose value fits.
pub open spec fn parse_u32_spec(s: Seq<char>) -> Option<u32> {
    let digits = if s.len() > 0 && s[0] == '+' {
        s.drop_first()
    } else {
        s
    };
    if all_digits(digits) && digits_value(digits) <= u32::MAX {
        Some(digits_value(digits) as u32)
    } else {
        None
    }
}

proof fn lemma_digits_value_nonneg(s: Seq<char>)
    requires
        forall|k: int| 0 <= k < s.len() ==> is_digit(#[trigger] s[k]),
    ensures
        digits_value(s) >= 0,
        digits_value(s.drop_last()) <= digits_value(s) || s.len() == 0,
    decreases s.len(),
{
    if s.len() > 0 {
        assert forall|k: int| 0 <= k < s.drop_last().len() implies is_digit(
            #[trigger] s.drop_last()[k],
        ) by {
            assert(s.drop_last()[k] == s[k]);
        }
        lemma_digits_value_nonneg(s.drop_last());
        assert(is_digit(s[s.len() - 1]));
    }
}

/// `u32::from_str`, on a sequence of characters.
pub fn parse_u32(s: &[char]) -> (r: Option<u32>)
    ensures
        r == parse_u32_spec(s@),
{
    let start: usize = if s.len() > 0 && s[0] == '+' {
        1
    } else {
        0
    };
    let ghost digits = if s@.len() > 0 && s@[0] == '+' {
        s@.drop_first()
    } else {
        s@
    };
    assert(digits =~= s@.subrange(start as int, s@.len() as int));
    if start >= s.len() {
        return None;
    }
    let mut value: u64 = 0;
    let mut i: usize = start;
    while i < s.len()
        invariant
            start <= i <= s@.len(),
            start < s@.len(),
            digits =~= s@.subrange(start as int, s@.len() as int),
            digits == (if s@.len() > 0 && s@[0] == '+' {
                s@.drop_first()
            } else {
                s@
            }),
            forall|k: int| start <= k < i ==> is_digit(#[trigger] s@[k]),
            value == digits_value(s@.subrange(start as int, i as int)),
            value <= u32::MAX,
        decreases s@.len() - i,
    {
        let c = s[i];
        if !is_ascii_digit(c) {
            assert(digits[i - start] == s@[i as int]);
            assert(!is_digit(digits[i - start]));
            assert(!all_digits(digits));
            return None;
        }
        let d: u64 = (c as u32 - '0' as u32) as u64;
        let ghost pre = s@.subrange(start as int, i as int);
        let ghost next = s@.subrange(start as int, i + 1);
        assert(next.drop_last() =~= pre);
        assert forall|k: int| 0 <= k < next.len() implies is_digit(#[trigger] next[k]) by {
            assert(next[k] == s@[start + k]);
        }
        proof {
            lemma_digits_value_nonneg(next);
        }
        assert(next.last() == c);
        assert(digits_value(next) == digits_value(pre) * 10 + d);
        if value > 429496729 || (value == 429496729 && d > 5) {
            assert(value * 10 + d > u32::MAX) by (nonlinear_arith)
                requires
                    value > 429496729 || (value == 429496729 && d > 5),
            ;
            assert(digits.subrange(0, (i + 1 - start) as int) =~= next);
            assert forall|k: int| 0 <= k < (i + 1 - start) implies is_digit(#[trigger] digits[k]) by {
                assert(digits[k] == s@[start + k]);
            }
            proof {
                lemma_prefix_value_bounds(digits, (i + 1 - start) as int);
            }
            return None;
        }
        value = value * 10 + d;
        i += 1;
    }
    assert(s@.subrange(start as int, i as int) =~= digits);
    Some(value as u32)
}

/// A longer run of digits is worth at least as much as its prefix.
proof fn lemma_prefix_value_bounds(s: Seq<char>, n: int)
    requires
        0 <= n <= s.len(),
        forall|k: int| 0 <= k < n ==> is_digit(#[trigger] s[k]),
        digits_value(s.subrange(0, n)) > u32::MAX,
    ensures
        !(all_digits(s) && digits_value(s) <= u32::MAX),
    decreases s.len() - n,
{
    if n < s.len() && all_digits(s) {
        let a = s.subrange(0, n);
        let b = s.subrange(0, n + 1);
        assert(b.drop_last() =~= a);
        assert(is_digit(s[n]));
        lemma_prefix_value_bounds(s, n + 1);
    } else if n == s.len() {
        assert(s.subrange(0, n) =~= s);
    }
}

/// The characters of a string, in order.
pub fn chars_of(s: &str) -> (r: Vec<char>)
    ensures
        r@ == s@,
{
    let n = s.unicode_len();
    let mut out: Vec<char> = Vec::new();
    let mut i: usize = 0;
    while i < n
        invariant
            n == s@.len(),
            i <= n,
            out@ =~= s@.subrange(0, i as int),
        decreases n - i,
    {
        out.push(s.get_char(i));
        i += 1;
    }
    out
}

/// `String`'s `FromIterator<&char>`: a string holding exactly these
/// characters, in order.
#[verifier::external_body]
pub fn string_of(v: &[char]) -> (r: String)
    ensures
        r@ == v@,
{
    v.iter().collect()
}

/// A copy of each string in `v`, in order.
pub fn copy_strings(v: &[String]) -> (r: Vec<String>)
    ensures
        r@.map_values(|s: String| s@) == v@.map_values(|s: String| s@),
{
    let mut out: Vec<String> = Vec::new();
    let mut i: usize = 0;
    while i < v.len()
        invariant
            i <= v@.len(),
            out@.len() == i,
            forall|k: int| 0 <= k < i ==> #[trigger] out@[k]@ == v@[k]@,
        decreases v@.len() - i,
    {
        out.push(copy_string(&v[i]));
        i += 1;
    }
    proof {
        assert(out@.map_values(|s: String| s@) =~= v@.map_values(|s: String| s@));
    }
    out
}

/// A copy of a string.
pub fn copy_string(s: &String) -> (r: String)
    ensures
        r@ == s@,
{
    s.clone()
}

/// Whether two character sequences are equal.
pub fn seq_eq(a: &[char], b: &[char]) -> (r: bool)
    ensures
        r == (a@ == b@),
{
    if a.len() != b.len() {
        return false;
    }
    let mut i: usize = 0;
    while i < a.len()
        invariant
            a@.len() == b@.len(),
            i <= a@.len(),
            forall|k: int| 0 <= k < i ==> a@[k] == b@[k],
        decreases a@.len() - i,
    {
        if a[i] != b[i] {
            return false;
        }
        i += 1;
    }
    assert(a@ =~= b@);
    true
}

/// Whether two strings are equal.
pub fn str_eq(a: &str, b: &str) -> (r: bool)
    ensures
        r == (a@ == b@),
{
    let x = chars_of(a);
    let y = chars_of(b);
    seq_eq(x.as_slice(), y.as_slice())
}

/// Whether `a[from..to]` equals `b` once ASCII case is ignored.
pub fn range_eq_ignore_case(a: &[char], from: usize, to: usize, b: &[char]) -> (r: bool)
    requires
        from <= to <= a@.len(),
    ensures
        r == eq_ignore_case(a@.subrange(from as int, to as int), b@),
{
    let ghost sub = a@.subrange(from as int, to as int);
    if to - from != b.len() {
        assert(lower(sub).len() != lower(b@).len());
        return false;
    }
    let mut i: usize = 0;
    while i < b.len()
        invariant
            from <= to <= a@.len(),
            to - from == b@.len(),
            sub == a@.subrange(from as int, to as int),
            i <= b@.len(),
            forall|k: int| 0 <= k < i ==> ascii_lower(sub[k]) == ascii_lower(b@[k]),
        decreases b@.len() - i,
    {
        let x = lower_char(a[from + i]);
        let y = lower_char(b[i]);
        if x != y {
            assert(lower(sub)[i as int] != lower(b@)[i as int]);
            return false;
        }
        i += 1;
    }
    assert(lower(sub) =~= lower(b@));
    true
}

/// Whether two sequences are equal ignoring ASCII case.
pub fn eq_ignore_ascii_case(a: &[char], b: &[char]) -> (r: bool)
    ensures
        r == eq_ignore_case(a@, b@),
{
    let r = range_eq_ignore_case(a, 0, a.len(), b);
    assert(a@.subrange(0, a@.len() as int) =~= a@);
    r
}

/// The ASCII-lower-cased copy of a sequence.
pub fn lowered(a: &[char]) -> (r: Vec<char>)
    ensures
        r@ == lower(a@),
{
    let mut out: Vec<char> = Vec::new();
    let mut i: usize = 0;
    while i < a.len()
        invariant
            i <= a@.len(),
            out@ =~= lower(a@.subrange(0, i as int)),
        decreases a@.len() - i,
    {
        out.push(lower_char(a[i]));
        i += 1;
    }
    assert(a@.subrange(0, a@.len() as int) =~= a@);
    out
}

/// Whether `needle` occurs in `hay` at `at`.
pub fn occurs_at_exec(hay: &[char], needle: &[char], at: usize) -> (r: bool)
    ensures
        r == occurs_at(hay@, needle@, at as int),
{
    if at > hay.len() || needle.len() > hay.len() - at {
        return false;
    }
    let mut k: usize = 0;
    while k < needle.len()
        invariant
            at + needle@.len() <= hay@.len(),
            hay@.len() <= usize::MAX,
            k <= needle@.len(),
            forall|m: int| 0 <= m < k ==> hay@[at + m] == needle@[m],
        decreases needle@.len() - k,
    {
        if hay[at + k] != needle[k] {
            assert(hay@.subrange(at as int, at + needle@.len())[k as int] != needle@[k as int]);
            return false;
        }
        k += 1;
    }
    assert(hay@.subrange(at as int, at + needle@.len()) =~= needle@);
    true
}

/// The first position at or after `from` where `needle` occurs in `hay`.
pub fn find_from(hay: &[char], needle: &[char], from: usize) -> (r: Option<usize>)
    ensures
        match r {
            Some(i) => from <= i && occurs_at(hay@, needle@, i as int) && forall|j: int|
                from <= j < i ==> !occurs_at(hay@, needle@, j),
            None => forall|j: int| from <= j ==> !occurs_at(hay@, needle@, j),
        },
{
    if from > hay.len() {
        return None;
    }
    let mut i: usize = from;
    while i < hay.len()
        invariant
            from <= i <= hay@.len(),
            forall|j: int| from <= j < i ==> !occurs_at(hay@, needle@, j),
        decreases hay@.len() - i,
    {
        if occurs_at_exec(hay, needle, i) {
            return Some(i);
        }
        i += 1;
    }
    if occurs_at_exec(hay, needle, i) {
        return Some(i);
    }
    None
}

/// Whether `needle` occurs in `hay`.
pub fn contains_exec(hay: &[char], needle: &[char]) -> (r: bool)
    ensures
        r == contains(hay@, needle@),
{
    match find_from(hay, needle, 0) {
        Some(i) => true,
        None => {
            assert forall|j: int| !occurs_at(hay@, needle@, j) by {
                if 0 <= j {
                } else {
                }
            }
            false
        },
    }
}

/// Whether some whitespace-separated word of `h` equals `w`, ignoring ASCII
/// case: the `split_whitespace().any(eq_ignore_ascii_case)` test.
pub fn has_word_chars(h: &[char], w: &[char]) -> (r: bool)
    ensures
        r == has_word_spec(h@, w@),
{
    let n = h.len();
    let mut i: usize = 0;
    while i < n
        invariant
            n == h@.len(),
            i <= n,
            i < n ==> (i == 0 || is_ws(h@[i - 1]) || is_ws(h@[i as int])),
            forall|a: int, b: int|
                a < i && #[trigger] word_at(h@, a, b) ==> !eq_ignore_case(h@.subrange(a, b), w@),
        decreases n - i,
    {
        if is_whitespace(h[i]) {
            i += 1;
            continue;
        }
        let start = i;
        while i < n && !is_whitespace(h[i])
            invariant
                n == h@.len(),
                start <= i <= n,
                forall|k: int| start <= k < i ==> !is_ws(#[trigger] h@[k]),
            decreases n - i,
        {
            i += 1;
        }
        assert(word_at(h@, start as int, i as int));
        if range_eq_ignore_case(h, start, i, w) {
            return true;
        }
        assert forall|a: int, b: int|
            a < i && #[trigger] word_at(h@, a, b) implies !eq_ignore_case(h@.subrange(a, b), w@) by {
            if a > start {
                assert(!is_ws(h@[a - 1]));
            } else if a == start {
                if b < i {
                    assert(!is_ws(h@[b]));
                } else if b > i {
                    assert(!is_ws(h@[i as int]));
                }
            }
        }
    }
    false
}

/// [`has_word_chars`] on strings.
pub fn has_word_str(h: &str, w: &str) -> (r: bool)
    ensures
        r == has_word_spec(h@, w@),
{
    let a = chars_of(h);
    let b = chars_of(w);
    has_word_chars(a.as_slice(), b.as_slice())
}

/// The first position at or after `from` where `needle` occurs in `hay`.
pub open spec fn find_spec(hay: Seq<char>, needle: Seq<char>, from: int) -> Option<int>
    decreases hay.len() + 1 - from,
{
    if from < 0 || from + needle.len() > hay.len() {
        None
    } else if occurs_at(hay, needle, from) {
        Some(from)
    } else {
        find_spec(hay, needle, from + 1)
    }
}

/// What [`find_spec`] finds is an occurrence, at or after where it started.
pub proof fn lemma_find_spec_bounds(hay: Seq<char>, needle: Seq<char>, from: int)
    ensures
        find_spec(hay, needle, from) matches Some(i) ==> from <= i && i + needle.len() <= hay.len()
            && occurs_at(hay, needle, i),
    decreases hay.len() + 1 - from,
{
    if from < 0 || from + needle.len() > hay.len() {
    } else if occurs_at(hay, needle, from) {
    } else {
        lemma_find_spec_bounds(hay, needle, from + 1);
    }
}

proof fn lemma_find_spec_is(hay: Seq<char>, needle: Seq<char>, from: int, r: Option<int>)
    requires
        0 <= from,
        match r {
            Some(i) => from <= i && occurs_at(hay, needle, i) && forall|j: int|
                from <= j < i ==> !occurs_at(hay, needle, j),
            None => forall|j: int| from <= j ==> !occurs_at(hay, needle, j),
        },
    ensures
        find_spec(hay, needle, from) == r,
    decreases hay.len() + 1 - from,
{
    if from + needle.len() > hay.len() {
        if let Some(i) = r {
            assert(occurs_at(hay, needle, i));
        }
    } else if occurs_at(hay, needle, from) {
    } else {
        lemma_find_spec_is(hay, needle, from + 1, r);
    }
}

/// [`find_from`], with its answer stated as [`find_spec`].
pub fn find(hay: &[char], needle: &[char], from: usize) -> (r: Option<usize>)
    ensures
        match r {
            Some(i) => find_spec(hay@, needle@, from as int) == Some(i as int),
            None => find_spec(hay@, needle@, from as int) is None,
        },
        r matches Some(i) ==> from <= i && i + needle@.len() <= hay@.len(),
{
    let r = find_from(hay, needle, from);
    proof {
        lemma_find_spec_is(
            hay@,
            needle@,
            from as int,
            match r {
                Some(i) => Some(i as int),
                None => None,
            },
        );
    }
    r
}

/// The pieces of `s[start..]` between occurrences of `sep`, scanning from
/// `i`: what `str::split` yields.
pub open spec fn split_from(s: Seq<char>, sep: Seq<char>, start: int, i: int) -> Seq<Seq<char>>
    decreases s.len() + 1 - i,
{
    if sep.len() == 0 || i < start || start < 0 || i + sep.len() > s.len() {
        seq![s.subrange(start, s.len() as int)]
    } else if occurs_at(s, sep, i) {
        seq![s.subrange(start, i)] + split_from(s, sep, i + sep.len(), i + sep.len())
    } else {
        split_from(s, sep, start, i + 1)
    }
}

/// The pieces of `s` between occurrences of `sep`.
pub open spec fn pieces(s: Seq<char>, sep: Seq<char>) -> Seq<Seq<char>> {
    split_from(s, sep, 0, 0)
}

/// `s` split on every occurrence of `sep`, which must not be empty.
pub fn split_on(s: &[char], sep: &[char]) -> (r: Vec<Vec<char>>)
    requires
        sep@.len() > 0,
    ensures
        r@.len() == pieces(s@, sep@).len(),
        forall|k: int| 0 <= k < r@.len() ==> (#[trigger] r@[k])@ == pieces(s@, sep@)[k],
{
    let mut out: Vec<Vec<char>> = Vec::new();
    let mut start: usize = 0;
    let mut i: usize = 0;
    while sep.len() <= s.len() - i
        invariant
            sep@.len() > 0,
            start <= i <= s@.len(),
            forall|k: int| 0 <= k < out@.len() ==> (#[trigger] out@[k])@ == pieces(s@, sep@)[k],
            pieces(s@, sep@) == out@.map_values(|v: Vec<char>| v@) + split_from(
                s@,
                sep@,
                start as int,
                i as int,
            ),
        decreases s@.len() - i,
    {
        let ghost before = out@.map_values(|v: Vec<char>| v@);
        if occurs_at_exec(s, sep, i) {
            let piece = crate::mana::slice_chars(s, start, i);
            out.push(piece);
            proof {
                assert(out@.map_values(|v: Vec<char>| v@) =~= before.push(piece@));
                assert(split_from(s@, sep@, start as int, i as int) == seq![s@.subrange(start as int, i as int)]
                    + split_from(s@, sep@, i + sep@.len(), i + sep@.len()));
                assert(before + split_from(s@, sep@, start as int, i as int) =~= before.push(piece@)
                    + split_from(s@, sep@, i + sep@.len(), i + sep@.len()));
                assert(pieces(s@, sep@)[out@.len() - 1] == piece@) by {
                    assert((before.push(piece@) + split_from(s@, sep@, i + sep@.len(), i + sep@.len()))[before.len() as int] == piece@);
                }
            }
            i = i + sep.len();
            start = i;
        } else {
            i += 1;
        }
    }
    let ghost before = out@.map_values(|v: Vec<char>| v@);
    let last = crate::mana::slice_chars(s, start, s.len());
    out.push(last);
    proof {
        assert(split_from(s@, sep@, start as int, i as int) == seq![s@.subrange(start as int, s@.len() as int)]);
        assert(pieces(s@, sep@) =~= before.push(last@));
        assert(out@.map_values(|v: Vec<char>| v@) =~= before.push(last@));
    }
    out
}

/// The position of the first `c` at or after `i`, or the length.
pub open spec fn next_char(s: Seq<char>, c: char, i: int) -> int
    decreases s.len() - i,
{
    if i < 0 || i >= s.len() {
        s.len() as int
    } else if s[i] == c {
        i
    } else {
        next_char(s, c, i + 1)
    }
}

/// `s` split at its first `c`, which neither half keeps: what
/// `str::split_once` with a character gives.
pub open spec fn split_once_spec(s: Seq<char>, c: char) -> Option<(Seq<char>, Seq<char>)> {
    let k = next_char(s, c, 0);
    if k < s.len() {
        Some((s.subrange(0, k), s.subrange(k + 1, s.len() as int)))
    } else {
        None
    }
}

proof fn lemma_next_char_is(s: Seq<char>, c: char, i: int, e: int)
    requires
        0 <= i <= e <= s.len(),
        e < s.len() ==> s[e] == c,
        forall|j: int| i <= j < e ==> s[j] != c,
    ensures
        next_char(s, c, i) == e,
    decreases e - i,
{
    if i < e {
        lemma_next_char_is(s, c, i + 1, e);
    }
}

/// `s` split at its first `c`.
pub fn split_once_char(s: &[char], c: char) -> (r: Option<(Vec<char>, Vec<char>)>)
    ensures
        match (r, split_once_spec(s@, c)) {
            (Some((a, b)), Some((x, y))) => a@ == x && b@ == y,
            (None, None) => true,
            _ => false,
        },
{
    let k = crate::mana::find_char(s, c, 0);
    proof {
        lemma_next_char_is(s@, c, 0, k as int);
    }
    if k < s.len() {
        Some((crate::mana::slice_chars(s, 0, k), crate::mana::slice_chars(s, k + 1, s.len())))
    } else {
        None
    }
}

/// `s` without the whitespace it ends with.
pub open spec fn trim_end_spec(s: Seq<char>) -> Seq<char>
    decreases s.len(),
{
    if s.len() > 0 && is_ws(s.last()) {
        trim_end_spec(s.drop_last())
    } else {
        s
    }
}

/// `s` without the whitespace it starts with.
pub open spec fn trim_start_spec(s: Seq<char>) -> Seq<char>
    decreases s.len(),
{
    if s.len() > 0 && is_ws(s[0]) {
        trim_start_spec(s.subrange(1, s.len() as int))
    } else {
        s
    }
}

/// `s` without whitespace at either end: what `str::trim` gives.
pub open spec fn trim_spec(s: Seq<char>) -> Seq<char> {
    trim_start_spec(trim_end_spec(s))
}

/// `s` without the whitespace it ends with.
pub fn trim_end(s: &[char]) -> (r: Vec<char>)
    ensures
        r@ == trim_end_spec(s@),
{
    let mut n = s.len();
    assert(s@.subrange(0, s@.len() as int) =~= s@);
    while n > 0 && is_whitespace(s[n - 1])
        invariant
            n <= s@.len(),
            trim_end_spec(s@) == trim_end_spec(s@.subrange(0, n as int)),
        decreases n,
    {
        assert(s@.subrange(0, n as int).drop_last() =~= s@.subrange(0, n - 1));
        n -= 1;
    }
    crate::mana::slice_chars(s, 0, n)
}

/// `s` without whitespace at either end.
pub fn trim(s: &[char]) -> (r: Vec<char>)
    ensures
        r@ == trim_spec(s@),
{
    let e = trim_end(s);
    let t = e.as_slice();
    let mut k: usize = 0;
    assert(t@.subrange(0, t@.len() as int) =~= t@);
    while k < t.len() && is_whitespace(t[k])
        invariant
            k <= t@.len(),
            trim_start_spec(t@) == trim_start_spec(t@.subrange(k as int, t@.len() as int)),
        decreases t@.len() - k,
    {
        assert(t@.subrange(k as int, t@.len() as int).subrange(1, t@.len() - k) =~= t@.subrange(
            k + 1,
            t@.len() as int,
        ));
        k += 1;
    }
    let r = crate::mana::slice_chars(t, k, t.len());
    proof {
        assert(trim_start_spec(t@.subrange(k as int, t@.len() as int)) == t@.subrange(k as int, t@.len() as int));
    }
    r
}


/// The ASCII digit for `d`, which is below ten.
pub open spec fn digit_char(d: int) -> char {
    (('0' as int) + d) as char
}

/// How `n` is written in decimal, as `Display` writes an unsigned integer:
/// no sign, no leading zeros, and `0` for zero.
pub open spec fn decimal_spec(n: nat) -> Seq<char>
    decreases n,
{
    if n < 10 {
        seq![digit_char(n as int)]
    } else {
        decimal_spec(n / 10) + seq![digit_char((n % 10) as int)]
    }
}

/// `n` in decimal, as [`decimal_spec`] says.
pub fn decimal(n: u64) -> (r: Vec<char>)
    ensures
        r@ == decimal_spec(n as nat),
    decreases n,
{
    let d = n % 10;
    let c: char = if d == 0 {
        '0'
    } else if d == 1 {
        '1'
    } else if d == 2 {
        '2'
    } else if d == 3 {
        '3'
    } else if d == 4 {
        '4'
    } else if d == 5 {
        '5'
    } else if d == 6 {
        '6'
    } else if d == 7 {
        '7'
    } else if d == 8 {
        '8'
    } else {
        '9'
    };
    if n < 10 {
        let mut r = Vec::new();
        r.push(c);
        proof {
            assert(r@ =~= seq![digit_char(n as int)]);
        }
        r
    } else {
        let mut r = decimal(n / 10);
        r.push(c);
        proof {
            assert(r@ =~= decimal_spec((n / 10) as nat) + seq![digit_char((n % 10) as int)]);
        }
        r
    }
}

/// `n` in decimal, as [`decimal_spec`] says, for the widest integers.
pub fn decimal_wide(n: u128) -> (r: Vec<char>)
    ensures
        r@ == decimal_spec(n as nat),
    decreases n,
{
    let d: u64 = (n % 10) as u64;
    let last = decimal(d);
    proof {
        assert(last@ == seq![digit_char(d as int)]);
    }
    if n < 10 {
        last
    } else {
        let mut r = decimal_wide(n / 10);
        r.push(last[0]);
        proof {
            assert(r@ =~= decimal_spec((n / 10) as nat) + seq![digit_char((n % 10) as int)]);
        }
        r
    }
}

/// Appends the characters of `s`.
pub fn push_str(out: &mut Vec<char>, s: &str)
    ensures
        final(out)@ == old(out)@ + s@,
{
    let c = chars_of(s);
    push_chars(out, c.as_slice());
}

/// Appends `c`.
pub fn push_chars(out: &mut Vec<char>, c: &[char])
    ensures
        final(out)@ == old(out)@ + c@,
{
    let mut i: usize = 0;
    let ghost start = out@;
    while i < c.len()
        invariant
            i <= c@.len(),
            out@ == start + c@.subrange(0, i as int),
        decreases c@.len() - i,
    {
        out.push(c[i]);
        i += 1;
        proof {
            assert(out@ =~= start + c@.subrange(0, i as int));
        }
    }
    proof {
        assert(c@.subrange(0, c@.len() as int) =~= c@);
    }
}

} // verus!

verus! {

/// Whether `a` sorts strictly before `b`, character by character as `str`'s
/// order compares them: the first difference decides, and a proper prefix
/// comes first.
pub open spec fn text_lt(a: Seq<char>, b: Seq<char>) -> bool
    decreases a.len(),
{
    if b.len() == 0 {
        false
    } else if a.len() == 0 {
        true
    } else if a[0] != b[0] {
        a[0] < b[0]
    } else {
        text_lt(a.drop_first(), b.drop_first())
    }
}

/// Whether each of `s` sorts strictly before every one after it.
pub open spec fn strictly_sorted(s: Seq<Seq<char>>) -> bool {
    forall|i: int, j: int| 0 <= i < j < s.len() ==> text_lt(#[trigger] s[i], #[trigger] s[j])
}

pub proof fn lemma_text_lt_irreflexive(a: Seq<char>)
    ensures
        !text_lt(a, a),
    decreases a.len(),
{
    if a.len() > 0 {
        lemma_text_lt_irreflexive(a.drop_first());
    }
}

pub proof fn lemma_text_lt_total(a: Seq<char>, b: Seq<char>)
    ensures
        a != b ==> (text_lt(a, b) || text_lt(b, a)),
        !(text_lt(a, b) && text_lt(b, a)),
    decreases a.len(),
{
    if a.len() > 0 && b.len() > 0 {
        lemma_text_lt_total(a.drop_first(), b.drop_first());
        if a[0] == b[0] && a.drop_first() == b.drop_first() {
            assert(a =~= seq![a[0]] + a.drop_first());
            assert(b =~= seq![b[0]] + b.drop_first());
        }
    } else if a.len() == 0 && b.len() == 0 {
        assert(a =~= b);
    }
}

pub proof fn lemma_text_lt_transitive(a: Seq<char>, b: Seq<char>, c: Seq<char>)
    requires
        text_lt(a, b),
        text_lt(b, c),
    ensures
        text_lt(a, c),
    decreases a.len(),
{
    if a.len() > 0 && a[0] == b[0] && b[0] == c[0] {
        lemma_text_lt_transitive(a.drop_first(), b.drop_first(), c.drop_first());
    }
}

/// Whether `a` sorts strictly before `b`, as [`text_lt`] says.
pub fn text_less(a: &[char], b: &[char]) -> (r: bool)
    ensures
        r == text_lt(a@, b@),
{
    let mut i: usize = 0;
    proof {
        assert(a@.subrange(0, a@.len() as int) =~= a@);
        assert(b@.subrange(0, b@.len() as int) =~= b@);
    }
    while i < a.len() && i < b.len()
        invariant
            i <= a@.len(),
            i <= b@.len(),
            text_lt(a@, b@) == text_lt(a@.subrange(i as int, a@.len() as int), b@.subrange(i as int, b@.len() as int)),
        decreases a@.len() - i,
    {
        let ghost x = a@.subrange(i as int, a@.len() as int);
        let ghost y = b@.subrange(i as int, b@.len() as int);
        if a[i] != b[i] {
            proof {
                assert(x[0] == a@[i as int]);
                assert(y[0] == b@[i as int]);
            }
            return a[i] < b[i];
        }
        proof {
            assert(x.drop_first() =~= a@.subrange(i + 1, a@.len() as int));
            assert(y.drop_first() =~= b@.subrange(i + 1, b@.len() as int));
        }
        i += 1;
    }
    i < b.len()
}

/// The text of each string.
pub open spec fn string_views(v: Seq<String>) -> Seq<Seq<char>> {
    v.map_values(|s: String| s@)
}

/// Insert `x` where it sorts in `v`, unless `v` holds it already.
pub fn insert_sorted(v: &mut Vec<String>, x: String)
    requires
        strictly_sorted(string_views(old(v)@)),
    ensures
        strictly_sorted(string_views(final(v)@)),
        forall|t: Seq<char>| #![trigger string_views(final(v)@).contains(t)]
            string_views(final(v)@).contains(t) <==> (string_views(old(v)@).contains(t) || t == x@),
{
    let ghost before = string_views(v@);
    let xs = chars_of(x.as_str());
    let mut p: usize = 0;
    let mut stop = false;
    while !stop && p < v.len()
        invariant
            p <= v@.len(),
            stop ==> p < v@.len() && text_lt(x@, before[p as int]),
            string_views(v@) == before,
            before.len() == v@.len(),
            strictly_sorted(before),
            xs@ == x@,
            forall|k: int| 0 <= k < p ==> text_lt(#[trigger] before[k], x@),
        decreases v@.len() - p + (if stop { 0int } else { 1int }),
    {
        let cs = chars_of(v[p].as_str());
        proof {
            assert(before[p as int] == v@[p as int]@);
        }
        if text_less(cs.as_slice(), xs.as_slice()) {
            p += 1;
        } else {
            if seq_eq(cs.as_slice(), xs.as_slice()) {
                proof {
                    assert(before.contains(x@)) by {
                        assert(before[p as int] == x@);
                    }
                    assert forall|t: Seq<char>| before.contains(t) <==> (before.contains(t) || t == x@) by {}
                }
                return;
            }
            proof {
                lemma_text_lt_total(before[p as int], x@);
            }
            stop = true;
        }
    }
    let ghost at = p as int;
    proof {
        assert(forall|k: int| at <= k < before.len() ==> text_lt(x@, #[trigger] before[k])) by {
            assert forall|k: int| at <= k < before.len() implies text_lt(x@, #[trigger] before[k]) by {
                if k > at {
                    assert(text_lt(before[at], before[k]));
                    lemma_text_lt_transitive(x@, before[at], before[k]);
                }
            }
        }
    }
    v.insert(p, x);
    proof {
        let after = string_views(v@);
        assert(after =~= before.insert(at, x@));
        assert forall|i: int, j: int| 0 <= i < j < after.len() implies text_lt(#[trigger] after[i], #[trigger] after[j]) by {
            if j < at {
            } else if j == at {
            } else if i < at {
                assert(after[j] == before[j - 1]);
                assert(text_lt(before[i], x@));
                lemma_text_lt_transitive(before[i], x@, before[j - 1]);
            } else if i == at {
                assert(after[j] == before[j - 1]);
            } else {
                assert(after[i] == before[i - 1]);
                assert(after[j] == before[j - 1]);
            }
        }
        assert forall|t: Seq<char>| after.contains(t) <==> (before.contains(t) || t == x@) by {
            if after.contains(t) {
                let k = choose|k: int| 0 <= k < after.len() && after[k] == t;
                if k < at {
                    assert(before[k] == t);
                } else if k > at {
                    assert(before[k - 1] == t);
                }
            }
            if before.contains(t) {
                let k = choose|k: int| 0 <= k < before.len() && before[k] == t;
                if k < at {
                    assert(after[k] == t);
                } else {
                    assert(after[k + 1] == t);
                }
            }
            if t == x@ {
                assert(after[at] == t);
            }
        }
    }
}

} // verus!
