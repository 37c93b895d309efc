//! Byte- and text-level building blocks shared by the scanners and the message
//! builders: ASCII digit parsing, decimal rendering, ASCII trimming and substring
//! search.

use vstd::prelude::*;
use vstd::string::StrSliceExecFns;

verus! {

/// An ASCII decimal digit byte.
pub open spec fn is_digit(b: u8) -> bool {
    48 <= b <= 57
}

/// Every byte of `s` is an ASCII decimal digit.
pub open spec fn all_digits(s: Seq<u8>) -> bool {
    forall|i: int| 0 <= i < s.len() ==> #[trigger] is_digit(s[i])
}

/// The value of a run of decimal digits, most significant first.
pub open spec fn digits_value(s: Seq<u8>) -> nat
    decreases s.len(),
{
    if s.len() == 0 {
        0
    } else {
        digits_value(s.drop_last()) * 10 + (s.last() - 48) as nat
    }
}

/// What `str::parse::<u64>` accepts: an optional leading `+`, then at least one
/// ASCII digit and nothing else, with a value that fits in a `u64`.
pub open spec fn spec_parse_u64(s: Seq<u8>) -> Option<u64> {
    let d = if s.len() > 1 && s[0] == 43u8 { s.drop_first() } else { s };
    if d.len() > 0 && all_digits(d) && digits_value(d) <= u64::MAX {
        Some(digits_value(d) as u64)
    } else {
        None
    }
}

/// Appending a digit never lowers the value of a digit run.
pub proof fn lemma_digits_value_monotone(s: Seq<u8>, i: int)
    requires
        0 <= i <= s.len(),
        all_digits(s),
    ensures
        digits_value(s.take(i)) <= digits_value(s),
    decreases s.len() - i,
{
    if i < s.len() {
        lemma_digits_value_monotone(s, i + 1);
        assert(s.take(i + 1).drop_last() =~= s.take(i));
    } else {
        assert(s.take(i) =~= s);
    }
}

/// Parses a whole byte string the way `str::parse::<u64>` does.
pub fn parse_u64(s: &[u8]) -> (r: Option<u64>)
    ensures
        r == spec_parse_u64(s@),
{
    let start: usize = if s.len() > 1 && s[0] == 43u8 { 1 } else { 0 };
    let ghost d = if s@.len() > 1 && s@[0] == 43u8 { s@.drop_first() } else { s@ };
    assert(d =~= s@.subrange(start as int, s@.len() as int));
    if start >= s.len() {
        return None;
    }
    let mut value: u64 = 0;
    let mut i: usize = start;
    while i < s.len()
        invariant
            start <= i <= s.len(),
            d == (if s@.len() > 1 && s@[0] == 43u8 { s@.drop_first() } else { s@ }),
            d =~= s@.subrange(start as int, s@.len() as int),
            all_digits(d.take(i - start)),
            value as nat == digits_value(d.take(i - start)),
        decreases s.len() - i,
    {
        let b = s[i];
        if !(48u8 <= b && b <= 57u8) {
            assert(!is_digit(d[i - start]));
            return None;
        }
        let digit: u64 = (b - 48u8) as u64;
        assert(d.take(i + 1 - start).drop_last() =~= d.take(i - start));
        if value > (u64::MAX - digit) / 10 {
            assert(digits_value(d.take(i + 1 - start)) > u64::MAX) by (nonlinear_arith)
                requires
                    value > (u64::MAX - digit) / 10,
                    digits_value(d.take(i + 1 - start)) == value * 10 + digit,
            ;
            proof {
                if all_digits(d) {
                    lemma_digits_value_monotone(d, i + 1 - start);
                }
            }
            return None;
        }
        value = value * 10 + digit;
        i = i + 1;
    }
    assert(d.take(s@.len() - start) =~= d);
    Some(value)
}

/// The character of a decimal digit.
pub open spec fn digit_char(d: nat) -> char {
    if d == 0 { '0' } else if d == 1 { '1' } else if d == 2 { '2' } else if d == 3 { '3' }
    else if d == 4 { '4' } else if d == 5 { '5' } else if d == 6 { '6' } else if d == 7 { '7' }
    else if d == 8 { '8' } else { '9' }
}

/// The decimal rendering of `n`, with no sign and no leading zeros.
pub open spec fn decimal(n: nat) -> Seq<char>
    decreases n,
{
    if n < 10 {
        seq![digit_char(n)]
    } else {
        decimal(n / 10).push(digit_char(n % 10))
    }
}

/// `String::push`: appends one character.
#[verifier::external_body]
pub(crate) fn string_push(s: &mut String, c: char)
    ensures
        final(s)@ == old(s)@.push(c),
{
    s.push(c);
}

fn digit_to_char(d: u64) -> (c: char)
    requires
        d < 10,
    ensures
        c == digit_char(d as nat),
{
    if d == 0 { '0' } else if d == 1 { '1' } else if d == 2 { '2' } else if d == 3 { '3' }
    else if d == 4 { '4' } else if d == 5 { '5' } else if d == 6 { '6' } else if d == 7 { '7' }
    else if d == 8 { '8' } else { '9' }
}

/// Appends the decimal rendering of `n` to `s`.
pub fn push_decimal(s: &mut String, n: u64)
    ensures
        final(s)@ == old(s)@ + decimal(n as nat),
    decreases n,
{
    if n < 10 {
        string_push(s, digit_to_char(n));
        assert(decimal(n as nat) =~= seq![digit_char(n as nat)]);
    } else {
        push_decimal(s, n / 10);
        string_push(s, digit_to_char(n % 10));
    }
}

/// Appends the characters of `t` to `s`.
pub fn push_str(s: &mut String, t: &str)
    ensures
        final(s)@ == old(s)@ + t@,
{
    let n = t.unicode_len();
    let mut i: usize = 0;
    while i < n
        invariant
            0 <= i <= n,
            n == t@.len(),
            s@ == old(s)@ + t@.take(i as int),
        decreases n - i,
    {
        let c = t.get_char(i);
        string_push(s, c);
        assert(t@.take(i + 1) =~= t@.take(i as int).push(c));
        i = i + 1;
    }
    assert(t@.take(n as int) =~= t@);
}

/// `needle` occurs in `haystack` starting at byte `i`.
pub open spec fn occurs_at(haystack: Seq<u8>, needle: Seq<u8>, i: int) -> bool {
    0 <= i && i + needle.len() <= haystack.len() && haystack.subrange(i, i + needle.len()) == needle
}

/// The index of the first occurrence of `needle` in `haystack`, if any.
#[verifier::opaque]
pub open spec fn first_occurrence(haystack: Seq<u8>, needle: Seq<u8>) -> Option<int> {
    if exists|i: int| occurs_at(haystack, needle, i) {
        Some(choose|i: int| occurs_at(haystack, needle, i) && forall|j: int| 0 <= j < i ==> !occurs_at(haystack, needle, j))
    } else {
        None
    }
}

/// `memchr::memmem::find`: the index of the first occurrence of `needle` in
/// `haystack`, or `None` when it does not occur. The contract restates the
/// crate's documented result ("the index of the first occurrence of the given
/// needle") for every input.
#[verifier::external_body]
pub(crate) fn find_bytes(haystack: &[u8], needle: &[u8]) -> (r: Option<usize>)
    ensures
        match r {
            Some(i) => occurs_at(haystack@, needle@, i as int) && forall|j: int|
                0 <= j < i ==> !occurs_at(haystack@, needle@, j),
            None => forall|j: int| !occurs_at(haystack@, needle@, j),
        },
{
    memchr::memmem::find(haystack, needle)
}

/// The ASCII whitespace `u8::is_ascii_whitespace` recognises: space, tab, line
/// feed, form feed and carriage return.
pub open spec fn is_ascii_ws(b: u8) -> bool {
    b == 32 || b == 9 || b == 10 || b == 12 || b == 13
}

/// Index of the first byte at or after `from` that is not ASCII whitespace
/// (`s.len()` when there is none): where `trim_ascii_start` begins.
pub fn skip_ascii_ws(s: &[u8], from: usize) -> (r: usize)
    requires
        from <= s.len(),
    ensures
        from <= r <= s.len(),
        forall|j: int| from <= j < r ==> is_ascii_ws(#[trigger] s@[j]),
        r < s.len() ==> !is_ascii_ws(s@[r as int]),
{
    let mut i = from;
    while i < s.len() && (s[i] == 32u8 || s[i] == 9u8 || s[i] == 10u8 || s[i] == 12u8 || s[i] == 13u8)
        invariant
            from <= i <= s.len(),
            forall|j: int| from <= j < i ==> is_ascii_ws(#[trigger] s@[j]),
        decreases s.len() - i,
    {
        i = i + 1;
    }
    i
}

/// The end of `s[from..to]` once trailing ASCII whitespace is dropped: where
/// `trim_ascii_end` stops.
pub fn trim_ascii_end_at(s: &[u8], from: usize, to: usize) -> (r: usize)
    requires
        from <= to <= s.len(),
    ensures
        from <= r <= to,
        forall|j: int| r <= j < to ==> is_ascii_ws(#[trigger] s@[j]),
        r > from ==> !is_ascii_ws(s@[r - 1]),
{
    let mut e = to;
    while e > from && (s[e - 1] == 32u8 || s[e - 1] == 9u8 || s[e - 1] == 10u8 || s[e - 1] == 12u8 || s[e - 1] == 13u8)
        invariant
            from <= e <= to,
            to <= s.len(),
            forall|j: int| e <= j < to ==> is_ascii_ws(#[trigger] s@[j]),
        decreases e,
    {
        e = e - 1;
    }
    e
}

} // verus!
