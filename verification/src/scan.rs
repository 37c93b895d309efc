//! The hot path of the JSONL scan: reading `_key`, numeric and boolean fields
//! and the English name straight out of a raw line's bytes, without parsing the
//! line as JSON. A JSON string never holds an unescaped `"`, so a needle that
//! carries its own opening quote (`"groupID":`) cannot match inside a name or a
//! description, nor match `marketGroupID`.

use vstd::prelude::*;
use vstd::utf8::{valid_utf8, decode_utf8};
use crate::text::{find_bytes, occurs_at, first_occurrence, spec_parse_u64, parse_u64, is_digit, is_ascii_ws, skip_ascii_ws};
use crate::download::lemma_first_occurrence;

verus! {

/// Length of the run of ASCII digits `s` starts with.
pub open spec fn digit_prefix_len(s: Seq<u8>) -> int
    decreases s.len(),
{
    if s.len() > 0 && is_digit(s[0]) {
        1 + digit_prefix_len(s.drop_first())
    } else {
        0
    }
}

/// The unsigned integer `s` starts with: its leading digit run read as a `u64`,
/// or `None` when there is no digit or the run overflows.
pub open spec fn spec_parse_u64_prefix(s: Seq<u8>) -> Option<u64> {
    let e = digit_prefix_len(s);
    if e == 0 {
        None
    } else {
        spec_parse_u64(s.take(e))
    }
}

/// `s` with leading ASCII whitespace removed (`<[u8]>::trim_ascii_start`).
pub open spec fn trim_start(s: Seq<u8>) -> Seq<u8>
    decreases s.len(),
{
    if s.len() > 0 && is_ascii_ws(s[0]) {
        trim_start(s.drop_first())
    } else {
        s
    }
}

pub(crate) proof fn lemma_trim_start_at(s: Seq<u8>, from: int, r: int)
    requires
        0 <= from <= r <= s.len(),
        forall|j: int| from <= j < r ==> is_ascii_ws(#[trigger] s[j]),
        r < s.len() ==> !is_ascii_ws(s[r]),
    ensures
        trim_start(s.subrange(from, s.len() as int)) == s.subrange(r, s.len() as int),
    decreases r - from,
{
    if from < r {
        assert(s.subrange(from, s.len() as int).drop_first() =~= s.subrange(from + 1, s.len() as int));
        lemma_trim_start_at(s, from + 1, r);
    }
}

proof fn lemma_digit_prefix_step(s: Seq<u8>, i: int)
    requires
        0 <= i < s.len(),
        is_digit(s[i]),
    ensures
        digit_prefix_len(s.subrange(i, s.len() as int)) == 1 + digit_prefix_len(s.subrange(i + 1, s.len() as int)),
{
    assert(s.subrange(i, s.len() as int).drop_first() =~= s.subrange(i + 1, s.len() as int));
}

/// Reads the unsigned integer a byte string starts with, stopping at the first
/// non-digit: `12345,rest` gives 12345, `abc` gives nothing.
pub fn parse_u64_prefix(s: &[u8]) -> (r: Option<u64>)
    ensures
        r == spec_parse_u64_prefix(s@),
{
    let mut i: usize = 0;
    assert(s@.subrange(0, s@.len() as int) =~= s@);
    while i < s.len() && 48u8 <= s[i] && s[i] <= 57u8
        invariant
            0 <= i <= s.len(),
            digit_prefix_len(s@) == i + digit_prefix_len(s@.subrange(i as int, s@.len() as int)),
        decreases s.len() - i,
    {
        proof { lemma_digit_prefix_step(s@, i as int); }
        i = i + 1;
    }
    if i == 0 {
        return None;
    }
    let digits = vstd::slice::slice_subrange(s, 0, i);
    assert(digits@ =~= s@.take(i as int));
    parse_u64(digits)
}

/// The number a raw JSONL line gives for `field` (which carries its quotes and
/// colon): the digits after the first occurrence of `field`, past any ASCII
/// whitespace.
pub open spec fn spec_extract_number_field(line: Seq<u8>, field: Seq<u8>) -> Option<u64> {
    match first_occurrence(line, field) {
        None => None,
        Some(p) => spec_parse_u64_prefix(trim_start(line.subrange(p + field.len(), line.len() as int))),
    }
}

/// Reads an unsigned integer field out of a raw JSONL line, e.g. `"groupID":`.
pub fn extract_number_field(line: &[u8], field: &[u8]) -> (r: Option<u64>)
    ensures
        r == spec_extract_number_field(line@, field@),
{
    let found = find_bytes(line, field);
    proof { lemma_first_occurrence(line@, field@, found); }
    match found {
        None => None,
        Some(p) => {
            assert(occurs_at(line@, field@, p as int));
            assert(p + field@.len() <= line@.len());
            assert(p + field.len() <= line.len());
            let from = p + field.len();
            let start = skip_ascii_ws(line, from);
            proof { lemma_trim_start_at(line@, from as int, start as int); }
            let rest = vstd::slice::slice_subrange(line, start, line.len());
            parse_u64_prefix(rest)
        },
    }
}

/// The bytes of `"_key":`.
pub open spec fn key_field() -> Seq<u8> {
    seq![34u8, 95, 107, 101, 121, 34, 58]
}

/// Reads a line's `_key`, the ID every SDE record is indexed by.
pub fn extract_key(line: &[u8]) -> (r: Option<u64>)
    ensures
        r == spec_extract_number_field(line@, key_field()),
{
    let field: Vec<u8> = vec![34u8, 95, 107, 101, 121, 34, 58];
    assert(field@ =~= key_field());
    extract_number_field(line, field.as_slice())
}

/// The boolean a raw line gives for `field`: `true` or `false` right after the
/// first occurrence of the field (past ASCII whitespace), else nothing.
pub open spec fn spec_extract_bool_field(line: Seq<u8>, field: Seq<u8>) -> Option<bool> {
    match first_occurrence(line, field) {
        None => None,
        Some(p) => {
            let rest = trim_start(line.subrange(p + field.len(), line.len() as int));
            if rest.len() >= 4 && rest.take(4) == seq![116u8, 114, 117, 101] {
                Some(true)
            } else if rest.len() >= 5 && rest.take(5) == seq![102u8, 97, 108, 115, 101] {
                Some(false)
            } else {
                None
            }
        },
    }
}

/// Whether `s[at..]` starts with `lit`.
fn starts_with_at(s: &[u8], at: usize, lit: &[u8]) -> (b: bool)
    requires
        at <= s.len(),
    ensures
        b == (s@.len() - at >= lit@.len() && s@.subrange(at as int, s@.len() as int).take(lit@.len() as int) == lit@),
{
    if s.len() - at < lit.len() {
        return false;
    }
    let mut k: usize = 0;
    while k < lit.len()
        invariant
            0 <= k <= lit.len(),
            at + lit.len() <= s.len(),
            forall|j: int| 0 <= j < k ==> s@[at + j] == lit@[j],
        decreases lit.len() - k,
    {
        if s[at + k] != lit[k] {
            assert(s@.subrange(at as int, s@.len() as int).take(lit@.len() as int)[k as int] != lit@[k as int]);
            return false;
        }
        k = k + 1;
    }
    assert(s@.subrange(at as int, s@.len() as int).take(lit@.len() as int) =~= lit@);
    true
}

/// Reads a JSON boolean field out of a raw line; `None` when the field is absent
/// or holds something other than `true`/`false`.
pub fn extract_bool_field(line: &[u8], field: &[u8]) -> (r: Option<bool>)
    ensures
        r == spec_extract_bool_field(line@, field@),
{
    let found = find_bytes(line, field);
    proof { lemma_first_occurrence(line@, field@, found); }
    match found {
        None => None,
        Some(p) => {
            assert(occurs_at(line@, field@, p as int));
            assert(p + field@.len() <= line@.len());
            assert(p + field.len() <= line.len());
            let from = p + field.len();
            let start = skip_ascii_ws(line, from);
            proof { lemma_trim_start_at(line@, from as int, start as int); }
            assert(line@.subrange(start as int, line@.len() as int) == trim_start(line@.subrange(p + field@.len(), line@.len() as int)));
            let t: Vec<u8> = vec![116u8, 114, 117, 101];
            let f: Vec<u8> = vec![102u8, 97, 108, 115, 101];
            assert(t@ =~= seq![116u8, 114, 117, 101]);
            assert(f@ =~= seq![102u8, 97, 108, 115, 101]);
            if starts_with_at(line, start, t.as_slice()) {
                Some(true)
            } else if starts_with_at(line, start, f.as_slice()) {
                Some(false)
            } else {
                None
            }
        },
    }
}

/// The value of an ASCII hex digit.
pub open spec fn hex_val(b: u8) -> Option<u32> {
    if 48 <= b <= 57 {
        Some((b - 48) as u32)
    } else if 97 <= b <= 102 {
        Some((b - 87) as u32)
    } else if 65 <= b <= 70 {
        Some((b - 55) as u32)
    } else {
        None
    }
}

/// Four bytes read as `u16::from_str_radix(_, 16)` does: four hex digits, or a
/// `+` followed by three.
pub open spec fn hex4(s: Seq<u8>) -> Option<u32> {
    if s.len() != 4 {
        None
    } else if s[0] == 43u8 {
        match (hex_val(s[1]), hex_val(s[2]), hex_val(s[3])) {
            (Some(a), Some(b), Some(c)) => Some((a * 256 + b * 16 + c) as u32),
            _ => None,
        }
    } else {
        match (hex_val(s[0]), hex_val(s[1]), hex_val(s[2]), hex_val(s[3])) {
            (Some(a), Some(b), Some(c), Some(d)) => Some((a * 4096 + b * 256 + c * 16 + d) as u32),
            _ => None,
        }
    }
}

/// A UTF-16 surrogate, which `char::from_u32` refuses.
pub open spec fn is_surrogate(code: u32) -> bool {
    0xD800 <= code <= 0xDFFF
}

/// The UTF-8 bytes of a scalar value below 0x10000.
pub open spec fn utf8_bytes(code: u32) -> Seq<u8> {
    if code < 0x80 {
        seq![code as u8]
    } else if code < 0x800 {
        seq![(0xC0 + code / 64) as u8, (0x80 + code % 64) as u8]
    } else {
        seq![(0xE0 + code / 4096) as u8, (0x80 + (code / 64) % 64) as u8, (0x80 + code % 64) as u8]
    }
}

/// The bytes a JSON string body decodes to, reading from `i` with `out` decoded
/// so far: up to the closing `"`, with the escapes `\" \\ \/ \n \r \t \b \f`,
/// `\uXXXX` (a surrogate decodes to nothing), and any other escaped byte kept
/// as itself. `None` when the body never closes, ends inside an escape, or a
/// `\u` escape is not hex.
pub open spec fn decode_from(s: Seq<u8>, i: int, out: Seq<u8>) -> Option<Seq<u8>>
    decreases s.len() - i,
{
    if i < 0 || i >= s.len() {
        None
    } else if s[i] == 34u8 {
        Some(out)
    } else if s[i] == 92u8 {
        if i + 1 >= s.len() {
            None
        } else {
            let c = s[i + 1];
            if c == 117u8 && s.len() - i > 5 {
                match hex4(s.subrange(i + 2, i + 6)) {
                    None => None,
                    Some(code) => decode_from(s, i + 6, if is_surrogate(code) { out } else { out + utf8_bytes(code) }),
                }
            } else {
                let b: u8 = if c == 110u8 { 10u8 } else if c == 114u8 { 13u8 } else if c == 116u8 { 9u8 }
                    else if c == 98u8 { 8u8 } else if c == 102u8 { 12u8 } else { c };
                decode_from(s, i + 2, out.push(b))
            }
        }
    } else {
        decode_from(s, i + 1, out.push(s[i]))
    }
}

/// `String::from_utf8`: the string the bytes encode, or `None` when they are
/// not valid UTF-8 (std: "returns `Err` if the slice is not UTF-8").
#[verifier::external_body]
fn string_from_utf8(bytes: Vec<u8>) -> (r: Option<String>)
    ensures
        match r {
            Some(s) => valid_utf8(bytes@) && s@ == decode_utf8(bytes@),
            None => !valid_utf8(bytes@),
        },
{
    String::from_utf8(bytes).ok()
}

fn hex_digit(b: u8) -> (r: Option<u32>)
    ensures
        r == hex_val(b),
{
    if 48u8 <= b && b <= 57u8 {
        Some((b - 48u8) as u32)
    } else if 97u8 <= b && b <= 102u8 {
        Some((b - 87u8) as u32)
    } else if 65u8 <= b && b <= 70u8 {
        Some((b - 55u8) as u32)
    } else {
        None
    }
}

fn read_hex4(s: &[u8], at: usize) -> (r: Option<u32>)
    requires
        at + 4 <= s.len(),
    ensures
        r == hex4(s@.subrange(at as int, at + 4)),
        r matches Some(v) ==> v <= 0xFFFF,
{
    let ghost w = s@.subrange(at as int, at + 4);
    if s[at] == 43u8 {
        match (hex_digit(s[at + 1]), hex_digit(s[at + 2]), hex_digit(s[at + 3])) {
            (Some(a), Some(b), Some(c)) => Some(a * 256 + b * 16 + c),
            _ => None,
        }
    } else {
        match (hex_digit(s[at]), hex_digit(s[at + 1]), hex_digit(s[at + 2]), hex_digit(s[at + 3])) {
            (Some(a), Some(b), Some(c), Some(d)) => Some(a * 4096 + b * 256 + c * 16 + d),
            _ => None,
        }
    }
}

fn push_utf8(out: &mut Vec<u8>, code: u32)
    requires
        code <= 0xFFFF,
    ensures
        final(out)@ == old(out)@ + utf8_bytes(code),
{
    if code < 0x80 {
        out.push(code as u8);
    } else if code < 0x800 {
        out.push((0xC0 + code / 64) as u8);
        out.push((0x80 + code % 64) as u8);
    } else {
        out.push((0xE0 + code / 4096) as u8);
        out.push((0x80 + (code / 64) % 64) as u8);
        out.push((0x80 + code % 64) as u8);
    }
    assert(final(out)@ =~= old(out)@ + utf8_bytes(code));
}

/// The bytes `decode_json_string` decodes `s` to, before the UTF-8 check.
pub open spec fn spec_decode_json_bytes(s: Seq<u8>) -> Option<Seq<u8>> {
    decode_from(s, 0, Seq::empty())
}

/// Decodes a JSON string body (what follows the opening `"`) up to its closing
/// quote, resolving escapes; `None` when the body is unterminated, holds a bad
/// `\u` escape, or does not decode to UTF-8.
pub fn decode_json_string(s: &[u8]) -> (r: Option<String>)
    ensures
        match spec_decode_json_bytes(s@) {
            None => r.is_none(),
            Some(bytes) => match r {
                Some(st) => valid_utf8(bytes) && st@ == decode_utf8(bytes),
                None => !valid_utf8(bytes),
            },
        },
{
    let mut out: Vec<u8> = Vec::new();
    let mut i: usize = 0;
    while i < s.len()
        invariant
            0 <= i <= s.len(),
            decode_from(s@, 0, Seq::empty()) == decode_from(s@, i as int, out@),
        decreases s.len() - i,
    {
        let b = s[i];
        if b == 34u8 {
            return string_from_utf8(out);
        } else if b == 92u8 {
            if i + 1 >= s.len() {
                return None;
            }
            let c = s[i + 1];
            if c == 117u8 && s.len() - i > 5 {
                match read_hex4(s, i + 2) {
                    None => return None,
                    Some(code) => {
                        if !(0xD800u32 <= code && code <= 0xDFFFu32) {
                            push_utf8(&mut out, code);
                        }
                    },
                }
                i = i + 6;
            } else {
                let d: u8 = if c == 110u8 { 10u8 } else if c == 114u8 { 13u8 } else if c == 116u8 { 9u8 }
                    else if c == 98u8 { 8u8 } else if c == 102u8 { 12u8 } else { c };
                out.push(d);
                i = i + 2;
            }
        } else {
            out.push(b);
            i = i + 1;
        }
    }
    None
}

/// The bytes of `"name":`.
pub open spec fn name_field() -> Seq<u8> {
    seq![34u8, 110, 97, 109, 101, 34, 58]
}

/// The bytes of `"en":`.
pub open spec fn en_field() -> Seq<u8> {
    seq![34u8, 101, 110, 34, 58]
}

/// The English-name bytes of a raw line: after the first `"name":` (past
/// whitespace) there must be an object `{`; after the first `"en":` that follows,
/// a string, whose body is decoded. A bare-string `name` gives nothing.
pub open spec fn spec_name_en_bytes(line: Seq<u8>) -> Option<Seq<u8>> {
    match first_occurrence(line, name_field()) {
        None => None,
        Some(p) => {
            let after_name = trim_start(line.subrange(p + 7, line.len() as int));
            if after_name.len() == 0 || after_name[0] != 123u8 {
                None
            } else {
                match first_occurrence(after_name, en_field()) {
                    None => None,
                    Some(q) => {
                        let after_en = trim_start(after_name.subrange(q + 5, after_name.len() as int));
                        if after_en.len() == 0 || after_en[0] != 34u8 {
                            None
                        } else {
                            spec_decode_json_bytes(after_en.drop_first())
                        }
                    },
                }
            }
        },
    }
}

/// Reads the English name of an SDE record from its raw line, e.g.
/// `{"_key":34,"name":{"en":"Tritanium",...}}` gives `Tritanium`.
pub fn extract_name_en(line: &[u8]) -> (r: Option<String>)
    ensures
        match spec_name_en_bytes(line@) {
            None => r.is_none(),
            Some(bytes) => match r {
                Some(st) => valid_utf8(bytes) && st@ == decode_utf8(bytes),
                None => !valid_utf8(bytes),
            },
        },
{
    let nf: Vec<u8> = vec![34u8, 110, 97, 109, 101, 34, 58];
    assert(nf@ =~= name_field());
    let found = find_bytes(line, nf.as_slice());
    proof { lemma_first_occurrence(line@, nf@, found); }
    let p = match found {
        None => return None,
        Some(p) => p,
    };
    assert(occurs_at(line@, nf@, p as int));
    assert(p + nf@.len() <= line@.len());
    assert(p + 7 <= line.len());
    let start = skip_ascii_ws(line, p + 7);
    proof { lemma_trim_start_at(line@, p + 7, start as int); }
    let after_name = vstd::slice::slice_subrange(line, start, line.len());
    if after_name.len() == 0 || after_name[0] != 123u8 {
        return None;
    }
    let ef: Vec<u8> = vec![34u8, 101, 110, 34, 58];
    assert(ef@ =~= en_field());
    let found_en = find_bytes(after_name, ef.as_slice());
    proof { lemma_first_occurrence(after_name@, ef@, found_en); }
    let q = match found_en {
        None => return None,
        Some(q) => q,
    };
    assert(occurs_at(after_name@, ef@, q as int));
    assert(q + ef@.len() <= after_name@.len());
    let s2 = skip_ascii_ws(after_name, q + 5);
    proof { lemma_trim_start_at(after_name@, q + 5, s2 as int); }
    if s2 >= after_name.len() || after_name[s2] != 34u8 {
        return None;
    }
    let body = vstd::slice::slice_subrange(after_name, s2 + 1, after_name.len());
    assert(body@ =~= after_name@.subrange(s2 as int, after_name@.len() as int).drop_first());
    decode_json_string(body)
}

} // verus!
