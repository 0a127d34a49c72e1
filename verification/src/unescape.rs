//! Decoding the content of a JSON string: escape sequences become characters.

use vstd::prelude::*;
use vstd::utf8::{
    char_is_scalar, char_u32_cast, decode_utf8, decode_utf8_encode_utf8, encode_scalar, encode_utf8, encode_utf8_decode_utf8,
    encode_utf8_valid_utf8, has_width_1_encoding, is_scalar, last_continuation_byte, leading_byte_width_2, leading_byte_width_3,
    leading_byte_width_4, second_last_continuation_byte, third_last_continuation_byte, valid_utf8,
};
use vstd::string::StringSliceAdditionalSpecFns;
use crate::lex::{
    at, escape_spec, hex4, hex_digit, peek_spec, input_ok, is_high_surrogate, is_low_surrogate, is_simple_escape,
    lemma_escape_bounds, lemma_string_from_bounds, parse_hex4, string_from, validate_escape,
};
use crate::types::MatchError;
use crate::text::{char_from_u32, lemma_ascii_boundary, str_slice, string_push, string_push_str};

verus! {

/// The first backslash in `b[i..end]`, or `end`.
pub open spec fn next_backslash(b: Seq<u8>, i: int, end: int) -> int
    decreases end - i,
{
    if i < end && b[i] != 0x5C { next_backslash(b, i + 1, end) } else { i }
}

pub proof fn lemma_next_backslash(b: Seq<u8>, i: int, end: int)
    requires
        i <= end,
    ensures
        i <= next_backslash(b, i, end) <= end,
        forall|k: int| i <= k < next_backslash(b, i, end) ==> b[k] != 0x5C,
        next_backslash(b, i, end) < end ==> b[next_backslash(b, i, end)] == 0x5C,
    decreases end - i,
{
    if i < end && b[i] != 0x5C {
        lemma_next_backslash(b, i + 1, end);
    }
}

/// The character denoted by the (valid) escape sequence whose backslash is at `j`.
pub open spec fn escape_char(b: Seq<u8>, j: int) -> char {
    let code = b[j + 1];
    if code == 0x22 {
        '"'
    } else if code == 0x5C {
        '\\'
    } else if code == 0x2F {
        '/'
    } else if code == 0x62 {
        '\u{8}'
    } else if code == 0x66 {
        '\u{c}'
    } else if code == 0x6E {
        '\n'
    } else if code == 0x72 {
        '\r'
    } else if code == 0x74 {
        '\t'
    } else {
        let unit = hex4(b, j + 2).unwrap();
        if is_high_surrogate(unit) {
            let low = hex4(b, j + 8).unwrap();
            ((0x10000 + (unit - 0xD800) * 0x400 + (low - 0xDC00)) as u32) as char
        } else {
            (unit as u32) as char
        }
    }
}

/// The decoded content of the string bytes `b[i..end]`: raw runs are UTF-8
/// text, escape sequences stand for one character each.
pub open spec fn unescape_from(b: Seq<u8>, i: int, end: int) -> Seq<char>
    decreases end - i,
{
    let j = next_backslash(b, i, end);
    let chunk = decode_utf8(b.subrange(i, j));
    if i > end {
        Seq::empty()
    } else if i == end || j >= end {
        chunk
    } else {
        proof { lemma_next_backslash(b, i, end); }
        match escape_spec(b, j) {
            Ok(e) => if j < e <= end { chunk + seq![escape_char(b, j)] + unescape_from(b, e, end) } else { chunk },
            Err(_) => chunk,
        }
    }
}

/// The bytes from `i` scan, as string content, up to a closing quote at `end`.
pub open spec fn content_to(b: Seq<u8>, i: int, end: int) -> bool {
    string_from(b, i, false) matches Ok((e, _)) && e == end + 1
}

proof fn lemma_string_from_flag(b: Seq<u8>, i: int, f: bool, g: bool)
    ensures
        match (string_from(b, i, f), string_from(b, i, g)) {
            (Ok((e1, _)), Ok((e2, _))) => e1 == e2,
            (Err(x), Err(y)) => x == y,
            _ => false,
        },
    decreases b.len() - i,
{
    if 0 <= i < b.len() {
        let c = b[i];
        if c == 0x5C {
            if let Ok(j) = escape_spec(b, i) {
                if j > i {
                    lemma_string_from_flag(b, j, true, true);
                }
            }
        } else if c != 0x22 && c > 0x1F {
            lemma_string_from_flag(b, i + 1, f, g);
        }
    }
}

/// Stepping over one plain content byte keeps the scan's end.
proof fn lemma_content_step(b: Seq<u8>, i: int, end: int)
    requires
        0 <= i < end,
        content_to(b, i, end),
        b[i] != 0x5C,
    ensures
        content_to(b, i + 1, end),
        b[i] != 0x22,
        b[i] > 0x1F,
{
    assert(i < b.len());
}

/// At a backslash, the escape is valid, ends inside the content, and
/// scanning continues after it.
proof fn lemma_content_escape(b: Seq<u8>, i: int, end: int)
    requires
        0 <= i < end,
        content_to(b, i, end),
        b[i] == 0x5C,
    ensures
        escape_spec(b, i) matches Ok(e) && i + 2 <= e <= end && content_to(b, e, end) && b[e - 1] < 0x80,
{
    assert(i < b.len());
    lemma_escape_bounds(b, i);
    let e = escape_spec(b, i).unwrap();
    lemma_string_from_flag(b, e, true, false);
    lemma_string_from_bounds(b, e, true);
}

/// Decoding raw string content `r` (the text between a string's quotes)
/// from `i`: the characters it stands for, or the position of the first
/// invalid escape sequence.
pub open spec fn unescape_raw(r: Seq<u8>, i: int) -> Result<Seq<char>, int>
    decreases r.len() - i,
{
    let j = next_backslash(r, i, r.len() as int);
    let chunk = decode_utf8(r.subrange(i, j));
    if i < 0 || i > r.len() {
        Ok(Seq::empty())
    } else if j >= r.len() {
        Ok(chunk)
    } else {
        proof { lemma_next_backslash(r, i, r.len() as int); }
        match escape_spec(r, j) {
            Ok(e) => if j < e <= r.len() {
                match unescape_raw(r, e) {
                    Ok(rest) => Ok(chunk + seq![escape_char(r, j)] + rest),
                    Err(p) => Err(p),
                }
            } else {
                Err(j)
            },
            Err(_) => Err(j),
        }
    }
}

/// What decoding from `i` gives, after the characters `prefix` already decoded.
pub open spec fn after_prefix(prefix: Seq<char>, rest: Result<Seq<char>, int>) -> Result<Seq<char>, int> {
    match rest {
        Ok(t) => Ok(prefix + t),
        Err(p) => Err(p),
    }
}

/// One step of [`unescape_from`] at the backslash `i` that ends the raw run
/// from `cs`.
proof fn lemma_from_step(b: Seq<u8>, cs: int, i: int, n: int)
    requires
        0 <= cs <= i < n == b.len(),
        next_backslash(b, cs, n) == i,
    ensures
        escape_spec(b, i) is Err ==> unescape_from(b, cs, n) == decode_utf8(b.subrange(cs, i)),
        escape_spec(b, i) is Ok && i < escape_spec(b, i)->Ok_0 <= n ==> unescape_from(b, cs, n)
            == decode_utf8(b.subrange(cs, i)) + seq![escape_char(b, i)] + unescape_from(b, escape_spec(b, i)->Ok_0, n),
{
}

/// Decodes the raw content `raw` of a JSON string (the text between its
/// quotes) and appends it to `out`. An invalid escape sequence is reported at
/// its position in the input, `base_pos` being where `raw` starts there;
/// `out` has then received the content decoded before it.
#[verifier::rlimit(40)]
pub fn unescape_into(raw: &str, out: &mut String, base_pos: u32) -> (r: Result<(), MatchError>)
    requires
        raw.spec_bytes().len() <= u32::MAX,
        forall|i: int| 0 <= i < raw.spec_bytes().len() && #[trigger] raw.spec_bytes()[i] == 0x5C ==> base_pos + i <= u32::MAX,
    ensures
        match unescape_raw(raw.spec_bytes(), 0) {
            Ok(text) => r is Ok && final(out)@ == old(out)@ + text,
            Err(j) => {
                &&& r == Err::<(), MatchError>(MatchError::InvalidEscape { pos: (base_pos + j) as u32 })
                &&& final(out)@ == old(out)@ + unescape_from(raw.spec_bytes(), 0, raw.spec_bytes().len() as int)
            },
        },
{
    let b = raw.as_bytes();
    let ghost bs = raw.spec_bytes();
    let n = b.len() as u64;
    proof {
        encode_utf8_valid_utf8(raw@);
        vstd::utf8::is_char_boundary_start_end_of_seq(bs);
    }
    let mut chunk_start: u64 = 0;
    let mut i: u64 = 0;
    while i < n
        invariant
            b@ == bs,
            bs == raw.spec_bytes(),
            valid_utf8(bs),
            input_ok(bs),
            n == bs.len(),
            forall|t: int| 0 <= t < n && #[trigger] bs[t] == 0x5C ==> base_pos + t <= u32::MAX,
            chunk_start <= i <= n,
            vstd::utf8::is_char_boundary(bs, chunk_start as int),
            next_backslash(bs, chunk_start as int, n as int) == next_backslash(bs, i as int, n as int),
            after_prefix(out@, unescape_raw(bs, chunk_start as int)) == after_prefix(old(out)@, unescape_raw(bs, 0)),
            out@ + unescape_from(bs, chunk_start as int, n as int) == old(out)@ + unescape_from(bs, 0, n as int),
        decreases n - i,
    {
        if b[i as usize] != 0x5C {
            i = i + 1;
        } else {
            let ghost out0 = out@;
            proof {
                lemma_next_backslash(bs, chunk_start as int, n as int);
                lemma_escape_bounds(bs, i as int);
                lemma_ascii_boundary(bs, i as int);
            }
            let chunk = str_slice(raw, chunk_start as usize, i as usize);
            proof { encode_utf8_decode_utf8(chunk@); }
            string_push_str(out, chunk);
            let ghost dec = decode_utf8(bs.subrange(chunk_start as int, i as int));
            proof {
                assert(next_backslash(bs, i as int, n as int) == i);
                assert(chunk@ == dec);
            }
            let e = match validate_escape(b, i) {
                Ok(e) => e,
                Err(_) => {
                    proof { lemma_from_step(bs, chunk_start as int, i as int, n as int); }
                    return Err(MatchError::InvalidEscape { pos: (base_pos as u64 + i) as u32 });
                },
            };
            let code = b[(i + 1) as usize];
            let c: char = if code == 0x22 {
                '"'
            } else if code == 0x5C {
                '\\'
            } else if code == 0x2F {
                '/'
            } else if code == 0x62 {
                '\u{8}'
            } else if code == 0x66 {
                '\u{c}'
            } else if code == 0x6E {
                '\n'
            } else if code == 0x72 {
                '\r'
            } else if code == 0x74 {
                '\t'
            } else {
                let unit = parse_hex4(b, (i + 2) as u32).unwrap();
                if 0xD800 <= unit && unit <= 0xDBFF {
                    let low = parse_hex4(b, (i + 8) as u32).unwrap();
                    let combined = 0x10000 + (unit as u32 - 0xD800) * 0x400 + (low as u32 - 0xDC00);
                    char_from_u32(combined).unwrap()
                } else {
                    char_from_u32(unit as u32).unwrap()
                }
            };
            string_push(out, c);
            proof {
                assert(c == escape_char(bs, i as int));
                lemma_ascii_boundary(bs, e - 1);
                assert(out@ == out0 + dec + seq![c]);
                lemma_from_step(bs, chunk_start as int, i as int, n as int);
                assert(out0 + (dec + seq![c] + unescape_from(bs, e as int, n as int)) =~= out@ + unescape_from(bs, e as int, n as int));
                assert(next_backslash(bs, i as int, n as int) == i);
                assert(unescape_raw(bs, chunk_start as int) == after_prefix(dec + seq![c], unescape_raw(bs, e as int)));
                match unescape_raw(bs, e as int) {
                    Ok(t) => {
                        assert(out0 + (dec + seq![c] + t) =~= out@ + t);
                    },
                    Err(_) => {},
                }
            }
            i = e;
            chunk_start = e;
        }
    }
    proof { lemma_next_backslash(bs, chunk_start as int, n as int); }
    let chunk = str_slice(raw, chunk_start as usize, n as usize);
    proof { encode_utf8_decode_utf8(chunk@); }
    string_push_str(out, chunk);
    Ok(())
}

/// Decodes, in place in `input`, the content `input[start..end]` of a string
/// that validation accepted (its closing quote is at `end`), and appends it
/// to `out`.
pub fn decode_content(input: &str, start: u64, end: u64, out: &mut String)
    requires
        input_ok(input.spec_bytes()),
        1 <= start <= end < input.spec_bytes().len(),
        input.spec_bytes()[start - 1] == 0x22,
        content_to(input.spec_bytes(), start as int, end as int),
    ensures
        final(out)@ == old(out)@ + unescape_from(input.spec_bytes(), start as int, end as int),
{
    let ghost bs = input.spec_bytes();
    proof {
        encode_utf8_valid_utf8(input@);
        lemma_ascii_boundary(bs, start - 1);
        lemma_string_from_bounds(bs, start as int, false);
        lemma_ascii_boundary(bs, end as int);
        lemma_raw_of_content(bs, start as int, end as int, start as int);
    }
    let raw = str_slice(input, start as usize, end as usize);
    proof { assert(raw.spec_bytes() =~= bs.subrange(start as int, end as int)); }
    match unescape_into(raw, out, start as u32) {
        Ok(()) => {},
        Err(_) => {},
    }
}

/// Four hex digits read inside the slice `b[start..end]` are those read in `b`.
proof fn lemma_hex4_shift(b: Seq<u8>, start: int, end: int, p: int)
    requires
        0 <= start <= end <= b.len(),
        0 <= p,
        p + 4 <= end - start,
    ensures
        hex4(b.subrange(start, end), p) == hex4(b, start + p),
{
    let sub = b.subrange(start, end);
    assert(sub[p] == b[start + p] && sub[p + 1] == b[start + p + 1]);
    assert(sub[p + 2] == b[start + p + 2] && sub[p + 3] == b[start + p + 3]);
}

/// The first backslash of the slice `b[start..end]` from `i - start` is
/// the first backslash of `b[i..end]`, moved by `start`.
proof fn lemma_next_backslash_shift(b: Seq<u8>, start: int, end: int, i: int)
    requires
        0 <= start <= i <= end <= b.len(),
    ensures
        next_backslash(b.subrange(start, end), i - start, end - start) == next_backslash(b, i, end) - start,
    decreases end - i,
{
    let sub = b.subrange(start, end);
    if i < end {
        assert(sub[i - start] == b[i]);
        if b[i] != 0x5C {
            lemma_next_backslash_shift(b, start, end, i + 1);
        }
    }
}

/// An escape sequence that ends inside the slice `b[start..end]` reads the
/// same there as in `b`.
#[verifier::rlimit(30)]
proof fn lemma_escape_shift(b: Seq<u8>, start: int, end: int, j: int)
    requires
        0 <= start <= j < end <= b.len(),
        escape_spec(b, j) matches Ok(e) && e <= end,
    ensures
        escape_spec(b.subrange(start, end), j - start) == Ok::<int, MatchError>(escape_spec(b, j)->Ok_0 - start),
        escape_char(b.subrange(start, end), j - start) == escape_char(b, j),
{
    let sub = b.subrange(start, end);
    let k = j - start;
    lemma_escape_bounds(b, j);
    let e = escape_spec(b, j)->Ok_0;
    assert(sub[k + 1] == b[j + 1]);
    let code = b[j + 1];
    if code == 0x75 {
        lemma_hex4_shift(b, start, end, k + 2);
        let unit = hex4(b, j + 2)->Some_0;
        if is_high_surrogate(unit) {
            assert(sub[k + 6] == b[j + 6] && sub[k + 7] == b[j + 7]);
            lemma_hex4_shift(b, start, end, k + 8);
        }
    }
}

/// Decoding validated string content as raw text gives what decoding it in
/// place gives: for content that validation accepted (its closing quote at
/// `end`), [`unescape_raw`] of the slice succeeds with [`unescape_from`].
pub proof fn lemma_raw_of_content(b: Seq<u8>, start: int, end: int, i: int)
    requires
        valid_utf8(b),
        1 <= start <= i <= end < b.len(),
        b[start - 1] == 0x22,
        content_to(b, i, end),
    ensures
        unescape_raw(b.subrange(start, end), i - start) == Ok::<Seq<char>, int>(unescape_from(b, i, end)),
    decreases end - i,
{
    let sub = b.subrange(start, end);
    let i2 = i - start;
    lemma_next_backslash_shift(b, start, end, i);
    lemma_next_backslash(b, i, end);
    let j = next_backslash(b, i, end);
    assert(next_backslash(sub, i2, sub.len() as int) == j - start);
    assert(sub.subrange(i2, j - start) =~= b.subrange(i, j));
    if j < end {
        lemma_content_from_backslash(b, i, j, end);
        lemma_content_escape(b, j, end);
        let e = escape_spec(b, j)->Ok_0;
        lemma_escape_shift(b, start, end, j);
        lemma_raw_of_content(b, start, end, e);
    }
}

/// Plain content bytes before the backslash at `j` keep the scan's end.
proof fn lemma_content_from_backslash(b: Seq<u8>, i: int, j: int, end: int)
    requires
        0 <= i <= j <= end,
        content_to(b, i, end),
        forall|k: int| i <= k < j ==> b[k] != 0x5C,
    ensures
        content_to(b, j, end),
    decreases j - i,
{
    if i < j {
        lemma_content_step(b, i, end);
        lemma_content_from_backslash(b, i + 1, j, end);
    }
}


/// Decoding from `i` fails, if at all, at a backslash at or after `i`.
proof fn lemma_unescape_raw_err_at_or_after(r: Seq<u8>, i: int)
    requires
        0 <= i,
    ensures
        unescape_raw(r, i) matches Err(j) ==> i <= j,
    decreases r.len() - i,
{
    if i <= r.len() {
        let j = next_backslash(r, i, r.len() as int);
        lemma_next_backslash(r, i, r.len() as int);
        if j < r.len() {
            if let Ok(e) = escape_spec(r, j) {
                if j < e <= r.len() {
                    lemma_unescape_raw_err_at_or_after(r, e);
                }
            }
        }
    }
}

/// An escape sequence reads the same at `p` in `b` as at the start of the
/// tail `b[p..]`.
#[verifier::rlimit(40)]
proof fn lemma_escape_tail(b: Seq<u8>, p: int)
    requires
        0 <= p < b.len(),
    ensures
        escape_spec(b.subrange(p, b.len() as int), 0) is Ok <==> escape_spec(b, p) is Ok,
        escape_spec(b, p) is Ok ==> escape_spec(b.subrange(p, b.len() as int), 0)->Ok_0 == escape_spec(b, p)->Ok_0 - p,
{
    let sub = b.subrange(p, b.len() as int);
    assert forall|k: int| 0 <= k implies #[trigger] at(sub, k) == at(b, p + k) by {}
    assert forall|k: int| 0 <= k implies #[trigger] hex4(sub, k) == hex4(b, p + k) by {
        if k + 4 <= sub.len() {
            lemma_hex4_shift(b, p, b.len() as int, k);
        }
    }
    assert(peek_spec(sub, 1) == peek_spec(b, p + 1));
    assert(at(sub, 6) == at(b, p + 6) && at(sub, 7) == at(b, p + 7));
    assert(hex4(sub, 2) == hex4(b, p + 2) && hex4(sub, 8) == hex4(b, p + 8));
}

/// Validating an escape sequence agrees with decoding it: for a backslash at
/// `p` with a byte after it, validation refuses the escape exactly when
/// decoding the text from `p` fails at its very start (both report an invalid
/// escape at `p`); and the escape validation accepts, `b[p..q]`, decodes
/// alone to the one character it stands for.
pub proof fn lemma_escape_validation_agrees(b: Seq<u8>, p: int)
    requires
        0 <= p,
        p + 1 < b.len(),
        b[p] == 0x5C,
    ensures
        escape_spec(b, p) is Err <==> unescape_raw(b.subrange(p, b.len() as int), 0) == Err::<Seq<char>, int>(0),
        escape_spec(b, p) is Err ==> escape_spec(b, p) == Err::<int, MatchError>(MatchError::InvalidEscape { pos: p as u32 }),
        escape_spec(b, p) matches Ok(q) ==> unescape_raw(b.subrange(p, q), 0) == Ok::<Seq<char>, int>(seq![escape_char(b, p)]),
{
    let sub = b.subrange(p, b.len() as int);
    lemma_escape_tail(b, p);
    assert(next_backslash(sub, 0, sub.len() as int) == 0);
    lemma_escape_bounds(sub, 0);
    if let Ok(e) = escape_spec(sub, 0) {
        lemma_unescape_raw_err_at_or_after(sub, e);
    }
    if let Ok(q) = escape_spec(b, p) {
        lemma_escape_bounds(b, p);
        lemma_escape_shift(b, p, q, p);
        let s2 = b.subrange(p, q);
        assert(next_backslash(s2, 0, s2.len() as int) == 0);
        assert(s2.subrange(0, 0) =~= Seq::<u8>::empty());
        assert(s2.subrange(q - p, q - p) =~= Seq::<u8>::empty());
        assert(next_backslash(s2, q - p, s2.len() as int) == q - p);
        assert(decode_utf8(Seq::<u8>::empty()) =~= Seq::<char>::empty());
        assert(unescape_raw(s2, q - p) == Ok::<Seq<char>, int>(Seq::<char>::empty()));
        assert(Seq::<char>::empty() + seq![escape_char(b, p)] + Seq::<char>::empty() =~= seq![escape_char(b, p)]);
    }
}


/// The hexadecimal digit of `d < 16`, its letters in upper or lower case.
pub open spec fn hex_char(d: int, upper: bool) -> char {
    if d < 10 {
        (0x30 + d) as char
    } else if upper {
        (0x37 + d) as char
    } else {
        (0x57 + d) as char
    }
}

/// The four hexadecimal digits of `v < 0x10000`.
pub open spec fn hex4_text(v: int, upper: bool) -> Seq<char> {
    seq![hex_char(v / 4096 % 16, upper), hex_char(v / 256 % 16, upper), hex_char(v / 16 % 16, upper), hex_char(v % 16, upper)]
}

/// A character as a `\u` escape: its code unit, or above U+FFFF the
/// surrogate pair of UTF-16.
#[verifier::opaque]
pub open spec fn unicode_escape(c: char, upper: bool) -> Seq<char> {
    let v = (c as u32) as int;
    if v <= 0xFFFF {
        seq!['\\', 'u'] + hex4_text(v, upper)
    } else {
        seq!['\\', 'u'] + hex4_text(0xD800 + (v - 0x10000) / 0x400, upper) + seq!['\\', 'u']
            + hex4_text(0xDC00 + (v - 0x10000) % 0x400, upper)
    }
}

/// One character written as JSON string content: a quote and a backslash
/// behind a backslash; otherwise, for `Some(upper)`, a `\u` escape with
/// hexadecimal letters in that case; for `None`, the character itself, or a
/// lowercase `\u` escape for a control character.
pub open spec fn escape_text_char(c: char, form: Option<bool>) -> Seq<char> {
    if c == '"' {
        seq!['\\', '"']
    } else if c == '\\' {
        seq!['\\', '\\']
    } else {
        match form {
            Some(upper) => unicode_escape(c, upper),
            None => if (c as u32) < 0x20 { unicode_escape(c, false) } else { seq![c] },
        }
    }
}

/// The text `t` written as JSON string content, character by character,
/// `form[k]` choosing how `t[k]` is written.
pub open spec fn escape_text(t: Seq<char>, form: Seq<Option<bool>>) -> Seq<char>
    decreases t.len(),
{
    if t.len() == 0 {
        Seq::empty()
    } else {
        escape_text_char(t[0], form[0]) + escape_text(t.drop_first(), form.drop_first())
    }
}

proof fn lemma_encode_concat(a: Seq<char>, b: Seq<char>)
    ensures
        encode_utf8(a + b) == encode_utf8(a) + encode_utf8(b),
    decreases a.len(),
{
    if a.len() == 0 {
        assert(a + b =~= b);
        assert(encode_utf8(a) =~= Seq::<u8>::empty());
        assert(encode_utf8(a) + encode_utf8(b) =~= encode_utf8(b));
    } else {
        assert((a + b)[0] == a[0]);
        assert((a + b).drop_first() =~= a.drop_first() + b);
        lemma_encode_concat(a.drop_first(), b);
        assert(encode_utf8(a + b) =~= encode_scalar(a[0] as u32) + encode_utf8(a.drop_first() + b));
    }
}

/// An ASCII character is encoded as its own byte.
proof fn lemma_encode_ascii_char(c: char)
    requires
        (c as u32) < 0x80,
    ensures
        encode_scalar(c as u32) == seq![(c as u32) as u8],
{
    let v = c as u32;
    assert((v & 0x7F) as u8 == v as u8) by (bit_vector)
        requires
            v < 0x80,
    ;
}

/// The UTF-8 bytes of a character other than the backslash hold no
/// backslash byte.
proof fn lemma_scalar_no_backslash(c: char)
    requires
        c != '\\',
    ensures
        forall|k: int| 0 <= k < encode_scalar(c as u32).len() ==> #[trigger] encode_scalar(c as u32)[k] != 0x5C,
{
    let v = c as u32;
    char_is_scalar(c);
    if has_width_1_encoding(v) {
        lemma_encode_ascii_char(c);
        if v == 0x5C {
            char_u32_cast(c, v);
            char_u32_cast('\\', 0x5Cu32);
        }
    } else {
        assert(leading_byte_width_2(v) >= 0x80) by (bit_vector);
        assert(leading_byte_width_3(v) >= 0x80) by (bit_vector);
        assert(leading_byte_width_4(v) >= 0x80) by (bit_vector);
        assert(last_continuation_byte(v) >= 0x80) by (bit_vector);
        assert(second_last_continuation_byte(v) >= 0x80) by (bit_vector);
        assert(third_last_continuation_byte(v) >= 0x80) by (bit_vector);
    }
}

/// Decoding one encoded character in front of valid UTF-8.
proof fn lemma_decode_scalar_prefix(c: char, y: Seq<u8>)
    requires
        valid_utf8(y),
    ensures
        valid_utf8(encode_scalar(c as u32) + y),
        decode_utf8(encode_scalar(c as u32) + y) == seq![c] + decode_utf8(y),
{
    let d = decode_utf8(y);
    decode_utf8_encode_utf8(y);
    assert(encode_utf8(seq![c]) =~= encode_scalar(c as u32) + encode_utf8(seq![c].drop_first()));
    assert(seq![c].drop_first() =~= Seq::<char>::empty());
    assert(encode_utf8(Seq::<char>::empty()) =~= Seq::<u8>::empty());
    assert(encode_scalar(c as u32) + Seq::<u8>::empty() =~= encode_scalar(c as u32));
    lemma_encode_concat(seq![c], d);
    encode_utf8_decode_utf8(seq![c] + d);
    encode_utf8_valid_utf8(seq![c] + d);
}

/// Bytes without a backslash are passed over in the search for one.
proof fn lemma_next_backslash_skip(b: Seq<u8>, i: int, k: int, end: int)
    requires
        i <= k <= end,
        forall|t: int| i <= t < k ==> b[t] != 0x5C,
    ensures
        next_backslash(b, i, end) == next_backslash(b, k, end),
    decreases k - i,
{
    if i < k {
        lemma_next_backslash_skip(b, i + 1, k, end);
    }
}

/// An escape sequence reads the same at `j` in the tail `b[m..]` as at
/// `m + j` in `b`.
#[verifier::rlimit(40)]
proof fn lemma_escape_in_tail(b: Seq<u8>, m: int, j: int)
    requires
        0 <= m <= b.len(),
        0 <= j,
    ensures
        escape_spec(b.subrange(m, b.len() as int), j) is Ok <==> escape_spec(b, m + j) is Ok,
        escape_spec(b, m + j) is Ok ==> escape_spec(b.subrange(m, b.len() as int), j)->Ok_0 == escape_spec(b, m + j)->Ok_0 - m
            && escape_char(b.subrange(m, b.len() as int), j) == escape_char(b, m + j),
{
    let sub = b.subrange(m, b.len() as int);
    assert forall|k: int| 0 <= k implies #[trigger] at(sub, k) == at(b, m + k) by {}
    assert forall|k: int| 0 <= k implies #[trigger] hex4(sub, k) == hex4(b, m + k) by {
        if k + 4 <= sub.len() {
            lemma_hex4_shift(b, m, b.len() as int, k);
        }
    }
    assert(peek_spec(sub, j + 1) == peek_spec(b, m + j + 1));
    assert(at(sub, j + 6) == at(b, m + j + 6) && at(sub, j + 7) == at(b, m + j + 7));
    assert(hex4(sub, j + 2) == hex4(b, m + j + 2) && hex4(sub, j + 8) == hex4(b, m + j + 8));
    if escape_spec(b, m + j) is Ok {
        assert(sub[j + 1] == b[m + j + 1]);
    }
}

/// Decoding `pre + r` from inside `r` is decoding `r`, with error positions
/// moved by `pre`'s length.
#[verifier::rlimit(40)]
proof fn lemma_raw_tail(pre: Seq<u8>, r: Seq<u8>, i: int)
    requires
        0 <= i <= r.len(),
    ensures
        unescape_raw(pre + r, pre.len() + i) == match unescape_raw(r, i) {
            Ok(x) => Ok::<Seq<char>, int>(x),
            Err(p) => Err::<Seq<char>, int>(p + pre.len()),
        },
    decreases r.len() - i,
{
    let big = pre + r;
    let m = pre.len() as int;
    assert(big.subrange(m, big.len() as int) =~= r);
    lemma_next_backslash_shift(big, m, big.len() as int, m + i);
    let j = next_backslash(r, i, r.len() as int);
    lemma_next_backslash(r, i, r.len() as int);
    assert(big.subrange(m + i, m + j) =~= r.subrange(i, j));
    if j < r.len() {
        lemma_escape_in_tail(big, m, j);
        if let Ok(e) = escape_spec(r, j) {
            if j < e <= r.len() {
                lemma_raw_tail(pre, r, e);
            }
        }
    }
}

/// A character other than the backslash, written as itself in front of
/// content that decodes to `x`, decodes to that character and `x`.
#[verifier::rlimit(40)]
proof fn lemma_raw_plain(c: char, r: Seq<u8>, x: Seq<char>)
    requires
        c != '\\',
        valid_utf8(r),
        unescape_raw(r, 0) == Ok::<Seq<char>, int>(x),
    ensures
        unescape_raw(encode_scalar(c as u32) + r, 0) == Ok::<Seq<char>, int>(seq![c] + x),
{
    let pre = encode_scalar(c as u32);
    let big = pre + r;
    let m = pre.len() as int;
    lemma_scalar_no_backslash(c);
    lemma_next_backslash_skip(big, 0, m, big.len() as int);
    assert(big.subrange(m, big.len() as int) =~= r);
    lemma_next_backslash_shift(big, m, big.len() as int, m);
    let jr = next_backslash(r, 0, r.len() as int);
    lemma_next_backslash(r, 0, r.len() as int);
    assert(next_backslash(big, 0, big.len() as int) == m + jr);
    if jr < r.len() {
        lemma_ascii_boundary(r, jr);
    } else {
        vstd::utf8::is_char_boundary_start_end_of_seq(r);
    }
    vstd::utf8::valid_utf8_split(r, jr);
    let r0 = r.subrange(0, jr);
    assert(big.subrange(0, m + jr) =~= pre + r0);
    lemma_decode_scalar_prefix(c, r0);
    if jr < r.len() {
        lemma_escape_in_tail(big, m, jr);
        let e = escape_spec(r, jr)->Ok_0;
        lemma_raw_tail(pre, r, e);
        let rest = unescape_raw(r, e)->Ok_0;
        assert(x == decode_utf8(r0) + seq![escape_char(r, jr)] + rest);
        assert(seq![c] + decode_utf8(r0) + seq![escape_char(r, jr)] + rest =~= seq![c] + x);
    } else {
        assert(r0 =~= r.subrange(0, r.len() as int));
    }
}

/// A character written as an escape sequence `esc` in front of content that
/// decodes to `x` decodes to that character and `x`.
proof fn lemma_raw_escape(esc: Seq<u8>, c: char, r: Seq<u8>, x: Seq<char>)
    requires
        esc.len() >= 2,
        esc[0] == 0x5C,
        escape_spec(esc + r, 0) == Ok::<int, MatchError>(esc.len() as int),
        escape_char(esc + r, 0) == c,
        unescape_raw(r, 0) == Ok::<Seq<char>, int>(x),
    ensures
        unescape_raw(esc + r, 0) == Ok::<Seq<char>, int>(seq![c] + x),
{
    let big = esc + r;
    assert(next_backslash(big, 0, big.len() as int) == 0);
    assert(big.subrange(0, 0) =~= Seq::<u8>::empty());
    assert(decode_utf8(Seq::<u8>::empty()) =~= Seq::<char>::empty());
    lemma_raw_tail(esc, r, 0);
    assert(Seq::<char>::empty() + seq![c] + x =~= seq![c] + x);
}

/// Writing text as JSON string content and decoding it again gives the text
/// back: [`unescape_into`] undoes [`escape_text`], whatever the text and
/// however each character is written (itself or a `\u` escape with
/// either case of hexadecimal letters).
pub proof fn lemma_unescape_undoes_escape(t: Seq<char>, form: Seq<Option<bool>>)
    ensures
        unescape_raw(encode_utf8(escape_text(t, form)), 0) == Ok::<Seq<char>, int>(t),
    decreases t.len(),
{
    if t.len() == 0 {
        assert(encode_utf8(escape_text(t, form)) =~= Seq::<u8>::empty());
        assert(next_backslash(Seq::<u8>::empty(), 0, 0) == 0);
        assert(Seq::<u8>::empty().subrange(0, 0) =~= Seq::<u8>::empty());
        assert(decode_utf8(Seq::<u8>::empty()) =~= Seq::<char>::empty());
        assert(unescape_raw(Seq::<u8>::empty(), 0) == Ok::<Seq<char>, int>(Seq::<char>::empty()));
        assert(t =~= Seq::<char>::empty());
    } else {
        let c = t[0];
        let u = form[0];
        let rest = t.drop_first();
        lemma_unescape_undoes_escape(rest, form.drop_first());
        let r = encode_utf8(escape_text(rest, form.drop_first()));
        encode_utf8_valid_utf8(escape_text(rest, form.drop_first()));
        lemma_encode_concat(escape_text_char(c, u), escape_text(rest, form.drop_first()));
        assert(t =~= seq![c] + rest);
        assert(escape_text(t, form) == escape_text_char(c, u) + escape_text(rest, form.drop_first()));
        lemma_escape_step(c, u, r, rest);
    }
}

/// One written character in front of content that decodes to `x` decodes
/// to that character and `x`.
proof fn lemma_escape_step(c: char, u: Option<bool>, r: Seq<u8>, x: Seq<char>)
    requires
        valid_utf8(r),
        unescape_raw(r, 0) == Ok::<Seq<char>, int>(x),
    ensures
        unescape_raw(encode_utf8(escape_text_char(c, u)) + r, 0) == Ok::<Seq<char>, int>(seq![c] + x),
{
    let pre = encode_utf8(escape_text_char(c, u));
    if c != '"' && c != '\\' && (c as u32) >= 0x20 && u is None {
        assert(pre =~= encode_scalar(c as u32) + encode_utf8(seq![c].drop_first()));
        assert(seq![c].drop_first() =~= Seq::<char>::empty());
        assert(encode_utf8(Seq::<char>::empty()) =~= Seq::<u8>::empty());
        assert(pre =~= encode_scalar(c as u32));
        lemma_raw_plain(c, r, x);
    } else {
        lemma_escape_text_bytes(c, u, r);
        lemma_raw_escape(pre, c, r, x);
    }
}

/// ASCII text is encoded byte for byte.
proof fn lemma_encode_ascii(s: Seq<char>)
    requires
        forall|i: int| 0 <= i < s.len() ==> (#[trigger] s[i] as u32) < 0x80,
    ensures
        encode_utf8(s).len() == s.len(),
        forall|i: int| 0 <= i < s.len() ==> #[trigger] encode_utf8(s)[i] == (s[i] as u32) as u8,
    decreases s.len(),
{
    if s.len() > 0 {
        let rest = s.drop_first();
        assert forall|i: int| 0 <= i < rest.len() implies (#[trigger] rest[i] as u32) < 0x80 by {
            assert(rest[i] == s[i + 1]);
        }
        lemma_encode_ascii(rest);
        assert((s[0] as u32) < 0x80);
        lemma_encode_ascii_char(s[0]);
        assert forall|i: int| 0 <= i < s.len() implies #[trigger] encode_utf8(s)[i] == (s[i] as u32) as u8 by {
            if i > 0 {
                assert(s[i] == rest[i - 1]);
            }
        }
    }
}

/// The bytes of a character written as an escape sequence read, in front of
/// anything, as one valid escape standing for that character.
proof fn lemma_escape_text_bytes(c: char, u: Option<bool>, r: Seq<u8>)
    requires
        c == '"' || c == '\\' || (c as u32) < 0x20 || u is Some,
    ensures
        ({
            let pre = encode_utf8(escape_text_char(c, u));
            &&& pre.len() >= 2
            &&& pre[0] == 0x5C
            &&& escape_spec(pre + r, 0) == Ok::<int, MatchError>(pre.len() as int)
            &&& escape_char(pre + r, 0) == c
        }),
{
    let s = escape_text_char(c, u);
    if c == '"' || c == '\\' {
        assert forall|i: int| 0 <= i < s.len() implies (#[trigger] s[i] as u32) < 0x80 by {}
        lemma_encode_ascii(s);
        let big = encode_utf8(s) + r;
        assert(big[0] == encode_utf8(s)[0] && big[1] == encode_utf8(s)[1]);
        assert(escape_spec(big, 0) == Ok::<int, MatchError>(2));
    } else {
        lemma_unicode_escape_bytes(c, match u { Some(upper) => upper, None => false }, r);
    }
}

/// The hexadecimal digit character of `d < 16` reads back as `d`.
proof fn lemma_hex_char(d: int, upper: bool)
    requires
        0 <= d < 16,
    ensures
        (hex_char(d, upper) as u32) < 0x80,
        hex_digit(((hex_char(d, upper) as u32) as u8)) == Some(d as u16),
{
    assert((hex_char(d, upper) as u32) as int == if d < 10 { 0x30 + d } else if upper { 0x37 + d } else { 0x57 + d });
}

/// Four hexadecimal digit characters read back as the code unit they spell.
#[verifier::rlimit(40)]
proof fn lemma_hex4_text(v: int, upper: bool, b: Seq<u8>, p: int)
    requires
        0 <= v <= 0xFFFF,
        0 <= p,
        p + 4 <= b.len(),
        forall|k: int| 0 <= k < 4 ==> b[p + k] == ((#[trigger] hex4_text(v, upper)[k] as u32) as u8),
    ensures
        hex4(b, p) == Some(v as u16),
{
    let h = hex4_text(v, upper);
    lemma_hex_char(v / 4096 % 16, upper);
    lemma_hex_char(v / 256 % 16, upper);
    lemma_hex_char(v / 16 % 16, upper);
    lemma_hex_char(v % 16, upper);
    assert(b[p] == ((h[0] as u32) as u8));
    assert(b[p + 1] == ((h[1] as u32) as u8));
    assert(b[p + 2] == ((h[2] as u32) as u8));
    assert(b[p + 3] == ((h[3] as u32) as u8));
    lemma_hex4_sum(v);
}

/// A code unit is the sum of its four hexadecimal digits.
proof fn lemma_hex4_sum(v: int)
    by (nonlinear_arith)
    requires
        0 <= v <= 0xFFFF,
    ensures
        (v / 4096 % 16) * 4096 + (v / 256 % 16) * 256 + (v / 16 % 16) * 16 + v % 16 == v,
{
}

/// A `\u` escape, alone or as a surrogate pair, reads as the character it
/// was written for.
#[verifier::rlimit(60)]
proof fn lemma_unicode_escape_bytes(c: char, upper: bool, r: Seq<u8>)
    ensures
        ({
            let pre = encode_utf8(unicode_escape(c, upper));
            &&& pre.len() >= 2
            &&& pre[0] == 0x5C
            &&& escape_spec(pre + r, 0) == Ok::<int, MatchError>(pre.len() as int)
            &&& escape_char(pre + r, 0) == c
        }),
{
    reveal(unicode_escape);
    let v = (c as u32) as int;
    char_is_scalar(c);
    char_u32_cast(c, c as u32);
    let s = unicode_escape(c, upper);
    let h1 = if v <= 0xFFFF { v } else { 0xD800 + (v - 0x10000) / 0x400 };
    let h2 = 0xDC00 + (v - 0x10000) % 0x400;
    lemma_hex_char(h1 / 4096 % 16, upper);
    lemma_hex_char(h1 / 256 % 16, upper);
    lemma_hex_char(h1 / 16 % 16, upper);
    lemma_hex_char(h1 % 16, upper);
    lemma_hex_char(h2 / 4096 % 16, upper);
    lemma_hex_char(h2 / 256 % 16, upper);
    lemma_hex_char(h2 / 16 % 16, upper);
    lemma_hex_char(h2 % 16, upper);
    assert forall|i: int| 0 <= i < s.len() implies (#[trigger] s[i] as u32) < 0x80 by {}
    lemma_encode_ascii(s);
    let pre = encode_utf8(s);
    let big = pre + r;
    assert forall|k: int| 0 <= k < pre.len() implies #[trigger] big[k] == ((s[k] as u32) as u8) by {}
    assert(big[0] == 0x5C && big[1] == 0x75);
    lemma_hex4_text(h1, upper, big, 2);
    if v <= 0xFFFF {
        assert(!(0xD800 <= v <= 0xDFFF));
    } else {
        assert(0xD800 <= h1 <= 0xDBFF);
        assert(0xDC00 <= h2 <= 0xDFFF);
        assert(big[6] == 0x5C && big[7] == 0x75);
        assert(at(big, 6) == Some(0x5Cu8) && at(big, 7) == Some(0x75u8));
        lemma_hex4_text(h2, upper, big, 8);
        assert(0x10000 + (h1 - 0xD800) * 0x400 + (h2 - 0xDC00) == v);
    }
}


/// The letter of a character's two-character escape in JSON, for the
/// characters that have one: `\"`, `\\`, `\/`, `\b` (U+0008), `\f` (U+000C),
/// `\n`, `\r` and `\t`.
pub open spec fn short_escape_letter(c: char) -> Option<char> {
    if c == '"' {
        Some('"')
    } else if c == '\\' {
        Some('\\')
    } else if c == '/' {
        Some('/')
    } else if c == '\u{8}' {
        Some('b')
    } else if c == '\u{c}' {
        Some('f')
    } else if c == '\n' {
        Some('n')
    } else if c == '\r' {
        Some('r')
    } else if c == '\t' {
        Some('t')
    } else {
        None
    }
}

/// The text `t` written as JSON string content where `short[k]` may also
/// write `t[k]` with its two-character escape, when it has one; otherwise
/// `form[k]` chooses as in [`escape_text`].
pub open spec fn escape_text_short(t: Seq<char>, short: Seq<bool>, form: Seq<Option<bool>>) -> Seq<char>
    decreases t.len(),
{
    if t.len() == 0 {
        Seq::empty()
    } else {
        (if short[0] && short_escape_letter(t[0]) is Some {
            seq!['\\', short_escape_letter(t[0])->Some_0]
        } else {
            escape_text_char(t[0], form[0])
        }) + escape_text_short(t.drop_first(), short.drop_first(), form.drop_first())
    }
}

/// A two-character escape, in front of anything, reads as one valid escape
/// standing for its character.
proof fn lemma_short_escape_bytes(c: char, r: Seq<u8>)
    requires
        short_escape_letter(c) is Some,
    ensures
        ({
            let pre = encode_utf8(seq!['\\', short_escape_letter(c)->Some_0]);
            &&& pre.len() >= 2
            &&& pre[0] == 0x5C
            &&& escape_spec(pre + r, 0) == Ok::<int, MatchError>(pre.len() as int)
            &&& escape_char(pre + r, 0) == c
        }),
{
    let s = seq!['\\', short_escape_letter(c)->Some_0];
    assert forall|i: int| 0 <= i < s.len() implies (#[trigger] s[i] as u32) < 0x80 by {}
    lemma_encode_ascii(s);
    let pre = encode_utf8(s);
    let big = pre + r;
    assert(big[0] == pre[0] && big[1] == pre[1]);
    assert(escape_spec(big, 0) == Ok::<int, MatchError>(2));
}

/// Decoding undoes writing text as JSON string content, whichever
/// characters are written with their two-character escapes (`\b` decodes to
/// U+0008, `\f` to U+000C, and so on) and however the rest are written.
pub proof fn lemma_unescape_undoes_short_escapes(t: Seq<char>, short: Seq<bool>, form: Seq<Option<bool>>)
    ensures
        unescape_raw(encode_utf8(escape_text_short(t, short, form)), 0) == Ok::<Seq<char>, int>(t),
    decreases t.len(),
{
    if t.len() == 0 {
        assert(encode_utf8(escape_text_short(t, short, form)) =~= Seq::<u8>::empty());
        assert(next_backslash(Seq::<u8>::empty(), 0, 0) == 0);
        assert(Seq::<u8>::empty().subrange(0, 0) =~= Seq::<u8>::empty());
        assert(decode_utf8(Seq::<u8>::empty()) =~= Seq::<char>::empty());
        assert(unescape_raw(Seq::<u8>::empty(), 0) == Ok::<Seq<char>, int>(Seq::<char>::empty()));
        assert(t =~= Seq::<char>::empty());
    } else {
        let c = t[0];
        let rest = t.drop_first();
        lemma_unescape_undoes_short_escapes(rest, short.drop_first(), form.drop_first());
        let tail = escape_text_short(rest, short.drop_first(), form.drop_first());
        let r = encode_utf8(tail);
        encode_utf8_valid_utf8(tail);
        let head = if short[0] && short_escape_letter(c) is Some {
            seq!['\\', short_escape_letter(c)->Some_0]
        } else {
            escape_text_char(c, form[0])
        };
        lemma_encode_concat(head, tail);
        assert(t =~= seq![c] + rest);
        assert(escape_text_short(t, short, form) == head + tail);
        if short[0] && short_escape_letter(c) is Some {
            lemma_short_escape_bytes(c, r);
            lemma_raw_escape(encode_utf8(head), c, r, rest);
        } else {
            lemma_escape_step(c, form[0], r, rest);
        }
    }
}

} // verus!
