//! Byte-level JSON lexing: whitespace, keywords, numbers, strings and escapes.
//!
//! Each scanner is an executable function paired with a spec function that
//! states the grammar it implements, including the exact error it reports.

use vstd::prelude::*;
use crate::types::MatchError;

verus! {

/// Inputs are limited to `u32::MAX` bytes, so every position fits in a `u32`.
pub open spec fn input_ok(b: Seq<u8>) -> bool {
    b.len() <= u32::MAX
}

/// The byte at `i`, if `i` is inside the input.
pub open spec fn at(b: Seq<u8>, i: int) -> Option<u8> {
    if 0 <= i < b.len() { Some(b[i]) } else { None }
}

pub open spec fn is_ws(c: u8) -> bool {
    c == 0x20 || c == 0x09 || c == 0x0A || c == 0x0D
}

pub open spec fn is_digit(c: u8) -> bool {
    0x30 <= c <= 0x39
}

/// An executable position result seen as a spec position result.
pub open spec fn lift(r: Result<u64, MatchError>) -> Result<int, MatchError> {
    match r {
        Ok(e) => Ok(e as int),
        Err(x) => Err(x),
    }
}

/// An executable (position, flag) result seen as a spec result.
pub open spec fn lift_pair(r: Result<(u64, bool), MatchError>) -> Result<(int, bool), MatchError> {
    match r {
        Ok((e, f)) => Ok((e as int, f)),
        Err(x) => Err(x),
    }
}

/// The first position at or after `i` that does not hold JSON whitespace.
pub open spec fn ws_end(b: Seq<u8>, i: int) -> int
    decreases b.len() - i,
{
    if 0 <= i < b.len() && is_ws(b[i]) { ws_end(b, i + 1) } else { i }
}

/// The first position at or after `i` that does not hold a decimal digit.
pub open spec fn digits_end(b: Seq<u8>, i: int) -> int
    decreases b.len() - i,
{
    if 0 <= i < b.len() && is_digit(b[i]) { digits_end(b, i + 1) } else { i }
}

/// Peeking at `i`: the byte, or `UnexpectedEof` past the end.
pub open spec fn peek_spec(b: Seq<u8>, i: int) -> Result<u8, MatchError> {
    if 0 <= i < b.len() { Ok(b[i]) } else { Err(MatchError::UnexpectedEof) }
}

/// End of the integer part of a number whose digits start at `i`:
/// a single `0`, or a nonzero digit followed by any digits.
pub open spec fn int_part_end(b: Seq<u8>, i: int) -> Option<int> {
    match at(b, i) {
        Some(c) => if c == 0x30 {
            Some(i + 1)
        } else if 0x31 <= c <= 0x39 {
            Some(digits_end(b, i + 1))
        } else {
            None
        },
        None => None,
    }
}

/// End of the optional fraction `.digits+` starting at `i`.
pub open spec fn frac_end(b: Seq<u8>, i: int) -> Option<int> {
    if at(b, i) == Some(0x2Eu8) {
        let d = digits_end(b, i + 1);
        if d == i + 1 { None } else { Some(d) }
    } else {
        Some(i)
    }
}

/// End of the optional exponent `[eE][+-]?digits+` starting at `i`.
pub open spec fn exp_end(b: Seq<u8>, i: int) -> Option<int> {
    if at(b, i) == Some(0x65u8) || at(b, i) == Some(0x45u8) {
        let j = if at(b, i + 1) == Some(0x2Bu8) || at(b, i + 1) == Some(0x2Du8) {
            i + 2
        } else {
            i + 1
        };
        let d = digits_end(b, j);
        if d == j { None } else { Some(d) }
    } else {
        Some(i)
    }
}

/// The strict JSON number grammar `-?(0|[1-9][0-9]*)(\.[0-9]+)?([eE][+-]?[0-9]+)?`,
/// matched greedily from `pos`: the end of the number, or `None`.
pub open spec fn number_end(b: Seq<u8>, pos: int) -> Option<int> {
    let i0 = if at(b, pos) == Some(0x2Du8) { pos + 1 } else { pos };
    match int_part_end(b, i0) {
        Some(i1) => match frac_end(b, i1) {
            Some(i2) => exp_end(b, i2),
            None => None,
        },
        None => None,
    }
}

pub open spec fn number_spec(b: Seq<u8>, pos: int) -> Result<int, MatchError> {
    match number_end(b, pos) {
        Some(e) => Ok(e),
        None => Err(MatchError::InvalidNumber { pos: pos as u32 }),
    }
}

/// At least one byte, each a decimal digit.
pub open spec fn all_digits(t: Seq<u8>) -> bool {
    t.len() > 0 && forall|k: int| 0 <= k < t.len() ==> is_digit(#[trigger] t[k])
}

/// The integer part of a JSON number: `0`, or a nonzero digit and any digits.
pub open spec fn int_text(t: Seq<u8>) -> bool {
    ||| t.len() == 1 && t[0] == 0x30
    ||| t.len() >= 1 && 0x31 <= t[0] <= 0x39 && forall|k: int| 1 <= k < t.len() ==> is_digit(#[trigger] t[k])
}

/// The fraction of a JSON number: nothing, or `.` and digits.
pub open spec fn frac_text(t: Seq<u8>) -> bool {
    t.len() == 0 || (t[0] == 0x2E && all_digits(t.drop_first()))
}

/// The exponent of a JSON number: nothing, or `e` or `E`, an optional sign
/// and digits.
pub open spec fn exp_text(t: Seq<u8>) -> bool {
    ||| t.len() == 0
    ||| (t[0] == 0x65 || t[0] == 0x45) && all_digits(t.drop_first())
    ||| (t[0] == 0x65 || t[0] == 0x45) && t.len() >= 2 && (t[1] == 0x2B || t[1] == 0x2D) && all_digits(t.skip(2))
}

/// The number grammar of RFC 8259, read declaratively: `t` splits into an
/// optional minus, an integer part, a fraction and an exponent.
pub open spec fn number_text(t: Seq<u8>) -> bool {
    exists|a: int, c: int, d: int|
        #![trigger int_text(t.subrange(a, c)), frac_text(t.subrange(c, d))]
        0 <= a <= c <= d <= t.len() && (a == 0 || (a == 1 && t[0] == 0x2D))
            && int_text(t.subrange(a, c)) && frac_text(t.subrange(c, d)) && exp_text(t.subrange(d, t.len() as int))
}

/// A byte that would carry a number on: a digit, `.`, `e` or `E`.
pub open spec fn continues_number(c: u8) -> bool {
    is_digit(c) || c == 0x2E || c == 0x65 || c == 0x45
}

/// The digits end exactly at `j` when the run from `i` to `j` is digits and
/// nothing after it is.
proof fn lemma_digits_end_exact(b: Seq<u8>, i: int, j: int)
    requires
        0 <= i <= j <= b.len(),
        forall|k: int| i <= k < j ==> is_digit(#[trigger] b[k]),
        j == b.len() || !is_digit(b[j]),
    ensures
        digits_end(b, i) == j,
{
    lemma_digits_end_bounds(b, i);
    let d = digits_end(b, i);
    if d < j {
        assert(is_digit(b[d]));
    } else if d > j {
        assert(is_digit(b[j]));
    }
}

/// What number validation accepts is a number by the declarative grammar:
/// the span it reads is a [`number_text`].
pub proof fn lemma_number_sound(b: Seq<u8>, pos: int)
    requires
        0 <= pos <= b.len(),
    ensures
        number_spec(b, pos) matches Ok(e) ==> pos < e <= b.len() && number_text(b.subrange(pos, e)),
{
    lemma_number_bounds(b, pos);
    if let Ok(e) = number_spec(b, pos) {
        let t = b.subrange(pos, e);
        let i0 = if at(b, pos) == Some(0x2Du8) { pos + 1 } else { pos };
        let i1 = int_part_end(b, i0)->Some_0;
        let i2 = frac_end(b, i1)->Some_0;
        lemma_digits_end_bounds(b, i0 + 1);
        lemma_digits_end_bounds(b, i1 + 1);
        assert(i0 < i1 <= b.len());
        assert(i1 <= i2 <= b.len());
        if at(b, i2) == Some(0x65u8) || at(b, i2) == Some(0x45u8) {
            let j = if at(b, i2 + 1) == Some(0x2Bu8) || at(b, i2 + 1) == Some(0x2Du8) { i2 + 2 } else { i2 + 1 };
            lemma_digits_end_bounds(b, j);
        }
        assert(i2 <= e);
        let a = i0 - pos;
        let c = i1 - pos;
        let d = i2 - pos;
        let ti = t.subrange(a, c);
        assert(ti =~= b.subrange(i0, i1));
        assert(int_text(ti));
        let tf = t.subrange(c, d);
        assert(tf =~= b.subrange(i1, i2));
        if at(b, i1) == Some(0x2Eu8) {
            assert(tf.drop_first() =~= b.subrange(i1 + 1, i2));
        }
        assert(frac_text(tf));
        let tx = t.subrange(d, t.len() as int);
        assert(tx =~= b.subrange(i2, e));
        if at(b, i2) == Some(0x65u8) || at(b, i2) == Some(0x45u8) {
            let j = if at(b, i2 + 1) == Some(0x2Bu8) || at(b, i2 + 1) == Some(0x2Du8) { i2 + 2 } else { i2 + 1 };
            lemma_digits_end_bounds(b, j);
            if j == i2 + 2 {
                assert(tx.skip(2) =~= b.subrange(j, e));
            } else {
                assert(tx.drop_first() =~= b.subrange(j, e));
            }
        }
        assert(exp_text(tx));
        assert(number_text(t));
    }
}

/// Number validation reads every number the declarative grammar allows, to
/// its end: a span that is a [`number_text`] and is not followed by a byte
/// that would carry it on (a digit, `.`, `e` or `E`) is exactly what
/// validation accepts.
pub proof fn lemma_number_complete(b: Seq<u8>, pos: int, e: int)
    requires
        0 <= pos <= e <= b.len(),
        number_text(b.subrange(pos, e)),
        !(at(b, e) matches Some(x) && continues_number(x)),
    ensures
        number_spec(b, pos) == Ok::<int, MatchError>(e),
{
    let t = b.subrange(pos, e);
    let (a, c, d) = choose|a: int, c: int, d: int|
        #![trigger int_text(t.subrange(a, c)), frac_text(t.subrange(c, d))]
        0 <= a <= c <= d <= t.len() && (a == 0 || (a == 1 && t[0] == 0x2D))
            && int_text(t.subrange(a, c)) && frac_text(t.subrange(c, d)) && exp_text(t.subrange(d, t.len() as int));
    let ti = t.subrange(a, c);
    let tf = t.subrange(c, d);
    let tx = t.subrange(d, t.len() as int);
    let i0 = pos + a;
    let i1 = pos + c;
    let i2 = pos + d;
    // where each part ends, the next one starts (or the number ends)
    assert(ti[0] == b[i0]);
    if a == 0 && t.len() > 0 {
        assert(t[0] == ti[0]);
    }
    assert(i0 == if at(b, pos) == Some(0x2Du8) { pos + 1 } else { pos });
    // the byte at i1: '.', 'e', 'E', or the end
    if d > c {
        assert(b[i1] == tf[0]);
    } else if tx.len() > 0 {
        assert(b[i1] == tx[0]);
    }
    if 0x31 <= ti[0] <= 0x39 {
        assert forall|k: int| i0 + 1 <= k < i1 implies is_digit(#[trigger] b[k]) by {
            assert(b[k] == ti[k - i0]);
        }
        lemma_digits_end_exact(b, i0 + 1, i1);
    }
    assert(int_part_end(b, i0) == Some(i1));
    if d > c {
        assert forall|k: int| i1 + 1 <= k < i2 implies is_digit(#[trigger] b[k]) by {
            assert(b[k] == tf.drop_first()[k - i1 - 1]);
        }
        if tx.len() > 0 {
            assert(b[i2] == tx[0]);
        }
        lemma_digits_end_exact(b, i1 + 1, i2);
    }
    assert(frac_end(b, i1) == Some(i2));
    if tx.len() > 0 {
        assert(b[i2] == tx[0]);
        if tx.len() >= 2 && (tx[1] == 0x2B || tx[1] == 0x2D) {
            assert(b[i2 + 1] == tx[1]);
            assert(tx.drop_first()[0] == tx[1]);
            assert(all_digits(tx.skip(2)));
            assert forall|k: int| i2 + 2 <= k < e implies is_digit(#[trigger] b[k]) by {
                assert(b[k] == tx.skip(2)[k - i2 - 2]);
            }
            lemma_digits_end_exact(b, i2 + 2, e);
        } else {
            assert(all_digits(tx.drop_first()));
            assert(tx.drop_first()[0] == tx[1]);
            assert(b[i2 + 1] == tx[1]);
            assert forall|k: int| i2 + 1 <= k < e implies is_digit(#[trigger] b[k]) by {
                assert(b[k] == tx.drop_first()[k - i2 - 1]);
            }
            lemma_digits_end_exact(b, i2 + 1, e);
        }
    }
    assert(exp_end(b, i2) == Some(e));
}

/// The value of one hexadecimal digit.
pub open spec fn hex_digit(c: u8) -> Option<u16> {
    if 0x30 <= c <= 0x39 {
        Some((c - 0x30) as u16)
    } else if 0x61 <= c <= 0x66 {
        Some((c - 0x61 + 10) as u16)
    } else if 0x41 <= c <= 0x46 {
        Some((c - 0x41 + 10) as u16)
    } else {
        None
    }
}

/// The 16-bit value of the four hexadecimal digits at `pos`, if there are four.
pub open spec fn hex4(b: Seq<u8>, pos: int) -> Option<u16> {
    if 0 <= pos && pos + 4 <= b.len() {
        match (hex_digit(b[pos]), hex_digit(b[pos + 1]), hex_digit(b[pos + 2]), hex_digit(b[pos + 3])) {
            (Some(d0), Some(d1), Some(d2), Some(d3)) =>
                Some((d0 * 4096 + d1 * 256 + d2 * 16 + d3) as u16),
            _ => None,
        }
    } else {
        None
    }
}

pub open spec fn is_high_surrogate(u: u16) -> bool {
    0xD800 <= u <= 0xDBFF
}

pub open spec fn is_low_surrogate(u: u16) -> bool {
    0xDC00 <= u <= 0xDFFF
}

pub open spec fn is_simple_escape(c: u8) -> bool {
    c == 0x22 || c == 0x5C || c == 0x2F || c == 0x62 || c == 0x66 || c == 0x6E || c == 0x72 || c == 0x74
}

/// One escape sequence whose backslash is at `pos`: the position just past it.
/// A `\u` high surrogate must be followed by a `\u` low surrogate; a lone low
/// surrogate is rejected.
pub open spec fn escape_spec(b: Seq<u8>, pos: int) -> Result<int, MatchError> {
    let bad = MatchError::InvalidEscape { pos: pos as u32 };
    match peek_spec(b, pos + 1) {
        Err(e) => Err(e),
        Ok(code) => if is_simple_escape(code) {
            Ok(pos + 2)
        } else if code == 0x75 {
            match hex4(b, pos + 2) {
                None => Err(bad),
                Some(unit) => if is_high_surrogate(unit) {
                    if at(b, pos + 6) != Some(0x5Cu8) || at(b, pos + 7) != Some(0x75u8) {
                        Err(bad)
                    } else {
                        match hex4(b, pos + 8) {
                            None => Err(bad),
                            Some(low) => if is_low_surrogate(low) { Ok(pos + 12) } else { Err(bad) },
                        }
                    }
                } else if is_low_surrogate(unit) {
                    Err(bad)
                } else {
                    Ok(pos + 6)
                },
            }
        } else {
            Err(bad)
        },
    }
}

/// Scanning string content from `i`: the position past the closing quote and
/// whether an escape was seen (`escaped` carries what was seen before `i`).
pub open spec fn string_from(b: Seq<u8>, i: int, escaped: bool) -> Result<(int, bool), MatchError>
    decreases b.len() - i,
{
    if i < 0 || i >= b.len() {
        Err(MatchError::UnexpectedEof)
    } else {
        let c = b[i];
        if c == 0x22 {
            Ok((i + 1, escaped))
        } else if c == 0x5C {
            match escape_spec(b, i) {
                Err(e) => Err(e),
                Ok(j) => if j > i { string_from(b, j, true) } else { Err(MatchError::UnexpectedEof) },
            }
        } else if c <= 0x1F {
            Err(MatchError::UnexpectedByte { pos: i as u32, byte: c })
        } else {
            string_from(b, i + 1, escaped)
        }
    }
}

/// A string whose opening quote is at `pos`.
pub open spec fn string_spec(b: Seq<u8>, pos: int) -> Result<(int, bool), MatchError> {
    string_from(b, pos + 1, false)
}

/// The keyword `kw` at `pos`.
pub open spec fn keyword_spec(b: Seq<u8>, pos: int, kw: Seq<u8>) -> Result<int, MatchError> {
    if pos + kw.len() > b.len() {
        Err(MatchError::UnexpectedEof)
    } else if b.subrange(pos, pos + kw.len()) == kw {
        Ok(pos + kw.len())
    } else {
        Err(MatchError::UnexpectedByte { pos: pos as u32, byte: b[pos] })
    }
}

/// A member key and its colon at `pos`: the position of the member's value.
pub open spec fn key_colon_spec(b: Seq<u8>, pos: int) -> Result<int, MatchError> {
    match peek_spec(b, pos) {
        Err(e) => Err(e),
        Ok(c) => if c != 0x22 {
            Err(MatchError::UnexpectedByte { pos: pos as u32, byte: c })
        } else {
            match string_spec(b, pos) {
                Err(e) => Err(e),
                Ok((end, _)) => {
                    let p = ws_end(b, end);
                    match peek_spec(b, p) {
                        Err(e) => Err(e),
                        Ok(c2) => if c2 != 0x3A {
                            Err(MatchError::UnexpectedByte { pos: p as u32, byte: c2 })
                        } else {
                            Ok(ws_end(b, p + 1))
                        },
                    }
                },
            }
        },
    }
}

pub proof fn lemma_ws_end_bounds(b: Seq<u8>, i: int)
    requires
        0 <= i,
    ensures
        i <= ws_end(b, i),
        i <= b.len() ==> ws_end(b, i) <= b.len(),
        forall|k: int| i <= k < ws_end(b, i) ==> is_ws(#[trigger] b[k]),
        ws_end(b, i) < b.len() ==> !is_ws(b[ws_end(b, i)]),
    decreases b.len() - i,
{
    if 0 <= i < b.len() && is_ws(b[i]) {
        lemma_ws_end_bounds(b, i + 1);
    }
}

pub proof fn lemma_digits_end_bounds(b: Seq<u8>, i: int)
    requires
        0 <= i,
    ensures
        i <= digits_end(b, i),
        i <= b.len() ==> digits_end(b, i) <= b.len(),
        forall|k: int| i <= k < digits_end(b, i) ==> is_digit(#[trigger] b[k]),
        digits_end(b, i) < b.len() ==> !is_digit(b[digits_end(b, i)]),
    decreases b.len() - i,
{
    if 0 <= i < b.len() && is_digit(b[i]) {
        lemma_digits_end_bounds(b, i + 1);
    }
}

pub proof fn lemma_string_from_bounds(b: Seq<u8>, i: int, escaped: bool)
    requires
        0 <= i,
    ensures
        string_from(b, i, escaped) matches Ok((e, _)) ==> i < e <= b.len(),
        string_from(b, i, escaped) matches Ok((e, _)) ==> b[e - 1] == 0x22,
    decreases b.len() - i,
{
    if 0 <= i < b.len() {
        let c = b[i];
        if c == 0x22 {
        } else if c == 0x5C {
            match escape_spec(b, i) {
                Err(e) => {},
                Ok(j) => if j > i { lemma_string_from_bounds(b, j, true); },
            }
        } else if c <= 0x1F {
        } else {
            lemma_string_from_bounds(b, i + 1, escaped);
        }
    }
}

pub proof fn lemma_number_bounds(b: Seq<u8>, pos: int)
    requires
        0 <= pos <= b.len(),
    ensures
        number_spec(b, pos) matches Ok(e) ==> pos < e <= b.len(),
        number_spec(b, pos) matches Ok(e) ==> is_digit(b[e - 1]),
{
    let i0 = if at(b, pos) == Some(0x2Du8) { pos + 1 } else { pos };
    lemma_digits_end_bounds(b, i0 + 1);
    if let Some(i1) = int_part_end(b, i0) {
        lemma_digits_end_bounds(b, i1 + 1);
        if let Some(i2) = frac_end(b, i1) {
            lemma_digits_end_bounds(b, i2 + 1);
            lemma_digits_end_bounds(b, i2 + 2);
        }
    }
}

pub proof fn lemma_key_colon_bounds(b: Seq<u8>, pos: int)
    requires
        0 <= pos <= b.len(),
    ensures
        key_colon_spec(b, pos) matches Ok(e) ==> pos < e <= b.len(),
{
    if pos < b.len() {
        lemma_string_from_bounds(b, pos + 1, false);
        if let Ok((end, _)) = string_spec(b, pos) {
            lemma_ws_end_bounds(b, end);
            let p = ws_end(b, end);
            if p < b.len() {
                lemma_ws_end_bounds(b, p + 1);
            }
        }
    }
}

pub proof fn lemma_escape_bounds(b: Seq<u8>, pos: int)
    requires
        0 <= pos < b.len(),
    ensures
        escape_spec(b, pos) matches Ok(e) ==> pos + 2 <= e <= b.len(),
{
}

#[inline]
pub fn byte_at(b: &[u8], pos: u64) -> (r: Option<u8>)
    ensures
        r == at(b@, pos as int),
{
    if pos < b.len() as u64 {
        Some(b[pos as usize])
    } else {
        None
    }
}

#[inline]
pub fn peek(b: &[u8], pos: u64) -> (r: Result<u8, MatchError>)
    ensures
        r == peek_spec(b@, pos as int),
{
    match byte_at(b, pos) {
        Some(c) => Ok(c),
        None => Err(MatchError::UnexpectedEof),
    }
}

#[inline]
pub fn is_ws_byte(c: u8) -> (r: bool)
    ensures
        r == is_ws(c),
{
    c == 0x20 || c == 0x09 || c == 0x0A || c == 0x0D
}

pub fn skip_ws(b: &[u8], pos: u64) -> (r: u64)
    requires
        input_ok(b@),
        pos <= b@.len(),
    ensures
        r == ws_end(b@, pos as int),
        pos <= r <= b@.len(),
{
    let mut i = pos;
    proof { lemma_ws_end_bounds(b@, pos as int); }
    while i < b.len() as u64 && is_ws_byte(b[i as usize])
        invariant
            pos <= i <= b@.len(),
            ws_end(b@, i as int) == ws_end(b@, pos as int),
        decreases b@.len() - i,
    {
        i = i + 1;
    }
    i
}

pub fn expect_keyword(b: &[u8], pos: u64, kw: &[u8]) -> (r: Result<u64, MatchError>)
    requires
        input_ok(b@),
        pos < b@.len(),
    ensures
        lift(r) == keyword_spec(b@, pos as int, kw@),
{
    if kw.len() as u64 > b.len() as u64 - pos {
        return Err(MatchError::UnexpectedEof);
    }
    let end = pos + kw.len() as u64;
    let mut k: usize = 0;
    while k < kw.len()
        invariant
            input_ok(b@),
            end == pos + kw@.len(),
            end <= b@.len(),
            k <= kw@.len(),
            forall|j: int| 0 <= j < k ==> b@[pos + j] == kw@[j],
        decreases kw@.len() - k,
    {
        if b[(pos + k as u64) as usize] != kw[k] {
            assert(b@.subrange(pos as int, end as int)[k as int] != kw@[k as int]);
            return Err(MatchError::UnexpectedByte { pos: pos as u32, byte: b[pos as usize] });
        }
        k = k + 1;
    }
    assert(b@.subrange(pos as int, end as int) =~= kw@);
    Ok(end)
}

pub fn skip_digits(b: &[u8], pos: u64) -> (r: u64)
    requires
        input_ok(b@),
        pos <= b@.len(),
    ensures
        r == digits_end(b@, pos as int),
        pos <= r <= b@.len(),
{
    let mut i = pos;
    proof { lemma_digits_end_bounds(b@, pos as int); }
    while i < b.len() as u64 && 0x30 <= b[i as usize] && b[i as usize] <= 0x39
        invariant
            pos <= i <= b@.len(),
            digits_end(b@, i as int) == digits_end(b@, pos as int),
        decreases b@.len() - i,
    {
        i = i + 1;
    }
    i
}

/// Strict JSON number grammar: `-?(0|[1-9][0-9]*)(\.[0-9]+)?([eE][+-]?[0-9]+)?`.
pub fn validate_number(b: &[u8], pos: u64) -> (r: Result<u64, MatchError>)
    requires
        input_ok(b@),
        pos <= b@.len(),
    ensures
        lift(r) == number_spec(b@, pos as int),
        r matches Ok(e) ==> pos < e <= b@.len(),
{
    let mut i = pos;
    if byte_at(b, i) == Some(0x2Du8) {
        i = i + 1;
    }
    match byte_at(b, i) {
        Some(c) => {
            if c == 0x30 {
                i = i + 1;
            } else if 0x31 <= c && c <= 0x39 {
                i = skip_digits(b, i + 1);
            } else {
                return Err(MatchError::InvalidNumber { pos: pos as u32 });
            }
        }
        None => {
            return Err(MatchError::InvalidNumber { pos: pos as u32 });
        }
    }
    if byte_at(b, i) == Some(0x2Eu8) {
        let digits = skip_digits(b, i + 1);
        if digits == i + 1 {
            return Err(MatchError::InvalidNumber { pos: pos as u32 });
        }
        i = digits;
    }
    let e = byte_at(b, i);
    if e == Some(0x65u8) || e == Some(0x45u8) {
        i = i + 1;
        let s = byte_at(b, i);
        if s == Some(0x2Bu8) || s == Some(0x2Du8) {
            i = i + 1;
        }
        let digits = skip_digits(b, i);
        if digits == i {
            return Err(MatchError::InvalidNumber { pos: pos as u32 });
        }
        i = digits;
    }
    Ok(i)
}

fn hex_digit_exec(c: u8) -> (r: Option<u16>)
    ensures
        r == hex_digit(c),
{
    if 0x30 <= c && c <= 0x39 {
        Some((c - 0x30) as u16)
    } else if 0x61 <= c && c <= 0x66 {
        Some((c - 0x61 + 10) as u16)
    } else if 0x41 <= c && c <= 0x46 {
        Some((c - 0x41 + 10) as u16)
    } else {
        None
    }
}

/// The value of the four hexadecimal digits at `pos`.
pub fn parse_hex4(bytes: &[u8], pos: u32) -> (r: Option<u16>)
    ensures
        r == hex4(bytes@, pos as int),
{
    let p = pos as usize;
    if p > bytes.len() || bytes.len() - p < 4 {
        return None;
    }
    let d0 = hex_digit_exec(bytes[p]);
    let d1 = hex_digit_exec(bytes[p + 1]);
    let d2 = hex_digit_exec(bytes[p + 2]);
    let d3 = hex_digit_exec(bytes[p + 3]);
    match (d0, d1, d2, d3) {
        (Some(d0), Some(d1), Some(d2), Some(d3)) => {
            let mut value: u16 = 0;
            value = (value << 4) | d0;
            value = (value << 4) | d1;
            value = (value << 4) | d2;
            value = (value << 4) | d3;
            assert(((((0u16 << 4u16) | d0) << 4u16 | d1) << 4u16 | d2) << 4u16 | d3
                == d0 * 4096 + d1 * 256 + d2 * 16 + d3) by (bit_vector)
                requires d0 < 16, d1 < 16, d2 < 16, d3 < 16;
            Some(value)
        }
        _ => None,
    }
}

/// `pos` is at the backslash. Validates one escape sequence (including
/// surrogate pairing) and returns the position just past it.
pub fn validate_escape(b: &[u8], pos: u64) -> (r: Result<u64, MatchError>)
    requires
        input_ok(b@),
        pos < b@.len(),
    ensures
        lift(r) == escape_spec(b@, pos as int),
{
    let escape_pos = pos;
    let code = peek(b, pos + 1)?;
    let mut i = pos + 2;
    if code == 0x22 || code == 0x5C || code == 0x2F || code == 0x62 || code == 0x66
        || code == 0x6E || code == 0x72 || code == 0x74 {
        Ok(i)
    } else if code == 0x75 {
        let unit = match parse_hex4(b, i as u32) {
            Some(u) => u,
            None => { return Err(MatchError::InvalidEscape { pos: escape_pos as u32 }); }
        };
        i = i + 4;
        if 0xD800 <= unit && unit <= 0xDBFF {
            if byte_at(b, i) != Some(0x5Cu8) || byte_at(b, i + 1) != Some(0x75u8) {
                return Err(MatchError::InvalidEscape { pos: escape_pos as u32 });
            }
            let low = match parse_hex4(b, (i + 2) as u32) {
                Some(l) => l,
                None => { return Err(MatchError::InvalidEscape { pos: escape_pos as u32 }); }
            };
            if !(0xDC00 <= low && low <= 0xDFFF) {
                return Err(MatchError::InvalidEscape { pos: escape_pos as u32 });
            }
            i = i + 6;
        } else if 0xDC00 <= unit && unit <= 0xDFFF {
            return Err(MatchError::InvalidEscape { pos: escape_pos as u32 });
        }
        Ok(i)
    } else {
        Err(MatchError::InvalidEscape { pos: escape_pos as u32 })
    }
}

/// `pos` is at the opening quote. Validates the string content: escape syntax
/// and no raw control characters. Returns the position past the closing quote
/// and whether the content contains escape sequences.
pub fn validate_string(b: &[u8], pos: u64) -> (r: Result<(u64, bool), MatchError>)
    requires
        input_ok(b@),
        pos < b@.len(),
    ensures
        lift_pair(r) == string_spec(b@, pos as int),
        r matches Ok((e, _)) ==> pos + 1 < e <= b@.len(),
{
    let mut i = pos + 1;
    let mut escaped = false;
    proof { lemma_string_from_bounds(b@, pos + 1, false); }
    loop
        invariant
            input_ok(b@),
            pos < i <= b@.len() + 1,
            string_from(b@, i as int, escaped) == string_spec(b@, pos as int),
        decreases b@.len() + 1 - i,
    {
        proof { lemma_string_from_bounds(b@, i as int, escaped); }
        let byte = peek(b, i)?;
        if byte == 0x22 {
            return Ok((i + 1, escaped));
        } else if byte == 0x5C {
            proof { lemma_escape_bounds(b@, i as int); }
            escaped = true;
            i = validate_escape(b, i)?;
        } else if byte <= 0x1F {
            return Err(MatchError::UnexpectedByte { pos: i as u32, byte });
        } else {
            i = i + 1;
        }
    }
}

/// At a member key: validate the key string and the `:` separator, and
/// return the position of the member's value.
pub fn validate_key_colon(b: &[u8], pos: u64) -> (r: Result<u64, MatchError>)
    requires
        input_ok(b@),
        pos <= b@.len(),
    ensures
        lift(r) == key_colon_spec(b@, pos as int),
        r matches Ok(e) ==> pos < e <= b@.len(),
{
    let byte = peek(b, pos)?;
    if byte != 0x22 {
        return Err(MatchError::UnexpectedByte { pos: pos as u32, byte });
    }
    let (end, _) = validate_string(b, pos)?;
    let p = skip_ws(b, end);
    let byte = peek(b, p)?;
    if byte != 0x3A {
        return Err(MatchError::UnexpectedByte { pos: p as u32, byte });
    }
    Ok(skip_ws(b, p + 1))
}

} // verus!
