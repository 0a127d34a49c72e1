//! UTF-8 facts and the few `str`/`String`/`char` operations the matcher needs.

use vstd::prelude::*;
use vstd::utf8::{
    is_char_boundary, is_char_boundary_iff_not_is_continuation_byte, is_scalar, length_of_first_scalar,
    pop_first_scalar, valid_utf8,
};
use vstd::string::StringSliceAdditionalSpecFns;

verus! {

/// In valid UTF-8, an ASCII byte is a whole character: character boundaries
/// lie just before and just after it.
pub proof fn lemma_ascii_boundary(b: Seq<u8>, i: int)
    requires
        valid_utf8(b),
        0 <= i < b.len(),
        b[i] < 0x80,
    ensures
        is_char_boundary(b, i),
        is_char_boundary(b, i + 1),
    decreases b.len(),
{
    let l = length_of_first_scalar(b);
    let rest = pop_first_scalar(b);
    assert(rest.len() == b.len() - l);
    if i == 0 {
        assert(l == 1);
        assert(is_char_boundary(rest, 0));
    } else {
        assert(i >= l) by {
            if i < l {
                assert(1 <= i < l);
                assert(0x80 <= b[i]);
            }
        }
        assert(rest[i - l] == b[i]);
        lemma_ascii_boundary(rest, i - l);
    }
}

/// The end of valid UTF-8 is a character boundary.
pub proof fn lemma_end_boundary(b: Seq<u8>)
    requires
        valid_utf8(b),
    ensures
        is_char_boundary(b, b.len() as int),
    decreases b.len(),
{
    if b.len() > 0 {
        let rest = pop_first_scalar(b);
        assert(rest.len() == b.len() - length_of_first_scalar(b));
        lemma_end_boundary(rest);
    }
}

/// A character boundary of a slice `b[cs..ce]` cut at two character
/// boundaries of `b` is a character boundary of `b`.
pub proof fn lemma_boundary_in_slice(b: Seq<u8>, cs: int, ce: int, x: int)
    requires
        valid_utf8(b),
        0 <= cs <= ce <= b.len(),
        is_char_boundary(b, cs),
        is_char_boundary(b, ce),
        valid_utf8(b.subrange(cs, ce)),
        0 <= x <= ce - cs,
        is_char_boundary(b.subrange(cs, ce), x),
    ensures
        is_char_boundary(b, cs + x),
{
    if 0 < x < ce - cs {
        let sub = b.subrange(cs, ce);
        is_char_boundary_iff_not_is_continuation_byte(sub, x);
        is_char_boundary_iff_not_is_continuation_byte(b, cs + x);
        assert(sub[x] == b[cs + x]);
    } else if x == ce - cs {
        assert(cs + x == ce);
    }
}

/// `&s[start..end]`: the bytes of `s` between two character boundaries.
#[verifier::external_body]
pub(crate) fn str_slice(s: &str, start: usize, end: usize) -> (r: &str)
    requires
        start <= end <= s.spec_bytes().len(),
        is_char_boundary(s.spec_bytes(), start as int),
        is_char_boundary(s.spec_bytes(), end as int),
    ensures
        r.spec_bytes() == s.spec_bytes().subrange(start as int, end as int),
{
    &s[start..end]
}

/// `String::push_str`: appends the characters of `t`.
#[verifier::external_body]
pub(crate) fn string_push_str(s: &mut String, t: &str)
    ensures
        final(s)@ == old(s)@ + t@,
{
    s.push_str(t)
}

/// `String::push`: appends one character.
#[verifier::external_body]
pub(crate) fn string_push(s: &mut String, c: char)
    ensures
        final(s)@ == old(s)@.push(c),
{
    s.push(c)
}

/// `String::clear`: removes every character.
#[verifier::external_body]
pub(crate) fn string_clear(s: &mut String)
    ensures
        final(s)@ == Seq::<char>::empty(),
{
    s.clear()
}

/// `char::from_u32`: the character of a Unicode scalar value, or `None`
/// for surrogates and values past `0x10FFFF`.
#[verifier::external_body]
pub(crate) fn char_from_u32(u: u32) -> (r: Option<char>)
    ensures
        r == (if is_scalar(u) { Some(u as char) } else { None }),
{
    char::from_u32(u)
}

} // verus!
