//! Validation of whole JSON values the pattern does not descend into.
//!
//! Nesting is tracked on an explicit stack of open containers (true for an
//! object, false for an array) whose capacity is the depth limit, so deep
//! input cannot exhaust the call stack.

use vstd::prelude::*;
use crate::types::MatchError;
use crate::bits::{Bits, bits_of};
use crate::lex::{
    expect_keyword, lift, peek, skip_ws, validate_key_colon, validate_number, validate_string,
    at, input_ok, is_digit, key_colon_spec, keyword_spec, lemma_key_colon_bounds, lemma_number_bounds, lemma_string_from_bounds,
    lemma_ws_end_bounds, number_spec, peek_spec,
    string_spec, ws_end,
};

verus! {

/// A value is expected at `i`, inside the open containers `stack`.
pub open spec fn value_from(b: Seq<u8>, i: int, stack: Seq<bool>, limit: nat) -> Result<int, MatchError>
    decreases b.len() + 2 - i, 0int,
{
    if i < 0 || i > b.len() {
        Err(MatchError::UnexpectedEof)
    } else {
        match peek_spec(b, i) {
            Err(e) => Err(e),
            Ok(c) => if c == 0x7B || c == 0x5B {
                if stack.len() >= limit {
                    Err(MatchError::DepthLimitExceeded { pos: i as u32 })
                } else {
                    let j = ws_end(b, i + 1);
                    proof { lemma_ws_end_bounds(b, i + 1); }
                    match peek_spec(b, j) {
                        Err(e) => Err(e),
                        Ok(d) => if c == 0x7B && d == 0x7D {
                            after_value(b, j + 1, stack, limit)
                        } else if c == 0x5B && d == 0x5D {
                            after_value(b, j + 1, stack, limit)
                        } else if c == 0x7B {
                            proof { lemma_key_colon_bounds(b, j); }
                            match key_colon_spec(b, j) {
                                Err(e) => Err(e),
                                Ok(k) => value_from(b, k, stack.push(true), limit),
                            }
                        } else {
                            value_from(b, j, stack.push(false), limit)
                        },
                    }
                }
            } else if c == 0x22 {
                proof { lemma_string_from_bounds(b, i + 1, false); }
                match string_spec(b, i) {
                    Err(e) => Err(e),
                    Ok((e, _)) => after_value(b, e, stack, limit),
                }
            } else if c == 0x74 || c == 0x66 || c == 0x6E {
                let kw = if c == 0x74 { seq![0x74u8, 0x72, 0x75, 0x65] }
                    else if c == 0x66 { seq![0x66u8, 0x61, 0x6C, 0x73, 0x65] }
                    else { seq![0x6Eu8, 0x75, 0x6C, 0x6C] };
                match keyword_spec(b, i, kw) {
                    Err(e) => Err(e),
                    Ok(e) => after_value(b, e, stack, limit),
                }
            } else if c == 0x2D || is_digit(c) {
                proof { lemma_number_bounds(b, i); }
                match number_spec(b, i) {
                    Err(e) => Err(e),
                    Ok(e) => after_value(b, e, stack, limit),
                }
            } else {
                Err(MatchError::UnexpectedByte { pos: i as u32, byte: c })
            },
        }
    }
}

/// A value just ended at `i`, inside the open containers `stack`: close
/// containers and consume separators until the outermost value ends.
pub open spec fn after_value(b: Seq<u8>, i: int, stack: Seq<bool>, limit: nat) -> Result<int, MatchError>
    decreases b.len() + 2 - i, 1int,
{
    if stack.len() == 0 {
        Ok(i)
    } else if i < 0 || i > b.len() {
        Err(MatchError::UnexpectedEof)
    } else {
        let j = ws_end(b, i);
        proof { lemma_ws_end_bounds(b, i); }
        let is_object = stack.last();
        match peek_spec(b, j) {
            Err(e) => Err(e),
            Ok(c) => if c == 0x2C {
                let k = ws_end(b, j + 1);
                proof { lemma_ws_end_bounds(b, j + 1); }
                if is_object {
                    proof { lemma_key_colon_bounds(b, k); }
                    match key_colon_spec(b, k) {
                        Err(e) => Err(e),
                        Ok(m) => value_from(b, m, stack, limit),
                    }
                } else {
                    value_from(b, k, stack, limit)
                }
            } else if c == 0x7D && is_object {
                after_value(b, j + 1, stack.drop_last(), limit)
            } else if c == 0x5D && !is_object {
                after_value(b, j + 1, stack.drop_last(), limit)
            } else {
                Err(MatchError::UnexpectedByte { pos: j as u32, byte: c })
            },
        }
    }
}

/// The value ends just after an ASCII byte.
pub open spec fn ends_ascii(b: Seq<u8>, e: int) -> bool {
    0 < e <= b.len() && b[e - 1] < 0x80
}

/// A complete value ends just after an ASCII byte (a bracket, a quote, a
/// keyword's last letter or a digit).
pub proof fn lemma_value_ends_ascii(b: Seq<u8>, i: int, stack: Seq<bool>, limit: nat)
    ensures
        value_from(b, i, stack, limit) matches Ok(e) ==> ends_ascii(b, e) && i < e,
    decreases b.len() + 2 - i, 0int,
{
    if 0 <= i <= b.len() && i < b.len() {
        let c = b[i];
        if c == 0x7B || c == 0x5B {
            if stack.len() < limit {
                lemma_ws_end_bounds(b, i + 1);
                let j = ws_end(b, i + 1);
                if j < b.len() {
                    let d = b[j];
                    if (c == 0x7B && d == 0x7D) || (c == 0x5B && d == 0x5D) {
                        lemma_after_ends_ascii(b, j + 1, stack, limit);
                    } else if c == 0x7B {
                        lemma_key_colon_bounds(b, j);
                        if let Ok(k) = key_colon_spec(b, j) {
                            lemma_value_ends_ascii(b, k, stack.push(true), limit);
                        }
                    } else {
                        lemma_value_ends_ascii(b, j, stack.push(false), limit);
                    }
                }
            }
        } else if c == 0x22 {
            lemma_string_from_bounds(b, i + 1, false);
            if let Ok((e, _)) = string_spec(b, i) {
                lemma_after_ends_ascii(b, e, stack, limit);
            }
        } else if c == 0x74 || c == 0x66 || c == 0x6E {
            let kw = if c == 0x74 { seq![0x74u8, 0x72, 0x75, 0x65] }
                else if c == 0x66 { seq![0x66u8, 0x61, 0x6C, 0x73, 0x65] }
                else { seq![0x6Eu8, 0x75, 0x6C, 0x6C] };
            if let Ok(e) = keyword_spec(b, i, kw) {
                assert(b.subrange(i, e)[e - i - 1] == kw[kw.len() - 1]);
                lemma_after_ends_ascii(b, e, stack, limit);
            }
        } else if c == 0x2D || is_digit(c) {
            lemma_number_bounds(b, i);
            if let Ok(e) = number_spec(b, i) {
                lemma_after_ends_ascii(b, e, stack, limit);
            }
        }
    }
}

pub proof fn lemma_after_ends_ascii(b: Seq<u8>, i: int, stack: Seq<bool>, limit: nat)
    ensures
        after_value(b, i, stack, limit) matches Ok(e) ==> (e == i || (ends_ascii(b, e) && i < e)),
    decreases b.len() + 2 - i, 1int,
{
    if stack.len() > 0 && 0 <= i <= b.len() {
        lemma_ws_end_bounds(b, i);
        let j = ws_end(b, i);
        if j < b.len() {
            let c = b[j];
            let is_object = stack.last();
            if c == 0x2C {
                lemma_ws_end_bounds(b, j + 1);
                let k = ws_end(b, j + 1);
                if is_object {
                    lemma_key_colon_bounds(b, k);
                    if let Ok(m) = key_colon_spec(b, k) {
                        lemma_value_ends_ascii(b, m, stack, limit);
                    }
                } else {
                    lemma_value_ends_ascii(b, k, stack, limit);
                }
            } else if (c == 0x7D && is_object) || (c == 0x5D && !is_object) {
                lemma_after_ends_ascii(b, j + 1, stack.drop_last(), limit);
            }
        }
    }
}

/// Validating below more open containers. A value (together with the rest
/// of the containers `s` it is nested in) that validates within depth
/// `limit` validates the same way below the further containers `outer`,
/// when `outer` and `limit` together fit in `big`; validation then goes on
/// after it as it would after any value.
pub proof fn lemma_value_frame(b: Seq<u8>, i: int, s: Seq<bool>, limit: nat, outer: Seq<bool>, big: nat)
    requires
        value_from(b, i, s, limit) is Ok,
        outer.len() + limit <= big,
    ensures
        value_from(b, i, outer + s, big) == after_value(b, value_from(b, i, s, limit)->Ok_0, outer, big),
    decreases b.len() + 2 - i, 0int,
{
    let c = b[i];
    if c == 0x7B || c == 0x5B {
        lemma_ws_end_bounds(b, i + 1);
        let j = ws_end(b, i + 1);
        let d = b[j];
        if (c == 0x7B && d == 0x7D) || (c == 0x5B && d == 0x5D) {
            lemma_after_frame(b, j + 1, s, limit, outer, big);
        } else if c == 0x7B {
            lemma_key_colon_bounds(b, j);
            let k = key_colon_spec(b, j)->Ok_0;
            assert((outer + s).push(true) =~= outer + s.push(true));
            lemma_value_frame(b, k, s.push(true), limit, outer, big);
        } else {
            assert((outer + s).push(false) =~= outer + s.push(false));
            lemma_value_frame(b, j, s.push(false), limit, outer, big);
        }
    } else if c == 0x22 {
        lemma_string_from_bounds(b, i + 1, false);
        lemma_after_frame(b, string_spec(b, i)->Ok_0.0, s, limit, outer, big);
    } else if c == 0x74 || c == 0x66 || c == 0x6E {
        let kw = if c == 0x74 { seq![0x74u8, 0x72, 0x75, 0x65] }
            else if c == 0x66 { seq![0x66u8, 0x61, 0x6C, 0x73, 0x65] }
            else { seq![0x6Eu8, 0x75, 0x6C, 0x6C] };
        lemma_after_frame(b, keyword_spec(b, i, kw)->Ok_0, s, limit, outer, big);
    } else {
        lemma_number_bounds(b, i);
        lemma_after_frame(b, number_spec(b, i)->Ok_0, s, limit, outer, big);
    }
}

/// [`lemma_value_frame`] for the containers still open after a value.
pub proof fn lemma_after_frame(b: Seq<u8>, i: int, s: Seq<bool>, limit: nat, outer: Seq<bool>, big: nat)
    requires
        after_value(b, i, s, limit) is Ok,
        outer.len() + limit <= big,
    ensures
        after_value(b, i, outer + s, big) == after_value(b, after_value(b, i, s, limit)->Ok_0, outer, big),
    decreases b.len() + 2 - i, 1int,
{
    if s.len() == 0 {
        assert(outer + s =~= outer);
    } else {
        lemma_ws_end_bounds(b, i);
        let j = ws_end(b, i);
        let c = b[j];
        assert((outer + s).last() == s.last());
        if c == 0x2C {
            lemma_ws_end_bounds(b, j + 1);
            let k = ws_end(b, j + 1);
            if s.last() {
                lemma_key_colon_bounds(b, k);
                lemma_value_frame(b, key_colon_spec(b, k)->Ok_0, s, limit, outer, big);
            } else {
                lemma_value_frame(b, k, s, limit, outer, big);
            }
        } else {
            assert((outer + s).drop_last() =~= outer + s.drop_last());
            lemma_after_frame(b, j + 1, s.drop_last(), limit, outer, big);
        }
    }
}

/// Splitting validation at the containers `outer`: when a value validates
/// below the open containers `outer + s` within depth `big`, the value (with
/// the rest of `s`) validates on its own within the depth left, and
/// validation then goes on after it below `outer`.
pub proof fn lemma_value_split(b: Seq<u8>, i: int, outer: Seq<bool>, s: Seq<bool>, big: nat)
    requires
        value_from(b, i, outer + s, big) is Ok,
        outer.len() <= big,
    ensures
        value_from(b, i, s, (big - outer.len()) as nat) is Ok,
        value_from(b, i, outer + s, big)
            == after_value(b, value_from(b, i, s, (big - outer.len()) as nat)->Ok_0, outer, big),
    decreases b.len() + 2 - i, 0int,
{
    let small = (big - outer.len()) as nat;
    let c = b[i];
    if c == 0x7B || c == 0x5B {
        lemma_ws_end_bounds(b, i + 1);
        let j = ws_end(b, i + 1);
        let d = b[j];
        if (c == 0x7B && d == 0x7D) || (c == 0x5B && d == 0x5D) {
            lemma_after_split(b, j + 1, outer, s, big);
        } else if c == 0x7B {
            lemma_key_colon_bounds(b, j);
            let k = key_colon_spec(b, j)->Ok_0;
            assert((outer + s).push(true) =~= outer + s.push(true));
            lemma_value_split(b, k, outer, s.push(true), big);
        } else {
            assert((outer + s).push(false) =~= outer + s.push(false));
            lemma_value_split(b, j, outer, s.push(false), big);
        }
    } else if c == 0x22 {
        lemma_string_from_bounds(b, i + 1, false);
        lemma_after_split(b, string_spec(b, i)->Ok_0.0, outer, s, big);
    } else if c == 0x74 || c == 0x66 || c == 0x6E {
        let kw = if c == 0x74 { seq![0x74u8, 0x72, 0x75, 0x65] }
            else if c == 0x66 { seq![0x66u8, 0x61, 0x6C, 0x73, 0x65] }
            else { seq![0x6Eu8, 0x75, 0x6C, 0x6C] };
        lemma_after_split(b, keyword_spec(b, i, kw)->Ok_0, outer, s, big);
    } else {
        lemma_number_bounds(b, i);
        lemma_after_split(b, number_spec(b, i)->Ok_0, outer, s, big);
    }
}

/// [`lemma_value_split`] for the containers still open after a value.
pub proof fn lemma_after_split(b: Seq<u8>, i: int, outer: Seq<bool>, s: Seq<bool>, big: nat)
    requires
        after_value(b, i, outer + s, big) is Ok,
        outer.len() <= big,
    ensures
        after_value(b, i, s, (big - outer.len()) as nat) is Ok,
        after_value(b, i, outer + s, big)
            == after_value(b, after_value(b, i, s, (big - outer.len()) as nat)->Ok_0, outer, big),
    decreases b.len() + 2 - i, 1int,
{
    if s.len() == 0 {
        assert(outer + s =~= outer);
    } else {
        lemma_ws_end_bounds(b, i);
        let j = ws_end(b, i);
        let c = b[j];
        assert((outer + s).last() == s.last());
        assert((outer + s).len() > 0);
        if c == 0x2C {
            lemma_ws_end_bounds(b, j + 1);
            let k = ws_end(b, j + 1);
            if s.last() {
                lemma_key_colon_bounds(b, k);
                lemma_value_split(b, key_colon_spec(b, k)->Ok_0, outer, s, big);
            } else {
                lemma_value_split(b, k, outer, s, big);
            }
        } else {
            assert((outer + s).drop_last() =~= outer + s.drop_last());
            lemma_after_split(b, j + 1, outer, s.drop_last(), big);
        }
    }
}

/// A number is a complete value by itself.
pub proof fn lemma_value_number(b: Seq<u8>, pos: int, limit: nat)
    requires
        0 <= pos < b.len(),
        b[pos] == 0x2D || is_digit(b[pos]),
    ensures
        value_spec(b, pos, limit) == number_spec(b, pos),
{
    lemma_number_bounds(b, pos);
    if let Ok(e) = number_spec(b, pos) {
        assert(after_value(b, e, Seq::empty(), limit) == Ok::<int, MatchError>(e));
    }
}

/// One complete JSON value starting at `pos`, nested at most `limit` deep.
pub open spec fn value_spec(b: Seq<u8>, pos: int, limit: nat) -> Result<int, MatchError> {
    value_from(b, pos, Seq::empty(), limit)
}

/// The end of a successful scan, if it succeeded.
pub open spec fn ok_pos(r: Result<int, MatchError>) -> Option<int> {
    match r {
        Ok(e) => Some(e),
        Err(_) => None,
    }
}

/// Where the string, keyword or number at `i` ends, if one is there.
pub open spec fn scalar_end(b: Seq<u8>, i: int) -> Option<int> {
    let c = b[i];
    if c == 0x22 {
        match string_spec(b, i) {
            Ok((e, _)) => Some(e),
            Err(_) => None,
        }
    } else if c == 0x74 {
        ok_pos(keyword_spec(b, i, seq![0x74u8, 0x72, 0x75, 0x65]))
    } else if c == 0x66 {
        ok_pos(keyword_spec(b, i, seq![0x66u8, 0x61, 0x6C, 0x73, 0x65]))
    } else if c == 0x6E {
        ok_pos(keyword_spec(b, i, seq![0x6Eu8, 0x75, 0x6C, 0x6C]))
    } else if c == 0x2D || is_digit(c) {
        ok_pos(number_spec(b, i))
    } else {
        None
    }
}

/// The JSON grammar, written directly: where the value at `i` ends, when it
/// is a string, keyword or number, or an object or array holding no more
/// than `depth` levels of containers, its members and elements being values
/// themselves.
pub open spec fn json_value(b: Seq<u8>, i: int, depth: nat) -> Option<int>
    decreases b.len() + 2 - i, 0int,
{
    if i < 0 || i >= b.len() {
        None
    } else if b[i] == 0x7B || b[i] == 0x5B {
        let close: u8 = if b[i] == 0x7B { 0x7D } else { 0x5D };
        let j = ws_end(b, i + 1);
        proof { lemma_ws_end_bounds(b, i + 1); }
        if depth == 0 {
            None
        } else if at(b, j) == Some(close) {
            Some(j + 1)
        } else {
            json_items(b, j, b[i] == 0x7B, (depth - 1) as nat)
        }
    } else {
        scalar_end(b, i)
    }
}

/// The members (key, colon, value) of an object or the elements of an
/// array, the first at `i`, each value holding no more than `depth` levels
/// of containers: the position past the closing bracket.
pub open spec fn json_items(b: Seq<u8>, i: int, object: bool, depth: nat) -> Option<int>
    decreases b.len() + 2 - i, 1int,
{
    if i < 0 || i > b.len() {
        None
    } else {
        proof { lemma_key_colon_bounds(b, i); }
        let start = if object { ok_pos(key_colon_spec(b, i)) } else { Some(i) };
        match start {
            None => None,
            Some(k) => match json_value(b, k, depth) {
                None => None,
                Some(e) => if e <= i || e > b.len() {
                    None
                } else {
                    let close: u8 = if object { 0x7D } else { 0x5D };
                    let j = ws_end(b, e);
                    proof {
                        lemma_ws_end_bounds(b, e);
                        lemma_ws_end_bounds(b, j + 1);
                    }
                    if at(b, j) == Some(0x2Cu8) {
                        json_items(b, ws_end(b, j + 1), object, depth)
                    } else if at(b, j) == Some(close) {
                        Some(j + 1)
                    } else {
                        None
                    }
                },
            },
        }
    }
}

/// Validation of the members or elements from `i`, inside one open
/// container: its key and colon first for an object.
pub open spec fn items_from(b: Seq<u8>, i: int, object: bool, depth: nat) -> Result<int, MatchError> {
    let start = if object { key_colon_spec(b, i) } else { Ok(i) };
    match start {
        Err(e) => Err(e),
        Ok(k) => value_from(b, k, seq![object], depth + 1),
    }
}

/// Validation with its explicit stack accepts exactly the JSON grammar:
/// validating a value at `i`, nested at most `limit` deep, succeeds exactly
/// when [`json_value`] finds a value there, and both end at the same place.
pub proof fn lemma_validation_is_grammar(b: Seq<u8>, i: int, limit: nat)
    requires
        0 <= i,
    ensures
        value_spec(b, i, limit) is Ok <==> json_value(b, i, limit) is Some,
        value_spec(b, i, limit) is Ok ==> value_spec(b, i, limit)->Ok_0 == json_value(b, i, limit)->Some_0,
    decreases b.len() + 2 - i, 0int, 1int,
{
    if 0 <= i < b.len() {
        let c = b[i];
        if c == 0x7B || c == 0x5B {
            if limit > 0 {
                lemma_grammar_container(b, i, limit);
            }
        } else {
            lemma_grammar_scalar(b, i, limit);
        }
    }
}

/// [`lemma_validation_is_grammar`] for a string, keyword or number.
proof fn lemma_grammar_scalar(b: Seq<u8>, i: int, limit: nat)
    requires
        0 <= i < b.len(),
        b[i] != 0x7B && b[i] != 0x5B,
    ensures
        value_spec(b, i, limit) is Ok <==> json_value(b, i, limit) is Some,
        value_spec(b, i, limit) is Ok ==> value_spec(b, i, limit)->Ok_0 == json_value(b, i, limit)->Some_0,
{
    let c = b[i];
    assert(json_value(b, i, limit) == scalar_end(b, i));
    if c == 0x22 {
        lemma_string_from_bounds(b, i + 1, false);
        if let Ok((e, _)) = string_spec(b, i) {
            assert(after_value(b, e, Seq::empty(), limit) == Ok::<int, MatchError>(e));
        }
    } else if c == 0x74 || c == 0x66 || c == 0x6E {
        let kw = if c == 0x74 { seq![0x74u8, 0x72, 0x75, 0x65] }
            else if c == 0x66 { seq![0x66u8, 0x61, 0x6C, 0x73, 0x65] }
            else { seq![0x6Eu8, 0x75, 0x6C, 0x6C] };
        assert(scalar_end(b, i) == ok_pos(keyword_spec(b, i, kw)));
        if let Ok(e) = keyword_spec(b, i, kw) {
            assert(after_value(b, e, Seq::empty(), limit) == Ok::<int, MatchError>(e));
        }
    } else if c == 0x2D || is_digit(c) {
        lemma_value_number(b, i, limit);
    }
}

/// [`lemma_validation_is_grammar`] for an object or array.
proof fn lemma_grammar_container(b: Seq<u8>, i: int, limit: nat)
    requires
        0 <= i < b.len(),
        b[i] == 0x7B || b[i] == 0x5B,
        limit > 0,
    ensures
        value_spec(b, i, limit) is Ok <==> json_value(b, i, limit) is Some,
        value_spec(b, i, limit) is Ok ==> value_spec(b, i, limit)->Ok_0 == json_value(b, i, limit)->Some_0,
    decreases b.len() + 2 - i, 0int, 0int,
{
    let c = b[i];
    lemma_ws_end_bounds(b, i + 1);
    let j = ws_end(b, i + 1);
    let d = (limit - 1) as nat;
    lemma_grammar_items(b, j, c == 0x7B, d);
    assert(Seq::<bool>::empty().push(c == 0x7B) =~= seq![c == 0x7B]);
    if j < b.len() && ((c == 0x7B && b[j] == 0x7D) || (c == 0x5B && b[j] == 0x5D)) {
        assert(after_value(b, j + 1, Seq::empty(), limit) == Ok::<int, MatchError>(j + 1));
    } else {
        assert(json_value(b, i, limit) == json_items(b, j, c == 0x7B, d));
        assert(value_spec(b, i, limit) == items_from(b, j, c == 0x7B, d));
    }
}

/// [`lemma_validation_is_grammar`] for the members or elements of one open
/// container.
proof fn lemma_grammar_items(b: Seq<u8>, i: int, object: bool, d: nat)
    requires
        0 <= i,
    ensures
        items_from(b, i, object, d) is Ok <==> json_items(b, i, object, d) is Some,
        items_from(b, i, object, d) is Ok ==> items_from(b, i, object, d)->Ok_0 == json_items(b, i, object, d)->Some_0,
    decreases b.len() + 2 - i, 1int, 0int,
{
    if i <= b.len() {
        lemma_key_colon_bounds(b, i);
    }
    let start = if object { key_colon_spec(b, i) } else { Ok::<int, MatchError>(i) };
    if i > b.len() {
        if object {
            assert(peek_spec(b, i) is Err);
        } else {
            assert(value_from(b, i, seq![object], d + 1) is Err);
        }
    } else if let Ok(k) = start {
        let one = seq![object];
        assert(one =~= one + Seq::<bool>::empty());
        lemma_validation_is_grammar(b, k, d);
        lemma_value_ends_ascii(b, k, Seq::empty(), d);
        if value_from(b, k, one, d + 1) is Ok {
            assert(value_from(b, k, one + Seq::<bool>::empty(), d + 1) is Ok);
            lemma_value_split(b, k, one, Seq::<bool>::empty(), d + 1);
        }
        if json_value(b, k, d) is Some {
            lemma_value_frame(b, k, Seq::<bool>::empty(), d, one, d + 1);
        }
        if let Some(e) = json_value(b, k, d) {
            // value_from(b, k, one, d + 1) == after_value(b, e, one, d + 1)
            lemma_ws_end_bounds(b, e);
            let j = ws_end(b, e);
            assert(one.last() == object);
            assert(one.drop_last() =~= Seq::<bool>::empty());
            if j < b.len() && b[j] == 0x2C {
                lemma_ws_end_bounds(b, j + 1);
                let k2 = ws_end(b, j + 1);
                lemma_grammar_items(b, k2, object, d);
            } else if j < b.len() && ((object && b[j] == 0x7D) || (!object && b[j] == 0x5D)) {
                assert(after_value(b, j + 1, Seq::<bool>::empty(), d + 1) == Ok::<int, MatchError>(j + 1));
            }
        }
    }
}

/// Fully validate one JSON value starting at `pos` without interpreting it,
/// and return the position just past it. Containers opened here are tracked in
/// `stack`; nesting deeper than its length is an error.
pub fn validate_value(b: &[u8], pos: u64, stack: &mut Bits) -> (r: Result<u64, MatchError>)
    requires
        input_ok(b@),
        pos <= b@.len(),
    ensures
        lift(r) == value_spec(b@, pos as int, bits_of(*old(stack)).len()),
        bits_of(*final(stack)).len() == bits_of(*old(stack)).len(),
        r matches Ok(e) ==> pos < e <= b@.len(),
{
    let limit = stack.len();
    let mut depth: usize = 0;
    let mut i = pos;
    let mut expect = true;
    let ghost mut gs: Seq<bool> = Seq::empty();
    loop
        invariant
            input_ok(b@),
            pos <= i <= b@.len(),
            limit == bits_of(*stack).len(),
            limit == bits_of(*old(stack)).len(),
            depth == gs.len(),
            depth <= limit,
            forall|k: int| 0 <= k < depth ==> bits_of(*stack)[k] == gs[k],
            (if expect { value_from(b@, i as int, gs, limit as nat) } else { after_value(b@, i as int, gs, limit as nat) })
                == value_spec(b@, pos as int, limit as nat),
            !expect ==> pos < i,
        decreases b@.len() + 2 - i,
    {
        if expect {
            let c = peek(b, i)?;
            if c == 0x7B || c == 0x5B {
                if depth == limit {
                    return Err(MatchError::DepthLimitExceeded { pos: i as u32 });
                }
                let is_object = c == 0x7B;
                stack.set(depth, is_object);
                depth = depth + 1;
                let ghost old_gs = gs;
                proof { gs = gs.push(is_object); }
                let j = skip_ws(b, i + 1);
                let d = peek(b, j)?;
                if (is_object && d == 0x7D) || (!is_object && d == 0x5D) {
                    i = j + 1;
                    depth = depth - 1;
                    proof { gs = old_gs; }
                    expect = false;
                } else if is_object {
                    proof { lemma_key_colon_bounds(b@, j as int); }
                    i = validate_key_colon(b, j)?;
                } else {
                    i = j;
                }
            } else if c == 0x22 {
                let (e, _) = validate_string(b, i)?;
                i = e;
                expect = false;
            } else if c == 0x74 {
                i = expect_keyword(b, i, &[0x74u8, 0x72, 0x75, 0x65])?;
                expect = false;
            } else if c == 0x66 {
                i = expect_keyword(b, i, &[0x66u8, 0x61, 0x6C, 0x73, 0x65])?;
                expect = false;
            } else if c == 0x6E {
                i = expect_keyword(b, i, &[0x6Eu8, 0x75, 0x6C, 0x6C])?;
                expect = false;
            } else if c == 0x2D || (0x30 <= c && c <= 0x39) {
                i = validate_number(b, i)?;
                expect = false;
            } else {
                return Err(MatchError::UnexpectedByte { pos: i as u32, byte: c });
            }
        } else {
            if depth == 0 {
                return Ok(i);
            }
            let j = skip_ws(b, i);
            let is_object = stack.get(depth - 1);
            let c = peek(b, j)?;
            if c == 0x2C {
                let k = skip_ws(b, j + 1);
                if is_object {
                    i = validate_key_colon(b, k)?;
                } else {
                    i = k;
                }
                expect = true;
            } else if (c == 0x7D && is_object) || (c == 0x5D && !is_object) {
                depth = depth - 1;
                proof { gs = gs.drop_last(); }
                i = j + 1;
            } else {
                return Err(MatchError::UnexpectedByte { pos: j as u32, byte: c });
            }
        }
    }
}

} // verus!
