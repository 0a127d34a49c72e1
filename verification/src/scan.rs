//! What matching a document against the compiled trie does.
//!
//! The document is scanned once. Wherever the trie has a node for the
//! current value, containers are walked member by member (each member or
//! element resolved to the child node it is matched against); everything
//! else is validated without being interpreted. When a value is complete,
//! the fields whose paths end at its node are tried in order: each field is
//! satisfied by the first value (in the order values end) that has its type,
//! meets its exhaustiveness and passes its predicate.

use vstd::prelude::*;
use vstd::utf8::{decode_utf8, encode_utf8, valid_utf8};
use crate::types::{CaptureModel, FieldType, MatchError, Range, StrModel};
use crate::trie::{
    Elem, Node, Step, distinct_children, index_pos, key_pos, resolve, lemma_index_pos_distinct, lemma_index_pos_found,
    lemma_key_pos_distinct, lemma_key_pos_found, lemma_node_at_cons, lemma_wf_unfold, node_at, wf_node,
};
use crate::lex::{at, input_ok, is_digit, key_colon_spec, keyword_spec, number_text, lemma_number_sound, lemma_key_colon_bounds, lemma_string_from_bounds, lemma_ws_end_bounds, peek_spec, string_spec, ws_end};
use crate::validate::{after_value, lemma_value_ends_ascii, lemma_value_frame, lemma_value_split, value_from, value_spec, json_value, lemma_validation_is_grammar, lemma_value_number};
use crate::unescape::{content_to, decode_content, unescape_from};
use crate::text::string_clear;
use vstd::string::StringSliceAdditionalSpecFns;
use crate::predicate::{Predicate, regex_captures};
use crate::number::number_overflows;

verus! {

/// One field of a compiled machine, by global field id.
#[derive(Debug)]
pub struct Action {
    pub set_index: u32,
    pub field_type: FieldType,
    pub predicate: Option<Predicate>,
    /// (regex group index, machine capture index) of each capturing group.
    pub predicate_groups: Vec<(usize, u32)>,
    pub value_capture: Option<u32>,
    pub exhaustive: bool,
}

/// What a match has established so far: which fields are satisfied, and
/// the capture slots.
pub struct Progress {
    pub sat: Seq<bool>,
    pub caps: Seq<Option<CaptureModel>>,
}

/// Nothing satisfied, nothing captured.
pub open spec fn fresh(fields: nat, captures: nat) -> Progress {
    Progress { sat: Seq::new(fields, |_i: int| false), caps: Seq::new(captures, |_i: int| None) }
}

/// Whether the value spanning `b[s..e]` has type `t`. Only a literal looks
/// past the value's first byte.
pub open spec fn type_ok(t: FieldType, b: Seq<u8>, s: int, e: int) -> bool {
    let c = b[s];
    match t {
        FieldType::Object => c == 0x7B,
        FieldType::Array => c == 0x5B,
        FieldType::String => c == 0x22,
        FieldType::Number => c == 0x2D || is_digit(c),
        FieldType::Bool => c == 0x74 || c == 0x66,
        FieldType::Null => c == 0x6E,
        FieldType::Literal(l) => encode_utf8(l@) == b.subrange(s, e),
        FieldType::Any => true,
    }
}

/// What each scalar type accepts, read off the value's text: for a whole
/// JSON value `b[s..e]`, `Bool` holds exactly of `true` and `false`, `Null`
/// exactly of `null`, and `Number` exactly of a number by the declarative
/// grammar ([`number_text`]); `Any` holds of every value.
pub proof fn lemma_value_types(b: Seq<u8>, s: int, e: int, l: nat)
    requires
        0 <= s,
        value_spec(b, s, l) == Ok::<int, MatchError>(e),
    ensures
        type_ok(FieldType::Bool, b, s, e) <==> (b.subrange(s, e) == seq![0x74u8, 0x72, 0x75, 0x65]
            || b.subrange(s, e) == seq![0x66u8, 0x61, 0x6C, 0x73, 0x65]),
        type_ok(FieldType::Null, b, s, e) <==> b.subrange(s, e) == seq![0x6Eu8, 0x75, 0x6C, 0x6C],
        type_ok(FieldType::Number, b, s, e) <==> number_text(b.subrange(s, e)),
        type_ok(FieldType::Any, b, s, e),
{
    lemma_value_ends_ascii(b, s, Seq::empty(), l);
    let t = b.subrange(s, e);
    assert(t[0] == b[s]);
    let c = b[s];
    if c == 0x74 || c == 0x66 || c == 0x6E {
        let kw = if c == 0x74 { seq![0x74u8, 0x72, 0x75, 0x65] }
            else if c == 0x66 { seq![0x66u8, 0x61, 0x6C, 0x73, 0x65] }
            else { seq![0x6Eu8, 0x75, 0x6C, 0x6C] };
        let k = keyword_spec(b, s, kw)->Ok_0;
        assert(after_value(b, k, Seq::empty(), l) == Ok::<int, MatchError>(k));
        assert(k == e);
        assert(t =~= kw);
        if number_text(t) {
            let (a, cc, d) = choose|a: int, cc: int, d: int|
                #![trigger crate::lex::int_text(t.subrange(a, cc)), crate::lex::frac_text(t.subrange(cc, d))]
                0 <= a <= cc <= d <= t.len() && (a == 0 || (a == 1 && t[0] == 0x2D))
                    && crate::lex::int_text(t.subrange(a, cc)) && crate::lex::frac_text(t.subrange(cc, d))
                    && crate::lex::exp_text(t.subrange(d, t.len() as int));
            assert(t.subrange(a, cc)[0] == t[a]);
        }
    } else if c == 0x2D || is_digit(c) {
        lemma_value_number(b, s, l);
        lemma_number_sound(b, s);
    } else {
        if number_text(t) {
            let (a, cc, d) = choose|a: int, cc: int, d: int|
                #![trigger crate::lex::int_text(t.subrange(a, cc)), crate::lex::frac_text(t.subrange(cc, d))]
                0 <= a <= cc <= d <= t.len() && (a == 0 || (a == 1 && t[0] == 0x2D))
                    && crate::lex::int_text(t.subrange(a, cc)) && crate::lex::frac_text(t.subrange(cc, d))
                    && crate::lex::exp_text(t.subrange(d, t.len() as int));
            assert(t.subrange(a, cc)[0] == t[a]);
        }
        if t.len() >= 4 {
            assert(t[0] == c);
        }
    }
}

/// Some field of set `set` has its path end at node `m`.
pub open spec fn node_has_set(acts: Seq<Action>, m: Node, set: u32) -> bool {
    exists|j: int| 0 <= j < m.actions@.len() && acts[#[trigger] m.actions@[j] as int].set_index == set
}

/// Some field of set `set` has its path end in the subtree of `n`.
pub open spec fn subtree_has_set(acts: Seq<Action>, n: Node, set: u32) -> bool {
    exists|p: Seq<Step>| #[trigger] node_at(n, p) is Some && node_has_set(acts, node_at(n, p).unwrap(), set)
}

/// Every member (or element) of a container was resolved to a child whose
/// subtree holds a field of set `set`.
pub open spec fn covered(acts: Seq<Action>, kids: Seq<Option<Node>>, set: u32) -> bool {
    forall|i: int| 0 <= i < kids.len() ==> (#[trigger] kids[i] matches Some(c) && subtree_has_set(acts, c, set))
}

/// Where a predicate's haystack begins: inside the quotes of a string.
pub open spec fn content_start(b: Seq<u8>, s: int) -> int {
    if b[s] == 0x22 { s + 1 } else { s }
}

/// Whether the haystack is decoded text rather than a slice of the input.
pub open spec fn decoded(b: Seq<u8>, s: int, escaped: bool) -> bool {
    b[s] == 0x22 && escaped
}

/// The text a predicate runs on: the decoded content of a string, or the
/// raw text of any other value.
pub open spec fn haystack(b: Seq<u8>, s: int, e: int, escaped: bool) -> Seq<char> {
    if decoded(b, s, escaped) {
        unescape_from(b, s + 1, e - 1)
    } else if b[s] == 0x22 {
        decode_utf8(b.subrange(s + 1, e - 1))
    } else {
        decode_utf8(b.subrange(s, e))
    }
}

/// What a capturing group captured: a range of the input, or the decoded
/// characters when the haystack was decoded from escapes.
pub open spec fn group_capture(b: Seq<u8>, s: int, e: int, escaped: bool, span: Option<(usize, usize)>) -> Option<CaptureModel> {
    match span {
        None => None,
        Some((gs, ge)) => Some(CaptureModel::PredicateCapture(
            if decoded(b, s, escaped) {
                StrModel::Owned(decode_utf8(encode_utf8(haystack(b, s, e, escaped)).subrange(gs as int, ge as int)))
            } else {
                StrModel::Borrowed(Range { start: (content_start(b, s) + gs) as u32, end: (content_start(b, s) + ge) as u32 })
            },
        )),
    }
}

/// The text a captured string stands for, read against the input `b`.
pub open spec fn str_text(m: StrModel, b: Seq<u8>) -> Seq<char> {
    match m {
        StrModel::Owned(t) => t,
        StrModel::Borrowed(r) => decode_utf8(b.subrange(r.start as int, r.end as int)),
    }
}

/// The characters of the haystack `hay` between the byte offsets `gs` and
/// `ge` of its UTF-8 text.
pub open spec fn span_text(hay: Seq<char>, gs: int, ge: int) -> Seq<char> {
    decode_utf8(encode_utf8(hay).subrange(gs, ge))
}

/// What a group's slot holds: nothing when the group took no part in the
/// match, and otherwise exactly the text of the span the match gave it,
/// whether the slot refers to the input or holds decoded characters.
pub proof fn lemma_group_capture_meaning(b: Seq<u8>, s: int, e: int, escaped: bool, span: Option<(usize, usize)>)
    requires
        0 <= s < e <= b.len() <= u32::MAX,
        b[s] == 0x22 ==> s + 1 <= e - 1,
        valid_utf8(b.subrange(content_start(b, s), if b[s] == 0x22 { e - 1 } else { e })),
    ensures
        group_capture(b, s, e, escaped, span) is None <==> span is None,
        forall|gs: usize, ge: usize| span == Some((gs, ge)) && gs <= ge <= encode_utf8(haystack(b, s, e, escaped)).len()
            ==> (group_capture(b, s, e, escaped, span) matches Some(CaptureModel::PredicateCapture(m))
                && str_text(m, b) == span_text(haystack(b, s, e, escaped), gs as int, ge as int)),
{
    if let Some((gs, ge)) = span {
        if !decoded(b, s, escaped) && gs <= ge <= encode_utf8(haystack(b, s, e, escaped)).len() {
            let cs = content_start(b, s);
            let ce = if b[s] == 0x22 { e - 1 } else { e };
            let raw = b.subrange(cs, ce);
            assert(haystack(b, s, e, escaped) == decode_utf8(raw));
            vstd::utf8::decode_utf8_encode_utf8(raw);
            assert(encode_utf8(haystack(b, s, e, escaped)).subrange(gs as int, ge as int) =~= b.subrange(cs + gs, cs + ge));
        }
    }
}

/// The raw content of a whole value in UTF-8 input (a string's bytes
/// between its quotes, any other value's own bytes) is UTF-8 itself.
pub proof fn lemma_value_content_utf8(b: Seq<u8>, v: int, e: int, l: nat)
    requires
        valid_utf8(b),
        0 <= v,
        value_spec(b, v, l) == Ok::<int, MatchError>(e),
    ensures
        0 <= v < e <= b.len(),
        b[v] == 0x22 ==> v + 1 <= e - 1,
        valid_utf8(b.subrange(content_start(b, v), if b[v] == 0x22 { e - 1 } else { e })),
{
    lemma_value_ends_ascii(b, v, Seq::empty(), l);
    let c = b[v];
    if c == 0x22 {
        lemma_string_from_bounds(b, v + 1, false);
        let e2 = string_spec(b, v)->Ok_0.0;
        assert(after_value(b, e2, Seq::empty(), l) == Ok::<int, MatchError>(e2));
    }
    assert(c < 0x80);
    let cs = content_start(b, v);
    let ce = if c == 0x22 { e - 1 } else { e };
    crate::text::lemma_ascii_boundary(b, v);
    vstd::utf8::valid_utf8_split(b, cs);
    let t1 = b.subrange(cs, b.len() as int);
    if c == 0x22 {
        assert(t1[ce - cs] == b[ce]);
        crate::text::lemma_ascii_boundary(t1, ce - cs);
    } else {
        assert(t1[ce - cs - 1] == b[ce - 1]);
        crate::text::lemma_ascii_boundary(t1, ce - cs - 1);
    }
    vstd::utf8::valid_utf8_split(t1, ce - cs);
    assert(t1.subrange(0, ce - cs) =~= b.subrange(cs, ce));
}

/// The capture slots after the groups `groups[..k]` wrote the spans of a match.
pub open spec fn write_groups(
    groups: Seq<(usize, u32)>,
    spans: Seq<Option<(usize, usize)>>,
    k: int,
    b: Seq<u8>,
    s: int,
    e: int,
    escaped: bool,
    caps: Seq<Option<CaptureModel>>,
) -> Seq<Option<CaptureModel>>
    decreases k,
{
    if k <= 0 {
        caps
    } else {
        let w = write_groups(groups, spans, k - 1, b, s, e, escaped, caps);
        let g = groups[k - 1].0;
        let span = if g < spans.len() { spans[g as int] } else { None };
        w.update(groups[k - 1].1 as int, group_capture(b, s, e, escaped, span))
    }
}

/// The value a field captures: containers and numbers by their span,
/// strings by their content, keywords by their value. A number literal
/// beyond the finite `f64` range cannot be captured.
pub open spec fn value_capture(b: Seq<u8>, s: int, e: int, escaped: bool) -> Result<CaptureModel, MatchError> {
    let c = b[s];
    if c == 0x7B {
        Ok(CaptureModel::Object(Range { start: s as u32, end: e as u32 }))
    } else if c == 0x5B {
        Ok(CaptureModel::Array(Range { start: s as u32, end: e as u32 }))
    } else if c == 0x22 {
        Ok(CaptureModel::String(
            if escaped {
                StrModel::Owned(unescape_from(b, s + 1, e - 1))
            } else {
                StrModel::Borrowed(Range { start: (s + 1) as u32, end: (e - 1) as u32 })
            },
        ))
    } else if c == 0x74 {
        Ok(CaptureModel::Bool(true))
    } else if c == 0x66 {
        Ok(CaptureModel::Bool(false))
    } else if c == 0x6E {
        Ok(CaptureModel::Null)
    } else if number_overflows(b, s, e) {
        Err(MatchError::NumberOutOfRange { pos: s as u32 })
    } else {
        Ok(CaptureModel::Number(Range { start: s as u32, end: e as u32 }))
    }
}

/// Field `f` is satisfied by the value `b[s..e]`, capturing it if it captures.
pub open spec fn satisfy(a: Action, f: int, b: Seq<u8>, s: int, e: int, escaped: bool, st: Progress) -> Result<Progress, MatchError> {
    let sat = st.sat.update(f, true);
    match a.value_capture {
        None => Ok(Progress { sat, caps: st.caps }),
        Some(c) => match value_capture(b, s, e, escaped) {
            Ok(v) => Ok(Progress { sat, caps: st.caps.update(c as int, Some(v)) }),
            Err(x) => Err(x),
        },
    }
}

/// Trying field `f` on the value `b[s..e]`, whose members resolved to `kids`.
pub open spec fn action_step(
    acts: Seq<Action>,
    f: u32,
    b: Seq<u8>,
    s: int,
    e: int,
    escaped: bool,
    kids: Seq<Option<Node>>,
    st: Progress,
) -> Result<Progress, MatchError> {
    let a = acts[f as int];
    if st.sat[f as int] {
        Ok(st)
    } else if !type_ok(a.field_type, b, s, e) {
        Ok(st)
    } else if a.exhaustive && !covered(acts, kids, a.set_index) {
        Ok(st)
    } else {
        match a.predicate {
            None => satisfy(a, f as int, b, s, e, escaped, st),
            Some(p) => match regex_captures(p@, haystack(b, s, e, escaped)) {
                None => Ok(st),
                Some(spans) => satisfy(a, f as int, b, s, e, escaped, Progress {
                    sat: st.sat,
                    caps: write_groups(a.predicate_groups@, spans, a.predicate_groups@.len() as int, b, s, e, escaped, st.caps),
                }),
            },
        }
    }
}

/// Trying the fields `fs[..k]`, in order, on one value.
pub open spec fn run_actions(
    acts: Seq<Action>,
    fs: Seq<u32>,
    k: int,
    b: Seq<u8>,
    s: int,
    e: int,
    escaped: bool,
    kids: Seq<Option<Node>>,
    st: Progress,
) -> Result<Progress, MatchError>
    decreases k,
{
    if k <= 0 {
        Ok(st)
    } else {
        match run_actions(acts, fs, k - 1, b, s, e, escaped, kids, st) {
            Err(x) => Err(x),
            Ok(st1) => action_step(acts, fs[k - 1], b, s, e, escaped, kids, st1),
        }
    }
}

/// Once a field's capture fails, the fields after it are not tried.
pub proof fn lemma_run_actions_err(
    acts: Seq<Action>, fs: Seq<u32>, k: int, k2: int, b: Seq<u8>, s: int, e: int, escaped: bool,
    kids: Seq<Option<Node>>, st: Progress,
)
    requires
        k <= k2,
        run_actions(acts, fs, k, b, s, e, escaped, kids, st) is Err,
    ensures
        run_actions(acts, fs, k2, b, s, e, escaped, kids, st) == run_actions(acts, fs, k, b, s, e, escaped, kids, st),
    decreases k2 - k,
{
    if k < k2 {
        lemma_run_actions_err(acts, fs, k, k2 - 1, b, s, e, escaped, kids, st);
    }
}

/// Some field whose path ends at `n` is exhaustive.
pub open spec fn has_exhaustive(acts: Seq<Action>, n: Node) -> bool {
    exists|j: int| 0 <= j < n.actions@.len() && acts[#[trigger] n.actions@[j] as int].exhaustive
}

/// An object at `n` is walked member by member when some field lies below
/// it or must check its members.
pub open spec fn walks_object(acts: Seq<Action>, n: Node) -> bool {
    n.key_children@.len() > 0 || has_exhaustive(acts, n)
}

pub open spec fn walks_array(acts: Seq<Action>, n: Node) -> bool {
    n.index_children@.len() > 0 || n.any_index_child is Some || has_exhaustive(acts, n)
}

/// The child a member with key `k` is matched against.
pub open spec fn key_child(n: Node, k: Seq<char>) -> Option<Node> {
    match key_pos(n.key_children@, k, 0) {
        Some(i) => Some(n.key_children@[i].1),
        None => None,
    }
}

/// The child element `i` is matched against: its fixed index when the node
/// has that index child, else the wildcard child.
pub open spec fn element_child(n: Node, i: nat) -> Option<Node> {
    let fixed = if i <= 0xFFFF { index_pos(n.index_children@, i as u16, 0) } else { None };
    match fixed {
        Some(j) => Some(n.index_children@[j].1),
        None => match n.any_index_child {
            Some(c) => Some(*c),
            None => None,
        },
    }
}

/// Scanning the value at `pos` against node `n`: containers the trie
/// descends into are walked (each member or element matched against the
/// child it resolves to), anything else is validated. Returns the position
/// past the value, the progress, whether a string value had escapes, and the
/// child each member or element resolved to.
pub closed spec fn scan_value(
    acts: Seq<Action>,
    b: Seq<u8>,
    pos: int,
    n: Node,
    limit: nat,
    st: Progress,
) -> Result<(int, Progress, bool, Seq<Option<Node>>), MatchError>
    decreases b.len() + 2 - pos, 2int,
{
    if pos < 0 || pos > b.len() {
        Err(MatchError::UnexpectedEof)
    } else {
        match peek_spec(b, pos) {
            Err(x) => Err(x),
            Ok(c) => if c == 0x7B && walks_object(acts, n) {
                match walk_object(acts, b, pos, n, limit, st) {
                    Ok((e, st1, kids)) => Ok((e, st1, false, kids)),
                    Err(x) => Err(x),
                }
            } else if c == 0x5B && walks_array(acts, n) {
                match walk_array(acts, b, pos, n, limit, st) {
                    Ok((e, st1, kids)) => Ok((e, st1, false, kids)),
                    Err(x) => Err(x),
                }
            } else if c == 0x22 {
                match string_spec(b, pos) {
                    Ok((e, escaped)) => Ok((e, st, escaped, Seq::empty())),
                    Err(x) => Err(x),
                }
            } else {
                match value_spec(b, pos, limit) {
                    Ok(e) => Ok((e, st, false, Seq::empty())),
                    Err(x) => Err(x),
                }
            },
        }
    }
}

/// Matching the value at `pos` against node `n`: scanning it, then trying
/// the fields of `n` on it. Returns the position just past the value.
pub closed spec fn walk_value(
    acts: Seq<Action>,
    b: Seq<u8>,
    pos: int,
    n: Node,
    limit: nat,
    st: Progress,
) -> Result<(int, Progress), MatchError>
    decreases b.len() + 2 - pos, 3int,
{
    match scan_value(acts, b, pos, n, limit, st) {
        Err(x) => Err(x),
        Ok((e, st1, escaped, kids)) => match run_actions(acts, n.actions@, n.actions@.len() as int, b, pos, e, escaped, kids, st1) {
            Ok(st2) => Ok((e, st2)),
            Err(x) => Err(x),
        },
    }
}

/// A member or element at `v`: matched against its child when it has one,
/// otherwise only validated.
pub closed spec fn item_value(
    acts: Seq<Action>,
    b: Seq<u8>,
    v: int,
    child: Option<Node>,
    limit: nat,
    st: Progress,
) -> Result<(int, Progress), MatchError>
    decreases b.len() + 2 - v, 4int,
{
    match child {
        Some(c) => walk_value(acts, b, v, c, limit, st),
        None => match value_spec(b, v, limit) {
            Ok(e) => Ok((e, st)),
            Err(x) => Err(x),
        },
    }
}

/// A member's key and colon at `i`: the position of its value and the
/// child it resolves to.
pub open spec fn key_step(b: Seq<u8>, i: int, n: Node) -> Result<(int, Option<Node>), MatchError> {
    match peek_spec(b, i) {
        Err(x) => Err(x),
        Ok(c) => if c != 0x22 {
            Err(MatchError::UnexpectedByte { pos: i as u32, byte: c })
        } else {
            match string_spec(b, i) {
                Err(x) => Err(x),
                Ok((ke, _)) => {
                    let p = ws_end(b, ke);
                    match peek_spec(b, p) {
                        Err(x) => Err(x),
                        Ok(c2) => if c2 != 0x3A {
                            Err(MatchError::UnexpectedByte { pos: p as u32, byte: c2 })
                        } else {
                            Ok((ws_end(b, p + 1), key_child(n, unescape_from(b, i + 1, ke - 1))))
                        },
                    }
                },
            }
        },
    }
}

pub proof fn lemma_key_step_bounds(b: Seq<u8>, i: int, n: Node)
    requires
        0 <= i <= b.len(),
    ensures
        key_step(b, i, n) matches Ok((v, _)) ==> i < v <= b.len(),
{
    if i < b.len() {
        lemma_string_from_bounds(b, i + 1, false);
        if let Ok((ke, _)) = string_spec(b, i) {
            lemma_ws_end_bounds(b, ke);
            let p = ws_end(b, ke);
            if p < b.len() {
                lemma_ws_end_bounds(b, p + 1);
            }
        }
    }
}

/// After a member or element ending at `e`: `,` continues with the next one
/// (at the returned position), the closing byte ends the container (just
/// before the returned position).
pub open spec fn after_item(b: Seq<u8>, e: int, close: u8) -> Result<(int, bool), MatchError> {
    let w = ws_end(b, e);
    match peek_spec(b, w) {
        Err(x) => Err(x),
        Ok(c) => if c == 0x2C {
            Ok((ws_end(b, w + 1), true))
        } else if c == close {
            Ok((w + 1, false))
        } else {
            Err(MatchError::UnexpectedByte { pos: w as u32, byte: c })
        },
    }
}

pub proof fn lemma_after_item_bounds(b: Seq<u8>, e: int, close: u8)
    requires
        0 <= e <= b.len(),
    ensures
        after_item(b, e, close) matches Ok((nx, more)) ==> e < nx <= b.len() && (!more ==> b[nx - 1] == close),
{
    lemma_ws_end_bounds(b, e);
    let w = ws_end(b, e);
    if w < b.len() {
        lemma_ws_end_bounds(b, w + 1);
    }
}

/// One member at `i`: its key, its value, and what follows it.
pub closed spec fn member_step(
    acts: Seq<Action>,
    b: Seq<u8>,
    i: int,
    n: Node,
    limit: nat,
    st: Progress,
) -> Result<(int, bool, Progress, Option<Node>), MatchError>
    decreases b.len() + 2 - i, 5int,
{
    if i < 0 || i > b.len() {
        Err(MatchError::UnexpectedEof)
    } else {
        proof { lemma_key_step_bounds(b, i, n); }
        match key_step(b, i, n) {
            Err(x) => Err(x),
            Ok((v, child)) => match item_value(acts, b, v, child, limit, st) {
                Err(x) => Err(x),
                Ok((e, st1)) => match after_item(b, e, 0x7D) {
                    Err(x) => Err(x),
                    Ok((nx, more)) => Ok((nx, more, st1, child)),
                },
            },
        }
    }
}

/// An object's members from the key at `i`, after the members that
/// resolved to `kids`.
pub closed spec fn walk_members(
    acts: Seq<Action>,
    b: Seq<u8>,
    i: int,
    n: Node,
    limit: nat,
    st: Progress,
    kids: Seq<Option<Node>>,
) -> Result<(int, Progress, Seq<Option<Node>>), MatchError>
    decreases b.len() + 2 - i, 6int,
{
    match member_step(acts, b, i, n, limit, st) {
        Err(x) => Err(x),
        Ok((nx, more, st1, child)) => if !more {
            Ok((nx, st1, kids.push(child)))
        } else if i < nx <= b.len() {
            walk_members(acts, b, nx, n, limit, st1, kids.push(child))
        } else {
            Err(MatchError::UnexpectedEof)
        },
    }
}

/// Walking the object whose `{` is at `pos`: the position past its `}`,
/// and the child each member resolved to.
pub closed spec fn walk_object(
    acts: Seq<Action>,
    b: Seq<u8>,
    pos: int,
    n: Node,
    limit: nat,
    st: Progress,
) -> Result<(int, Progress, Seq<Option<Node>>), MatchError>
    decreases b.len() + 2 - pos, 1int,
{
    if pos < 0 || pos >= b.len() {
        Err(MatchError::UnexpectedEof)
    } else {
        let j = ws_end(b, pos + 1);
        proof { lemma_ws_end_bounds(b, pos + 1); }
        match peek_spec(b, j) {
            Err(x) => Err(x),
            Ok(d) => if d == 0x7D {
                Ok((j + 1, st, Seq::empty()))
            } else {
                walk_members(acts, b, j, n, limit, st, Seq::empty())
            },
        }
    }
}

/// One element, number `idx`, at `i`: its value and what follows it.
pub closed spec fn element_step(
    acts: Seq<Action>,
    b: Seq<u8>,
    i: int,
    idx: nat,
    n: Node,
    limit: nat,
    st: Progress,
) -> Result<(int, bool, Progress), MatchError>
    decreases b.len() + 2 - i, 5int,
{
    match item_value(acts, b, i, element_child(n, idx), limit, st) {
        Err(x) => Err(x),
        Ok((e, st1)) => match after_item(b, e, 0x5D) {
            Err(x) => Err(x),
            Ok((nx, more)) => Ok((nx, more, st1)),
        },
    }
}

/// An array's elements from element `idx` at `i`.
pub closed spec fn walk_elements(
    acts: Seq<Action>,
    b: Seq<u8>,
    i: int,
    idx: nat,
    n: Node,
    limit: nat,
    st: Progress,
    kids: Seq<Option<Node>>,
) -> Result<(int, Progress, Seq<Option<Node>>), MatchError>
    decreases b.len() + 2 - i, 6int,
{
    match element_step(acts, b, i, idx, n, limit, st) {
        Err(x) => Err(x),
        Ok((nx, more, st1)) => if !more {
            Ok((nx, st1, kids.push(element_child(n, idx))))
        } else if i < nx <= b.len() {
            walk_elements(acts, b, nx, idx + 1, n, limit, st1, kids.push(element_child(n, idx)))
        } else {
            Err(MatchError::UnexpectedEof)
        },
    }
}

/// Walking the array whose `[` is at `pos`.
pub closed spec fn walk_array(
    acts: Seq<Action>,
    b: Seq<u8>,
    pos: int,
    n: Node,
    limit: nat,
    st: Progress,
) -> Result<(int, Progress, Seq<Option<Node>>), MatchError>
    decreases b.len() + 2 - pos, 1int,
{
    if pos < 0 || pos >= b.len() {
        Err(MatchError::UnexpectedEof)
    } else {
        let j = ws_end(b, pos + 1);
        proof { lemma_ws_end_bounds(b, pos + 1); }
        match peek_spec(b, j) {
            Err(x) => Err(x),
            Ok(d) => if d == 0x5D {
                Ok((j + 1, st, Seq::empty()))
            } else {
                walk_elements(acts, b, j, 0, n, limit, st, Seq::empty())
            },
        }
    }
}

/// `scan_value` unfolded one step, for callers outside this module.
pub proof fn lemma_scan_value_unfold(
    acts: Seq<Action>,
    b: Seq<u8>,
    pos: int,
    n: Node,
    limit: nat,
    st: Progress,
)
    ensures
        scan_value(acts, b, pos, n, limit, st) == ({
            if pos < 0 || pos > b.len() {
                Err(MatchError::UnexpectedEof)
            } else {
                match peek_spec(b, pos) {
                    Err(x) => Err(x),
                    Ok(c) => if c == 0x7B && walks_object(acts, n) {
                        match walk_object(acts, b, pos, n, limit, st) {
                            Ok((e, st1, kids)) => Ok((e, st1, false, kids)),
                            Err(x) => Err(x),
                        }
                    } else if c == 0x5B && walks_array(acts, n) {
                        match walk_array(acts, b, pos, n, limit, st) {
                            Ok((e, st1, kids)) => Ok((e, st1, false, kids)),
                            Err(x) => Err(x),
                        }
                    } else if c == 0x22 {
                        match string_spec(b, pos) {
                            Ok((e, escaped)) => Ok((e, st, escaped, Seq::empty())),
                            Err(x) => Err(x),
                        }
                    } else {
                        match value_spec(b, pos, limit) {
                            Ok(e) => Ok((e, st, false, Seq::empty())),
                            Err(x) => Err(x),
                        }
                    },
                }
            }
        }),
{
}

/// `walk_value` unfolded one step, for callers outside this module.
pub proof fn lemma_walk_value_unfold(
    acts: Seq<Action>,
    b: Seq<u8>,
    pos: int,
    n: Node,
    limit: nat,
    st: Progress,
)
    ensures
        walk_value(acts, b, pos, n, limit, st) == ({
            match scan_value(acts, b, pos, n, limit, st) {
                Err(x) => Err(x),
                Ok((e, st1, escaped, kids)) => match run_actions(acts, n.actions@, n.actions@.len() as int, b, pos, e, escaped, kids, st1) {
                    Ok(st2) => Ok((e, st2)),
                    Err(x) => Err(x),
                },
            }
        }),
{
}

/// `item_value` unfolded one step, for callers outside this module.
pub proof fn lemma_item_value_unfold(
    acts: Seq<Action>,
    b: Seq<u8>,
    v: int,
    child: Option<Node>,
    limit: nat,
    st: Progress,
)
    ensures
        item_value(acts, b, v, child, limit, st) == ({
            match child {
                Some(c) => walk_value(acts, b, v, c, limit, st),
                None => match value_spec(b, v, limit) {
                    Ok(e) => Ok((e, st)),
                    Err(x) => Err(x),
                },
            }
        }),
{
}

/// `member_step` unfolded one step, for callers outside this module.
pub proof fn lemma_member_step_unfold(
    acts: Seq<Action>,
    b: Seq<u8>,
    i: int,
    n: Node,
    limit: nat,
    st: Progress,
)
    ensures
        member_step(acts, b, i, n, limit, st) == ({
            if i < 0 || i > b.len() {
                Err(MatchError::UnexpectedEof)
            } else {
                match key_step(b, i, n) {
                    Err(x) => Err(x),
                    Ok((v, child)) => match item_value(acts, b, v, child, limit, st) {
                        Err(x) => Err(x),
                        Ok((e, st1)) => match after_item(b, e, 0x7D) {
                            Err(x) => Err(x),
                            Ok((nx, more)) => Ok((nx, more, st1, child)),
                        },
                    },
                }
            }
        }),
{
}

/// `walk_members` unfolded one step, for callers outside this module.
pub proof fn lemma_walk_members_unfold(
    acts: Seq<Action>,
    b: Seq<u8>,
    i: int,
    n: Node,
    limit: nat,
    st: Progress,
    kids: Seq<Option<Node>>,
)
    ensures
        walk_members(acts, b, i, n, limit, st, kids) == ({
            match member_step(acts, b, i, n, limit, st) {
                Err(x) => Err(x),
                Ok((nx, more, st1, child)) => if !more {
                    Ok((nx, st1, kids.push(child)))
                } else if i < nx <= b.len() {
                    walk_members(acts, b, nx, n, limit, st1, kids.push(child))
                } else {
                    Err(MatchError::UnexpectedEof)
                },
            }
        }),
{
}

/// `walk_object` unfolded one step, for callers outside this module.
pub proof fn lemma_walk_object_unfold(
    acts: Seq<Action>,
    b: Seq<u8>,
    pos: int,
    n: Node,
    limit: nat,
    st: Progress,
)
    ensures
        walk_object(acts, b, pos, n, limit, st) == ({
            if pos < 0 || pos >= b.len() {
                Err(MatchError::UnexpectedEof)
            } else {
                let j = ws_end(b, pos + 1);
                match peek_spec(b, j) {
                    Err(x) => Err(x),
                    Ok(d) => if d == 0x7D {
                        Ok((j + 1, st, Seq::empty()))
                    } else {
                        walk_members(acts, b, j, n, limit, st, Seq::empty())
                    },
                }
            }
        }),
{
}

/// `element_step` unfolded one step, for callers outside this module.
pub proof fn lemma_element_step_unfold(
    acts: Seq<Action>,
    b: Seq<u8>,
    i: int,
    idx: nat,
    n: Node,
    limit: nat,
    st: Progress,
)
    ensures
        element_step(acts, b, i, idx, n, limit, st) == ({
            match item_value(acts, b, i, element_child(n, idx), limit, st) {
                Err(x) => Err(x),
                Ok((e, st1)) => match after_item(b, e, 0x5D) {
                    Err(x) => Err(x),
                    Ok((nx, more)) => Ok((nx, more, st1)),
                },
            }
        }),
{
}

/// `walk_elements` unfolded one step, for callers outside this module.
pub proof fn lemma_walk_elements_unfold(
    acts: Seq<Action>,
    b: Seq<u8>,
    i: int,
    idx: nat,
    n: Node,
    limit: nat,
    st: Progress,
    kids: Seq<Option<Node>>,
)
    ensures
        walk_elements(acts, b, i, idx, n, limit, st, kids) == ({
            match element_step(acts, b, i, idx, n, limit, st) {
                Err(x) => Err(x),
                Ok((nx, more, st1)) => if !more {
                    Ok((nx, st1, kids.push(element_child(n, idx))))
                } else if i < nx <= b.len() {
                    walk_elements(acts, b, nx, idx + 1, n, limit, st1, kids.push(element_child(n, idx)))
                } else {
                    Err(MatchError::UnexpectedEof)
                },
            }
        }),
{
}

/// `walk_array` unfolded one step, for callers outside this module.
pub proof fn lemma_walk_array_unfold(
    acts: Seq<Action>,
    b: Seq<u8>,
    pos: int,
    n: Node,
    limit: nat,
    st: Progress,
)
    ensures
        walk_array(acts, b, pos, n, limit, st) == ({
            if pos < 0 || pos >= b.len() {
                Err(MatchError::UnexpectedEof)
            } else {
                let j = ws_end(b, pos + 1);
                match peek_spec(b, j) {
                    Err(x) => Err(x),
                    Ok(d) => if d == 0x5D {
                        Ok((j + 1, st, Seq::empty()))
                    } else {
                        walk_elements(acts, b, j, 0, n, limit, st, Seq::empty())
                    },
                }
            }
        }),
{
}

/// Matching a whole input: one value, surrounded only by whitespace.
pub open spec fn match_input(
    acts: Seq<Action>,
    root: Node,
    captures: nat,
    b: Seq<u8>,
    limit: nat,
) -> Result<Progress, MatchError> {
    if b.len() > u32::MAX {
        Err(MatchError::InputTooLong { len: b.len() as usize })
    } else {
        match walk_value(acts, b, ws_end(b, 0), root, limit, fresh(acts.len(), captures)) {
            Err(x) => Err(x),
            Ok((e, st)) => {
                let w = ws_end(b, e);
                if w != b.len() {
                    Err(MatchError::TrailingData { pos: w as u32 })
                } else {
                    Ok(st)
                }
            },
        }
    }
}

/// A set matches when every one of its fields is satisfied.
pub open spec fn set_matched(acts: Seq<Action>, sat: Seq<bool>, s: int) -> bool {
    forall|f: int| 0 <= f < acts.len() && acts[f].set_index == s ==> #[trigger] sat[f]
}

/// Every field id at or below `n` is less than `bound`.
pub open spec fn acts_below(n: Node, bound: nat) -> bool {
    forall|p: Seq<Step>| #[trigger] node_at(n, p) is Some ==> forall|j: int|
        0 <= j < node_at(n, p).unwrap().actions@.len() ==> node_at(n, p).unwrap().actions@[j] < bound
}

/// A trie node the matcher can work with: children are found by key or
/// index, and every field id names a field of `acts`.
pub open spec fn node_ok(acts: Seq<Action>, n: Node) -> bool {
    wf_node(n) && acts_below(n, acts.len())
}

pub proof fn lemma_node_ok_unfold(acts: Seq<Action>, n: Node)
    requires
        node_ok(acts, n),
    ensures
        distinct_children(n),
        forall|j: int| 0 <= j < n.actions@.len() ==> #[trigger] n.actions@[j] < acts.len(),
        forall|i: int| 0 <= i < n.key_children@.len() ==> #[trigger] node_ok(acts, n.key_children@[i].1),
        forall|i: int| 0 <= i < n.index_children@.len() ==> #[trigger] node_ok(acts, n.index_children@[i].1),
        n.any_index_child matches Some(c) ==> node_ok(acts, *c),
{
    lemma_wf_unfold(n);
    assert(node_at(n, Seq::empty()) == Some(n));
    assert forall|i: int| 0 <= i < n.key_children@.len() implies #[trigger] node_ok(acts, n.key_children@[i].1) by {
        lemma_key_pos_distinct(n.key_children@, i);
        assert forall|p: Seq<Step>| #[trigger] node_at(n.key_children@[i].1, p) is Some implies forall|j: int|
            0 <= j < node_at(n.key_children@[i].1, p).unwrap().actions@.len()
                ==> node_at(n.key_children@[i].1, p).unwrap().actions@[j] < acts.len() by {
            lemma_node_at_cons(n, Step::Key(n.key_children@[i].0@), p);
            assert(node_at(n, seq![Step::Key(n.key_children@[i].0@)] + p) is Some);
        }
    }
    assert forall|i: int| 0 <= i < n.index_children@.len() implies #[trigger] node_ok(acts, n.index_children@[i].1) by {
        lemma_index_pos_distinct(n.index_children@, i);
        assert forall|p: Seq<Step>| #[trigger] node_at(n.index_children@[i].1, p) is Some implies forall|j: int|
            0 <= j < node_at(n.index_children@[i].1, p).unwrap().actions@.len()
                ==> node_at(n.index_children@[i].1, p).unwrap().actions@[j] < acts.len() by {
            lemma_node_at_cons(n, Step::Index(n.index_children@[i].0), p);
            assert(node_at(n, seq![Step::Index(n.index_children@[i].0)] + p) is Some);
        }
    }
    if let Some(c) = n.any_index_child {
        assert forall|p: Seq<Step>| #[trigger] node_at(*c, p) is Some implies forall|j: int|
            0 <= j < node_at(*c, p).unwrap().actions@.len() ==> node_at(*c, p).unwrap().actions@[j] < acts.len() by {
            lemma_node_at_cons(n, Step::Any, p);
            assert(node_at(n, seq![Step::Any] + p) is Some);
        }
    }
}

/// The children members and elements resolve to are themselves usable.
pub proof fn lemma_children_ok(acts: Seq<Action>, n: Node, k: Seq<char>, i: nat)
    requires
        node_ok(acts, n),
    ensures
        key_child(n, k) matches Some(c) ==> node_ok(acts, c),
        element_child(n, i) matches Some(c) ==> node_ok(acts, c),
{
    lemma_node_ok_unfold(acts, n);
    lemma_key_pos_found(n.key_children@, k, 0);
    if i <= 0xFFFF {
        lemma_index_pos_found(n.index_children@, i as u16, 0);
    }
}

/// Whether some field of set `set` has its path end in the subtree of `n`.
pub fn find_set(acts: &Vec<Action>, n: &Node, set: u32) -> (r: bool)
    requires
        node_ok(acts@, *n),
    ensures
        r == subtree_has_set(acts@, *n, set),
    decreases n,
{
    proof {
        lemma_node_ok_unfold(acts@, *n);
        assert(node_at(*n, Seq::empty()) == Some(*n));
    }
    let mut j: usize = 0;
    while j < n.actions.len()
        invariant
            j <= n.actions@.len(),
            forall|t: int| 0 <= t < n.actions@.len() ==> #[trigger] n.actions@[t] < acts@.len(),
            forall|t: int| 0 <= t < j ==> acts@[#[trigger] n.actions@[t] as int].set_index != set,
        decreases n.actions@.len() - j,
    {
        if acts[n.actions[j] as usize].set_index == set {
            assert(node_has_set(acts@, node_at(*n, Seq::empty()).unwrap(), set));
            return true;
        }
        j = j + 1;
    }
    assert(!node_has_set(acts@, *n, set));
    let mut i: usize = 0;
    while i < n.key_children.len()
        invariant
            i <= n.key_children@.len(),
            node_ok(acts@, *n),
            distinct_children(*n),
            forall|t: int| 0 <= t < n.key_children@.len() ==> #[trigger] node_ok(acts@, n.key_children@[t].1),
            forall|t: int| 0 <= t < i ==> !subtree_has_set(acts@, #[trigger] n.key_children@[t].1, set),
        decreases n.key_children@.len() - i,
    {
        if find_set(acts, &n.key_children[i].1, set) {
            proof {
                let c = n.key_children@[i as int];
                lemma_key_pos_distinct(n.key_children@, i as int);
                let p = choose|p: Seq<Step>| #[trigger] node_at(c.1, p) is Some && node_has_set(acts@, node_at(c.1, p).unwrap(), set);
                lemma_node_at_cons(*n, Step::Key(c.0@), p);
                assert(node_at(*n, seq![Step::Key(c.0@)] + p) is Some);
            }
            return true;
        }
        i = i + 1;
    }
    let mut i: usize = 0;
    while i < n.index_children.len()
        invariant
            i <= n.index_children@.len(),
            node_ok(acts@, *n),
            distinct_children(*n),
            forall|t: int| 0 <= t < n.index_children@.len() ==> #[trigger] node_ok(acts@, n.index_children@[t].1),
            forall|t: int| 0 <= t < i ==> !subtree_has_set(acts@, #[trigger] n.index_children@[t].1, set),
        decreases n.index_children@.len() - i,
    {
        if find_set(acts, &n.index_children[i].1, set) {
            proof {
                let c = n.index_children@[i as int];
                lemma_index_pos_distinct(n.index_children@, i as int);
                let p = choose|p: Seq<Step>| #[trigger] node_at(c.1, p) is Some && node_has_set(acts@, node_at(c.1, p).unwrap(), set);
                lemma_node_at_cons(*n, Step::Index(c.0), p);
                assert(node_at(*n, seq![Step::Index(c.0)] + p) is Some);
            }
            return true;
        }
        i = i + 1;
    }
    let mut found_any = false;
    if let Some(c) = &n.any_index_child {
        if find_set(acts, c, set) {
            proof {
                let p = choose|p: Seq<Step>| #[trigger] node_at(**c, p) is Some && node_has_set(acts@, node_at(**c, p).unwrap(), set);
                lemma_node_at_cons(*n, Step::Any, p);
                assert(node_at(*n, seq![Step::Any] + p) is Some);
            }
            found_any = true;
        }
    }
    if found_any {
        return true;
    }
    proof {
        assert forall|p: Seq<Step>| #[trigger] node_at(*n, p) is Some implies !node_has_set(acts@, node_at(*n, p).unwrap(), set) by {
            if p.len() > 0 {
                let rest = p.drop_first();
                assert(p =~= seq![p[0]] + rest);
                lemma_node_at_cons(*n, p[0], rest);
                match p[0] {
                    Step::Key(k) => {
                        lemma_key_pos_found(n.key_children@, k, 0);
                        let t = key_pos(n.key_children@, k, 0).unwrap();
                        assert(!subtree_has_set(acts@, n.key_children@[t].1, set));
                        assert(node_at(n.key_children@[t].1, rest) is Some);
                    },
                    Step::Index(x) => {
                        lemma_index_pos_found(n.index_children@, x, 0);
                        let t = index_pos(n.index_children@, x, 0).unwrap();
                        assert(!subtree_has_set(acts@, n.index_children@[t].1, set));
                        assert(node_at(n.index_children@[t].1, rest) is Some);
                    },
                    Step::Any => {
                        let c = n.any_index_child.unwrap();
                        assert(!subtree_has_set(acts@, *c, set));
                        assert(node_at(*c, rest) is Some);
                    },
                }
            }
        }
    }
    false
}

/// For each exhaustive field at `n` (when `n` has any), whether some member
/// resolved to a child that does not cover its set.
pub open spec fn violated_ok(v: Seq<bool>, acts: Seq<Action>, n: Node, kids: Seq<Option<Node>>) -> bool {
    &&& v.len() == n.actions@.len()
    &&& forall|j: int| 0 <= j < n.actions@.len() && acts[n.actions@[j] as int].exhaustive
        ==> #[trigger] v[j] == !covered(acts, kids, acts[n.actions@[j] as int].set_index)
}

pub proof fn lemma_covered_push(acts: Seq<Action>, kids: Seq<Option<Node>>, c: Option<Node>, set: u32)
    ensures
        covered(acts, kids.push(c), set) == (covered(acts, kids, set) && (c matches Some(n) && subtree_has_set(acts, n, set))),
{
    let k2 = kids.push(c);
    assert(k2[kids.len() as int] == c);
    if covered(acts, kids, set) && (c matches Some(n) && subtree_has_set(acts, n, set)) {
        assert forall|i: int| 0 <= i < k2.len() implies (#[trigger] k2[i] matches Some(m) && subtree_has_set(acts, m, set)) by {
            if i < kids.len() {
                assert(k2[i] == kids[i]);
            }
        }
    }
    if covered(acts, k2, set) {
        assert forall|i: int| 0 <= i < kids.len() implies (#[trigger] kids[i] matches Some(m) && subtree_has_set(acts, m, set)) by {
            assert(k2[i] == kids[i]);
        }
    }
}

/// Whether some field at `n` is exhaustive.
pub fn node_has_exhaustive(acts: &Vec<Action>, n: &Node) -> (r: bool)
    requires
        forall|j: int| 0 <= j < n.actions@.len() ==> #[trigger] n.actions@[j] < acts@.len(),
    ensures
        r == has_exhaustive(acts@, *n),
{
    let mut j: usize = 0;
    while j < n.actions.len()
        invariant
            j <= n.actions@.len(),
            forall|t: int| 0 <= t < n.actions@.len() ==> #[trigger] n.actions@[t] < acts@.len(),
            forall|t: int| 0 <= t < j ==> !acts@[#[trigger] n.actions@[t] as int].exhaustive,
        decreases n.actions@.len() - j,
    {
        if acts[n.actions[j] as usize].exhaustive {
            return true;
        }
        j = j + 1;
    }
    false
}

/// A member or element just resolved to `child`: mark the exhaustive fields
/// at `n` whose set the child does not cover.
pub fn note_member(acts: &Vec<Action>, n: &Node, child: Option<&Node>, violated: &mut Vec<bool>, Ghost(kids): Ghost<Seq<Option<Node>>>)
    requires
        node_ok(acts@, *n),
        child matches Some(c) ==> node_ok(acts@, *c),
        violated_ok(old(violated)@, acts@, *n, kids),
    ensures
        violated_ok(final(violated)@, acts@, *n, kids.push(match child {
            Some(c) => Some(*c),
            None => None,
        })),
{
    proof { lemma_node_ok_unfold(acts@, *n); }
    let ghost cn: Option<Node> = match child {
        Some(c) => Some(*c),
        None => None,
    };
    let mut j: usize = 0;
    while j < n.actions.len()
        invariant
            j <= n.actions@.len(),
            violated@.len() == n.actions@.len(),
            forall|t: int| 0 <= t < n.actions@.len() ==> #[trigger] n.actions@[t] < acts@.len(),
            child matches Some(c) ==> node_ok(acts@, *c),
            cn == (match child {
                Some(c) => Some(*c),
                None => None,
            }),
            forall|t: int| j <= t < n.actions@.len() && acts@[n.actions@[t] as int].exhaustive
                ==> #[trigger] violated@[t] == !covered(acts@, kids, acts@[n.actions@[t] as int].set_index),
            forall|t: int| 0 <= t < j && acts@[n.actions@[t] as int].exhaustive
                ==> #[trigger] violated@[t] == !covered(acts@, kids.push(cn), acts@[n.actions@[t] as int].set_index),
        decreases n.actions@.len() - j,
    {
        let a = &acts[n.actions[j] as usize];
        proof { lemma_covered_push(acts@, kids, cn, a.set_index); }
        if a.exhaustive && !violated[j] {
            let cov = match child {
                Some(c) => find_set(acts, c, a.set_index),
                None => false,
            };
            if !cov {
                violated.set(j, true);
            }
        }
        j = j + 1;
    }
}

/// Whether the value `b[s..e]` has type `t`.
pub fn type_matches(t: &FieldType, b: &[u8], s: u64, e: u64) -> (r: bool)
    requires
        s < e <= b@.len(),
    ensures
        r == type_ok(*t, b@, s as int, e as int),
{
    let c = b[s as usize];
    match t {
        FieldType::Object => c == 0x7B,
        FieldType::Array => c == 0x5B,
        FieldType::String => c == 0x22,
        FieldType::Number => c == 0x2D || (0x30 <= c && c <= 0x39),
        FieldType::Bool => c == 0x74 || c == 0x66,
        FieldType::Null => c == 0x6E,
        FieldType::Literal(l) => {
            let lb = l.as_str().as_bytes();
            if lb.len() as u64 != e - s {
                assert(encode_utf8(l@).len() != b@.subrange(s as int, e as int).len());
                return false;
            }
            let mut k: usize = 0;
            while k < lb.len()
                invariant
                    k <= lb@.len(),
                    lb@ == encode_utf8(l@),
                    type_ok(*t, b@, s as int, e as int) == (encode_utf8(l@) == b@.subrange(s as int, e as int)),
                    lb@.len() == e - s,
                    s < e <= b@.len(),
                    forall|t: int| 0 <= t < k ==> lb@[t] == b@[s + t],
                decreases lb@.len() - k,
            {
                if lb[k] != b[(s + k as u64) as usize] {
                    assert(lb@[k as int] != b@.subrange(s as int, e as int)[k as int]);
                    return false;
                }
                k = k + 1;
            }
            assert(lb@ =~= b@.subrange(s as int, e as int));
            true
        },
        FieldType::Any => true,
    }
}

/// The key child whose key is the decoded content `input[cs..ce]` of a
/// member key (decoded into `buf`).
pub fn lookup_key(input: &str, cs: u64, ce: u64, n: &Node, buf: &mut String) -> (r: Option<usize>)
    requires
        input_ok(input.spec_bytes()),
        1 <= cs <= ce < input.spec_bytes().len(),
        input.spec_bytes()[cs - 1] == 0x22,
        content_to(input.spec_bytes(), cs as int, ce as int),
    ensures
        key_pos(n.key_children@, unescape_from(input.spec_bytes(), cs as int, ce as int), 0)
            == (match r {
                Some(t) => Some(t as int),
                None => None,
            }),
{
    string_clear(buf);
    decode_content(input, cs, ce, buf);
    let ghost k = unescape_from(input.spec_bytes(), cs as int, ce as int);
    assert(buf@ =~= k);
    let mut t: usize = 0;
    while t < n.key_children.len()
        invariant
            t <= n.key_children@.len(),
            buf@ == k,
            k == unescape_from(input.spec_bytes(), cs as int, ce as int),
            key_pos(n.key_children@, k, 0) == key_pos(n.key_children@, k, t as int),
        decreases n.key_children@.len() - t,
    {
        let key: &String = &n.key_children[t].0;
        if key.eq(buf) {
            assert(n.key_children@[t as int].0@ == k);
            assert(key_pos(n.key_children@, k, t as int) == Some(t as int));
            return Some(t);
        }
        t = t + 1;
    }
    None
}

/// The position of the index child with index `x`.
pub fn find_index(n: &Node, x: u16) -> (r: Option<usize>)
    ensures
        index_pos(n.index_children@, x, 0) == (match r {
            Some(t) => Some(t as int),
            None => None,
        }),
{
    let mut t: usize = 0;
    while t < n.index_children.len()
        invariant
            t <= n.index_children@.len(),
            index_pos(n.index_children@, x, 0) == index_pos(n.index_children@, x, t as int),
        decreases n.index_children@.len() - t,
    {
        if n.index_children[t].0 == x {
            return Some(t);
        }
        t = t + 1;
    }
    None
}

/// The child a member key found by [`member_key`] resolves to.
pub open spec fn key_child_at(n: Node, t: Option<usize>) -> Option<Node> {
    match t {
        Some(t) => Some(n.key_children@[t as int].1),
        None => None,
    }
}

/// Scans a member's key and colon at `i`: the position of its value and the
/// position of the key child it resolves to.
pub fn member_key(input: &str, b: &[u8], i: u64, n: &Node, buf: &mut String) -> (r: Result<(u64, Option<usize>), MatchError>)
    requires
        b@ == input.spec_bytes(),
        input_ok(b@),
        i <= b@.len(),
    ensures
        match (r, key_step(b@, i as int, *n)) {
            (Ok((v, t)), Ok((v2, child))) => v == v2 && child == key_child_at(*n, t)
                && (t matches Some(x) ==> x < n.key_children@.len()),
            (Err(x), Err(y)) => x == y,
            _ => false,
        },
        r matches Ok((v, _)) ==> i < v <= b@.len(),
{
    let c = crate::lex::peek(b, i)?;
    if c != 0x22 {
        return Err(MatchError::UnexpectedByte { pos: i as u32, byte: c });
    }
    let (ke, _) = crate::lex::validate_string(b, i)?;
    proof { lemma_string_from_bounds(b@, i + 1, false); }
    let t = lookup_key(input, i + 1, ke - 1, n, buf);
    proof { lemma_key_pos_found(n.key_children@, unescape_from(b@, i + 1, ke - 1), 0); }
    let p = crate::lex::skip_ws(b, ke);
    let c2 = crate::lex::peek(b, p)?;
    if c2 != 0x3A {
        return Err(MatchError::UnexpectedByte { pos: p as u32, byte: c2 });
    }
    let v = crate::lex::skip_ws(b, p + 1);
    Ok((v, t))
}

/// Scans what follows a member or element ending at `e`.
pub fn after_item_exec(b: &[u8], e: u64, close: u8) -> (r: Result<(u64, bool), MatchError>)
    requires
        input_ok(b@),
        e <= b@.len(),
    ensures
        match (r, after_item(b@, e as int, close)) {
            (Ok((nx, more)), Ok((nx2, more2))) => nx == nx2 && more == more2,
            (Err(x), Err(y)) => x == y,
            _ => false,
        },
        r matches Ok((nx, more)) ==> e < nx <= b@.len() && (!more ==> b@[nx - 1] == close),
{
    proof { lemma_after_item_bounds(b@, e as int, close); }
    let w = crate::lex::skip_ws(b, e);
    let c = crate::lex::peek(b, w)?;
    if c == 0x2C {
        Ok((crate::lex::skip_ws(b, w + 1), true))
    } else if c == close {
        Ok((w + 1, false))
    } else {
        Err(MatchError::UnexpectedByte { pos: w as u32, byte: c })
    }
}

/// Slot `k` belongs to field `a`: it holds the field's value or one of the
/// groups of its predicate.
pub open spec fn owns(a: Action, k: int) -> bool {
    ||| (a.value_capture matches Some(c) && c == k)
    ||| exists|g: int| 0 <= g < a.predicate_groups@.len() && (#[trigger] a.predicate_groups@[g]).1 == k
}

/// Every slot of `a` is one of `n` slots.
pub open spec fn slots_below(a: Action, n: nat) -> bool {
    &&& (a.value_capture matches Some(c) ==> c < n)
    &&& forall|g: int| 0 <= g < a.predicate_groups@.len() ==> (#[trigger] a.predicate_groups@[g]).1 < n
}

/// `p` has a flag for every field of `acts` and a slot for each of their captures.
pub open spec fn shaped(acts: Seq<Action>, p: Progress) -> bool {
    &&& p.sat.len() == acts.len()
    &&& forall|f: int| 0 <= f < acts.len() ==> #[trigger] slots_below(acts[f], p.caps.len())
}

/// `q` follows from `p`: every satisfied field stays satisfied, and a slot
/// changes only where a field owning it was not yet satisfied and now is.
pub open spec fn extends(acts: Seq<Action>, p: Progress, q: Progress) -> bool {
    &&& q.sat.len() == p.sat.len()
    &&& q.caps.len() == p.caps.len()
    &&& forall|f: int| 0 <= f < p.sat.len() && p.sat[f] ==> #[trigger] q.sat[f]
    &&& forall|k: int| 0 <= k < p.caps.len() && q.caps[k] != p.caps[k]
        ==> exists|f: int| 0 <= f < acts.len() && !p.sat[f] && q.sat[f] && #[trigger] owns(acts[f], k)
}

proof fn lemma_extends_trans(acts: Seq<Action>, p: Progress, q: Progress, r: Progress)
    requires
        p.sat.len() == acts.len(),
        extends(acts, p, q),
        extends(acts, q, r),
    ensures
        extends(acts, p, r),
{
    assert forall|k: int| 0 <= k < p.caps.len() && r.caps[k] != p.caps[k]
        implies exists|f: int| 0 <= f < acts.len() && !p.sat[f] && r.sat[f] && #[trigger] owns(acts[f], k) by {
        if q.caps[k] != p.caps[k] {
            let f = choose|f: int| 0 <= f < acts.len() && !p.sat[f] && q.sat[f] && #[trigger] owns(acts[f], k);
            assert(r.sat[f]);
        } else {
            let f = choose|f: int| 0 <= f < acts.len() && !q.sat[f] && r.sat[f] && #[trigger] owns(acts[f], k);
            assert(!p.sat[f]);
        }
    }
}

/// Writing the groups `groups[..k]` keeps the slots and changes only theirs.
/// Distinct group slots, once written, each hold their own group's capture.
proof fn lemma_write_groups_hold(
    groups: Seq<(usize, u32)>,
    spans: Seq<Option<(usize, usize)>>,
    k: int,
    b: Seq<u8>,
    s: int,
    e: int,
    escaped: bool,
    caps: Seq<Option<CaptureModel>>,
)
    requires
        0 <= k <= groups.len(),
        forall|g: int| 0 <= g < groups.len() ==> (#[trigger] groups[g]).1 < caps.len(),
        forall|g: int, h: int| 0 <= g < h < groups.len() ==> (#[trigger] groups[g]).1 != (#[trigger] groups[h]).1,
    ensures
        forall|g: int| 0 <= g < k ==> #[trigger] write_groups(groups, spans, k, b, s, e, escaped, caps)[groups[g].1 as int]
            == group_capture(b, s, e, escaped, group_span(spans, groups[g].0)),
    decreases k,
{
    if k > 0 {
        lemma_write_groups_hold(groups, spans, k - 1, b, s, e, escaped, caps);
        lemma_write_groups(groups, spans, k - 1, b, s, e, escaped, caps);
        assert forall|g: int| 0 <= g < k implies #[trigger] write_groups(groups, spans, k, b, s, e, escaped, caps)[groups[g].1 as int]
            == group_capture(b, s, e, escaped, group_span(spans, groups[g].0)) by {
            if g < k - 1 {
                assert(groups[g].1 != groups[k - 1].1);
            }
        }
    }
}

proof fn lemma_write_groups(
    groups: Seq<(usize, u32)>,
    spans: Seq<Option<(usize, usize)>>,
    k: int,
    b: Seq<u8>,
    s: int,
    e: int,
    escaped: bool,
    caps: Seq<Option<CaptureModel>>,
)
    requires
        k <= groups.len(),
        forall|g: int| 0 <= g < groups.len() ==> (#[trigger] groups[g]).1 < caps.len(),
    ensures
        write_groups(groups, spans, k, b, s, e, escaped, caps).len() == caps.len(),
        forall|j: int| 0 <= j < caps.len() && #[trigger] write_groups(groups, spans, k, b, s, e, escaped, caps)[j] != caps[j]
            ==> exists|g: int| 0 <= g < k && (#[trigger] groups[g]).1 == j,
    decreases k,
{
    if k > 0 {
        lemma_write_groups(groups, spans, k - 1, b, s, e, escaped, caps);
        let w = write_groups(groups, spans, k - 1, b, s, e, escaped, caps);
        assert forall|j: int| 0 <= j < caps.len() && #[trigger] write_groups(groups, spans, k, b, s, e, escaped, caps)[j] != caps[j]
            implies exists|g: int| 0 <= g < k && (#[trigger] groups[g]).1 == j by {
            if groups[k - 1].1 == j {
            } else {
                assert(write_groups(groups, spans, k, b, s, e, escaped, caps)[j] == w[j]);
                let g = choose|g: int| 0 <= g < k - 1 && (#[trigger] groups[g]).1 == j;
            }
        }
    }
}

/// Trying one field on a value extends the progress.
proof fn lemma_action_step_extends(
    acts: Seq<Action>, f: u32, b: Seq<u8>, s: int, e: int, escaped: bool, kids: Seq<Option<Node>>, st: Progress,
)
    requires
        f < acts.len(),
        shaped(acts, st),
    ensures
        action_step(acts, f, b, s, e, escaped, kids, st) matches Ok(q) ==> extends(acts, st, q),
{
    let a = acts[f as int];
    assert(slots_below(a, st.caps.len()));
    if !st.sat[f as int] && type_ok(a.field_type, b, s, e) && !(a.exhaustive && !covered(acts, kids, a.set_index)) {
        let mid = match a.predicate {
            None => st,
            Some(p) => match regex_captures(p@, haystack(b, s, e, escaped)) {
                None => st,
                Some(spans) => Progress {
                    sat: st.sat,
                    caps: write_groups(a.predicate_groups@, spans, a.predicate_groups@.len() as int, b, s, e, escaped, st.caps),
                },
            },
        };
        if let Some(p) = a.predicate {
            if let Some(spans) = regex_captures(p@, haystack(b, s, e, escaped)) {
                lemma_write_groups(a.predicate_groups@, spans, a.predicate_groups@.len() as int, b, s, e, escaped, st.caps);
                assert forall|k: int| 0 <= k < st.caps.len() && mid.caps[k] != st.caps[k]
                    implies owns(acts[f as int], k) by {
                    let g = choose|g: int| 0 <= g < a.predicate_groups@.len() && (#[trigger] a.predicate_groups@[g]).1 == k;
                }
            }
        }
        if let Ok(q) = satisfy(a, f as int, b, s, e, escaped, mid) {
            assert forall|k: int| 0 <= k < st.caps.len() && q.caps[k] != st.caps[k]
                implies exists|f2: int| 0 <= f2 < acts.len() && !st.sat[f2] && q.sat[f2] && #[trigger] owns(acts[f2], k) by {
                if q.caps[k] != mid.caps[k] {
                    assert(owns(acts[f as int], k));
                }
                assert(q.sat[f as int]);
            }
        }
    }
}

/// Trying the fields `fs[..k]` in order extends the progress.
proof fn lemma_run_actions_extends(
    acts: Seq<Action>, fs: Seq<u32>, k: int, b: Seq<u8>, s: int, e: int, escaped: bool, kids: Seq<Option<Node>>, st: Progress,
)
    requires
        k <= fs.len(),
        forall|j: int| 0 <= j < fs.len() ==> #[trigger] fs[j] < acts.len(),
        shaped(acts, st),
    ensures
        run_actions(acts, fs, k, b, s, e, escaped, kids, st) matches Ok(q) ==> extends(acts, st, q),
    decreases k,
{
    if k > 0 {
        lemma_run_actions_extends(acts, fs, k - 1, b, s, e, escaped, kids, st);
        if let Ok(st1) = run_actions(acts, fs, k - 1, b, s, e, escaped, kids, st) {
            lemma_action_step_extends(acts, fs[k - 1], b, s, e, escaped, kids, st1);
            if let Ok(q) = action_step(acts, fs[k - 1], b, s, e, escaped, kids, st1) {
                lemma_extends_trans(acts, st, st1, q);
            }
        }
    } else {
        assert(extends(acts, st, st));
    }
}

proof fn lemma_scan_value_extends(acts: Seq<Action>, b: Seq<u8>, pos: int, n: Node, limit: nat, st: Progress)
    requires
        node_ok(acts, n),
        shaped(acts, st),
    ensures
        scan_value(acts, b, pos, n, limit, st) matches Ok((_, q, _, _)) ==> extends(acts, st, q),
    decreases b.len() + 2 - pos, 2int,
{
    if 0 <= pos <= b.len() {
        if let Ok(c) = peek_spec(b, pos) {
            if c == 0x7B && walks_object(acts, n) {
                lemma_walk_object_extends(acts, b, pos, n, limit, st);
            } else if c == 0x5B && walks_array(acts, n) {
                lemma_walk_array_extends(acts, b, pos, n, limit, st);
            }
        }
    }
}

proof fn lemma_walk_value_extends(acts: Seq<Action>, b: Seq<u8>, pos: int, n: Node, limit: nat, st: Progress)
    requires
        node_ok(acts, n),
        shaped(acts, st),
    ensures
        walk_value(acts, b, pos, n, limit, st) matches Ok((_, q)) ==> extends(acts, st, q),
    decreases b.len() + 2 - pos, 3int,
{
    lemma_scan_value_extends(acts, b, pos, n, limit, st);
    if let Ok((e, st1, escaped, kids)) = scan_value(acts, b, pos, n, limit, st) {
        lemma_node_ok_unfold(acts, n);
        lemma_run_actions_extends(acts, n.actions@, n.actions@.len() as int, b, pos, e, escaped, kids, st1);
        if let Ok(q) = run_actions(acts, n.actions@, n.actions@.len() as int, b, pos, e, escaped, kids, st1) {
            lemma_extends_trans(acts, st, st1, q);
        }
    }
}

proof fn lemma_item_value_extends(acts: Seq<Action>, b: Seq<u8>, v: int, child: Option<Node>, limit: nat, st: Progress)
    requires
        child matches Some(c) ==> node_ok(acts, c),
        shaped(acts, st),
    ensures
        item_value(acts, b, v, child, limit, st) matches Ok((_, q)) ==> extends(acts, st, q),
    decreases b.len() + 2 - v, 4int,
{
    if let Some(c) = child {
        lemma_walk_value_extends(acts, b, v, c, limit, st);
    }
}

proof fn lemma_member_step_extends(acts: Seq<Action>, b: Seq<u8>, i: int, n: Node, limit: nat, st: Progress)
    requires
        node_ok(acts, n),
        shaped(acts, st),
    ensures
        member_step(acts, b, i, n, limit, st) matches Ok((_, _, q, _)) ==> extends(acts, st, q),
    decreases b.len() + 2 - i, 5int,
{
    if 0 <= i <= b.len() {
        lemma_key_step_bounds(b, i, n);
        if let Ok((v, child)) = key_step(b, i, n) {
            if let Ok((ke, _)) = string_spec(b, i) {
                lemma_children_ok(acts, n, unescape_from(b, i + 1, ke - 1), 0);
            }
            lemma_item_value_extends(acts, b, v, child, limit, st);
        }
    }
}

proof fn lemma_walk_members_extends(
    acts: Seq<Action>, b: Seq<u8>, i: int, n: Node, limit: nat, st: Progress, kids: Seq<Option<Node>>,
)
    requires
        node_ok(acts, n),
        shaped(acts, st),
    ensures
        walk_members(acts, b, i, n, limit, st, kids) matches Ok((_, q, _)) ==> extends(acts, st, q),
    decreases b.len() + 2 - i, 6int,
{
    lemma_member_step_extends(acts, b, i, n, limit, st);
    if let Ok((nx, more, st1, child)) = member_step(acts, b, i, n, limit, st) {
        if more && i < nx <= b.len() {
            lemma_walk_members_extends(acts, b, nx, n, limit, st1, kids.push(child));
            if let Ok((_, q, _)) = walk_members(acts, b, nx, n, limit, st1, kids.push(child)) {
                lemma_extends_trans(acts, st, st1, q);
            }
        }
    }
}

proof fn lemma_walk_object_extends(acts: Seq<Action>, b: Seq<u8>, pos: int, n: Node, limit: nat, st: Progress)
    requires
        node_ok(acts, n),
        shaped(acts, st),
    ensures
        walk_object(acts, b, pos, n, limit, st) matches Ok((_, q, _)) ==> extends(acts, st, q),
    decreases b.len() + 2 - pos, 1int,
{
    if 0 <= pos < b.len() {
        lemma_ws_end_bounds(b, pos + 1);
        lemma_walk_members_extends(acts, b, ws_end(b, pos + 1), n, limit, st, Seq::empty());
    }
}

proof fn lemma_element_step_extends(
    acts: Seq<Action>, b: Seq<u8>, i: int, idx: nat, n: Node, limit: nat, st: Progress,
)
    requires
        node_ok(acts, n),
        shaped(acts, st),
    ensures
        element_step(acts, b, i, idx, n, limit, st) matches Ok((_, _, q)) ==> extends(acts, st, q),
    decreases b.len() + 2 - i, 5int,
{
    lemma_children_ok(acts, n, Seq::empty(), idx);
    lemma_item_value_extends(acts, b, i, element_child(n, idx), limit, st);
}

proof fn lemma_walk_elements_extends(
    acts: Seq<Action>, b: Seq<u8>, i: int, idx: nat, n: Node, limit: nat, st: Progress, kids: Seq<Option<Node>>,
)
    requires
        node_ok(acts, n),
        shaped(acts, st),
    ensures
        walk_elements(acts, b, i, idx, n, limit, st, kids) matches Ok((_, q, _)) ==> extends(acts, st, q),
    decreases b.len() + 2 - i, 6int,
{
    lemma_element_step_extends(acts, b, i, idx, n, limit, st);
    if let Ok((nx, more, st1)) = element_step(acts, b, i, idx, n, limit, st) {
        if more && i < nx <= b.len() {
            lemma_walk_elements_extends(acts, b, nx, idx + 1, n, limit, st1, kids.push(element_child(n, idx)));
            if let Ok((_, q, _)) = walk_elements(acts, b, nx, idx + 1, n, limit, st1, kids.push(element_child(n, idx))) {
                lemma_extends_trans(acts, st, st1, q);
            }
        }
    }
}

proof fn lemma_walk_array_extends(acts: Seq<Action>, b: Seq<u8>, pos: int, n: Node, limit: nat, st: Progress)
    requires
        node_ok(acts, n),
        shaped(acts, st),
    ensures
        walk_array(acts, b, pos, n, limit, st) matches Ok((_, q, _)) ==> extends(acts, st, q),
    decreases b.len() + 2 - pos, 1int,
{
    if 0 <= pos < b.len() {
        lemma_ws_end_bounds(b, pos + 1);
        lemma_walk_elements_extends(acts, b, ws_end(b, pos + 1), 0, n, limit, st, Seq::empty());
    }
}

/// No capture slot is owned by two fields.
pub open spec fn one_owner(acts: Seq<Action>) -> bool {
    forall|f1: int, f2: int, k: int| 0 <= f1 < acts.len() && 0 <= f2 < acts.len()
        && #[trigger] owns(acts[f1], k) && #[trigger] owns(acts[f2], k) ==> f1 == f2
}

/// First satisfying value wins. Matching a value against a trie node only
/// adds to what a match has established: a field once satisfied stays
/// satisfied, and a capture slot changes only where a field that owns it
/// was not yet satisfied. In a compiled machine every slot has one owner,
/// so the captures of a satisfied field are never overwritten by a later
/// value.
pub proof fn lemma_first_satisfying_wins(acts: Seq<Action>, b: Seq<u8>, pos: int, n: Node, limit: nat, st: Progress)
    requires
        node_ok(acts, n),
        shaped(acts, st),
    ensures
        walk_value(acts, b, pos, n, limit, st) matches Ok((_, q)) ==> {
            &&& extends(acts, st, q)
            &&& shaped(acts, q)
            &&& one_owner(acts) ==> forall|f: int, k: int| 0 <= f < acts.len() && st.sat[f]
                && #[trigger] owns(acts[f], k) && 0 <= k < st.caps.len() ==> q.caps[k] == st.caps[k]
        },
{
    lemma_walk_value_extends(acts, b, pos, n, limit, st);
    if let Ok((_, q)) = walk_value(acts, b, pos, n, limit, st) {
        if one_owner(acts) {
            assert forall|f: int, k: int| 0 <= f < acts.len() && st.sat[f]
                && #[trigger] owns(acts[f], k) && 0 <= k < st.caps.len() implies q.caps[k] == st.caps[k] by {
                if q.caps[k] != st.caps[k] {
                    let f2 = choose|f2: int| 0 <= f2 < acts.len() && !st.sat[f2] && q.sat[f2] && #[trigger] owns(acts[f2], k);
                    assert(f == f2);
                }
            }
        }
    }
}

/// A value only validated (within `limit`) goes on, below the containers
/// `p`, like any other value.
proof fn lemma_skipped_json(b: Seq<u8>, v: int, limit: nat, p: Seq<bool>, big: nat)
    requires
        value_spec(b, v, limit) is Ok,
        p.len() + limit <= big,
    ensures
        value_from(b, v, p, big) == after_value(b, value_spec(b, v, limit)->Ok_0, p, big),
{
    assert(p + Seq::<bool>::empty() =~= p);
    lemma_value_frame(b, v, Seq::empty(), limit, p, big);
}

// What the walk accepts, the validator accepts. Below the open containers
// `p`, a value the walk accepted at `pos` validates to the same end; the
// budget `big` leaves room for every container the walk may open.

proof fn lemma_scan_value_json(acts: Seq<Action>, b: Seq<u8>, pos: int, n: Node, limit: nat, st: Progress, p: Seq<bool>, big: nat)
    requires
        scan_value(acts, b, pos, n, limit, st) is Ok,
        0 <= pos <= b.len(),
        p.len() + limit + (b.len() - pos) <= big,
    ensures
        value_from(b, pos, p, big) == after_value(b, scan_value(acts, b, pos, n, limit, st)->Ok_0.0, p, big),
    decreases b.len() + 2 - pos, 2int,
{
    let c = b[pos];
    if c == 0x7B && walks_object(acts, n) {
        lemma_walk_object_json(acts, b, pos, n, limit, st, p, big);
    } else if c == 0x5B && walks_array(acts, n) {
        lemma_walk_array_json(acts, b, pos, n, limit, st, p, big);
    } else if c == 0x22 {
    } else {
        lemma_skipped_json(b, pos, limit, p, big);
    }
}

proof fn lemma_walk_value_json(acts: Seq<Action>, b: Seq<u8>, pos: int, n: Node, limit: nat, st: Progress, p: Seq<bool>, big: nat)
    requires
        walk_value(acts, b, pos, n, limit, st) is Ok,
        0 <= pos <= b.len(),
        p.len() + limit + (b.len() - pos) <= big,
    ensures
        value_from(b, pos, p, big) == after_value(b, walk_value(acts, b, pos, n, limit, st)->Ok_0.0, p, big),
    decreases b.len() + 2 - pos, 3int,
{
    lemma_scan_value_json(acts, b, pos, n, limit, st, p, big);
}

proof fn lemma_item_value_json(acts: Seq<Action>, b: Seq<u8>, v: int, child: Option<Node>, limit: nat, st: Progress, p: Seq<bool>, big: nat)
    requires
        item_value(acts, b, v, child, limit, st) is Ok,
        0 <= v <= b.len(),
        p.len() + limit + (b.len() - v) <= big,
    ensures
        value_from(b, v, p, big) == after_value(b, item_value(acts, b, v, child, limit, st)->Ok_0.0, p, big),
    decreases b.len() + 2 - v, 4int,
{
    match child {
        Some(c) => lemma_walk_value_json(acts, b, v, c, limit, st, p, big),
        None => lemma_skipped_json(b, v, limit, p, big),
    }
}

proof fn lemma_member_step_json(acts: Seq<Action>, b: Seq<u8>, i: int, n: Node, limit: nat, st: Progress, p: Seq<bool>, big: nat)
    requires
        member_step(acts, b, i, n, limit, st) is Ok,
        0 <= i <= b.len(),
        p.len() + limit + (b.len() - i) <= big,
    ensures
        ({
            let (nx, more, _, _) = member_step(acts, b, i, n, limit, st)->Ok_0;
            &&& key_colon_spec(b, i) is Ok
            &&& more ==> value_from(b, key_colon_spec(b, i)->Ok_0, p.push(true), big) == match key_colon_spec(b, nx) {
                Ok(m) => value_from(b, m, p.push(true), big),
                Err(x) => Err(x),
            }
            &&& !more ==> value_from(b, key_colon_spec(b, i)->Ok_0, p.push(true), big) == after_value(b, nx, p, big)
        }),
    decreases b.len() + 2 - i, 5int,
{
    lemma_key_step_bounds(b, i, n);
    let (v, child) = key_step(b, i, n)->Ok_0;
    assert(key_colon_spec(b, i) == Ok::<int, MatchError>(v));
    lemma_item_value_json(acts, b, v, child, limit, st, p.push(true), big);
    let e1 = item_value(acts, b, v, child, limit, st)->Ok_0.0;
    lemma_ws_end_bounds(b, e1);
    let w = ws_end(b, e1);
    assert(p.push(true).last() == true);
    assert(p.push(true).drop_last() =~= p);
}

proof fn lemma_walk_members_json(
    acts: Seq<Action>, b: Seq<u8>, i: int, n: Node, limit: nat, st: Progress, kids: Seq<Option<Node>>, p: Seq<bool>, big: nat,
)
    requires
        walk_members(acts, b, i, n, limit, st, kids) is Ok,
        0 <= i <= b.len(),
        p.len() + limit + (b.len() - i) <= big,
    ensures
        key_colon_spec(b, i) is Ok,
        value_from(b, key_colon_spec(b, i)->Ok_0, p.push(true), big)
            == after_value(b, walk_members(acts, b, i, n, limit, st, kids)->Ok_0.0, p, big),
    decreases b.len() + 2 - i, 6int,
{
    lemma_member_step_json(acts, b, i, n, limit, st, p, big);
    let (nx, more, st1, child) = member_step(acts, b, i, n, limit, st)->Ok_0;
    if more {
        lemma_walk_members_json(acts, b, nx, n, limit, st1, kids.push(child), p, big);
    }
}

proof fn lemma_walk_object_json(acts: Seq<Action>, b: Seq<u8>, pos: int, n: Node, limit: nat, st: Progress, p: Seq<bool>, big: nat)
    requires
        walk_object(acts, b, pos, n, limit, st) is Ok,
        0 <= pos < b.len(),
        b[pos] == 0x7B,
        p.len() + limit + (b.len() - pos) <= big,
    ensures
        value_from(b, pos, p, big) == after_value(b, walk_object(acts, b, pos, n, limit, st)->Ok_0.0, p, big),
    decreases b.len() + 2 - pos, 1int,
{
    lemma_ws_end_bounds(b, pos + 1);
    let j = ws_end(b, pos + 1);
    if b[j] != 0x7D {
        lemma_walk_members_json(acts, b, j, n, limit, st, Seq::empty(), p, big);
    }
}

proof fn lemma_element_step_json(
    acts: Seq<Action>, b: Seq<u8>, i: int, idx: nat, n: Node, limit: nat, st: Progress, p: Seq<bool>, big: nat,
)
    requires
        element_step(acts, b, i, idx, n, limit, st) is Ok,
        0 <= i <= b.len(),
        p.len() + 1 + limit + (b.len() - i) <= big,
    ensures
        ({
            let (nx, more, _) = element_step(acts, b, i, idx, n, limit, st)->Ok_0;
            &&& more ==> value_from(b, i, p.push(false), big) == value_from(b, nx, p.push(false), big)
            &&& !more ==> value_from(b, i, p.push(false), big) == after_value(b, nx, p, big)
        }),
    decreases b.len() + 2 - i, 5int,
{
    lemma_item_value_json(acts, b, i, element_child(n, idx), limit, st, p.push(false), big);
    let e1 = item_value(acts, b, i, element_child(n, idx), limit, st)->Ok_0.0;
    lemma_ws_end_bounds(b, e1);
    assert(p.push(false).last() == false);
    assert(p.push(false).drop_last() =~= p);
}

proof fn lemma_walk_elements_json(
    acts: Seq<Action>, b: Seq<u8>, i: int, idx: nat, n: Node, limit: nat, st: Progress, kids: Seq<Option<Node>>,
    p: Seq<bool>, big: nat,
)
    requires
        walk_elements(acts, b, i, idx, n, limit, st, kids) is Ok,
        0 <= i <= b.len(),
        p.len() + 1 + limit + (b.len() - i) <= big,
    ensures
        value_from(b, i, p.push(false), big)
            == after_value(b, walk_elements(acts, b, i, idx, n, limit, st, kids)->Ok_0.0, p, big),
    decreases b.len() + 2 - i, 6int,
{
    lemma_element_step_json(acts, b, i, idx, n, limit, st, p, big);
    let (nx, more, st1) = element_step(acts, b, i, idx, n, limit, st)->Ok_0;
    if more {
        lemma_walk_elements_json(acts, b, nx, idx + 1, n, limit, st1, kids.push(element_child(n, idx)), p, big);
    }
}

proof fn lemma_walk_array_json(acts: Seq<Action>, b: Seq<u8>, pos: int, n: Node, limit: nat, st: Progress, p: Seq<bool>, big: nat)
    requires
        walk_array(acts, b, pos, n, limit, st) is Ok,
        0 <= pos < b.len(),
        b[pos] == 0x5B,
        p.len() + limit + (b.len() - pos) <= big,
    ensures
        value_from(b, pos, p, big) == after_value(b, walk_array(acts, b, pos, n, limit, st)->Ok_0.0, p, big),
    decreases b.len() + 2 - pos, 1int,
{
    lemma_ws_end_bounds(b, pos + 1);
    let j = ws_end(b, pos + 1);
    if b[j] != 0x5D {
        lemma_walk_elements_json(acts, b, j, 0, n, limit, st, Seq::empty(), p, big);
    }
}

/// Only JSON is accepted. Whatever the patterns, an input the matcher
/// accepts is one JSON value ([`json_value`]) surrounded by whitespace: the
/// parts the trie walks and the parts it skips are all validated, to the
/// same grammar.
pub proof fn lemma_accepted_input_is_json(acts: Seq<Action>, root: Node, captures: nat, b: Seq<u8>, limit: nat)
    ensures
        match_input(acts, root, captures, b, limit) is Ok ==> {
            &&& json_value(b, ws_end(b, 0), limit + b.len()) is Some
            &&& ws_end(b, json_value(b, ws_end(b, 0), limit + b.len())->Some_0) == b.len()
        },
{
    if match_input(acts, root, captures, b, limit) is Ok {
        lemma_ws_end_bounds(b, 0);
        let pos = ws_end(b, 0);
        lemma_walk_value_json(acts, b, pos, root, limit, fresh(acts.len(), captures), Seq::empty(), limit + b.len());
        lemma_validation_is_grammar(b, pos, limit + b.len());
    }
}

// Where a value sits in a document: the path model that what a match
// establishes is stated over.

/// The value at `v` is one JSON value spanning `b[v..e]`.
pub open spec fn value_ends(b: Seq<u8>, v: int, e: int) -> bool {
    exists|l: nat| value_spec(b, v, l) == Ok::<int, MatchError>(e)
}

/// The key of the member whose key string starts at `i`, unescaped.
pub open spec fn key_at(b: Seq<u8>, i: int) -> Seq<char> {
    unescape_from(b, i + 1, string_spec(b, i)->Ok_0.0 - 1)
}

/// After the member value or element at `u`, a `,` leads on to the next
/// member or element at `nx` (of the container closed by `close`).
pub open spec fn next_item(b: Seq<u8>, u: int, close: u8, nx: int) -> bool {
    exists|e: int| value_ends(b, u, e) && #[trigger] after_item(b, e, close) == Ok::<(int, bool), MatchError>((nx, true))
}

/// Counting from the member whose key starts at `i`, member `j` has key
/// `k` and its value at `v`.
pub open spec fn member_at(b: Seq<u8>, i: int, j: nat, k: Seq<char>, v: int) -> bool
    decreases j,
{
    &&& key_colon_spec(b, i) is Ok
    &&& if j == 0 {
        k == key_at(b, i) && v == key_colon_spec(b, i)->Ok_0
    } else {
        exists|nx: int| #[trigger] next_item(b, key_colon_spec(b, i)->Ok_0, 0x7D, nx) && member_at(b, nx, (j - 1) as nat, k, v)
    }
}

/// Counting from the element at `i`, element `j` is at `v`.
pub open spec fn element_at(b: Seq<u8>, i: int, j: nat, v: int) -> bool
    decreases j,
{
    if j == 0 {
        v == i
    } else {
        exists|nx: int| #[trigger] next_item(b, i, 0x5D, nx) && element_at(b, nx, (j - 1) as nat, v)
    }
}

/// One concrete step from the value at `pos` to the value at `u`: a member
/// of an object with the given key (any of them, if the key repeats), or
/// the element of an array with the given index.
pub open spec fn step_to(b: Seq<u8>, pos: int, x: Elem, u: int) -> bool {
    &&& 0 <= pos < b.len()
    &&& match x {
        Elem::Member(k) => b[pos] == 0x7B && exists|j: nat| #[trigger] member_at(b, ws_end(b, pos + 1), j, k, u),
        Elem::Element(j) => b[pos] == 0x5B && at(b, ws_end(b, pos + 1)) != Some(0x5Du8)
            && element_at(b, ws_end(b, pos + 1), j, u),
    }
}

/// The value at `v` is reached from the value at `pos` by the concrete path `q`.
pub open spec fn at_path(b: Seq<u8>, pos: int, q: Seq<Elem>, v: int) -> bool
    decreases q.len(),
{
    if q.len() == 0 {
        v == pos
    } else {
        exists|u: int| #[trigger] step_to(b, pos, q[0], u) && at_path(b, u, q.drop_first(), v)
    }
}

/// Whether the value at `s` is a string with escapes.
pub open spec fn escapes_at(b: Seq<u8>, s: int) -> bool {
    &&& b[s] == 0x22
    &&& string_spec(b, s) matches Ok((_, x)) && x
}

/// The value `b[s..e]` has type `t` and passes the predicate `p`.
pub open spec fn accepted(t: FieldType, p: Option<Predicate>, b: Seq<u8>, s: int, e: int) -> bool {
    &&& type_ok(t, b, s, e)
    &&& (p matches Some(r) ==> regex_captures(r@, haystack(b, s, e, escapes_at(b, s))) is Some)
}



/// A member one place on from the member at `i`.
proof fn lemma_member_next(b: Seq<u8>, i: int, nx: int, t: nat, k: Seq<char>, v: int)
    requires
        key_colon_spec(b, i) is Ok,
        next_item(b, key_colon_spec(b, i)->Ok_0, 0x7D, nx),
        member_at(b, nx, t, k, v),
    ensures
        member_at(b, i, t + 1, k, v),
{
    assert((((t + 1) as nat) - 1) as nat == t);
}

/// An element one place on from the element at `i`.
proof fn lemma_element_next(b: Seq<u8>, i: int, nx: int, t: nat, v: int)
    requires
        next_item(b, i, 0x5D, nx),
        element_at(b, nx, t, v),
    ensures
        element_at(b, i, t + 1, v),
{
    assert((((t + 1) as nat) - 1) as nat == t);
}

/// What field `f`'s value slot holds in `caps`, when the field captures.
pub open spec fn value_slot(acts: Seq<Action>, f: int, caps: Seq<Option<CaptureModel>>) -> Option<CaptureModel> {
    match acts[f].value_capture {
        Some(c) => caps[c as int],
        None => None,
    }
}

/// The capture of the value `b[v..e]`, when it can be captured.
pub open spec fn capture_of(b: Seq<u8>, v: int, e: int) -> Option<CaptureModel> {
    match value_capture(b, v, e, escapes_at(b, v)) {
        Ok(m) => Some(m),
        Err(_) => None,
    }
}

/// The span a match gave group `g`, if the group took part.
pub open spec fn group_span(spans: Seq<Option<(usize, usize)>>, g: usize) -> Option<(usize, usize)> {
    if g < spans.len() { spans[g as int] } else { None }
}

/// The slots of field `a` are all different: its value slot and the slot
/// of each group of its predicate.
pub open spec fn distinct_slots(a: Action) -> bool {
    &&& forall|g: int| 0 <= g < a.predicate_groups@.len() ==> a.value_capture != Some((#[trigger] a.predicate_groups@[g]).1)
    &&& forall|g: int, h: int| 0 <= g < h < a.predicate_groups@.len()
        ==> (#[trigger] a.predicate_groups@[g]).1 != (#[trigger] a.predicate_groups@[h]).1
}

/// When no slot is shared and the slots of field `f` are distinct, each of
/// its group slots holds in `caps` what that group captured in the match of
/// its predicate on the value `b[v..e]`.
pub open spec fn groups_held(acts: Seq<Action>, f: int, caps: Seq<Option<CaptureModel>>, b: Seq<u8>, v: int, e: int) -> bool {
    let a = acts[f];
    one_owner(acts) && distinct_slots(a) ==> match a.predicate {
        None => true,
        Some(p) => match regex_captures(p@, haystack(b, v, e, escapes_at(b, v))) {
            None => false,
            Some(spans) => forall|g: int| 0 <= g < a.predicate_groups@.len() ==>
                caps[(#[trigger] a.predicate_groups@[g]).1 as int]
                    == group_capture(b, v, e, escapes_at(b, v), group_span(spans, a.predicate_groups@[g].0)),
        },
    }
}

/// When no slot is shared, a capturing field `f` holds in `caps` the
/// capture of the value `b[v..e]`, and its group slots what its predicate's
/// groups captured there.
pub open spec fn capture_held(acts: Seq<Action>, f: int, caps: Seq<Option<CaptureModel>>, b: Seq<u8>, v: int, e: int) -> bool {
    &&& one_owner(acts) && acts[f].value_capture is Some ==> value_slot(acts, f, caps) == capture_of(b, v, e)
        && capture_of(b, v, e) is Some
    &&& groups_held(acts, f, caps, b, v, e)
}

/// Field `f` was satisfied by a value reached from `pos` along a concrete
/// path that node `n` resolves to a node holding `f`, a value meeting every
/// condition of `f` whose capture (when no slot is shared) `caps` holds.
pub open spec fn found_at(acts: Seq<Action>, b: Seq<u8>, pos: int, n: Node, f: int, caps: Seq<Option<CaptureModel>>) -> bool {
    exists|q: Seq<Elem>, v: int, e: int|
        #![trigger at_path(b, pos, q, v), value_ends(b, v, e)]
        at_path(b, pos, q, v) && value_ends(b, v, e) && takes(acts, b, v, e, resolve(n, q), f)
            && capture_held(acts, f, caps, b, v, e)
}

/// [`found_at`] below the value at `v` through the child `child`.
pub open spec fn found_via(acts: Seq<Action>, b: Seq<u8>, v: int, child: Option<Node>, f: int, caps: Seq<Option<CaptureModel>>) -> bool {
    child matches Some(c) && found_at(acts, b, v, c, f, caps)
}

/// Once field `f` is satisfied, its value slot keeps what it holds.
proof fn lemma_cap_kept(acts: Seq<Action>, f: int, p: Progress, q: Progress)
    requires
        0 <= f < acts.len(),
        shaped(acts, p),
        p.sat[f],
        extends(acts, p, q),
    ensures
        one_owner(acts) ==> value_slot(acts, f, q.caps) == value_slot(acts, f, p.caps),
        one_owner(acts) ==> forall|g: int| 0 <= g < acts[f].predicate_groups@.len()
            ==> q.caps[(#[trigger] acts[f].predicate_groups@[g]).1 as int] == p.caps[acts[f].predicate_groups@[g].1 as int],
{
    if one_owner(acts) {
        assert(slots_below(acts[f], p.caps.len()));
        if let Some(c) = acts[f].value_capture {
            if q.caps[c as int] != p.caps[c as int] {
                let f2 = choose|f2: int| 0 <= f2 < acts.len() && !p.sat[f2] && q.sat[f2] && #[trigger] owns(acts[f2], c as int);
                assert(owns(acts[f], c as int));
                assert(f2 == f);
            }
        }
        assert forall|g: int| 0 <= g < acts[f].predicate_groups@.len()
            implies q.caps[(#[trigger] acts[f].predicate_groups@[g]).1 as int] == p.caps[acts[f].predicate_groups@[g].1 as int] by {
            let k = acts[f].predicate_groups@[g].1 as int;
            if q.caps[k] != p.caps[k] {
                let f2 = choose|f2: int| 0 <= f2 < acts.len() && !p.sat[f2] && q.sat[f2] && #[trigger] owns(acts[f2], k);
                assert(owns(acts[f], k));
                assert(f2 == f);
            }
        }
    }
}

/// What [`found_at`] says of a satisfied field stays true as the match goes on.
proof fn lemma_found_at_kept(acts: Seq<Action>, b: Seq<u8>, pos: int, n: Node, f: int, p: Progress, q: Progress)
    requires
        0 <= f < acts.len(),
        shaped(acts, p),
        p.sat[f],
        extends(acts, p, q),
        found_at(acts, b, pos, n, f, p.caps),
    ensures
        found_at(acts, b, pos, n, f, q.caps),
{
    lemma_cap_kept(acts, f, p, q);
    let (path, v, e) = choose|path: Seq<Elem>, v: int, e: int|
        #![trigger at_path(b, pos, path, v), value_ends(b, v, e)]
        at_path(b, pos, path, v) && value_ends(b, v, e) && takes(acts, b, v, e, resolve(n, path), f)
            && capture_held(acts, f, p.caps, b, v, e);
    assert(capture_held(acts, f, q.caps, b, v, e));
}

/// A field that trying the fields `fs[..k]` on `b[s..e]` newly satisfies is
/// one of them, and the value has its type and passes its predicate.
proof fn lemma_run_actions_found(
    acts: Seq<Action>, fs: Seq<u32>, k: int, b: Seq<u8>, s: int, e: int, escaped: bool, kids: Seq<Option<Node>>, st: Progress,
)
    requires
        k <= fs.len(),
        forall|j: int| 0 <= j < fs.len() ==> #[trigger] fs[j] < acts.len(),
        shaped(acts, st),
        escaped == escapes_at(b, s),
        run_actions(acts, fs, k, b, s, e, escaped, kids, st) is Ok,
    ensures
        forall|f: int| 0 <= f < acts.len() && !st.sat[f] && #[trigger] run_actions(acts, fs, k, b, s, e, escaped, kids, st)->Ok_0.sat[f]
            ==> fs.contains(f as u32) && accepted(acts[f].field_type, acts[f].predicate, b, s, e)
                && (acts[f].exhaustive ==> covered(acts, kids, acts[f].set_index))
                && capture_held(acts, f, run_actions(acts, fs, k, b, s, e, escaped, kids, st)->Ok_0.caps, b, s, e),
    decreases k,
{
    if k > 0 {
        lemma_run_actions_found(acts, fs, k - 1, b, s, e, escaped, kids, st);
        lemma_run_actions_extends(acts, fs, k - 1, b, s, e, escaped, kids, st);
        let st1 = run_actions(acts, fs, k - 1, b, s, e, escaped, kids, st)->Ok_0;
        let f0 = fs[k - 1];
        lemma_action_step_extends(acts, f0, b, s, e, escaped, kids, st1);
        let q = run_actions(acts, fs, k, b, s, e, escaped, kids, st)->Ok_0;
        assert(q == action_step(acts, f0, b, s, e, escaped, kids, st1)->Ok_0);
        assert forall|f: int| 0 <= f < acts.len() && !st.sat[f] && #[trigger] q.sat[f]
            implies fs.contains(f as u32) && accepted(acts[f].field_type, acts[f].predicate, b, s, e)
                && (acts[f].exhaustive ==> covered(acts, kids, acts[f].set_index))
                && capture_held(acts, f, q.caps, b, s, e) by {
            if !st1.sat[f] {
                assert(f == f0);
                assert(fs[k - 1] == f as u32);
                let a = acts[f];
                assert(slots_below(a, st1.caps.len()));
                if let Some(p) = a.predicate {
                    if let Some(spans) = regex_captures(p@, haystack(b, s, e, escaped)) {
                        lemma_write_groups(a.predicate_groups@, spans, a.predicate_groups@.len() as int, b, s, e, escaped, st1.caps);
                        if distinct_slots(a) {
                            lemma_write_groups_hold(a.predicate_groups@, spans, a.predicate_groups@.len() as int, b, s, e, escaped, st1.caps);
                        }
                    }
                }
            } else {
                lemma_cap_kept(acts, f, st1, q);
            }
        }
    }
}

// What the walk satisfies, it found: each field newly satisfied while
// matching the value at `pos` against node `n` was satisfied by a value
// reached from `pos` along a path `n` resolves to the field.

proof fn lemma_scan_escapes(acts: Seq<Action>, b: Seq<u8>, pos: int, n: Node, limit: nat, st: Progress)
    requires
        scan_value(acts, b, pos, n, limit, st) is Ok,
    ensures
        scan_value(acts, b, pos, n, limit, st)->Ok_0.2 == escapes_at(b, pos),
        0 <= pos < b.len(),
{
}

/// The value the walk accepted at `pos`, ending at `e`, is one JSON value.
proof fn lemma_walk_value_ends(acts: Seq<Action>, b: Seq<u8>, pos: int, n: Node, limit: nat, st: Progress)
    requires
        walk_value(acts, b, pos, n, limit, st) is Ok,
        0 <= pos <= b.len(),
    ensures
        value_ends(b, pos, walk_value(acts, b, pos, n, limit, st)->Ok_0.0),
{
    let big = (limit + (b.len() - pos)) as nat;
    lemma_walk_value_json(acts, b, pos, n, limit, st, Seq::empty(), big);
    assert(value_spec(b, pos, big) == Ok::<int, MatchError>(walk_value(acts, b, pos, n, limit, st)->Ok_0.0));
}

proof fn lemma_scan_value_found(acts: Seq<Action>, b: Seq<u8>, pos: int, n: Node, limit: nat, st: Progress)
    requires
        acts.len() <= u32::MAX,
        scan_value(acts, b, pos, n, limit, st) is Ok,
        0 <= pos <= b.len(),
        node_ok(acts, n),
        shaped(acts, st),
    ensures
        forall|f: int| 0 <= f < acts.len() && !st.sat[f] && #[trigger] scan_value(acts, b, pos, n, limit, st)->Ok_0.1.sat[f]
            ==> found_at(acts, b, pos, n, f, scan_value(acts, b, pos, n, limit, st)->Ok_0.1.caps),
    decreases b.len() + 2 - pos, 2int,
{
    let c = b[pos];
    if c == 0x7B && walks_object(acts, n) {
        lemma_walk_object_found(acts, b, pos, n, limit, st);
    } else if c == 0x5B && walks_array(acts, n) {
        lemma_walk_array_found(acts, b, pos, n, limit, st);
    }
}

proof fn lemma_walk_value_found(acts: Seq<Action>, b: Seq<u8>, pos: int, n: Node, limit: nat, st: Progress)
    requires
        acts.len() <= u32::MAX,
        walk_value(acts, b, pos, n, limit, st) is Ok,
        0 <= pos <= b.len(),
        node_ok(acts, n),
        shaped(acts, st),
    ensures
        forall|f: int| 0 <= f < acts.len() && !st.sat[f] && #[trigger] walk_value(acts, b, pos, n, limit, st)->Ok_0.1.sat[f]
            ==> found_at(acts, b, pos, n, f, walk_value(acts, b, pos, n, limit, st)->Ok_0.1.caps),
    decreases b.len() + 2 - pos, 3int,
{
    lemma_scan_value_found(acts, b, pos, n, limit, st);
    lemma_scan_value_extends(acts, b, pos, n, limit, st);
    lemma_scan_escapes(acts, b, pos, n, limit, st);
    let (e, st1, escaped, kids) = scan_value(acts, b, pos, n, limit, st)->Ok_0;
    lemma_node_ok_unfold(acts, n);
    lemma_run_actions_found(acts, n.actions@, n.actions@.len() as int, b, pos, e, escaped, kids, st1);
    lemma_run_actions_extends(acts, n.actions@, n.actions@.len() as int, b, pos, e, escaped, kids, st1);
    lemma_walk_value_ends(acts, b, pos, n, limit, st);
    let q = walk_value(acts, b, pos, n, limit, st)->Ok_0.1;
    assert forall|f: int| 0 <= f < acts.len() && !st.sat[f] && #[trigger] q.sat[f] implies found_at(acts, b, pos, n, f, q.caps) by {
        if st1.sat[f] {
            lemma_found_at_kept(acts, b, pos, n, f, st1, q);
        } else {
            let path = Seq::<Elem>::empty();
            assert(at_path(b, pos, path, pos));
            assert(resolve(n, path) == Some(n));
            if acts[f].exhaustive {
                let j = choose|j: int| 0 <= j < n.actions@.len() && n.actions@[j] == f as u32;
                assert(acts[n.actions@[j] as int].exhaustive);
                lemma_scan_covered_back(acts, b, pos, n, limit, st, acts[f].set_index);
            }
            assert(takes(acts, b, pos, e, resolve(n, path), f));
            assert(value_ends(b, pos, e));
            assert(capture_held(acts, f, q.caps, b, pos, e));
        }
    }
}

proof fn lemma_item_value_found(acts: Seq<Action>, b: Seq<u8>, v: int, child: Option<Node>, limit: nat, st: Progress)
    requires
        acts.len() <= u32::MAX,
        item_value(acts, b, v, child, limit, st) is Ok,
        0 <= v <= b.len(),
        child matches Some(c) ==> node_ok(acts, c),
        shaped(acts, st),
    ensures
        value_ends(b, v, item_value(acts, b, v, child, limit, st)->Ok_0.0),
        forall|f: int| 0 <= f < acts.len() && !st.sat[f] && #[trigger] item_value(acts, b, v, child, limit, st)->Ok_0.1.sat[f]
            ==> found_via(acts, b, v, child, f, item_value(acts, b, v, child, limit, st)->Ok_0.1.caps),
    decreases b.len() + 2 - v, 4int,
{
    match child {
        Some(c) => {
            lemma_walk_value_found(acts, b, v, c, limit, st);
            lemma_walk_value_ends(acts, b, v, c, limit, st);
        },
        None => {
            assert(value_spec(b, v, limit) == Ok::<int, MatchError>(item_value(acts, b, v, child, limit, st)->Ok_0.0));
        },
    }
}

/// The value an item walk accepted is one JSON value.
proof fn lemma_item_value_found_end(acts: Seq<Action>, b: Seq<u8>, v: int, child: Option<Node>, limit: nat, st: Progress)
    requires
        item_value(acts, b, v, child, limit, st) is Ok,
        0 <= v <= b.len(),
    ensures
        value_ends(b, v, item_value(acts, b, v, child, limit, st)->Ok_0.0),
{
    match child {
        Some(c) => lemma_walk_value_ends(acts, b, v, c, limit, st),
        None => assert(value_spec(b, v, limit) == Ok::<int, MatchError>(item_value(acts, b, v, child, limit, st)->Ok_0.0)),
    }
}

proof fn lemma_member_step_found(acts: Seq<Action>, b: Seq<u8>, i: int, n: Node, limit: nat, st: Progress)
    requires
        acts.len() <= u32::MAX,
        member_step(acts, b, i, n, limit, st) is Ok,
        0 <= i <= b.len(),
        node_ok(acts, n),
        shaped(acts, st),
    ensures
        key_colon_spec(b, i) is Ok,
        member_step(acts, b, i, n, limit, st)->Ok_0.3 == key_child(n, key_at(b, i)),
        member_step(acts, b, i, n, limit, st)->Ok_0.1
            ==> next_item(b, key_colon_spec(b, i)->Ok_0, 0x7D, member_step(acts, b, i, n, limit, st)->Ok_0.0),
        forall|f: int| 0 <= f < acts.len() && !st.sat[f] && #[trigger] member_step(acts, b, i, n, limit, st)->Ok_0.2.sat[f]
            ==> found_via(acts, b, key_colon_spec(b, i)->Ok_0, member_step(acts, b, i, n, limit, st)->Ok_0.3, f,
                member_step(acts, b, i, n, limit, st)->Ok_0.2.caps),
    decreases b.len() + 2 - i, 5int,
{
    lemma_key_step_bounds(b, i, n);
    let (v, child) = key_step(b, i, n)->Ok_0;
    assert(key_colon_spec(b, i) == Ok::<int, MatchError>(v));
    lemma_children_ok(acts, n, key_at(b, i), 0);
    lemma_item_value_found(acts, b, v, child, limit, st);
    let e1 = item_value(acts, b, v, child, limit, st)->Ok_0.0;
    let (nx, more) = after_item(b, e1, 0x7D)->Ok_0;
    if more {
        assert(after_item(b, e1, 0x7D) == Ok::<(int, bool), MatchError>((nx, true)));
        assert(next_item(b, v, 0x7D, nx));
    }
}

proof fn lemma_walk_members_found(
    acts: Seq<Action>, b: Seq<u8>, i: int, n: Node, limit: nat, st: Progress, kids: Seq<Option<Node>>, i0: int, j: nat,
)
    requires
        acts.len() <= u32::MAX,
        walk_members(acts, b, i, n, limit, st, kids) is Ok,
        0 <= i <= b.len(),
        node_ok(acts, n),
        shaped(acts, st),
        forall|t: nat, k: Seq<char>, v: int| #[trigger] member_at(b, i, t, k, v) ==> member_at(b, i0, j + t, k, v),
    ensures
        forall|f: int| 0 <= f < acts.len() && !st.sat[f] && #[trigger] walk_members(acts, b, i, n, limit, st, kids)->Ok_0.1.sat[f]
            ==> exists|jj: nat, k: Seq<char>, v: int| #[trigger] member_at(b, i0, jj, k, v)
                && found_via(acts, b, v, key_child(n, k), f, walk_members(acts, b, i, n, limit, st, kids)->Ok_0.1.caps),
    decreases b.len() + 2 - i, 6int,
{
    lemma_member_step_found(acts, b, i, n, limit, st);
    lemma_member_step_extends(acts, b, i, n, limit, st);
    let (nx, more, st1, child) = member_step(acts, b, i, n, limit, st)->Ok_0;
    let v = key_colon_spec(b, i)->Ok_0;
    let k = key_at(b, i);
    assert(member_at(b, i, 0, k, v));
    assert(member_at(b, i0, j + 0, k, v));
    if more {
        assert forall|t: nat, k2: Seq<char>, v2: int| #[trigger] member_at(b, nx, t, k2, v2)
            implies member_at(b, i0, (j + 1) as nat + t, k2, v2) by {
            lemma_member_next(b, i, nx, t, k2, v2);
            assert(member_at(b, i, t + 1, k2, v2));
        }
        lemma_walk_members_found(acts, b, nx, n, limit, st1, kids.push(child), i0, (j + 1) as nat);
        lemma_walk_members_extends(acts, b, nx, n, limit, st1, kids.push(child));
    }
    let fin = walk_members(acts, b, i, n, limit, st, kids)->Ok_0.1;
    assert forall|f: int| 0 <= f < acts.len() && !st.sat[f] && #[trigger] fin.sat[f]
        implies exists|jj: nat, k3: Seq<char>, v3: int| #[trigger] member_at(b, i0, jj, k3, v3)
            && found_via(acts, b, v3, key_child(n, k3), f, fin.caps) by {
        if st1.sat[f] {
            assert(member_at(b, i0, j, k, v));
            if more {
                lemma_found_at_kept(acts, b, v, child->Some_0, f, st1, fin);
            }
        }
    }
}

proof fn lemma_walk_object_found(acts: Seq<Action>, b: Seq<u8>, pos: int, n: Node, limit: nat, st: Progress)
    requires
        acts.len() <= u32::MAX,
        walk_object(acts, b, pos, n, limit, st) is Ok,
        0 <= pos < b.len(),
        b[pos] == 0x7B,
        node_ok(acts, n),
        shaped(acts, st),
    ensures
        forall|f: int| 0 <= f < acts.len() && !st.sat[f] && #[trigger] walk_object(acts, b, pos, n, limit, st)->Ok_0.1.sat[f]
            ==> found_at(acts, b, pos, n, f, walk_object(acts, b, pos, n, limit, st)->Ok_0.1.caps),
    decreases b.len() + 2 - pos, 1int,
{
    lemma_ws_end_bounds(b, pos + 1);
    let j0 = ws_end(b, pos + 1);
    if b[j0] != 0x7D {
        lemma_walk_members_found(acts, b, j0, n, limit, st, Seq::empty(), j0, 0);
        let fin = walk_object(acts, b, pos, n, limit, st)->Ok_0.1;
        assert forall|f: int| 0 <= f < acts.len() && !st.sat[f] && #[trigger] fin.sat[f]
            implies found_at(acts, b, pos, n, f, fin.caps) by {
            let (jj, k, v) = choose|jj: nat, k: Seq<char>, v: int| #[trigger] member_at(b, j0, jj, k, v)
                && found_via(acts, b, v, key_child(n, k), f, fin.caps);
            let c = key_child(n, k)->Some_0;
            let (q, v2, e) = choose|q: Seq<Elem>, v2: int, e: int|
                #![trigger at_path(b, v, q, v2), value_ends(b, v2, e)]
                at_path(b, v, q, v2) && value_ends(b, v2, e) && takes(acts, b, v2, e, resolve(c, q), f)
                    && capture_held(acts, f, fin.caps, b, v2, e);
            let q2 = seq![Elem::Member(k)] + q;
            assert(q2[0] == Elem::Member(k));
            assert(q2.drop_first() =~= q);
            assert(step_to(b, pos, q2[0], v));
            assert(at_path(b, pos, q2, v2));
            assert(resolve(n, q2) == resolve(c, q));
            assert(takes(acts, b, v2, e, resolve(n, q2), f));
        }
    }
}

proof fn lemma_element_step_found(
    acts: Seq<Action>, b: Seq<u8>, i: int, idx: nat, n: Node, limit: nat, st: Progress,
)
    requires
        acts.len() <= u32::MAX,
        element_step(acts, b, i, idx, n, limit, st) is Ok,
        0 <= i <= b.len(),
        node_ok(acts, n),
        shaped(acts, st),
    ensures
        element_step(acts, b, i, idx, n, limit, st)->Ok_0.1 ==> next_item(b, i, 0x5D, element_step(acts, b, i, idx, n, limit, st)->Ok_0.0),
        forall|f: int| 0 <= f < acts.len() && !st.sat[f] && #[trigger] element_step(acts, b, i, idx, n, limit, st)->Ok_0.2.sat[f]
            ==> found_via(acts, b, i, element_child(n, idx), f, element_step(acts, b, i, idx, n, limit, st)->Ok_0.2.caps),
    decreases b.len() + 2 - i, 5int,
{
    lemma_children_ok(acts, n, Seq::empty(), idx);
    lemma_item_value_found(acts, b, i, element_child(n, idx), limit, st);
    let e1 = item_value(acts, b, i, element_child(n, idx), limit, st)->Ok_0.0;
    let (nx, more) = after_item(b, e1, 0x5D)->Ok_0;
    if more {
        assert(after_item(b, e1, 0x5D) == Ok::<(int, bool), MatchError>((nx, true)));
        assert(next_item(b, i, 0x5D, nx));
    }
}

proof fn lemma_walk_elements_found(
    acts: Seq<Action>, b: Seq<u8>, i: int, idx: nat, n: Node, limit: nat, st: Progress, kids: Seq<Option<Node>>, i0: int,
)
    requires
        acts.len() <= u32::MAX,
        walk_elements(acts, b, i, idx, n, limit, st, kids) is Ok,
        0 <= i <= b.len(),
        node_ok(acts, n),
        shaped(acts, st),
        forall|t: nat, v: int| #[trigger] element_at(b, i, t, v) ==> element_at(b, i0, idx + t, v),
    ensures
        forall|f: int| 0 <= f < acts.len() && !st.sat[f] && #[trigger] walk_elements(acts, b, i, idx, n, limit, st, kids)->Ok_0.1.sat[f]
            ==> exists|jj: nat, v: int| #[trigger] element_at(b, i0, jj, v)
                && found_via(acts, b, v, element_child(n, jj), f, walk_elements(acts, b, i, idx, n, limit, st, kids)->Ok_0.1.caps),
    decreases b.len() + 2 - i, 6int,
{
    lemma_element_step_found(acts, b, i, idx, n, limit, st);
    lemma_element_step_extends(acts, b, i, idx, n, limit, st);
    let (nx, more, st1) = element_step(acts, b, i, idx, n, limit, st)->Ok_0;
    assert(element_at(b, i, 0, i));
    assert(element_at(b, i0, idx + 0, i));
    if more {
        assert forall|t: nat, v2: int| #[trigger] element_at(b, nx, t, v2)
            implies element_at(b, i0, (idx + 1) as nat + t, v2) by {
            lemma_element_next(b, i, nx, t, v2);
            assert(element_at(b, i, t + 1, v2));
        }
        lemma_walk_elements_found(acts, b, nx, idx + 1, n, limit, st1, kids.push(element_child(n, idx)), i0);
        lemma_walk_elements_extends(acts, b, nx, idx + 1, n, limit, st1, kids.push(element_child(n, idx)));
    }
    let fin = walk_elements(acts, b, i, idx, n, limit, st, kids)->Ok_0.1;
    assert forall|f: int| 0 <= f < acts.len() && !st.sat[f] && #[trigger] fin.sat[f]
        implies exists|jj: nat, v3: int| #[trigger] element_at(b, i0, jj, v3)
            && found_via(acts, b, v3, element_child(n, jj), f, fin.caps) by {
        if st1.sat[f] {
            assert(element_at(b, i0, idx, i));
            if more {
                lemma_found_at_kept(acts, b, i, element_child(n, idx)->Some_0, f, st1, fin);
            }
        }
    }
}

proof fn lemma_walk_array_found(acts: Seq<Action>, b: Seq<u8>, pos: int, n: Node, limit: nat, st: Progress)
    requires
        acts.len() <= u32::MAX,
        walk_array(acts, b, pos, n, limit, st) is Ok,
        0 <= pos < b.len(),
        b[pos] == 0x5B,
        node_ok(acts, n),
        shaped(acts, st),
    ensures
        forall|f: int| 0 <= f < acts.len() && !st.sat[f] && #[trigger] walk_array(acts, b, pos, n, limit, st)->Ok_0.1.sat[f]
            ==> found_at(acts, b, pos, n, f, walk_array(acts, b, pos, n, limit, st)->Ok_0.1.caps),
    decreases b.len() + 2 - pos, 1int,
{
    lemma_ws_end_bounds(b, pos + 1);
    let j0 = ws_end(b, pos + 1);
    if b[j0] != 0x5D {
        lemma_walk_elements_found(acts, b, j0, 0, n, limit, st, Seq::empty(), j0);
        let fin = walk_array(acts, b, pos, n, limit, st)->Ok_0.1;
        assert forall|f: int| 0 <= f < acts.len() && !st.sat[f] && #[trigger] fin.sat[f]
            implies found_at(acts, b, pos, n, f, fin.caps) by {
            let (jj, v) = choose|jj: nat, v: int| #[trigger] element_at(b, j0, jj, v)
                && found_via(acts, b, v, element_child(n, jj), f, fin.caps);
            let c = element_child(n, jj)->Some_0;
            let (q, v2, e) = choose|q: Seq<Elem>, v2: int, e: int|
                #![trigger at_path(b, v, q, v2), value_ends(b, v2, e)]
                at_path(b, v, q, v2) && value_ends(b, v2, e) && takes(acts, b, v2, e, resolve(c, q), f)
                    && capture_held(acts, f, fin.caps, b, v2, e);
            let q2 = seq![Elem::Element(jj)] + q;
            assert(q2[0] == Elem::Element(jj));
            assert(q2.drop_first() =~= q);
            assert(step_to(b, pos, q2[0], v));
            assert(at_path(b, pos, q2, v2));
            assert(resolve(n, q2) == resolve(c, q));
            assert(takes(acts, b, v2, e, resolve(n, q2), f));
        }
    }
}

/// What a match establishes. Every field that a successful match satisfied
/// was satisfied by a value of the document, at a concrete path that the
/// trie resolves to that field, whose type is the field's and which the
/// field's predicate accepts.
pub proof fn lemma_satisfied_fields_were_found(acts: Seq<Action>, root: Node, captures: nat, b: Seq<u8>, limit: nat)
    requires
        acts.len() <= u32::MAX,
        node_ok(acts, root),
        forall|f: int| 0 <= f < acts.len() ==> #[trigger] slots_below(acts[f], captures),
    ensures
        match_input(acts, root, captures, b, limit) matches Ok(st) ==> forall|f: int| 0 <= f < acts.len() && #[trigger] st.sat[f]
            ==> found_at(acts, b, ws_end(b, 0), root, f, st.caps),
{
    if match_input(acts, root, captures, b, limit) is Ok {
        lemma_ws_end_bounds(b, 0);
        let st0 = fresh(acts.len(), captures);
        lemma_walk_value_found(acts, b, ws_end(b, 0), root, limit, st0);
    }
}

// What the document offers, the walk satisfies: each value that a field's
// conditions accept, at a path the trie resolves to the field, leaves the
// field satisfied.

/// A value spans one extent only.
proof fn lemma_value_ends_unique(b: Seq<u8>, v: int, e1: int, e2: int)
    requires
        value_ends(b, v, e1),
        value_ends(b, v, e2),
    ensures
        e1 == e2,
{
    let l1 = choose|l: nat| value_spec(b, v, l) == Ok::<int, MatchError>(e1);
    let l2 = choose|l: nat| value_spec(b, v, l) == Ok::<int, MatchError>(e2);
    let big = if l1 < l2 { l2 } else { l1 };
    let none = Seq::<bool>::empty();
    assert(none + none =~= none);
    lemma_value_frame(b, v, none, l1, none, big);
    lemma_value_frame(b, v, none, l2, none, big);
}

/// Every member (of an object at `v`) or element (of an array at `v`)
/// resolves from node `n` to a child whose subtree holds a field of set `set`.
pub open spec fn members_covered(acts: Seq<Action>, b: Seq<u8>, v: int, n: Node, set: u32) -> bool {
    &&& b[v] == 0x7B ==> forall|j: nat, k: Seq<char>, u: int| #[trigger] member_at(b, ws_end(b, v + 1), j, k, u)
        ==> (key_child(n, k) matches Some(c) && subtree_has_set(acts, c, set))
    &&& b[v] == 0x5B ==> forall|j: nat, u: int| at(b, ws_end(b, v + 1)) != Some(0x5Du8) && #[trigger] element_at(b, ws_end(b, v + 1), j, u)
        ==> (element_child(n, j) matches Some(c) && subtree_has_set(acts, c, set))
}

/// The value `b[v..e]`, matched against node `n`, meets every condition of
/// field `f`: its type, its predicate, and its exhaustiveness.
pub open spec fn ready(acts: Seq<Action>, b: Seq<u8>, v: int, e: int, n: Node, f: int) -> bool {
    &&& accepted(acts[f].field_type, acts[f].predicate, b, v, e)
    &&& acts[f].exhaustive ==> members_covered(acts, b, v, n, acts[f].set_index)
}

/// Field `f` is held by the node `m` a value `b[v..e]` is matched against,
/// and the value meets every condition of `f`.
pub open spec fn takes(acts: Seq<Action>, b: Seq<u8>, v: int, e: int, m: Option<Node>, f: int) -> bool {
    m matches Some(x) && x.actions@.contains(f as u32) && ready(acts, b, v, e, x, f)
}

/// Some value reached from `pos` along a concrete path that node `n`
/// resolves to a node holding field `f` meets every condition of `f`.
pub open spec fn offered_below(acts: Seq<Action>, b: Seq<u8>, pos: int, n: Node, f: int) -> bool {
    exists|q: Seq<Elem>, v: int, e: int|
        #![trigger at_path(b, pos, q, v), value_ends(b, v, e)]
        at_path(b, pos, q, v) && value_ends(b, v, e) && takes(acts, b, v, e, resolve(n, q), f)
}

/// Trying the fields `fs[..k]` on `b[s..e]` leaves satisfied each of them
/// whose conditions the value meets.
proof fn lemma_run_actions_complete(
    acts: Seq<Action>, fs: Seq<u32>, k: int, b: Seq<u8>, s: int, e: int, escaped: bool, kids: Seq<Option<Node>>, st: Progress,
)
    requires
        k <= fs.len(),
        forall|j: int| 0 <= j < fs.len() ==> #[trigger] fs[j] < acts.len(),
        shaped(acts, st),
        escaped == escapes_at(b, s),
        run_actions(acts, fs, k, b, s, e, escaped, kids, st) is Ok,
    ensures
        forall|j: int| 0 <= j < k && accepted(acts[fs[j] as int].field_type, acts[fs[j] as int].predicate, b, s, e)
            && (acts[fs[j] as int].exhaustive ==> covered(acts, kids, acts[fs[j] as int].set_index))
            ==> #[trigger] run_actions(acts, fs, k, b, s, e, escaped, kids, st)->Ok_0.sat[fs[j] as int],
    decreases k,
{
    if k > 0 {
        lemma_run_actions_complete(acts, fs, k - 1, b, s, e, escaped, kids, st);
        lemma_run_actions_extends(acts, fs, k - 1, b, s, e, escaped, kids, st);
        let st1 = run_actions(acts, fs, k - 1, b, s, e, escaped, kids, st)->Ok_0;
        let f0 = fs[k - 1];
        lemma_action_step_extends(acts, f0, b, s, e, escaped, kids, st1);
        let q = run_actions(acts, fs, k, b, s, e, escaped, kids, st)->Ok_0;
        assert(q == action_step(acts, f0, b, s, e, escaped, kids, st1)->Ok_0);
        assert forall|j: int| 0 <= j < k && accepted(acts[fs[j] as int].field_type, acts[fs[j] as int].predicate, b, s, e)
            && (acts[fs[j] as int].exhaustive ==> covered(acts, kids, acts[fs[j] as int].set_index))
            implies #[trigger] q.sat[fs[j] as int] by {
            if j < k - 1 {
                assert(st1.sat[fs[j] as int]);
            }
        }
    }
}

/// One member step at `i`: its key and colon, the child of its key, and the
/// extent of its value, after which comes what `after_item` finds.
proof fn lemma_member_step_shape(acts: Seq<Action>, b: Seq<u8>, i: int, n: Node, limit: nat, st: Progress)
    requires
        member_step(acts, b, i, n, limit, st) is Ok,
        0 <= i <= b.len(),
    ensures
        key_colon_spec(b, i) is Ok,
        member_step(acts, b, i, n, limit, st)->Ok_0.3 == key_child(n, key_at(b, i)),
        exists|e1: int| value_ends(b, key_colon_spec(b, i)->Ok_0, e1) && #[trigger] after_item(b, e1, 0x7D)
            == Ok::<(int, bool), MatchError>((member_step(acts, b, i, n, limit, st)->Ok_0.0, member_step(acts, b, i, n, limit, st)->Ok_0.1)),
{
    lemma_key_step_bounds(b, i, n);
    let (v, child) = key_step(b, i, n)->Ok_0;
    assert(key_colon_spec(b, i) == Ok::<int, MatchError>(v));
    let e1 = item_value(acts, b, v, child, limit, st)->Ok_0.0;
    match child {
        Some(c) => lemma_walk_value_ends(acts, b, v, c, limit, st),
        None => assert(value_spec(b, v, limit) == Ok::<int, MatchError>(e1)),
    }
    assert(after_item(b, e1, 0x7D) == Ok::<(int, bool), MatchError>((member_step(acts, b, i, n, limit, st)->Ok_0.0, member_step(acts, b, i, n, limit, st)->Ok_0.1)));
}

/// One element step at `i`: the extent of its value, after which comes
/// what `after_item` finds.
proof fn lemma_element_step_shape(acts: Seq<Action>, b: Seq<u8>, i: int, idx: nat, n: Node, limit: nat, st: Progress)
    requires
        element_step(acts, b, i, idx, n, limit, st) is Ok,
        0 <= i <= b.len(),
    ensures
        exists|e1: int| value_ends(b, i, e1) && #[trigger] after_item(b, e1, 0x5D)
            == Ok::<(int, bool), MatchError>((element_step(acts, b, i, idx, n, limit, st)->Ok_0.0, element_step(acts, b, i, idx, n, limit, st)->Ok_0.1)),
{
    let e1 = item_value(acts, b, i, element_child(n, idx), limit, st)->Ok_0.0;
    match element_child(n, idx) {
        Some(c) => lemma_walk_value_ends(acts, b, i, c, limit, st),
        None => assert(value_spec(b, i, limit) == Ok::<int, MatchError>(e1)),
    }
    assert(after_item(b, e1, 0x5D) == Ok::<(int, bool), MatchError>((element_step(acts, b, i, idx, n, limit, st)->Ok_0.0, element_step(acts, b, i, idx, n, limit, st)->Ok_0.1)));
}

/// Member `t` counted from the key at `i` resolved to `kid`: the child of its key.
spec fn member_kid(b: Seq<u8>, i: int, n: Node, kid: Option<Node>, t: int) -> bool {
    exists|k: Seq<char>, u: int| #[trigger] member_at(b, i, t as nat, k, u) && kid == key_child(n, k)
}

/// Element `t` counted from the element at `i` (element `idx + t` of its
/// array) resolved to `kid`: the child of its index.
spec fn element_kid(b: Seq<u8>, i: int, idx: int, n: Node, kid: Option<Node>, t: int) -> bool {
    exists|u: int| #[trigger] element_at(b, i, t as nat, u) && kid == element_child(n, (idx + t) as nat)
}

/// The children the members from the key at `i` resolved to: one per
/// member, each the child of its key.
proof fn lemma_walk_members_kids(
    acts: Seq<Action>, b: Seq<u8>, i: int, n: Node, limit: nat, st: Progress, kids: Seq<Option<Node>>,
)
    requires
        acts.len() <= u32::MAX,
        walk_members(acts, b, i, n, limit, st, kids) is Ok,
        0 <= i <= b.len(),
        node_ok(acts, n),
        shaped(acts, st),
    ensures
        kids.len() <= walk_members(acts, b, i, n, limit, st, kids)->Ok_0.2.len(),
        forall|t: int| 0 <= t < kids.len() ==> walk_members(acts, b, i, n, limit, st, kids)->Ok_0.2[t] == kids[t],
        forall|t: int| kids.len() <= t < walk_members(acts, b, i, n, limit, st, kids)->Ok_0.2.len()
            ==> #[trigger] member_kid(b, i, n, walk_members(acts, b, i, n, limit, st, kids)->Ok_0.2[t], t - kids.len()),
    decreases b.len() + 2 - i, 6int,
{
    lemma_member_step_shape(acts, b, i, n, limit, st);
    lemma_member_step_extends(acts, b, i, n, limit, st);
    let (nx, more, st1, child) = member_step(acts, b, i, n, limit, st)->Ok_0;
    let k0 = key_at(b, i);
    let u0 = key_colon_spec(b, i)->Ok_0;
    assert(member_at(b, i, 0, k0, u0));
    let out = walk_members(acts, b, i, n, limit, st, kids)->Ok_0.2;
    let kids1 = kids.push(child);
    if more {
        lemma_walk_members_kids(acts, b, nx, n, limit, st1, kids1);
        assert forall|t: int| kids.len() <= t < out.len() implies #[trigger] member_kid(b, i, n, out[t], t - kids.len()) by {
            if t == kids.len() {
                assert(out[t] == kids1[t]);
                assert(member_at(b, i, (t - kids.len()) as nat, k0, u0));
            } else {
                assert(member_kid(b, nx, n, out[t], t - kids1.len()));
                let (k, u) = choose|k: Seq<char>, u: int| #[trigger] member_at(b, nx, (t - kids1.len()) as nat, k, u) && out[t] == key_child(n, k);
                lemma_member_next(b, i, nx, (t - kids1.len()) as nat, k, u);
                assert(((t - kids1.len()) as nat + 1) as nat == (t - kids.len()) as nat);
                assert(member_at(b, i, (t - kids.len()) as nat, k, u));
            }
        }
        assert forall|t: int| 0 <= t < kids.len() implies out[t] == kids[t] by {
            assert(out[t] == kids1[t]);
        }
    } else {
        assert(out == kids1);
        assert forall|t: int| kids.len() <= t < out.len() implies #[trigger] member_kid(b, i, n, out[t], t - kids.len()) by {
            assert(member_at(b, i, (t - kids.len()) as nat, k0, u0));
        }
    }
}

/// The children the elements from element `idx` at `i` resolved to: one per
/// element, each the child of its index.
proof fn lemma_walk_elements_kids(
    acts: Seq<Action>, b: Seq<u8>, i: int, idx: nat, n: Node, limit: nat, st: Progress, kids: Seq<Option<Node>>,
)
    requires
        acts.len() <= u32::MAX,
        walk_elements(acts, b, i, idx, n, limit, st, kids) is Ok,
        0 <= i <= b.len(),
        node_ok(acts, n),
        shaped(acts, st),
    ensures
        kids.len() <= walk_elements(acts, b, i, idx, n, limit, st, kids)->Ok_0.2.len(),
        forall|t: int| 0 <= t < kids.len() ==> walk_elements(acts, b, i, idx, n, limit, st, kids)->Ok_0.2[t] == kids[t],
        forall|t: int| kids.len() <= t < walk_elements(acts, b, i, idx, n, limit, st, kids)->Ok_0.2.len()
            ==> #[trigger] element_kid(b, i, idx as int, n, walk_elements(acts, b, i, idx, n, limit, st, kids)->Ok_0.2[t], t - kids.len()),
    decreases b.len() + 2 - i, 6int,
{
    lemma_element_step_shape(acts, b, i, idx, n, limit, st);
    lemma_element_step_extends(acts, b, i, idx, n, limit, st);
    let (nx, more, st1) = element_step(acts, b, i, idx, n, limit, st)->Ok_0;
    assert(element_at(b, i, 0, i));
    let out = walk_elements(acts, b, i, idx, n, limit, st, kids)->Ok_0.2;
    let kids1 = kids.push(element_child(n, idx));
    if more {
        lemma_walk_elements_kids(acts, b, nx, idx + 1, n, limit, st1, kids1);
        assert forall|t: int| kids.len() <= t < out.len() implies #[trigger] element_kid(b, i, idx as int, n, out[t], t - kids.len()) by {
            if t == kids.len() {
                assert(out[t] == kids1[t]);
                assert(element_at(b, i, (t - kids.len()) as nat, i));
            } else {
                assert(element_kid(b, nx, (idx + 1) as int, n, out[t], t - kids1.len()));
                let u = choose|u: int| #[trigger] element_at(b, nx, (t - kids1.len()) as nat, u)
                    && out[t] == element_child(n, (idx + 1 + t - kids1.len()) as nat);
                lemma_element_next(b, i, nx, (t - kids1.len()) as nat, u);
                assert(((t - kids1.len()) as nat + 1) as nat == (t - kids.len()) as nat);
                assert(element_at(b, i, (t - kids.len()) as nat, u));
            }
        }
        assert forall|t: int| 0 <= t < kids.len() implies out[t] == kids[t] by {
            assert(out[t] == kids1[t]);
        }
    } else {
        assert(out == kids1);
        assert forall|t: int| kids.len() <= t < out.len() implies #[trigger] element_kid(b, i, idx as int, n, out[t], t - kids.len()) by {
            assert(element_at(b, i, (t - kids.len()) as nat, i));
        }
    }
}

/// An exhaustive field whose members the document covers finds them
/// covered by the children the walk resolved.
proof fn lemma_scan_covered(acts: Seq<Action>, b: Seq<u8>, pos: int, n: Node, limit: nat, st: Progress, set: u32)
    requires
        acts.len() <= u32::MAX,
        scan_value(acts, b, pos, n, limit, st) is Ok,
        0 <= pos <= b.len(),
        node_ok(acts, n),
        shaped(acts, st),
        members_covered(acts, b, pos, n, set),
    ensures
        covered(acts, scan_value(acts, b, pos, n, limit, st)->Ok_0.3, set),
{
    let kids = scan_value(acts, b, pos, n, limit, st)->Ok_0.3;
    let c = b[pos];
    lemma_ws_end_bounds(b, pos + 1);
    let j0 = ws_end(b, pos + 1);
    if c == 0x7B && walks_object(acts, n) && b[j0] != 0x7D {
        lemma_walk_members_kids(acts, b, j0, n, limit, st, Seq::empty());
        assert forall|t: int| 0 <= t < kids.len() implies (#[trigger] kids[t] matches Some(m) && subtree_has_set(acts, m, set)) by {
            assert(member_kid(b, j0, n, kids[t], t - 0));
            let (k, u) = choose|k: Seq<char>, u: int| #[trigger] member_at(b, j0, (t - 0) as nat, k, u) && kids[t] == key_child(n, k);
        }
    } else if c == 0x5B && walks_array(acts, n) && b[j0] != 0x5D {
        lemma_walk_elements_kids(acts, b, j0, 0, n, limit, st, Seq::empty());
        assert forall|t: int| 0 <= t < kids.len() implies (#[trigger] kids[t] matches Some(m) && subtree_has_set(acts, m, set)) by {
            assert(element_kid(b, j0, 0, n, kids[t], t - 0));
            let u = choose|u: int| #[trigger] element_at(b, j0, (t - 0) as nat, u) && kids[t] == element_child(n, (0 + t - 0) as nat);
            assert(at(b, j0) != Some(0x5Du8));
        }
    }
}

/// Field `f` is offered below the value at `v` through the child `child`.
spec fn offered_via(acts: Seq<Action>, b: Seq<u8>, v: int, child: Option<Node>, f: int) -> bool {
    child matches Some(c) && offered_below(acts, b, v, c, f)
}

/// Some member counted from the key at `i` offers field `f` through the
/// child of its key.
spec fn offered_from_member(acts: Seq<Action>, b: Seq<u8>, i: int, n: Node, f: int) -> bool {
    exists|t: nat, k: Seq<char>, u: int| #[trigger] member_at(b, i, t, k, u) && offered_via(acts, b, u, key_child(n, k), f)
}

/// Some element counted from element `idx` at `i` offers field `f` through
/// the child of its index.
spec fn offered_from_element(acts: Seq<Action>, b: Seq<u8>, i: int, idx: int, n: Node, f: int) -> bool {
    exists|t: nat, u: int| #[trigger] element_at(b, i, t, u) && offered_via(acts, b, u, element_child(n, (idx + t) as nat), f)
}

/// A member or element of the container at `pos` offers field `f`.
spec fn offered_inside(acts: Seq<Action>, b: Seq<u8>, pos: int, n: Node, f: int) -> bool {
    ||| b[pos] == 0x7B && offered_from_member(acts, b, ws_end(b, pos + 1), n, f)
    ||| b[pos] == 0x5B && at(b, ws_end(b, pos + 1)) != Some(0x5Du8) && offered_from_element(acts, b, ws_end(b, pos + 1), 0, n, f)
}

proof fn lemma_scan_value_complete(acts: Seq<Action>, b: Seq<u8>, pos: int, n: Node, limit: nat, st: Progress)
    requires
        scan_value(acts, b, pos, n, limit, st) is Ok,
        0 <= pos <= b.len(),
        acts.len() <= u32::MAX,
        node_ok(acts, n),
        shaped(acts, st),
    ensures
        forall|f: int| 0 <= f < acts.len() && #[trigger] offered_inside(acts, b, pos, n, f)
            ==> scan_value(acts, b, pos, n, limit, st)->Ok_0.1.sat[f],
    decreases b.len() + 2 - pos, 2int,
{
    let c = b[pos];
    if c == 0x7B && walks_object(acts, n) {
        lemma_walk_object_complete(acts, b, pos, n, limit, st);
    } else if c == 0x5B && walks_array(acts, n) {
        lemma_walk_array_complete(acts, b, pos, n, limit, st);
    }
    let q = scan_value(acts, b, pos, n, limit, st)->Ok_0.1;
    assert forall|f: int| 0 <= f < acts.len() && #[trigger] offered_inside(acts, b, pos, n, f) implies q.sat[f] by {
        lemma_ws_end_bounds(b, pos + 1);
        let j0 = ws_end(b, pos + 1);
        if c == 0x7B && offered_from_member(acts, b, j0, n, f) {
            let (t, k, u) = choose|t: nat, k: Seq<char>, u: int| #[trigger] member_at(b, j0, t, k, u)
                && offered_via(acts, b, u, key_child(n, k), f);
            lemma_key_pos_found(n.key_children@, k, 0);
            assert(walks_object(acts, n));
        } else if c == 0x5B {
            let (t, u) = choose|t: nat, u: int| #[trigger] element_at(b, j0, t, u)
                && offered_via(acts, b, u, element_child(n, (0 + t) as nat), f);
            if t <= 0xFFFF {
                lemma_index_pos_found(n.index_children@, t as u16, 0);
            }
            assert(walks_array(acts, n));
        }
    }
}

proof fn lemma_walk_value_complete(acts: Seq<Action>, b: Seq<u8>, pos: int, n: Node, limit: nat, st: Progress)
    requires
        walk_value(acts, b, pos, n, limit, st) is Ok,
        0 <= pos <= b.len(),
        acts.len() <= u32::MAX,
        node_ok(acts, n),
        shaped(acts, st),
    ensures
        forall|f: int| 0 <= f < acts.len() && #[trigger] offered_below(acts, b, pos, n, f)
            ==> walk_value(acts, b, pos, n, limit, st)->Ok_0.1.sat[f],
    decreases b.len() + 2 - pos, 3int,
{
    lemma_scan_value_complete(acts, b, pos, n, limit, st);
    lemma_scan_value_extends(acts, b, pos, n, limit, st);
    lemma_scan_escapes(acts, b, pos, n, limit, st);
    let (e, st1, escaped, kids) = scan_value(acts, b, pos, n, limit, st)->Ok_0;
    lemma_node_ok_unfold(acts, n);
    lemma_run_actions_complete(acts, n.actions@, n.actions@.len() as int, b, pos, e, escaped, kids, st1);
    lemma_run_actions_extends(acts, n.actions@, n.actions@.len() as int, b, pos, e, escaped, kids, st1);
    lemma_walk_value_ends(acts, b, pos, n, limit, st);
    let q = walk_value(acts, b, pos, n, limit, st)->Ok_0.1;
    assert forall|f: int| 0 <= f < acts.len() && #[trigger] offered_below(acts, b, pos, n, f) implies q.sat[f] by {
        let (path, v, e2) = choose|path: Seq<Elem>, v: int, e2: int|
            #![trigger at_path(b, pos, path, v), value_ends(b, v, e2)]
            at_path(b, pos, path, v) && value_ends(b, v, e2) && takes(acts, b, v, e2, resolve(n, path), f);
        if path.len() == 0 {
            lemma_value_ends_unique(b, pos, e, e2);
            let j = choose|j: int| 0 <= j < n.actions@.len() && n.actions@[j] == f as u32;
            if acts[f].exhaustive {
                lemma_scan_covered(acts, b, pos, n, limit, st, acts[f].set_index);
            }
            assert(q.sat[n.actions@[j] as int]);
        } else {
            let rest = path.drop_first();
            let u = choose|u: int| #[trigger] step_to(b, pos, path[0], u) && at_path(b, u, rest, v);
            lemma_ws_end_bounds(b, pos + 1);
            let j0 = ws_end(b, pos + 1);
            match path[0] {
                Elem::Member(k) => {
                    let c = key_child(n, k)->Some_0;
                    assert(resolve(n, path) == resolve(c, rest));
                    assert(offered_below(acts, b, u, c, f));
                    let t = choose|t: nat| #[trigger] member_at(b, j0, t, k, u);
                    assert(offered_from_member(acts, b, j0, n, f));
                },
                Elem::Element(t) => {
                    let c = element_child(n, t)->Some_0;
                    assert(resolve(n, path) == resolve(c, rest));
                    assert(offered_below(acts, b, u, c, f));
                    assert(element_child(n, (0 + t) as nat) == element_child(n, t));
                    assert(offered_from_element(acts, b, j0, 0, n, f));
                },
            }
            assert(offered_inside(acts, b, pos, n, f));
        }
    }
}

proof fn lemma_item_value_complete(acts: Seq<Action>, b: Seq<u8>, v: int, child: Option<Node>, limit: nat, st: Progress)
    requires
        item_value(acts, b, v, child, limit, st) is Ok,
        0 <= v <= b.len(),
        acts.len() <= u32::MAX,
        child matches Some(c) ==> node_ok(acts, c),
        shaped(acts, st),
    ensures
        forall|f: int| 0 <= f < acts.len() && #[trigger] offered_via(acts, b, v, child, f)
            ==> item_value(acts, b, v, child, limit, st)->Ok_0.1.sat[f],
    decreases b.len() + 2 - v, 4int,
{
    if let Some(c) = child {
        lemma_walk_value_complete(acts, b, v, c, limit, st);
    }
}

proof fn lemma_member_step_complete(acts: Seq<Action>, b: Seq<u8>, i: int, n: Node, limit: nat, st: Progress)
    requires
        member_step(acts, b, i, n, limit, st) is Ok,
        0 <= i <= b.len(),
        acts.len() <= u32::MAX,
        node_ok(acts, n),
        shaped(acts, st),
    ensures
        key_colon_spec(b, i) is Ok,
        exists|e1: int| value_ends(b, key_colon_spec(b, i)->Ok_0, e1) && #[trigger] after_item(b, e1, 0x7D)
            == Ok::<(int, bool), MatchError>((member_step(acts, b, i, n, limit, st)->Ok_0.0, member_step(acts, b, i, n, limit, st)->Ok_0.1)),
        forall|f: int| 0 <= f < acts.len() && #[trigger] offered_via(acts, b, key_colon_spec(b, i)->Ok_0, key_child(n, key_at(b, i)), f)
            ==> member_step(acts, b, i, n, limit, st)->Ok_0.2.sat[f],
    decreases b.len() + 2 - i, 5int,
{
    lemma_key_step_bounds(b, i, n);
    let (v, child) = key_step(b, i, n)->Ok_0;
    assert(key_colon_spec(b, i) == Ok::<int, MatchError>(v));
    lemma_children_ok(acts, n, key_at(b, i), 0);
    lemma_item_value_found(acts, b, v, child, limit, st);
    lemma_item_value_complete(acts, b, v, child, limit, st);
    let e1 = item_value(acts, b, v, child, limit, st)->Ok_0.0;
    assert(after_item(b, e1, 0x7D) == Ok::<(int, bool), MatchError>((member_step(acts, b, i, n, limit, st)->Ok_0.0, member_step(acts, b, i, n, limit, st)->Ok_0.1)));
}

proof fn lemma_walk_members_complete(
    acts: Seq<Action>, b: Seq<u8>, i: int, n: Node, limit: nat, st: Progress, kids: Seq<Option<Node>>,
)
    requires
        walk_members(acts, b, i, n, limit, st, kids) is Ok,
        0 <= i <= b.len(),
        acts.len() <= u32::MAX,
        node_ok(acts, n),
        shaped(acts, st),
    ensures
        forall|f: int| 0 <= f < acts.len() && #[trigger] offered_from_member(acts, b, i, n, f)
            ==> walk_members(acts, b, i, n, limit, st, kids)->Ok_0.1.sat[f],
    decreases b.len() + 2 - i, 6int,
{
    lemma_member_step_complete(acts, b, i, n, limit, st);
    lemma_member_step_extends(acts, b, i, n, limit, st);
    let (nx, more, st1, child) = member_step(acts, b, i, n, limit, st)->Ok_0;
    let u0 = key_colon_spec(b, i)->Ok_0;
    let e1 = choose|e1: int| value_ends(b, u0, e1) && #[trigger] after_item(b, e1, 0x7D) == Ok::<(int, bool), MatchError>((nx, more));
    if more {
        lemma_walk_members_complete(acts, b, nx, n, limit, st1, kids.push(child));
        lemma_walk_members_extends(acts, b, nx, n, limit, st1, kids.push(child));
    }
    let fin = walk_members(acts, b, i, n, limit, st, kids)->Ok_0.1;
    assert forall|f: int| 0 <= f < acts.len() && #[trigger] offered_from_member(acts, b, i, n, f) implies fin.sat[f] by {
        let (t, k, u) = choose|t: nat, k: Seq<char>, u: int| #[trigger] member_at(b, i, t, k, u)
            && offered_via(acts, b, u, key_child(n, k), f);
        if t == 0 {
            assert(st1.sat[f]);
        } else {
            let nx2 = choose|nx2: int| #[trigger] next_item(b, u0, 0x7D, nx2) && member_at(b, nx2, (t - 1) as nat, k, u);
            let e2 = choose|e2: int| value_ends(b, u0, e2) && #[trigger] after_item(b, e2, 0x7D) == Ok::<(int, bool), MatchError>((nx2, true));
            lemma_value_ends_unique(b, u0, e1, e2);
            assert(more && nx == nx2);
            assert(offered_from_member(acts, b, nx, n, f));
        }
    }
}

proof fn lemma_walk_object_complete(acts: Seq<Action>, b: Seq<u8>, pos: int, n: Node, limit: nat, st: Progress)
    requires
        walk_object(acts, b, pos, n, limit, st) is Ok,
        0 <= pos < b.len(),
        b[pos] == 0x7B,
        acts.len() <= u32::MAX,
        node_ok(acts, n),
        shaped(acts, st),
    ensures
        forall|f: int| 0 <= f < acts.len() && #[trigger] offered_from_member(acts, b, ws_end(b, pos + 1), n, f)
            ==> walk_object(acts, b, pos, n, limit, st)->Ok_0.1.sat[f],
    decreases b.len() + 2 - pos, 1int,
{
    lemma_ws_end_bounds(b, pos + 1);
    let j0 = ws_end(b, pos + 1);
    if b[j0] != 0x7D {
        lemma_walk_members_complete(acts, b, j0, n, limit, st, Seq::empty());
    } else {
        assert forall|f: int| 0 <= f < acts.len() && #[trigger] offered_from_member(acts, b, j0, n, f)
            implies walk_object(acts, b, pos, n, limit, st)->Ok_0.1.sat[f] by {
            let (t, k, u) = choose|t: nat, k: Seq<char>, u: int| #[trigger] member_at(b, j0, t, k, u)
                && offered_via(acts, b, u, key_child(n, k), f);
        }
    }
}

proof fn lemma_element_step_complete(
    acts: Seq<Action>, b: Seq<u8>, i: int, idx: nat, n: Node, limit: nat, st: Progress,
)
    requires
        element_step(acts, b, i, idx, n, limit, st) is Ok,
        0 <= i <= b.len(),
        acts.len() <= u32::MAX,
        node_ok(acts, n),
        shaped(acts, st),
    ensures
        exists|e1: int| value_ends(b, i, e1) && #[trigger] after_item(b, e1, 0x5D)
            == Ok::<(int, bool), MatchError>((element_step(acts, b, i, idx, n, limit, st)->Ok_0.0, element_step(acts, b, i, idx, n, limit, st)->Ok_0.1)),
        forall|f: int| 0 <= f < acts.len() && #[trigger] offered_via(acts, b, i, element_child(n, idx), f)
            ==> element_step(acts, b, i, idx, n, limit, st)->Ok_0.2.sat[f],
    decreases b.len() + 2 - i, 5int,
{
    lemma_children_ok(acts, n, Seq::empty(), idx);
    lemma_item_value_found(acts, b, i, element_child(n, idx), limit, st);
    lemma_item_value_complete(acts, b, i, element_child(n, idx), limit, st);
    let e1 = item_value(acts, b, i, element_child(n, idx), limit, st)->Ok_0.0;
    assert(after_item(b, e1, 0x5D) == Ok::<(int, bool), MatchError>((element_step(acts, b, i, idx, n, limit, st)->Ok_0.0, element_step(acts, b, i, idx, n, limit, st)->Ok_0.1)));
}

proof fn lemma_walk_elements_complete(
    acts: Seq<Action>, b: Seq<u8>, i: int, idx: nat, n: Node, limit: nat, st: Progress, kids: Seq<Option<Node>>,
)
    requires
        walk_elements(acts, b, i, idx, n, limit, st, kids) is Ok,
        0 <= i <= b.len(),
        acts.len() <= u32::MAX,
        node_ok(acts, n),
        shaped(acts, st),
    ensures
        forall|f: int| 0 <= f < acts.len() && #[trigger] offered_from_element(acts, b, i, idx as int, n, f)
            ==> walk_elements(acts, b, i, idx, n, limit, st, kids)->Ok_0.1.sat[f],
    decreases b.len() + 2 - i, 6int,
{
    lemma_element_step_complete(acts, b, i, idx, n, limit, st);
    lemma_element_step_extends(acts, b, i, idx, n, limit, st);
    let (nx, more, st1) = element_step(acts, b, i, idx, n, limit, st)->Ok_0;
    let e1 = choose|e1: int| value_ends(b, i, e1) && #[trigger] after_item(b, e1, 0x5D) == Ok::<(int, bool), MatchError>((nx, more));
    if more {
        lemma_walk_elements_complete(acts, b, nx, idx + 1, n, limit, st1, kids.push(element_child(n, idx)));
        lemma_walk_elements_extends(acts, b, nx, idx + 1, n, limit, st1, kids.push(element_child(n, idx)));
    }
    let fin = walk_elements(acts, b, i, idx, n, limit, st, kids)->Ok_0.1;
    assert forall|f: int| 0 <= f < acts.len() && #[trigger] offered_from_element(acts, b, i, idx as int, n, f) implies fin.sat[f] by {
        let (t, u) = choose|t: nat, u: int| #[trigger] element_at(b, i, t, u)
            && offered_via(acts, b, u, element_child(n, (idx + t) as nat), f);
        if t == 0 {
            assert(st1.sat[f]);
        } else {
            let nx2 = choose|nx2: int| #[trigger] next_item(b, i, 0x5D, nx2) && element_at(b, nx2, (t - 1) as nat, u);
            let e2 = choose|e2: int| value_ends(b, i, e2) && #[trigger] after_item(b, e2, 0x5D) == Ok::<(int, bool), MatchError>((nx2, true));
            lemma_value_ends_unique(b, i, e1, e2);
            assert(more && nx == nx2);
            assert(((idx + 1) + (t - 1) as nat) as nat == (idx + t) as nat);
            assert(offered_from_element(acts, b, nx, (idx + 1) as int, n, f));
        }
    }
}

proof fn lemma_walk_array_complete(acts: Seq<Action>, b: Seq<u8>, pos: int, n: Node, limit: nat, st: Progress)
    requires
        walk_array(acts, b, pos, n, limit, st) is Ok,
        0 <= pos < b.len(),
        b[pos] == 0x5B,
        acts.len() <= u32::MAX,
        node_ok(acts, n),
        shaped(acts, st),
    ensures
        forall|f: int| 0 <= f < acts.len() && at(b, ws_end(b, pos + 1)) != Some(0x5Du8)
            && #[trigger] offered_from_element(acts, b, ws_end(b, pos + 1), 0, n, f)
            ==> walk_array(acts, b, pos, n, limit, st)->Ok_0.1.sat[f],
    decreases b.len() + 2 - pos, 1int,
{
    lemma_ws_end_bounds(b, pos + 1);
    let j0 = ws_end(b, pos + 1);
    if b[j0] != 0x5D {
        lemma_walk_elements_complete(acts, b, j0, 0, n, limit, st, Seq::empty());
    }
}

/// Every field the document offers is satisfied. After a successful match,
/// a field is satisfied whenever some value of the document, at a concrete
/// path that the trie resolves to the field, meets all of the field's
/// conditions: its type, its predicate, and, for an exhaustive field, that
/// every member or element of the value leads to a part of the trie that
/// holds a field of the same set.
pub proof fn lemma_offered_fields_are_satisfied(acts: Seq<Action>, root: Node, captures: nat, b: Seq<u8>, limit: nat)
    requires
        node_ok(acts, root),
        acts.len() <= u32::MAX,
        forall|f: int| 0 <= f < acts.len() ==> #[trigger] slots_below(acts[f], captures),
    ensures
        match_input(acts, root, captures, b, limit) matches Ok(st) ==> forall|f: int| 0 <= f < acts.len()
            && #[trigger] offered_below(acts, b, ws_end(b, 0), root, f) ==> st.sat[f],
{
    if match_input(acts, root, captures, b, limit) is Ok {
        lemma_ws_end_bounds(b, 0);
        lemma_walk_value_complete(acts, b, ws_end(b, 0), root, limit, fresh(acts.len(), captures));
    }
}

/// Every member counted from the key at `i` was walked, and resolved to
/// the child of its key.
proof fn lemma_walk_members_all(
    acts: Seq<Action>, b: Seq<u8>, i: int, n: Node, limit: nat, st: Progress, kids: Seq<Option<Node>>,
)
    requires
        walk_members(acts, b, i, n, limit, st, kids) is Ok,
        0 <= i <= b.len(),
        acts.len() <= u32::MAX,
        node_ok(acts, n),
        shaped(acts, st),
    ensures
        forall|t: nat, k: Seq<char>, u: int| #[trigger] member_at(b, i, t, k, u)
            ==> kids.len() + t < walk_members(acts, b, i, n, limit, st, kids)->Ok_0.2.len()
                && walk_members(acts, b, i, n, limit, st, kids)->Ok_0.2[(kids.len() + t) as int] == key_child(n, k),
    decreases b.len() + 2 - i, 6int,
{
    lemma_member_step_shape(acts, b, i, n, limit, st);
    lemma_member_step_extends(acts, b, i, n, limit, st);
    let (nx, more, st1, child) = member_step(acts, b, i, n, limit, st)->Ok_0;
    let u0 = key_colon_spec(b, i)->Ok_0;
    let e1 = choose|e1: int| value_ends(b, u0, e1) && #[trigger] after_item(b, e1, 0x7D) == Ok::<(int, bool), MatchError>((nx, more));
    let kids1 = kids.push(child);
    let out = walk_members(acts, b, i, n, limit, st, kids)->Ok_0.2;
    if more {
        lemma_walk_members_all(acts, b, nx, n, limit, st1, kids1);
        lemma_walk_members_kids(acts, b, nx, n, limit, st1, kids1);
    }
    assert forall|t: nat, k: Seq<char>, u: int| #[trigger] member_at(b, i, t, k, u)
        implies kids.len() + t < out.len() && out[(kids.len() + t) as int] == key_child(n, k) by {
        if t == 0 {
            assert(out[kids.len() as int] == kids1[kids.len() as int]);
        } else {
            let nx2 = choose|nx2: int| #[trigger] next_item(b, u0, 0x7D, nx2) && member_at(b, nx2, (t - 1) as nat, k, u);
            let e2 = choose|e2: int| value_ends(b, u0, e2) && #[trigger] after_item(b, e2, 0x7D) == Ok::<(int, bool), MatchError>((nx2, true));
            lemma_value_ends_unique(b, u0, e1, e2);
            assert(more && nx == nx2);
            assert(member_at(b, nx, (t - 1) as nat, k, u));
            assert(kids1.len() + (t - 1) as nat == kids.len() + t);
        }
    }
}

/// Every element counted from element `idx` at `i` was walked, and
/// resolved to the child of its index.
proof fn lemma_walk_elements_all(
    acts: Seq<Action>, b: Seq<u8>, i: int, idx: nat, n: Node, limit: nat, st: Progress, kids: Seq<Option<Node>>,
)
    requires
        walk_elements(acts, b, i, idx, n, limit, st, kids) is Ok,
        0 <= i <= b.len(),
        acts.len() <= u32::MAX,
        node_ok(acts, n),
        shaped(acts, st),
    ensures
        forall|t: nat, u: int| #[trigger] element_at(b, i, t, u)
            ==> kids.len() + t < walk_elements(acts, b, i, idx, n, limit, st, kids)->Ok_0.2.len()
                && walk_elements(acts, b, i, idx, n, limit, st, kids)->Ok_0.2[(kids.len() + t) as int] == element_child(n, idx + t),
    decreases b.len() + 2 - i, 6int,
{
    lemma_element_step_shape(acts, b, i, idx, n, limit, st);
    lemma_element_step_extends(acts, b, i, idx, n, limit, st);
    let (nx, more, st1) = element_step(acts, b, i, idx, n, limit, st)->Ok_0;
    let e1 = choose|e1: int| value_ends(b, i, e1) && #[trigger] after_item(b, e1, 0x5D) == Ok::<(int, bool), MatchError>((nx, more));
    let kids1 = kids.push(element_child(n, idx));
    let out = walk_elements(acts, b, i, idx, n, limit, st, kids)->Ok_0.2;
    if more {
        lemma_walk_elements_all(acts, b, nx, idx + 1, n, limit, st1, kids1);
        lemma_walk_elements_kids(acts, b, nx, idx + 1, n, limit, st1, kids1);
    }
    assert forall|t: nat, u: int| #[trigger] element_at(b, i, t, u)
        implies kids.len() + t < out.len() && out[(kids.len() + t) as int] == element_child(n, idx + t) by {
        if t == 0 {
            assert(out[kids.len() as int] == kids1[kids.len() as int]);
        } else {
            let nx2 = choose|nx2: int| #[trigger] next_item(b, i, 0x5D, nx2) && element_at(b, nx2, (t - 1) as nat, u);
            let e2 = choose|e2: int| value_ends(b, i, e2) && #[trigger] after_item(b, e2, 0x5D) == Ok::<(int, bool), MatchError>((nx2, true));
            lemma_value_ends_unique(b, i, e1, e2);
            assert(more && nx == nx2);
            assert(element_at(b, nx, (t - 1) as nat, u));
            assert(kids1.len() + (t - 1) as nat == kids.len() + t);
            assert((idx + 1) + (t - 1) as nat == idx + t);
        }
    }
}

/// At a node with an exhaustive field, the children the walk resolved
/// cover a set only when the document's members do.
proof fn lemma_scan_covered_back(acts: Seq<Action>, b: Seq<u8>, pos: int, n: Node, limit: nat, st: Progress, set: u32)
    requires
        scan_value(acts, b, pos, n, limit, st) is Ok,
        0 <= pos <= b.len(),
        acts.len() <= u32::MAX,
        node_ok(acts, n),
        shaped(acts, st),
        has_exhaustive(acts, n),
        covered(acts, scan_value(acts, b, pos, n, limit, st)->Ok_0.3, set),
    ensures
        members_covered(acts, b, pos, n, set),
{
    let kids = scan_value(acts, b, pos, n, limit, st)->Ok_0.3;
    let c = b[pos];
    lemma_ws_end_bounds(b, pos + 1);
    let j0 = ws_end(b, pos + 1);
    if c == 0x7B {
        if b[j0] != 0x7D {
            lemma_walk_members_all(acts, b, j0, n, limit, st, Seq::empty());
            assert forall|t: nat, k: Seq<char>, u: int| #[trigger] member_at(b, j0, t, k, u)
                implies (key_child(n, k) matches Some(m) && subtree_has_set(acts, m, set)) by {
                assert(kids[t as int] == key_child(n, k));
            }
        }
    } else if c == 0x5B {
        if b[j0] != 0x5D {
            lemma_walk_elements_all(acts, b, j0, 0, n, limit, st, Seq::empty());
            assert forall|t: nat, u: int| at(b, j0) != Some(0x5Du8) && #[trigger] element_at(b, j0, t, u)
                implies (element_child(n, t) matches Some(m) && subtree_has_set(acts, m, set)) by {
                assert(kids[t as int] == element_child(n, t));
            }
        }
    }
}

// What the validator accepts, the walk accepts: below the open containers
// `p`, with the depth `big` that the validator was given, a value the
// validator accepts at `pos` is walked without error, unless a captured
// number lies beyond the finite `f64` range.

/// Trying fields on a value fails only for a captured number out of range.
proof fn lemma_run_actions_errs(
    acts: Seq<Action>, fs: Seq<u32>, k: int, b: Seq<u8>, s: int, e: int, escaped: bool, kids: Seq<Option<Node>>, st: Progress,
)
    ensures
        run_actions(acts, fs, k, b, s, e, escaped, kids, st) matches Err(x) ==> x is NumberOutOfRange,
    decreases k,
{
    if k > 0 {
        lemma_run_actions_errs(acts, fs, k - 1, b, s, e, escaped, kids, st);
    }
}

/// A value of known extent `b[v..e]`, validated below the containers `p`,
/// goes on after `e`.
proof fn lemma_end_agrees(b: Seq<u8>, v: int, e: int, p: Seq<bool>, big: nat)
    requires
        value_ends(b, v, e),
        value_from(b, v, p, big) is Ok,
        p.len() <= big,
    ensures
        value_from(b, v, p, big) == after_value(b, e, p, big),
{
    let none = Seq::<bool>::empty();
    assert(p + none =~= p);
    lemma_value_split(b, v, p, none, big);
    let e2 = value_from(b, v, none, (big - p.len()) as nat)->Ok_0;
    assert(value_spec(b, v, (big - p.len()) as nat) == Ok::<int, MatchError>(e2));
    lemma_value_ends_unique(b, v, e, e2);
}

/// A value ends after it begins.
proof fn lemma_value_end_after(b: Seq<u8>, v: int, e: int)
    requires
        value_ends(b, v, e),
    ensures
        v < e <= b.len(),
{
    let l = choose|l: nat| value_spec(b, v, l) == Ok::<int, MatchError>(e);
    lemma_value_ends_ascii(b, v, Seq::empty(), l);
}

/// The value at `w`, which node `r` stands for, is one the walk validates
/// whole: no node, or a node that does not walk into it.
pub open spec fn skipped_at(acts: Seq<Action>, r: Option<Node>, b: Seq<u8>, w: int) -> bool {
    match r {
        None => true,
        Some(x) => !((b[w] == 0x7B && walks_object(acts, x)) || (b[w] == 0x5B && walks_array(acts, x))),
    }
}

/// The node a concrete path leads to from `child`, if any.
pub open spec fn child_resolve(child: Option<Node>, q: Seq<Elem>) -> Option<Node> {
    match child {
        Some(c) => resolve(c, q),
        None => None,
    }
}

/// Each value at or below `v` that the walk from `child` validates whole
/// nests no deeper than `limit`: nesting along the pattern's paths does not
/// count.
pub open spec fn skips_within(acts: Seq<Action>, b: Seq<u8>, v: int, child: Option<Node>, limit: nat) -> bool {
    forall|q: Seq<Elem>, w: int| #[trigger] at_path(b, v, q, w) && skipped_at(acts, child_resolve(child, q), b, w)
        ==> value_spec(b, w, limit) is Ok
}

/// [`skips_within`] for each member counted from the one whose key is at `i`.
pub open spec fn members_skip_within(acts: Seq<Action>, b: Seq<u8>, i: int, n: Node, limit: nat) -> bool {
    forall|t: nat, k: Seq<char>, v: int| #[trigger] member_at(b, i, t, k, v) ==> skips_within(acts, b, v, key_child(n, k), limit)
}

/// [`skips_within`] for each element counted from the one at `i`, which is
/// element `idx` of its array.
pub open spec fn elements_skip_within(acts: Seq<Action>, b: Seq<u8>, i: int, idx: nat, n: Node, limit: nat) -> bool {
    forall|t: nat, v: int| #[trigger] element_at(b, i, t, v) ==> skips_within(acts, b, v, element_child(n, idx + t), limit)
}

/// The value the walk validates whole at `v` itself nests within `limit`.
proof fn lemma_skips_here(acts: Seq<Action>, b: Seq<u8>, v: int, child: Option<Node>, limit: nat)
    requires
        skips_within(acts, b, v, child, limit),
        skipped_at(acts, child, b, v),
    ensures
        value_spec(b, v, limit) is Ok,
{
    let q = Seq::<Elem>::empty();
    assert(at_path(b, v, q, v));
    if let Some(c) = child {
        assert(resolve(c, q) == Some(c));
    }
    assert(child_resolve(child, q) == child);
}

/// From an object walked with node `n` to its members.
proof fn lemma_members_skip(acts: Seq<Action>, b: Seq<u8>, pos: int, n: Node, limit: nat)
    requires
        0 <= pos < b.len(),
        b[pos] == 0x7B,
        skips_within(acts, b, pos, Some(n), limit),
    ensures
        members_skip_within(acts, b, ws_end(b, pos + 1), n, limit),
{
    assert forall|t: nat, k: Seq<char>, v: int| #[trigger] member_at(b, ws_end(b, pos + 1), t, k, v)
        implies skips_within(acts, b, v, key_child(n, k), limit) by {
        assert forall|q: Seq<Elem>, w: int| #[trigger] at_path(b, v, q, w) && skipped_at(acts, child_resolve(key_child(n, k), q), b, w)
            implies value_spec(b, w, limit) is Ok by {
            let q2 = seq![Elem::Member(k)] + q;
            assert(q2[0] == Elem::Member(k));
            assert(q2.drop_first() =~= q);
            assert(step_to(b, pos, q2[0], v));
            assert(at_path(b, pos, q2, w));
            assert(resolve(n, q2) == child_resolve(key_child(n, k), q));
            assert(child_resolve(Some(n), q2) == resolve(n, q2));
        }
    }
}

/// From an array walked with node `n` to its elements.
proof fn lemma_elements_skip(acts: Seq<Action>, b: Seq<u8>, pos: int, n: Node, limit: nat)
    requires
        0 <= pos < b.len(),
        b[pos] == 0x5B,
        at(b, ws_end(b, pos + 1)) != Some(0x5Du8),
        skips_within(acts, b, pos, Some(n), limit),
    ensures
        elements_skip_within(acts, b, ws_end(b, pos + 1), 0, n, limit),
{
    assert forall|t: nat, v: int| #[trigger] element_at(b, ws_end(b, pos + 1), t, v)
        implies skips_within(acts, b, v, element_child(n, 0 + t), limit) by {
        assert forall|q: Seq<Elem>, w: int| #[trigger] at_path(b, v, q, w) && skipped_at(acts, child_resolve(element_child(n, 0 + t), q), b, w)
            implies value_spec(b, w, limit) is Ok by {
            let q2 = seq![Elem::Element(t)] + q;
            assert(q2[0] == Elem::Element(t));
            assert(q2.drop_first() =~= q);
            assert(step_to(b, pos, q2[0], v));
            assert(at_path(b, pos, q2, w));
            assert(resolve(n, q2) == child_resolve(element_child(n, t), q));
            assert(child_resolve(Some(n), q2) == resolve(n, q2));
        }
    }
}

proof fn lemma_scan_value_accepts(acts: Seq<Action>, b: Seq<u8>, pos: int, n: Node, limit: nat, st: Progress, p: Seq<bool>, big: nat)
    requires
        0 <= pos <= b.len(),
        value_from(b, pos, p, big) is Ok,
        p.len() <= big,
        skips_within(acts, b, pos, Some(n), limit),
    ensures
        scan_value(acts, b, pos, n, limit, st) matches Err(x) ==> x is NumberOutOfRange,
    decreases b.len() + 2 - pos, 2int,
{
    let c = b[pos];
    if c == 0x7B && walks_object(acts, n) {
        lemma_walk_object_accepts(acts, b, pos, n, limit, st, p, big);
    } else if c == 0x5B && walks_array(acts, n) {
        lemma_walk_array_accepts(acts, b, pos, n, limit, st, p, big);
    } else if c != 0x22 {
        lemma_skips_here(acts, b, pos, Some(n), limit);
    }
}

proof fn lemma_walk_value_accepts(acts: Seq<Action>, b: Seq<u8>, pos: int, n: Node, limit: nat, st: Progress, p: Seq<bool>, big: nat)
    requires
        0 <= pos <= b.len(),
        value_from(b, pos, p, big) is Ok,
        p.len() <= big,
        skips_within(acts, b, pos, Some(n), limit),
    ensures
        walk_value(acts, b, pos, n, limit, st) matches Err(x) ==> x is NumberOutOfRange,
        walk_value(acts, b, pos, n, limit, st) matches Ok((e, _)) ==> value_from(b, pos, p, big) == after_value(b, e, p, big),
    decreases b.len() + 2 - pos, 3int,
{
    lemma_scan_value_accepts(acts, b, pos, n, limit, st, p, big);
    if let Ok((e, st1, escaped, kids)) = scan_value(acts, b, pos, n, limit, st) {
        lemma_run_actions_errs(acts, n.actions@, n.actions@.len() as int, b, pos, e, escaped, kids, st1);
    }
    if walk_value(acts, b, pos, n, limit, st) is Ok {
        lemma_walk_value_ends(acts, b, pos, n, limit, st);
        lemma_end_agrees(b, pos, walk_value(acts, b, pos, n, limit, st)->Ok_0.0, p, big);
    }
}

proof fn lemma_item_value_accepts(acts: Seq<Action>, b: Seq<u8>, v: int, child: Option<Node>, limit: nat, st: Progress, p: Seq<bool>, big: nat)
    requires
        0 <= v <= b.len(),
        value_from(b, v, p, big) is Ok,
        p.len() <= big,
        skips_within(acts, b, v, child, limit),
    ensures
        item_value(acts, b, v, child, limit, st) matches Err(x) ==> x is NumberOutOfRange,
        item_value(acts, b, v, child, limit, st) matches Ok((e, _)) ==> value_from(b, v, p, big) == after_value(b, e, p, big),
    decreases b.len() + 2 - v, 4int,
{
    match child {
        Some(c) => lemma_walk_value_accepts(acts, b, v, c, limit, st, p, big),
        None => {
            lemma_skips_here(acts, b, v, child, limit);
            let e = value_spec(b, v, limit)->Ok_0;
            assert(value_spec(b, v, limit) == Ok::<int, MatchError>(e));
            lemma_end_agrees(b, v, e, p, big);
        },
    }
}

proof fn lemma_member_step_accepts(acts: Seq<Action>, b: Seq<u8>, i: int, n: Node, limit: nat, st: Progress, p: Seq<bool>, big: nat)
    requires
        0 <= i <= b.len(),
        key_colon_spec(b, i) is Ok,
        value_from(b, key_colon_spec(b, i)->Ok_0, p.push(true), big) is Ok,
        p.len() + 1 <= big,
        members_skip_within(acts, b, i, n, limit),
    ensures
        member_step(acts, b, i, n, limit, st) matches Err(x) ==> x is NumberOutOfRange,
        member_step(acts, b, i, n, limit, st) matches Ok((nx, more, _, _)) ==> {
            &&& i < nx <= b.len()
            &&& more ==> next_item(b, key_colon_spec(b, i)->Ok_0, 0x7D, nx)
            &&& more ==> key_colon_spec(b, nx) is Ok
                && value_from(b, key_colon_spec(b, i)->Ok_0, p.push(true), big)
                    == value_from(b, key_colon_spec(b, nx)->Ok_0, p.push(true), big)
            &&& !more ==> value_from(b, key_colon_spec(b, i)->Ok_0, p.push(true), big) == after_value(b, nx, p, big)
        },
    decreases b.len() + 2 - i, 5int,
{
    lemma_key_step_bounds(b, i, n);
    let (v, child) = key_step(b, i, n)->Ok_0;
    assert(key_colon_spec(b, i) == Ok::<int, MatchError>(v));
    assert(member_at(b, i, 0, key_at(b, i), v));
    assert(child == key_child(n, key_at(b, i)));
    let p1 = p.push(true);
    lemma_item_value_accepts(acts, b, v, child, limit, st, p1, big);
    if let Ok((e1, _)) = item_value(acts, b, v, child, limit, st) {
        lemma_item_value_found_end(acts, b, v, child, limit, st);
        lemma_value_end_after(b, v, e1);
        let r = after_value(b, e1, p1, big);
        assert(r is Ok);
        assert(0 <= e1 <= b.len());
        lemma_ws_end_bounds(b, e1);
        let j = ws_end(b, e1);
        assert(p1.last() == true);
        assert(p1.drop_last() =~= p);
        lemma_after_item_bounds(b, e1, 0x7D);
        if let Ok((nx, more)) = after_item(b, e1, 0x7D) {
            if more {
                assert(after_item(b, e1, 0x7D) == Ok::<(int, bool), MatchError>((nx, true)));
                assert(next_item(b, v, 0x7D, nx));
            }
        }
        if b[j] == 0x2C {
            lemma_ws_end_bounds(b, j + 1);
            lemma_key_colon_bounds(b, ws_end(b, j + 1));
            assert(r == value_from(b, key_colon_spec(b, ws_end(b, j + 1))->Ok_0, p1, big));
        } else {
            assert(r == after_value(b, j + 1, p, big));
        }
    }
}

proof fn lemma_walk_members_accepts(
    acts: Seq<Action>, b: Seq<u8>, i: int, n: Node, limit: nat, st: Progress, kids: Seq<Option<Node>>, p: Seq<bool>, big: nat,
)
    requires
        0 <= i <= b.len(),
        key_colon_spec(b, i) is Ok,
        value_from(b, key_colon_spec(b, i)->Ok_0, p.push(true), big) is Ok,
        p.len() + 1 <= big,
        members_skip_within(acts, b, i, n, limit),
    ensures
        walk_members(acts, b, i, n, limit, st, kids) matches Err(x) ==> x is NumberOutOfRange,
    decreases b.len() + 2 - i, 6int,
{
    lemma_member_step_accepts(acts, b, i, n, limit, st, p, big);
    if let Ok((nx, more, st1, child)) = member_step(acts, b, i, n, limit, st) {
        if more {
            assert forall|t: nat, k: Seq<char>, v: int| #[trigger] member_at(b, nx, t, k, v)
                implies skips_within(acts, b, v, key_child(n, k), limit) by {
                lemma_member_next(b, i, nx, t, k, v);
            }
            lemma_walk_members_accepts(acts, b, nx, n, limit, st1, kids.push(child), p, big);
        }
    }
}

proof fn lemma_walk_object_accepts(acts: Seq<Action>, b: Seq<u8>, pos: int, n: Node, limit: nat, st: Progress, p: Seq<bool>, big: nat)
    requires
        0 <= pos < b.len(),
        b[pos] == 0x7B,
        value_from(b, pos, p, big) is Ok,
        p.len() <= big,
        skips_within(acts, b, pos, Some(n), limit),
    ensures
        walk_object(acts, b, pos, n, limit, st) matches Err(x) ==> x is NumberOutOfRange,
    decreases b.len() + 2 - pos, 1int,
{
    lemma_ws_end_bounds(b, pos + 1);
    let j = ws_end(b, pos + 1);
    if b[j] != 0x7D {
        lemma_key_colon_bounds(b, j);
        lemma_members_skip(acts, b, pos, n, limit);
        lemma_walk_members_accepts(acts, b, j, n, limit, st, Seq::empty(), p, big);
    }
}

proof fn lemma_element_step_accepts(
    acts: Seq<Action>, b: Seq<u8>, i: int, idx: nat, n: Node, limit: nat, st: Progress, p: Seq<bool>, big: nat,
)
    requires
        0 <= i <= b.len(),
        value_from(b, i, p.push(false), big) is Ok,
        p.len() + 1 <= big,
        elements_skip_within(acts, b, i, idx, n, limit),
    ensures
        element_step(acts, b, i, idx, n, limit, st) matches Err(x) ==> x is NumberOutOfRange,
        element_step(acts, b, i, idx, n, limit, st) matches Ok((nx, more, _)) ==> {
            &&& i < nx <= b.len()
            &&& more ==> next_item(b, i, 0x5D, nx)
            &&& more ==> value_from(b, i, p.push(false), big) == value_from(b, nx, p.push(false), big)
            &&& !more ==> value_from(b, i, p.push(false), big) == after_value(b, nx, p, big)
        },
    decreases b.len() + 2 - i, 5int,
{
    let p0 = p.push(false);
    assert(element_at(b, i, 0, i));
    assert(idx + 0 == idx);
    lemma_item_value_accepts(acts, b, i, element_child(n, idx), limit, st, p0, big);
    if let Ok((e1, _)) = item_value(acts, b, i, element_child(n, idx), limit, st) {
        lemma_item_value_found_end(acts, b, i, element_child(n, idx), limit, st);
        lemma_value_end_after(b, i, e1);
        let r = after_value(b, e1, p0, big);
        assert(r is Ok);
        assert(0 <= e1 <= b.len());
        lemma_ws_end_bounds(b, e1);
        let j = ws_end(b, e1);
        assert(p0.last() == false);
        assert(p0.drop_last() =~= p);
        lemma_after_item_bounds(b, e1, 0x5D);
        if let Ok((nx, more)) = after_item(b, e1, 0x5D) {
            if more {
                assert(after_item(b, e1, 0x5D) == Ok::<(int, bool), MatchError>((nx, true)));
                assert(next_item(b, i, 0x5D, nx));
            }
        }
        if b[j] == 0x2C {
            lemma_ws_end_bounds(b, j + 1);
            assert(r == value_from(b, ws_end(b, j + 1), p0, big));
        } else {
            assert(r == after_value(b, j + 1, p, big));
        }
    }
}

proof fn lemma_walk_elements_accepts(
    acts: Seq<Action>, b: Seq<u8>, i: int, idx: nat, n: Node, limit: nat, st: Progress, kids: Seq<Option<Node>>,
    p: Seq<bool>, big: nat,
)
    requires
        0 <= i <= b.len(),
        value_from(b, i, p.push(false), big) is Ok,
        p.len() + 1 <= big,
        elements_skip_within(acts, b, i, idx, n, limit),
    ensures
        walk_elements(acts, b, i, idx, n, limit, st, kids) matches Err(x) ==> x is NumberOutOfRange,
    decreases b.len() + 2 - i, 6int,
{
    lemma_element_step_accepts(acts, b, i, idx, n, limit, st, p, big);
    if let Ok((nx, more, st1)) = element_step(acts, b, i, idx, n, limit, st) {
        if more {
            assert forall|t: nat, v: int| #[trigger] element_at(b, nx, t, v)
                implies skips_within(acts, b, v, element_child(n, (idx + 1) + t), limit) by {
                lemma_element_next(b, i, nx, t, v);
                assert(idx + (t + 1) == (idx + 1) + t);
            }
            lemma_walk_elements_accepts(acts, b, nx, idx + 1, n, limit, st1, kids.push(element_child(n, idx)), p, big);
        }
    }
}

proof fn lemma_walk_array_accepts(acts: Seq<Action>, b: Seq<u8>, pos: int, n: Node, limit: nat, st: Progress, p: Seq<bool>, big: nat)
    requires
        0 <= pos < b.len(),
        b[pos] == 0x5B,
        value_from(b, pos, p, big) is Ok,
        p.len() <= big,
        skips_within(acts, b, pos, Some(n), limit),
    ensures
        walk_array(acts, b, pos, n, limit, st) matches Err(x) ==> x is NumberOutOfRange,
    decreases b.len() + 2 - pos, 1int,
{
    lemma_ws_end_bounds(b, pos + 1);
    let j = ws_end(b, pos + 1);
    if b[j] != 0x5D {
        lemma_elements_skip(acts, b, pos, n, limit);
        lemma_walk_elements_accepts(acts, b, j, 0, n, limit, st, Seq::empty(), p, big);
    }
}

/// JSON is accepted. An input that is one JSON value ([`json_value`], at
/// any depth) surrounded by whitespace is matched without error whatever the
/// patterns, when each value the match validates whole (outside the
/// pattern's paths) nests no deeper than the depth limit: nesting along the
/// pattern's paths does not count. The one error left is a captured number
/// beyond the finite `f64` range.
pub proof fn lemma_json_input_is_accepted(acts: Seq<Action>, root: Node, captures: nat, b: Seq<u8>, limit: nat, depth: nat)
    requires
        json_value(b, ws_end(b, 0), depth) is Some,
        ws_end(b, json_value(b, ws_end(b, 0), depth)->Some_0) == b.len(),
        skips_within(acts, b, ws_end(b, 0), Some(root), limit),
        b.len() <= u32::MAX,
    ensures
        match_input(acts, root, captures, b, limit) matches Err(x) ==> x is NumberOutOfRange,
{
    lemma_ws_end_bounds(b, 0);
    let pos = ws_end(b, 0);
    lemma_validation_is_grammar(b, pos, depth);
    let st0 = fresh(acts.len(), captures);
    lemma_walk_value_accepts(acts, b, pos, root, limit, st0, Seq::empty(), depth);
}

} // verus!
