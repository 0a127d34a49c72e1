//! The compiled machine, the state one match runs in, and its result.

use vstd::prelude::*;
use vstd::string::StringSliceAdditionalSpecFns;
use vstd::utf8::{decode_utf8, encode_utf8, encode_utf8_decode_utf8, encode_utf8_valid_utf8, valid_utf8};
use crate::types::{
    CaptureCallbackArgs, FieldType, CaptureModel, CaptureValue, CompileError, FieldPattern, MachineCaptureIndex, MatchError, Pattern,
    Range, SetCaptureIndex, StrModel, UnescapedString, slot_view, captures_fit, model_fits,
};
use crate::bits::{Bits, MAX_BITS, bits_of};
use crate::trie::{
    Elem, Node, Step, actions_at, height_le, insert_path, lemma_empty_height, lemma_empty_wf, lemma_node_at_resolves,
    merge_wildcards, node_at, path_matches, pattern_has, resolve, resolve_has, steps_of, wf_node, normalizes,
    lemma_resolve_concat, lemma_resolve_node_at, lemma_path_matches_split, lemma_some_path, some_path,
};
use crate::patterns::{
    Slot, slots_of, check_sets, compile_failure, count_set, field_slots, flat_fields, ids_with, is_skipped_name, lemma_count_set_concat,
    lemma_count_set_uniform, lemma_flat_prefix, lemma_flat_take, lemma_ids_push, lemma_ids_with, lemma_named_groups_mono,
    lemma_named_groups_take, lemma_slots_prefix, lemma_slots_push, lemma_slots_sets, named_groups, path_steps, pred_groups,
    sets_error, lemma_done_prefix, lemma_flat_index, set_fields,
};
use crate::predicate::{Predicate, names_view, regex_captures, regex_group_names};
use crate::lex::{number_text, at, input_ok, is_digit, number_spec, peek, peek_spec, skip_ws, string_spec, validate_string, ws_end, lemma_ws_end_bounds, lemma_string_from_bounds};
use crate::validate::{ends_ascii, lemma_value_ends_ascii, validate_value, value_spec, value_from, after_value};
use crate::unescape::{decode_content, unescape_from};
use crate::text::{lemma_ascii_boundary, lemma_boundary_in_slice, str_slice, string_clear};
use crate::number::literal_overflows;
use crate::scan::{
    Action, Progress, action_step, covered, decoded, group_capture, haystack, node_ok, run_actions, satisfy,
    type_matches, value_capture, write_groups, content_start, has_exhaustive, violated_ok, lemma_node_ok_unfold,
    walk_value, walk_object, walk_members, walk_array, walk_elements, walks_object, walks_array, key_child,
    element_child, lemma_children_ok, lookup_key, node_has_exhaustive, note_member, find_index, scan_value,
    item_value, member_key, after_item_exec, key_child_at, member_step, element_step, lemma_walk_value_unfold,
    lemma_scan_value_unfold, lemma_item_value_unfold, lemma_member_step_unfold, lemma_walk_members_unfold,
    lemma_walk_object_unfold, lemma_element_step_unfold, lemma_walk_elements_unfold, lemma_walk_array_unfold,
    match_input, set_matched, fresh, owns, one_owner, slots_below, at_path, value_ends, accepted, offered_below, takes,
    members_covered, lemma_satisfied_fields_were_found, lemma_offered_fields_are_satisfied, found_at, capture_held,
    capture_of, value_slot, extends, lemma_value_types, lemma_value_content_utf8, lemma_group_capture_meaning, str_text, span_text, distinct_slots, groups_held, group_span, escapes_at, lemma_first_satisfying_wins, subtree_has_set, node_has_set, member_at, element_at,
};
use crate::predicate::spans_in;
use vstd::std_specs::iter::IteratorSpec;

verus! {

/// Container nesting accepted by default in regions the pattern skips.
pub const DEFAULT_DEPTH_LIMIT: usize = 128;

/// Patterns compiled into one trie, matched against a document in one pass.
#[derive(Debug)]
pub struct MatchMachine {
    captures_length: u32,
    set_count: u32,
    root: Node,
    /// Every field of every set, by global field id.
    actions: Vec<Action>,
}

/// What a match found: the capture slots and whether each set matched.
#[derive(Debug)]
pub struct MachineResult {
    capture_values: Vec<Option<CaptureValue>>,
    match_results: Bits,
}

/// Everything one match needs, allocated once per machine and reused.
#[derive(Debug)]
pub struct MachineState {
    pub result: MachineResult,
    satisfied: Bits,
    unescape_buf: String,
    /// One bit per open container while validating skipped regions
    /// (object or array); its length is the nesting depth limit.
    bracket_stack: Bits,
}

/// A field whose set and capture slots exist in the machine.
pub open spec fn action_ok(a: Action, sets: nat, captures: nat) -> bool {
    &&& a.set_index < sets
    &&& a.value_capture matches Some(c) ==> c < captures
    &&& forall|g: int| 0 <= g < a.predicate_groups@.len() ==> (#[trigger] a.predicate_groups@[g]).1 < captures
}

impl MatchMachine {
    /// Every field, by global field id.
    pub closed spec fn spec_actions(&self) -> Seq<Action> {
        self.actions@
    }

    /// The trie the document is matched against.
    pub closed spec fn spec_root(&self) -> Node {
        self.root
    }

    pub closed spec fn spec_set_count(&self) -> nat {
        self.set_count as nat
    }

    pub closed spec fn spec_capture_count(&self) -> nat {
        self.captures_length as nat
    }

    /// What compiling establishes: field ids, sets and capture slots in the
    /// trie and in the fields all exist.
    pub closed spec fn wf(&self) -> bool {
        &&& node_ok(self.actions@, self.root)
        &&& self.actions@.len() <= u32::MAX
        &&& forall|f: int| 0 <= f < self.actions@.len() ==> #[trigger] action_ok(self.actions@[f], self.set_count as nat, self.captures_length as nat)
    }

    /// The number of match sets.
    pub fn num_match_sets(&self) -> (r: u32)
        ensures
            r == self.spec_set_count(),
    {
        self.set_count
    }

    /// The number of capture slots over all sets.
    pub fn num_captures(&self) -> (r: u32)
        ensures
            r == self.spec_capture_count(),
    {
        self.captures_length
    }

    /// A fresh state for matching with this machine: nothing captured, no
    /// set matched, and the default depth limit.
    pub fn allocate_state(&self) -> (r: MachineState)
        requires
            self.spec_actions().len() <= MAX_BITS,
            self.spec_set_count() <= MAX_BITS,
        ensures
            r.fits(self),
            r.spec_depth_limit() == DEFAULT_DEPTH_LIMIT,
            r.spec_result().spec_captures() == Seq::new(self.spec_capture_count(), |_i: int| None::<CaptureModel>),
            r.spec_result().spec_matches() == Seq::new(self.spec_set_count(), |_i: int| false),
    {
        let n = self.captures_length as usize;
        let mut capture_values: Vec<Option<CaptureValue>> = Vec::new();
        let mut i: usize = 0;
        while i < n
            invariant
                i <= n,
                capture_values@.len() == i,
                forall|k: int| 0 <= k < i ==> capture_values@[k] is None,
            decreases n - i,
        {
            capture_values.push(None);
            i = i + 1;
        }
        let r = MachineState {
            result: MachineResult { capture_values, match_results: Bits::new(self.set_count as usize) },
            satisfied: Bits::new(self.actions.len()),
            unescape_buf: String::new(),
            bracket_stack: Bits::new(DEFAULT_DEPTH_LIMIT),
        };
        assert(r.spec_result().spec_captures() =~= Seq::new(self.spec_capture_count(), |_i: int| None::<CaptureModel>));
        r
    }
}

impl MachineResult {
    /// The capture slots, by machine capture index.
    pub closed spec fn spec_captures(&self) -> Seq<Option<CaptureModel>> {
        self.capture_values@.map_values(|c: Option<CaptureValue>| slot_view(c))
    }

    /// Whether each set matched, by set index.
    pub closed spec fn spec_matches(&self) -> Seq<bool> {
        bits_of(self.match_results)
    }

    /// Whether set `set_index` matched.
    pub fn did_match(&self, set_index: u32) -> (r: bool)
        requires
            set_index < self.spec_matches().len(),
        ensures
            r == self.spec_matches()[set_index as int],
    {
        self.match_results.get(set_index as usize)
    }

    /// One bit per set: whether it matched.
    pub fn match_results(&self) -> (r: &Bits)
        ensures
            bits_of(*r) == self.spec_matches(),
    {
        &self.match_results
    }

    /// The indices of the sets that matched, in increasing order.
    pub fn matches(&self) -> (r: Vec<u32>)
        requires
            self.spec_matches().len() <= u32::MAX,
        ensures
            forall|k: int| 0 <= k < r@.len() ==> #[trigger] r@[k] < self.spec_matches().len(),
            forall|k: int| 0 <= k < r@.len() ==> self.spec_matches()[#[trigger] r@[k] as int],
            forall|k: int, l: int| 0 <= k < l < r@.len() ==> r@[k] < r@[l],
            forall|i: int| 0 <= i < self.spec_matches().len() && self.spec_matches()[i]
                ==> r@.contains(i as u32),
    {
        self.match_results.ones()
    }

    /// The value captured in slot `machine_capture_index`, if any.
    pub fn capture(&self, machine_capture_index: MachineCaptureIndex) -> (r: Option<&CaptureValue>)
        requires
            machine_capture_index.spec_value() < self.spec_captures().len(),
        ensures
            slot_view(match r {
                Some(v) => Some(*v),
                None => None,
            }) == self.spec_captures()[machine_capture_index.spec_value() as int],
    {
        self.capture_values[machine_capture_index.get() as usize].as_ref()
    }

    /// Every capture slot, by machine capture index.
    pub fn captures(&self) -> (r: &[Option<CaptureValue>])
        ensures
            r@.map_values(|c: Option<CaptureValue>| slot_view(c)) == self.spec_captures(),
    {
        self.capture_values.as_slice()
    }
}

impl MachineState {
    pub closed spec fn spec_result(&self) -> MachineResult {
        self.result
    }

    pub closed spec fn spec_depth_limit(&self) -> nat {
        bits_of(self.bracket_stack).len()
    }

    pub closed spec fn spec_satisfied(&self) -> Seq<bool> {
        bits_of(self.satisfied)
    }

    /// What the state records of a match: satisfied fields and captures.
    pub closed spec fn progress(&self) -> Progress {
        Progress { sat: bits_of(self.satisfied), caps: self.result.spec_captures() }
    }

    /// The state has a slot for every field, capture and set of `m`.
    pub closed spec fn fits(&self, m: &MatchMachine) -> bool {
        &&& bits_of(self.satisfied).len() == m.actions@.len()
        &&& self.result.capture_values@.len() == m.captures_length
        &&& bits_of(self.result.match_results).len() == m.set_count
    }

    /// What the last match established: the captures and the sets matched.
    pub fn result(&self) -> (r: &MachineResult)
        ensures
            *r == self.spec_result(),
    {
        &self.result
    }

    /// Maximum container nesting depth accepted while validating regions the
    /// pattern does not descend into. Nesting along matched paths is bounded
    /// by the compiled pattern instead and does not count against this limit.
    pub fn depth_limit(&self) -> (r: usize)
        ensures
            r == self.spec_depth_limit(),
    {
        self.bracket_stack.len()
    }

    pub fn set_depth_limit(&mut self, limit: usize)
        requires
            limit <= MAX_BITS,
        ensures
            final(self).spec_depth_limit() == limit,
            final(self).spec_result() == old(self).spec_result(),
            final(self).progress() == old(self).progress(),
            forall|m: &MatchMachine| old(self).fits(m) ==> final(self).fits(m),
    {
        self.bracket_stack = Bits::new(limit);
    }
}

/// An executable result agrees with a spec result and the state it left.
pub open spec fn agrees(r: Result<(), MatchError>, s: Result<Progress, MatchError>, p: Progress) -> bool {
    match (r, s) {
        (Ok(_), Ok(st)) => p == st,
        (Err(x), Err(y)) => x == y,
        _ => false,
    }
}

/// An executable walk agrees with a spec walk and the state it left.
pub open spec fn agrees_walk(r: Result<u64, MatchError>, s: Result<(int, Progress), MatchError>, p: Progress) -> bool {
    match (r, s) {
        (Ok(e), Ok((e2, st))) => e == e2 && p == st,
        (Err(x), Err(y)) => x == y,
        _ => false,
    }
}

/// An executable container walk agrees with a spec walk, the state it left
/// and the exhaustiveness it recorded.
pub open spec fn agrees_container(
    r: Result<u64, MatchError>,
    s: Result<(int, Progress, Seq<Option<Node>>), MatchError>,
    p: Progress,
    has_exh: bool,
    v: Seq<bool>,
    acts: Seq<Action>,
    n: Node,
) -> bool {
    match (r, s) {
        (Ok(e), Ok((e2, st, kids))) => e == e2 && p == st && (has_exh ==> violated_ok(v, acts, n, kids)),
        (Err(x), Err(y)) => x == y,
        _ => false,
    }
}

/// The requirements on a value span `b[s..e]` whose fields are being tried.
pub open spec fn span_ok(b: Seq<u8>, s: int, e: int, escaped: bool) -> bool {
    &&& 0 <= s < e <= b.len()
    &&& (b[s] == 0x7B || b[s] == 0x5B || b[s] == 0x22 || b[s] == 0x74 || b[s] == 0x66 || b[s] == 0x6E
        || b[s] == 0x2D || is_digit(b[s]))
    &&& ends_ascii(b, e)
    &&& b[s] == 0x22 ==> string_spec(b, s) == Ok::<(int, bool), MatchError>((e, escaped))
    &&& b[s] != 0x22 ==> !escaped
    &&& (b[s] == 0x2D || is_digit(b[s])) ==> number_spec(b, s) == Ok::<int, MatchError>(e)
}

/// The decoding buffer holds the content of the string value `b[s..e]`.
pub open spec fn buf_holds(buf: Seq<char>, b: Seq<u8>, s: int, e: int) -> bool {
    buf == unescape_from(b, s + 1, e - 1)
}

/// The capture slots seen through [`CaptureValue`]'s view.
pub open spec fn caps_view(caps: Seq<Option<CaptureValue>>) -> Seq<Option<CaptureModel>> {
    caps.map_values(|c: Option<CaptureValue>| slot_view(c))
}

/// Writes the spans a predicate's capturing groups matched in `hay` (the
/// haystack of the value `b[s..e]`, held in `buf` when it was decoded).
fn store_groups(
    groups: &Vec<(usize, u32)>,
    spans: &Vec<Option<(usize, usize)>>,
    b: &[u8],
    s: u64,
    e: u64,
    escaped: bool,
    buf: &String,
    caps: &mut Vec<Option<CaptureValue>>,
    Ghost(hay): Ghost<Seq<char>>,
)
    requires
        input_ok(b@),
        span_ok(b@, s as int, e as int, escaped),
        hay == haystack(b@, s as int, e as int, escaped),
        decoded(b@, s as int, escaped) ==> buf@ == hay,
        !decoded(b@, s as int, escaped) ==> encode_utf8(hay) == b@.subrange(
            content_start(b@, s as int),
            if b@[s as int] == 0x22 { e - 1 } else { e as int },
        ),
        spans_in(spans@, encode_utf8(hay)),
        forall|g: int| 0 <= g < groups@.len() ==> (#[trigger] groups@[g]).1 < old(caps)@.len(),
        valid_utf8(b@),
        captures_fit(caps_view(old(caps)@), b@),
    ensures
        captures_fit(caps_view(final(caps)@), b@),
        final(caps)@.len() == old(caps)@.len(),
        caps_view(final(caps)@) == write_groups(groups@, spans@, groups@.len() as int, b@, s as int, e as int, escaped, caps_view(old(caps)@)),
{
    let first = b[s as usize];
    let use_buf = first == 0x22 && escaped;
    let cs: u64 = if first == 0x22 { s + 1 } else { s };
    proof {
        if first == 0x22 {
            crate::lex::lemma_string_from_bounds(b@, s + 1, false);
        }
    }
    let mut k: usize = 0;
    while k < groups.len()
        invariant
            k <= groups@.len(),
            caps@.len() == old(caps)@.len(),
            input_ok(b@),
            span_ok(b@, s as int, e as int, escaped),
            hay == haystack(b@, s as int, e as int, escaped),
            use_buf == decoded(b@, s as int, escaped),
            cs == content_start(b@, s as int),
            use_buf ==> buf@ == hay,
            !use_buf ==> encode_utf8(hay) == b@.subrange(cs as int, if b@[s as int] == 0x22 { e - 1 } else { e as int }),
            first == b@[s as int],
            first == 0x22 ==> s + 1 < e,
            spans_in(spans@, encode_utf8(hay)),
            forall|g: int| 0 <= g < groups@.len() ==> (#[trigger] groups@[g]).1 < old(caps)@.len(),
            caps_view(caps@) == write_groups(groups@, spans@, k as int, b@, s as int, e as int, escaped, caps_view(old(caps)@)),
            valid_utf8(b@),
            captures_fit(caps_view(caps@), b@),
        decreases groups@.len() - k,
    {
        let (g, c) = groups[k];
        let span: Option<(usize, usize)> = if g < spans.len() { spans[g] } else { None };
        let v: Option<CaptureValue> = match span {
            None => None,
            Some((gs, ge)) => {
                proof { assert(spans@[g as int] matches Some((x, y)) && x == gs && y == ge); }
                if use_buf {
                    let slice = str_slice(buf.as_str(), gs, ge);
                    let owned = slice.to_owned();
                    proof {
                        encode_utf8_decode_utf8(slice@);
                    }
                    Some(CaptureValue::PredicateCapture(UnescapedString::Owned(owned)))
                } else {
                    proof {
                        let ce = if b@[s as int] == 0x22 { e - 1 } else { e as int };
                        assert(gs <= ge <= encode_utf8(hay).len());
                        assert(encode_utf8(hay).len() == ce - cs);
                        lemma_ascii_boundary(b@, s as int);
                        lemma_ascii_boundary(b@, e - 1);
                        encode_utf8_valid_utf8(hay);
                        lemma_boundary_in_slice(b@, cs as int, ce, gs as int);
                        lemma_boundary_in_slice(b@, cs as int, ce, ge as int);
                    }
                    Some(CaptureValue::PredicateCapture(UnescapedString::Borrowed(Range {
                        start: (cs + gs as u64) as u32,
                        end: (cs + ge as u64) as u32,
                    })))
                }
            },
        };
        proof {
            assert(slot_view(v) == group_capture(b@, s as int, e as int, escaped, span));
        }
        let ghost before = caps@;
        caps.set(c as usize, v);
        proof {
            assert(caps_view(caps@) =~= caps_view(before).update(c as int, slot_view(v)));
            assert(slot_view(v) matches Some(m) ==> model_fits(m, b@));
        }
        k = k + 1;
    }
}

/// A capture name seen as characters.
pub open spec fn name_view(n: Option<&str>) -> Option<Seq<char>> {
    match n {
        Some(x) => Some(x@),
        None => None,
    }
}

/// The callback record of the capture slot `slot`, machine index `k`.
pub open spec fn record_for(r: CaptureCallbackArgs, slot: Slot, k: int) -> bool {
    &&& r.match_set_index == slot.0
    &&& r.field_index == slot.1
    &&& r.capture_index_in_set.spec_value() == slot.2
    &&& r.capture_index_in_machine.spec_value() == k
    &&& name_view(r.predicate_capture_name) == slot.3
}

/// A predicate seen as its source pattern.
pub open spec fn pred_view(p: Option<Predicate>) -> Option<Seq<char>> {
    match p {
        Some(q) => Some(q@),
        None => None,
    }
}

/// The compiled form of field `x` (set, index, pattern) whose first capture
/// slot is `base`.
pub open spec fn action_for(a: Action, x: (int, int, FieldPattern), base: int) -> bool {
    let f = x.2;
    let groups = pred_groups(f.predicate);
    let first = base + if f.capture { 1int } else { 0int };
    &&& a.set_index == x.0
    &&& a.field_type == f.field_type
    &&& a.exhaustive == f.exhaustive
    &&& pred_view(a.predicate) == pred_view(f.predicate)
    &&& a.value_capture == (if f.capture { Some(base as u32) } else { None })
    &&& a.predicate_groups@.len() == groups.len()
    &&& forall|k: int| 0 <= k < groups.len() ==> #[trigger] a.predicate_groups@[k] == (groups[k].0 as usize, (first + k) as u32)
}

/// What compiling the sets states of the machine: one field per field of
/// every set in order, each with its slots; and each concrete document path
/// resolves to exactly the fields whose pattern path accepts it.
pub open spec fn compiled_from(m: MatchMachine, sets: Seq<Pattern>) -> bool {
    let ff = flat_fields(sets);
    &&& m.wf()
    &&& m.spec_set_count() == sets.len()
    &&& m.spec_capture_count() == slots_of(ff).len()
    &&& m.spec_actions().len() == ff.len()
    &&& forall|f: int| 0 <= f < ff.len() ==> #[trigger] action_for(m.spec_actions()[f], ff[f], slots_of(ff.take(f)).len() as int)
    &&& forall|q: Seq<Elem>, f: u32| #[trigger] resolve_has(m.spec_root(), q, f)
        <==> (f < ff.len() && path_matches(path_steps(ff[f as int].2), q))
}

/// The callback records of a compile, one per capture slot in slot order.
pub open spec fn records_of(recs: Seq<CaptureCallbackArgs>, sets: Seq<Pattern>) -> bool {
    let slots = slots_of(flat_fields(sets));
    &&& recs.len() == slots.len()
    &&& forall|k: int| 0 <= k < recs.len() ==> #[trigger] record_for(recs[k], slots[k], k)
}

/// The slots a compiled field owns lie in its own range of slots.
proof fn lemma_owned_range(a: Action, x: (int, int, FieldPattern), base: int, k: int)
    requires
        action_for(a, x, base),
        owns(a, k),
        0 <= base,
        base + field_slots(x.2).len() <= u32::MAX,
    ensures
        base <= k < base + field_slots(x.2).len(),
{
    let groups = pred_groups(x.2.predicate);
    assert(field_slots(x.2).len() == (if x.2.capture { 1int } else { 0int }) + groups.len());
    if !(a.value_capture matches Some(c) && c == k) {
        let g = choose|g: int| 0 <= g < a.predicate_groups@.len() && (#[trigger] a.predicate_groups@[g]).1 == k;
        assert(a.predicate_groups@[g] == (groups[g].0 as usize, (base + (if x.2.capture { 1int } else { 0int }) + g) as u32));
    }
}

/// The fields before `f` and `f` itself own no more slots than the fields before `g > f`.
proof fn lemma_slot_bases(ff: Seq<(int, int, FieldPattern)>, f: int, g: int)
    requires
        0 <= f < g <= ff.len(),
    ensures
        slots_of(ff.take(f)).len() + field_slots(ff[f].2).len() <= slots_of(ff.take(g)).len(),
{
    assert(ff.take(f + 1).drop_last() =~= ff.take(f));
    assert(ff.take(f + 1).last() == ff[f]);
    assert(ff.take(g).take(f + 1) =~= ff.take(f + 1));
    lemma_slots_prefix(ff.take(g), f + 1);
}

/// In a compiled machine no capture slot is shared: each belongs to at
/// most one field.
pub proof fn lemma_compiled_slots_have_one_owner(m: MatchMachine, sets: Seq<Pattern>)
    requires
        compiled_from(m, sets),
    ensures
        one_owner(m.spec_actions()),
{
    let acts = m.spec_actions();
    let ff = flat_fields(sets);
    assert forall|f1: int, f2: int, k: int| 0 <= f1 < acts.len() && 0 <= f2 < acts.len()
        && #[trigger] owns(acts[f1], k) && #[trigger] owns(acts[f2], k) implies f1 == f2 by {
        let b1 = slots_of(ff.take(f1)).len() as int;
        let b2 = slots_of(ff.take(f2)).len() as int;
        assert(action_for(acts[f1], ff[f1], b1));
        assert(action_for(acts[f2], ff[f2], b2));
        assert(ff.take(ff.len() as int) =~= ff);
        lemma_slot_bases(ff, f1, ff.len() as int);
        lemma_slot_bases(ff, f2, ff.len() as int);
        lemma_owned_range(acts[f1], ff[f1], b1, k);
        lemma_owned_range(acts[f2], ff[f2], b2, k);
        if f1 < f2 {
            lemma_slot_bases(ff, f1, f2);
        } else if f2 < f1 {
            lemma_slot_bases(ff, f2, f1);
        }
    }
}

/// Some field of set `s` has a pattern path that passes through the
/// concrete path `q`: a prefix of it accepts `q`.
pub open spec fn set_passes(sets: Seq<Pattern>, s: int, q: Seq<Elem>) -> bool {
    exists|f: int| 0 <= f < flat_fields(sets).len() && (#[trigger] flat_fields(sets)[f]).0 == s
        && path_steps(flat_fields(sets)[f].2).len() >= q.len()
        && path_matches(path_steps(flat_fields(sets)[f].2).take(q.len() as int), q)
}

/// Every member or element of the container at `v`, which sits at concrete
/// path `q`, lies on the pattern path of some field of set `s`.
pub open spec fn doc_covered(sets: Seq<Pattern>, b: Seq<u8>, v: int, q: Seq<Elem>, s: int) -> bool {
    &&& b[v] == 0x7B ==> forall|j: nat, k: Seq<char>, u: int| #[trigger] member_at(b, ws_end(b, v + 1), j, k, u)
        ==> set_passes(sets, s, q.push(Elem::Member(k)))
    &&& b[v] == 0x5B ==> forall|j: nat, u: int| at(b, ws_end(b, v + 1)) != Some(0x5Du8) && #[trigger] element_at(b, ws_end(b, v + 1), j, u)
        ==> set_passes(sets, s, q.push(Elem::Element(j)))
}

/// The document offers field `f` of the sets a value: at a concrete path
/// that the field's pattern path accepts, of the field's type, passing its
/// predicate, and, for an exhaustive field, whose members or elements each
/// lie on the pattern path of some field of the same set.
pub open spec fn offers(sets: Seq<Pattern>, b: Seq<u8>, f: int) -> bool {
    let x = flat_fields(sets)[f];
    exists|q: Seq<Elem>, v: int, e: int|
        #![trigger at_path(b, ws_end(b, 0), q, v), value_ends(b, v, e)]
        at_path(b, ws_end(b, 0), q, v) && value_ends(b, v, e) && path_matches(path_steps(x.2), q)
            && accepted(x.2.field_type, x.2.predicate, b, v, e)
            && (x.2.exhaustive ==> doc_covered(sets, b, v, q, x.0))
}

/// In a compiled machine, the child that one more concrete step `x` leads to
/// from the node of `q` holds a field of set `s` below it exactly when some
/// field of set `s` has a pattern path through `q` and `x`.
proof fn lemma_child_covers(m: MatchMachine, sets: Seq<Pattern>, q: Seq<Elem>, x: Elem, s: u32)
    requires
        compiled_from(m, sets),
        resolve(m.spec_root(), q) is Some,
    ensures
        (resolve(resolve(m.spec_root(), q)->Some_0, seq![x]) matches Some(c) && subtree_has_set(m.spec_actions(), c, s))
            <==> set_passes(sets, s as int, q.push(x)),
{
    let root = m.spec_root();
    let acts = m.spec_actions();
    let ff = flat_fields(sets);
    let n = resolve(root, q)->Some_0;
    let qx = q.push(x);
    assert(qx =~= q + seq![x]);
    lemma_resolve_concat(root, q, seq![x]);
    let child = resolve(n, seq![x]);
    if let Some(c) = child {
        if subtree_has_set(acts, c, s) {
        let p = choose|p: Seq<Step>| #[trigger] node_at(c, p) is Some && node_has_set(acts, node_at(c, p)->Some_0, s);
        let m2 = node_at(c, p)->Some_0;
        let j = choose|j: int| 0 <= j < m2.actions@.len() && acts[#[trigger] m2.actions@[j] as int].set_index == s;
        let f = m2.actions@[j];
        let q2 = lemma_node_at_resolves(c, p);
        lemma_resolve_concat(root, qx, q2);
        assert(resolve(root, qx + q2) == Some(m2));
        assert(m2.actions@.contains(f));
        assert(resolve_has(root, qx + q2, f));
        let pf = path_steps(ff[f as int].2);
        assert(path_matches(pf, qx + q2));
        lemma_path_matches_split(pf, qx + q2, qx.len() as int);
        assert((qx + q2).take(qx.len() as int) =~= qx);
        assert(action_for(acts[f as int], ff[f as int], slots_of(ff.take(f as int)).len() as int));
        assert(set_passes(sets, s as int, qx));
        }
    }
    if set_passes(sets, s as int, qx) {
        let f = choose|f: int| 0 <= f < ff.len() && (#[trigger] ff[f]).0 == s as int
            && path_steps(ff[f].2).len() >= qx.len()
            && path_matches(path_steps(ff[f].2).take(qx.len() as int), qx);
        let pf = path_steps(ff[f].2);
        let q2 = some_path(pf.skip(qx.len() as int));
        lemma_some_path(pf.skip(qx.len() as int));
        let full = qx + q2;
        assert(full.take(qx.len() as int) =~= qx);
        assert(full.skip(qx.len() as int) =~= q2);
        lemma_path_matches_split(pf, full, qx.len() as int);
        assert(m.spec_actions().len() <= u32::MAX);
        assert(resolve_has(root, full, f as u32));
        lemma_resolve_concat(root, qx, q2);
        let c = child->Some_0;
        let m2 = resolve(c, q2)->Some_0;
        let p = lemma_resolve_node_at(c, q2);
        let j = choose|j: int| 0 <= j < m2.actions@.len() && m2.actions@[j] == f as u32;
        assert(action_for(acts[f], ff[f], slots_of(ff.take(f)).len() as int));
        assert(acts[m2.actions@[j] as int].set_index == s);
        assert(node_has_set(acts, m2, s));
        assert(node_at(c, p) is Some && node_has_set(acts, node_at(c, p)->Some_0, s));
        assert(subtree_has_set(acts, c, s));
    }
}

/// A value's exhaustiveness, judged by the trie, is judged the same by the
/// patterns: its members and elements lead to parts of the trie that hold a
/// field of the set exactly when they lie on the path of one.
proof fn lemma_doc_covered(m: MatchMachine, sets: Seq<Pattern>, b: Seq<u8>, v: int, q: Seq<Elem>, s: u32)
    requires
        compiled_from(m, sets),
        resolve(m.spec_root(), q) is Some,
    ensures
        members_covered(m.spec_actions(), b, v, resolve(m.spec_root(), q)->Some_0, s) <==> doc_covered(sets, b, v, q, s as int),
{
    let n = resolve(m.spec_root(), q)->Some_0;
    let acts = m.spec_actions();
    let j0 = ws_end(b, v + 1);
    assert forall|k: Seq<char>| (key_child(n, k) matches Some(c) && subtree_has_set(acts, c, s))
        <==> set_passes(sets, s as int, q.push(Elem::Member(k))) by {
        lemma_child_covers(m, sets, q, Elem::Member(k), s);
        let one = seq![Elem::Member(k)];
        assert(one[0] == Elem::Member(k));
        assert(one.drop_first() =~= Seq::<Elem>::empty());
        reveal_with_fuel(resolve, 2);
        assert(resolve(n, one) == key_child(n, k));
    }
    assert forall|j: nat| (element_child(n, j) matches Some(c) && subtree_has_set(acts, c, s))
        <==> set_passes(sets, s as int, q.push(Elem::Element(j))) by {
        lemma_child_covers(m, sets, q, Elem::Element(j), s);
        let one = seq![Elem::Element(j)];
        assert(one[0] == Elem::Element(j));
        assert(one.drop_first() =~= Seq::<Elem>::empty());
        reveal_with_fuel(resolve, 2);
        assert(resolve(n, one) == element_child(n, j));
    }
}

/// What a match means. After a successful match, a field is satisfied
/// exactly when the document offers it (see [`offers`]); so a set matches
/// exactly when the document offers every one of its fields.
pub proof fn lemma_match_meaning(m: MatchMachine, sets: Seq<Pattern>, b: Seq<u8>, limit: nat)
    requires
        compiled_from(m, sets),
    ensures
        match_input(m.spec_actions(), m.spec_root(), m.spec_capture_count(), b, limit) matches Ok(st)
            ==> forall|f: int| 0 <= f < m.spec_actions().len() ==> (#[trigger] st.sat[f] <==> offers(sets, b, f)),
{
    let acts = m.spec_actions();
    let ff = flat_fields(sets);
    let pos = ws_end(b, 0);
    let root = m.spec_root();
    assert forall|f: int| 0 <= f < acts.len() implies #[trigger] slots_below(acts[f], m.spec_capture_count()) by {
        assert(action_ok(acts[f], m.spec_set_count(), m.spec_capture_count()));
    }
    lemma_satisfied_fields_were_found(acts, root, m.spec_capture_count(), b, limit);
    lemma_offered_fields_are_satisfied(acts, root, m.spec_capture_count(), b, limit);
    if let Ok(st) = match_input(acts, root, m.spec_capture_count(), b, limit) {
        assert forall|f: int| 0 <= f < acts.len() implies (#[trigger] st.sat[f] <==> offers(sets, b, f)) by {
            let x = ff[f];
            assert(action_for(acts[f], x, slots_of(ff.take(f)).len() as int));
            assert forall|q: Seq<Elem>, v: int, e: int| at_path(b, pos, q, v) && value_ends(b, v, e)
                implies (takes(acts, b, v, e, resolve(root, q), f) <==> (path_matches(path_steps(x.2), q)
                    && accepted(x.2.field_type, x.2.predicate, b, v, e)
                    && (x.2.exhaustive ==> doc_covered(sets, b, v, q, x.0)))) by {
                assert(resolve_has(root, q, f as u32) <==> path_matches(path_steps(x.2), q));
                assert(accepted(acts[f].field_type, acts[f].predicate, b, v, e) == accepted(x.2.field_type, x.2.predicate, b, v, e));
                if path_matches(path_steps(x.2), q) {
                    lemma_doc_covered(m, sets, b, v, q, acts[f].set_index);
                }
            }
            if st.sat[f] {
                assert(offered_below(acts, b, pos, root, f));
                let (q, v, e) = choose|q: Seq<Elem>, v: int, e: int|
                    #![trigger at_path(b, pos, q, v), value_ends(b, v, e)]
                    at_path(b, pos, q, v) && value_ends(b, v, e) && takes(acts, b, v, e, resolve(root, q), f);
                assert(offers(sets, b, f));
            }
            if offers(sets, b, f) {
                let (q, v, e) = choose|q: Seq<Elem>, v: int, e: int|
                    #![trigger at_path(b, pos, q, v), value_ends(b, v, e)]
                    at_path(b, pos, q, v) && value_ends(b, v, e) && path_matches(path_steps(x.2), q)
                        && accepted(x.2.field_type, x.2.predicate, b, v, e)
                        && (x.2.exhaustive ==> doc_covered(sets, b, v, q, x.0));
                assert(offered_below(acts, b, pos, root, f));
            }
        }
    }
}

/// What a named-group slot holds after a match, read as text. For a
/// satisfied field with a predicate, matched against UTF-8 input, there is a
/// value at a path its pattern accepts on which the predicate matched; each
/// group slot of the field holds nothing exactly when that group took no
/// part in the match, and otherwise the text of the span the match gave it.
pub proof fn lemma_group_slots_hold_group_text(m: MatchMachine, sets: Seq<Pattern>, b: Seq<u8>, limit: nat)
    requires
        compiled_from(m, sets),
        valid_utf8(b),
        b.len() <= u32::MAX,
    ensures
        match_input(m.spec_actions(), m.spec_root(), m.spec_capture_count(), b, limit) matches Ok(st)
            ==> forall|f: int| 0 <= f < m.spec_actions().len() && #[trigger] st.sat[f] && flat_fields(sets)[f].2.predicate is Some
                ==> exists|q: Seq<Elem>, v: int, e: int|
                #![trigger at_path(b, ws_end(b, 0), q, v), value_ends(b, v, e)]
                at_path(b, ws_end(b, 0), q, v) && value_ends(b, v, e) && path_matches(path_steps(flat_fields(sets)[f].2), q)
                    && group_slots_text(flat_fields(sets)[f].2.predicate->Some_0, st.caps,
                        slots_of(flat_fields(sets).take(f)).len() + if flat_fields(sets)[f].2.capture { 1int } else { 0int }, b, v, e),
{
    let pos = ws_end(b, 0);
    let ff = flat_fields(sets);
    lemma_match_captures(m, sets, b, limit);
    if let Ok(st) = match_input(m.spec_actions(), m.spec_root(), m.spec_capture_count(), b, limit) {
        assert forall|f: int| 0 <= f < m.spec_actions().len() && #[trigger] st.sat[f] && ff[f].2.predicate is Some
            implies exists|q: Seq<Elem>, v: int, e: int|
                #![trigger at_path(b, pos, q, v), value_ends(b, v, e)]
                at_path(b, pos, q, v) && value_ends(b, v, e) && path_matches(path_steps(ff[f].2), q)
                    && group_slots_text(ff[f].2.predicate->Some_0, st.caps,
                        slots_of(ff.take(f)).len() + if ff[f].2.capture { 1int } else { 0int }, b, v, e) by {
            let x = ff[f];
            let first = slots_of(ff.take(f)).len() + if x.2.capture { 1int } else { 0int };
            let (q, v, e) = choose|q: Seq<Elem>, v: int, e: int|
                #![trigger at_path(b, pos, q, v), value_ends(b, v, e)]
                at_path(b, pos, q, v) && value_ends(b, v, e) && path_matches(path_steps(x.2), q)
                    && groups_captured(x.2.predicate, st.caps, first, b, v, e);
            let l = choose|l: nat| value_spec(b, v, l) == Ok::<int, MatchError>(e);
            assert(0 <= v);
            lemma_value_content_utf8(b, v, e, l);
            let p = x.2.predicate->Some_0;
            let hay = haystack(b, v, e, escapes_at(b, v));
            let spans = regex_captures(p@, hay)->Some_0;
            assert forall|g: int| 0 <= g < pred_groups(x.2.predicate).len() implies
                group_slot_text(#[trigger] st.caps[first + g], group_span(spans, pred_groups(x.2.predicate)[g].0 as usize), hay, b) by {
                lemma_group_capture_meaning(b, v, e, escapes_at(b, v), group_span(spans, pred_groups(x.2.predicate)[g].0 as usize));
            }
            assert(group_slots_text(p, st.caps, first, b, v, e));
        }
    }
}

/// One group slot, read as text: nothing exactly when the group has no
/// span, and otherwise the text of its span of the haystack `hay`.
pub open spec fn group_slot_text(slot: Option<CaptureModel>, span: Option<(usize, usize)>, hay: Seq<char>, b: Seq<u8>) -> bool {
    &&& slot is None <==> span is None
    &&& forall|gs: usize, ge: usize| span == Some((gs, ge)) && gs <= ge <= encode_utf8(hay).len()
        ==> (slot matches Some(CaptureModel::PredicateCapture(m)) && str_text(m, b) == span_text(hay, gs as int, ge as int))
}

/// The group slots of predicate `p`, the first at `first`, read as text
/// against the predicate's match on the value `b[v..e]`.
pub open spec fn group_slots_text(p: Predicate, caps: Seq<Option<CaptureModel>>, first: int, b: Seq<u8>, v: int, e: int) -> bool {
    let hay = haystack(b, v, e, escapes_at(b, v));
    regex_captures(p@, hay) matches Some(spans) && forall|g: int| 0 <= g < pred_groups(Some(p)).len()
        ==> group_slot_text(#[trigger] caps[first + g], group_span(spans, pred_groups(Some(p))[g].0 as usize), hay, b)
}

/// The text of a whole value of type `t`: `true` or `false` for `Bool`,
/// `null` for `Null`, a number by the declarative grammar for `Number`, the
/// literal's own bytes for `Literal`, and by its opening byte for objects,
/// arrays and strings.
pub open spec fn type_text(t: FieldType, text: Seq<u8>) -> bool {
    match t {
        FieldType::Object => text.len() > 0 && text[0] == 0x7B,
        FieldType::Array => text.len() > 0 && text[0] == 0x5B,
        FieldType::String => text.len() > 0 && text[0] == 0x22,
        FieldType::Number => number_text(text),
        FieldType::Bool => text == seq![0x74u8, 0x72, 0x75, 0x65] || text == seq![0x66u8, 0x61, 0x6C, 0x73, 0x65],
        FieldType::Null => text == seq![0x6Eu8, 0x75, 0x6C, 0x6C],
        FieldType::Literal(l) => text == encode_utf8(l@),
        FieldType::Any => true,
    }
}

/// A satisfied field was satisfied by a value of its type: after a
/// successful match, each satisfied field has, at a concrete path its
/// pattern path accepts, a value whose text has the field's type (a `Bool`
/// field's value reads `true` or `false`, never `null`).
pub proof fn lemma_satisfied_fields_have_their_type(m: MatchMachine, sets: Seq<Pattern>, b: Seq<u8>, limit: nat)
    requires
        compiled_from(m, sets),
    ensures
        match_input(m.spec_actions(), m.spec_root(), m.spec_capture_count(), b, limit) matches Ok(st)
            ==> forall|f: int| 0 <= f < m.spec_actions().len() && #[trigger] st.sat[f] ==> exists|q: Seq<Elem>, v: int, e: int|
                #![trigger at_path(b, ws_end(b, 0), q, v), value_ends(b, v, e)]
                at_path(b, ws_end(b, 0), q, v) && value_ends(b, v, e) && path_matches(path_steps(flat_fields(sets)[f].2), q)
                    && type_text(flat_fields(sets)[f].2.field_type, b.subrange(v, e)),
{
    let pos = ws_end(b, 0);
    lemma_match_captures(m, sets, b, limit);
    if let Ok(st) = match_input(m.spec_actions(), m.spec_root(), m.spec_capture_count(), b, limit) {
        assert forall|f: int| 0 <= f < m.spec_actions().len() && #[trigger] st.sat[f] implies exists|q: Seq<Elem>, v: int, e: int|
            #![trigger at_path(b, pos, q, v), value_ends(b, v, e)]
            at_path(b, pos, q, v) && value_ends(b, v, e) && path_matches(path_steps(flat_fields(sets)[f].2), q)
                && type_text(flat_fields(sets)[f].2.field_type, b.subrange(v, e)) by {
            let x = flat_fields(sets)[f];
            let (q, v, e) = choose|q: Seq<Elem>, v: int, e: int|
                #![trigger at_path(b, pos, q, v), value_ends(b, v, e)]
                at_path(b, pos, q, v) && value_ends(b, v, e) && path_matches(path_steps(x.2), q)
                    && accepted(x.2.field_type, x.2.predicate, b, v, e);
            let l = choose|l: nat| value_spec(b, v, l) == Ok::<int, MatchError>(e);
            assert(0 <= v);
            lemma_value_types(b, v, e, l);
            lemma_value_ends_ascii(b, v, Seq::empty(), l);
            assert(b.subrange(v, e)[0] == b[v]);
        }
    }
}

/// What the group slots of a field hold, its first group slot at `first`:
/// each group's capture in the match of the field's predicate on the value
/// `b[v..e]` (nothing for a field without a predicate).
pub open spec fn groups_captured(pred: Option<Predicate>, caps: Seq<Option<CaptureModel>>, first: int, b: Seq<u8>, v: int, e: int) -> bool {
    match pred {
        None => true,
        Some(p) => match regex_captures(p@, haystack(b, v, e, escapes_at(b, v))) {
            None => false,
            Some(spans) => forall|g: int| 0 <= g < pred_groups(pred).len() ==> #[trigger] caps[first + g]
                == group_capture(b, v, e, escapes_at(b, v), group_span(spans, pred_groups(pred)[g].0 as usize)),
        },
    }
}

/// What a match captures. After a successful match, the value slot of a
/// capturing field (the first of its slots) holds a value exactly when the
/// field is satisfied. A satisfied field was satisfied by a value that the
/// document offers it (see [`offers`]): its value slot holds that value's
/// capture, and each slot of its predicate's named groups holds what that
/// group captured in the predicate's match on the value.
pub proof fn lemma_match_captures(m: MatchMachine, sets: Seq<Pattern>, b: Seq<u8>, limit: nat)
    requires
        compiled_from(m, sets),
    ensures
        match_input(m.spec_actions(), m.spec_root(), m.spec_capture_count(), b, limit) matches Ok(st)
            ==> forall|f: int| 0 <= f < m.spec_actions().len() ==> {
                let x = flat_fields(sets)[f];
                let c = slots_of(flat_fields(sets).take(f)).len() as int;
                &&& x.2.capture ==> (st.caps[c] is Some <==> #[trigger] st.sat[f])
                &&& st.sat[f] ==> exists|q: Seq<Elem>, v: int, e: int|
                    #![trigger at_path(b, ws_end(b, 0), q, v), value_ends(b, v, e)]
                    at_path(b, ws_end(b, 0), q, v) && value_ends(b, v, e) && path_matches(path_steps(x.2), q)
                        && accepted(x.2.field_type, x.2.predicate, b, v, e)
                        && (x.2.exhaustive ==> doc_covered(sets, b, v, q, x.0))
                        && (x.2.capture ==> st.caps[c] == capture_of(b, v, e))
                        && groups_captured(x.2.predicate, st.caps, c + if x.2.capture { 1int } else { 0int }, b, v, e)
            },
{
    let acts = m.spec_actions();
    let ff = flat_fields(sets);
    let pos = ws_end(b, 0);
    let root = m.spec_root();
    let caps = m.spec_capture_count();
    assert forall|f: int| 0 <= f < acts.len() implies #[trigger] slots_below(acts[f], caps) by {
        assert(action_ok(acts[f], m.spec_set_count(), caps));
    }
    lemma_compiled_slots_have_one_owner(m, sets);
    lemma_satisfied_fields_were_found(acts, root, caps, b, limit);
    lemma_ws_end_bounds(b, 0);
    lemma_first_satisfying_wins(acts, b, pos, root, limit, fresh(acts.len(), caps));
    if let Ok(st) = match_input(acts, root, caps, b, limit) {
        assert forall|f: int| 0 <= f < acts.len() implies {
            let x = ff[f];
            let c = slots_of(ff.take(f)).len() as int;
            &&& x.2.capture ==> (st.caps[c] is Some <==> #[trigger] st.sat[f])
            &&& st.sat[f] ==> exists|q: Seq<Elem>, v: int, e: int|
                #![trigger at_path(b, pos, q, v), value_ends(b, v, e)]
                at_path(b, pos, q, v) && value_ends(b, v, e) && path_matches(path_steps(x.2), q)
                    && accepted(x.2.field_type, x.2.predicate, b, v, e)
                    && (x.2.exhaustive ==> doc_covered(sets, b, v, q, x.0))
                    && (x.2.capture ==> st.caps[c] == capture_of(b, v, e))
                    && groups_captured(x.2.predicate, st.caps, c + if x.2.capture { 1int } else { 0int }, b, v, e)
        } by {
            let x = ff[f];
            let c = slots_of(ff.take(f)).len() as int;
            let first = c + if x.2.capture { 1int } else { 0int };
            let a = acts[f];
            assert(action_for(a, x, c));
            assert(ff.take(ff.len() as int) =~= ff);
            lemma_slot_bases(ff, f, ff.len() as int);
            assert(slots_below(a, caps));
            assert(distinct_slots(a));
            if x.2.capture {
                assert(field_slots(x.2).len() >= 1);
                assert(a.value_capture == Some(c as u32));
                assert(owns(a, c));
                if st.caps[c] is Some {
                    let f2 = choose|f2: int| 0 <= f2 < acts.len() && !fresh(acts.len(), caps).sat[f2] && st.sat[f2]
                        && #[trigger] owns(acts[f2], c);
                    assert(f2 == f);
                }
            }
            if st.sat[f] {
                let (q, v, e) = choose|q: Seq<Elem>, v: int, e: int|
                    #![trigger at_path(b, pos, q, v), value_ends(b, v, e)]
                    at_path(b, pos, q, v) && value_ends(b, v, e) && takes(acts, b, v, e, resolve(root, q), f)
                        && capture_held(acts, f, st.caps, b, v, e);
                assert(resolve_has(root, q, f as u32) <==> path_matches(path_steps(x.2), q));
                assert(accepted(a.field_type, a.predicate, b, v, e) == accepted(x.2.field_type, x.2.predicate, b, v, e));
                lemma_doc_covered(m, sets, b, v, q, a.set_index);
                assert(groups_held(acts, f, st.caps, b, v, e));
                if let Some(p) = x.2.predicate {
                    let pa = a.predicate.unwrap();
                    assert(pa@ == p@);
                    let spans = regex_captures(p@, haystack(b, v, e, escapes_at(b, v)))->Some_0;
                    assert forall|g: int| 0 <= g < pred_groups(x.2.predicate).len() implies #[trigger] st.caps[first + g]
                        == group_capture(b, v, e, escapes_at(b, v), group_span(spans, pred_groups(x.2.predicate)[g].0 as usize)) by {
                        assert(a.predicate_groups@[g] == (pred_groups(x.2.predicate)[g].0 as usize, (first + g) as u32));
                    }
                }
                assert(groups_captured(x.2.predicate, st.caps, first, b, v, e));
            }
        }
    }
}

fn make_record<'a>(s: u32, j: u32, name: Option<&'a str>, in_set: u32, in_machine: u32) -> (r: CaptureCallbackArgs<'a>)
    requires
        in_set < u32::MAX,
        in_machine < u32::MAX,
    ensures
        r.match_set_index == s,
        r.field_index == j,
        r.predicate_capture_name == name,
        r.capture_index_in_set.spec_value() == in_set,
        r.capture_index_in_machine.spec_value() == in_machine,
{
    CaptureCallbackArgs {
        match_set_index: s,
        field_index: j,
        predicate_capture_name: name,
        capture_index_in_set: SetCaptureIndex::new(in_set).unwrap(),
        capture_index_in_machine: MachineCaptureIndex::new(in_machine).unwrap(),
    }
}

/// Adds field `j` of set `s` after the fields `done`: its path to the trie,
/// its capture slots to the records, its compiled form to the actions.
fn add_field<'a>(
    root: &mut Node,
    actions: &mut Vec<Action>,
    recs: &mut Vec<CaptureCallbackArgs<'a>>,
    s: u32,
    j: u32,
    f: &'a FieldPattern<'a>,
    next_set: &mut u32,
    Ghost(done): Ghost<Seq<(int, int, FieldPattern)>>,
) -> (r: Result<(), CompileError>)
    requires
        old(actions)@.len() == done.len(),
        done.len() < u32::MAX,
        old(recs)@.len() == slots_of(done).len(),
        slots_of(done).len() <= u32::MAX,
        *old(next_set) as int == count_set(slots_of(done), s as int),
        *old(next_set) <= old(recs)@.len(),
        forall|k: int| 0 <= k < old(recs)@.len() ==> #[trigger] record_for(old(recs)@[k], slots_of(done)[k], k),
        forall|g: int| 0 <= g < done.len() ==> #[trigger] action_for(old(actions)@[g], done[g], slots_of(done.take(g)).len() as int),
        wf_node(*old(root)),
        forall|p: Seq<Step>| #[trigger] actions_at(*old(root), p) == ids_with(done, p),
    ensures
        r is Err ==> r == Err::<(), CompileError>(CompileError::TooManyItems)
            && slots_of(done.push((s as int, j as int, *f))).len() > u32::MAX,
        r is Ok ==> final(actions)@.len() == done.push((s as int, j as int, *f)).len(),
        r is Ok ==> final(recs)@.len() == slots_of(done.push((s as int, j as int, *f))).len(),
        r is Ok ==> slots_of(done.push((s as int, j as int, *f))).len() <= u32::MAX,
        r is Ok ==> *final(next_set) as int == count_set(slots_of(done.push((s as int, j as int, *f))), s as int),
        r is Ok ==> *final(next_set) <= final(recs)@.len(),
        r is Ok ==> forall|k: int| 0 <= k < final(recs)@.len()
            ==> #[trigger] record_for(final(recs)@[k], slots_of(done.push((s as int, j as int, *f)))[k], k),
        r is Ok ==> forall|g: int| 0 <= g < done.len() + 1 ==> #[trigger] action_for(final(actions)@[g],
            done.push((s as int, j as int, *f))[g], slots_of(done.push((s as int, j as int, *f)).take(g)).len() as int),
        r is Ok ==> wf_node(*final(root)),
        r is Ok ==> forall|p: Seq<Step>| #[trigger] actions_at(*final(root), p) == ids_with(done.push((s as int, j as int, *f)), p),
        forall|h: nat| height_le(*old(root), h) && h > f.path@.len() ==> #[trigger] height_le(*final(root), h),
{
    let ghost done2 = done.push((s as int, j as int, *f));
    let ghost slots0 = slots_of(done);
    let ghost base = slots0.len() as int;
    let ghost count0 = count_set(slots0, s as int);
    let ghost fs = field_slots(*f);
    let ghost new_slots = fs.map(|t: int, n: Option<Seq<char>>| (s as int, j as int, count0 + t, n));
    proof {
        lemma_slots_push(done, (s as int, j as int, *f));
        assert(slots_of(done2) == slots0 + new_slots);
        assert(f.path@.skip(0) =~= f.path@);
    }
    let id = actions.len() as u32;
    let ghost root0 = *root;
    insert_path(root, f.path, 0, id);
    proof {
        assert forall|p: Seq<Step>| #[trigger] actions_at(*root, p) == ids_with(done2, p) by {
            lemma_ids_push(done, (s as int, j as int, *f), p);
            if p == path_steps(*f) {
                assert(actions_at(root0, p).push(id) =~= ids_with(done, p) + seq![done.len() as u32]);
            } else {
                assert(ids_with(done, p) + Seq::<u32>::empty() =~= ids_with(done, p));
            }
        }
    }
    let ghost cap: int = if f.capture { 1 } else { 0 };
    let mut value_capture: Option<u32> = None;
    if f.capture {
        if recs.len() >= 0xFFFF_FFFF {
            proof { assert(fs[0] == None::<Seq<char>>); }
            return Err(CompileError::TooManyItems);
        }
        let k = recs.len() as u32;
        proof { assert(fs[0] == None::<Seq<char>>); }
        recs.push(make_record(s, j, None, *next_set, k));
        value_capture = Some(k);
        *next_set = *next_set + 1;
    }
    let mut groups: Vec<(usize, u32)> = Vec::new();
    let ghost pg = pred_groups(f.predicate);
    proof {
        assert(fs == (if f.capture { seq![None::<Seq<char>>] } else { Seq::empty() }) + pg.map_values(|g: (int, Seq<char>)| Some(g.1)));
        assert(fs.len() == cap + pg.len());
    }
    match &f.predicate {
        Some(p) => {
            let names = p.group_names();
            let ghost nv = names_view(names@);
            proof { assert(pg == named_groups(nv)); }
            let mut g: usize = 0;
            while g < names.len()
                invariant
                    g <= names@.len(),
                    nv == names_view(names@),
                    nv.len() == names@.len(),
                    pg == named_groups(nv),
                    fs.len() == cap + pg.len(),
                    forall|t: int| 0 <= t < pg.len() ==> #[trigger] fs[cap + t] == Some(pg[t].1),
                    cap == 0 ==> fs.len() == pg.len(),
                    done2 == done.push((s as int, j as int, *f)),
                    cap == (if f.capture { 1int } else { 0int }),
                    fs == field_slots(*f),
                    count0 == count_set(slots0, s as int),
                    slots0 == slots_of(done),
                    forall|h: nat| height_le(*old(root), h) && h > f.path@.len() ==> #[trigger] height_le(*root, h),
                    wf_node(*root),
                    forall|p: Seq<Step>| #[trigger] actions_at(*root, p) == ids_with(done2, p),
                    recs@.len() <= u32::MAX,
                    slots_of(done2) == slots0 + new_slots,
                    new_slots == fs.map(|t: int, n: Option<Seq<char>>| (s as int, j as int, count0 + t, n)),
                    base == slots0.len(),
                    groups@.len() == named_groups(nv.take(g as int)).len(),
                    forall|k: int| 0 <= k < groups@.len() ==> #[trigger] groups@[k]
                        == (named_groups(nv.take(g as int))[k].0 as usize, (base + cap + k) as u32),
                    recs@.len() == base + cap + groups@.len(),
                    *next_set as int == count0 + cap + groups@.len(),
                    *next_set <= recs@.len(),
                    forall|k: int| 0 <= k < recs@.len() ==> #[trigger] record_for(recs@[k], (slots0 + new_slots)[k], k),
                decreases names@.len() - g,
            {
                proof {
                    lemma_named_groups_take(nv, g as int);
                    lemma_named_groups_mono(nv, g + 1);
                }
                if let Some(name) = names[g] {
                    if !is_skipped_name(name) {
                        let ghost t = cap + groups@.len();
                        proof {
                            assert(nv[g as int] == Some(name@));
                            assert(named_groups(nv.take(g + 1))[groups@.len() as int] == (g as int, name@));
                        }
                        proof {
                            assert(named_groups(nv).take(groups@.len() + 1int) == named_groups(nv.take(g + 1)));
                            assert(pg[groups@.len() as int] == (g as int, name@));
                            assert(pg.len() >= groups@.len() + 1);
                            assert(new_slots.len() == fs.len());
                            assert(slots_of(done2).len() == base + fs.len());
                        }
                        if recs.len() >= 0xFFFF_FFFF {
                            assert(recs@.len() == base + cap + groups@.len());
                            assert(slots_of(done2).len() > u32::MAX);
                            return Err(CompileError::TooManyItems);
                        }
                        let k = recs.len() as u32;
                        proof {
                            assert(k as int == base + cap + groups@.len());
                            assert(slots0.len() == base);
                            assert(k as int - slots0.len() == cap + groups@.len());
                            assert(cap + groups@.len() < new_slots.len());
                            assert((slots0 + new_slots)[k as int] == new_slots[cap + groups@.len()]);
                            assert(fs[cap + groups@.len()] == Some(name@));
                        }
                        recs.push(make_record(s, j, Some(name), *next_set, k));
                        groups.push((g, k));
                        *next_set = *next_set + 1;
                    }
                }
                g = g + 1;
            }
            proof { assert(nv.take(names@.len() as int) =~= nv); }
        },
        None => {},
    }
    let predicate = match &f.predicate {
        Some(p) => Some(p.clone()),
        None => None,
    };
    let ghost old_actions = actions@;
    actions.push(Action {
        set_index: s,
        field_type: f.field_type.clone(),
        predicate,
        predicate_groups: groups,
        value_capture,
        exhaustive: f.exhaustive,
    });
    proof {
        lemma_count_set_concat(slots0, new_slots, s as int);
        lemma_count_set_uniform(new_slots, s as int, s as int);
        assert(groups@.len() == pg.len());
        assert(recs@.len() == slots_of(done2).len());
        assert(*next_set as int == count_set(slots_of(done2), s as int));
        assert forall|g: int| 0 <= g < done2.len() implies #[trigger] action_for(actions@[g], done2[g], slots_of(done2.take(g)).len() as int) by {
            if g < done.len() {
                assert(done2.take(g) =~= done.take(g));
                assert(actions@[g] == old_actions[g]);
            } else {
                assert(done2.take(g) =~= done);
            }
        }
    }
    Ok(())
}

/// The trie and fields built from `sets` make a machine that resolves each
/// concrete path to exactly the fields whose pattern paths accept it.
proof fn lemma_built(orig: Node, fin: Node, actions: Seq<Action>, sets: Seq<Pattern>)
    requires
        actions.len() == flat_fields(sets).len(),
        flat_fields(sets).len() <= u32::MAX,
        slots_of(flat_fields(sets)).len() <= u32::MAX,
        forall|f: int| 0 <= f < actions.len() ==> #[trigger] action_for(actions[f], flat_fields(sets)[f],
            slots_of(flat_fields(sets).take(f)).len() as int),
        forall|p: Seq<Step>| #[trigger] actions_at(orig, p) == ids_with(flat_fields(sets), p),
        normalizes(fin, orig),
        wf_node(fin),
    ensures
        forall|q: Seq<Elem>, f: u32| #[trigger] resolve_has(fin, q, f)
            <==> (f < flat_fields(sets).len() && path_matches(path_steps(flat_fields(sets)[f as int].2), q)),
        node_ok(actions, fin),
        forall|f: int| 0 <= f < actions.len() ==> #[trigger] action_ok(actions[f], sets.len(), slots_of(flat_fields(sets)).len()),
{
    let ff = flat_fields(sets);
    assert forall|q: Seq<Elem>, f: u32| #[trigger] resolve_has(fin, q, f)
        <==> (f < ff.len() && path_matches(path_steps(ff[f as int].2), q)) by {
        assert(resolve_has(fin, q, f) <==> pattern_has(orig, q, f));
        if pattern_has(orig, q, f) {
            let p = choose|p: Seq<Step>| path_matches(p, q) && #[trigger] actions_at(orig, p).contains(f);
            lemma_ids_with(ff, p, f);
        }
        if f < ff.len() && path_matches(path_steps(ff[f as int].2), q) {
            let p = path_steps(ff[f as int].2);
            lemma_ids_with(ff, p, f);
            assert(actions_at(orig, p).contains(f));
        }
    }
    assert forall|p: Seq<Step>| #[trigger] node_at(fin, p) is Some implies forall|j: int|
        0 <= j < node_at(fin, p).unwrap().actions@.len() ==> node_at(fin, p).unwrap().actions@[j] < actions.len() by {
        let q = lemma_node_at_resolves(fin, p);
        let m = node_at(fin, p).unwrap();
        assert forall|j: int| 0 <= j < m.actions@.len() implies m.actions@[j] < actions.len() by {
            assert(m.actions@.contains(m.actions@[j]));
            assert(resolve_has(fin, q, m.actions@[j]));
        }
    }
    assert forall|f: int| 0 <= f < actions.len() implies #[trigger] action_ok(actions[f], sets.len(), slots_of(ff).len()) by {
        let x = ff[f];
        assert(action_for(actions[f], x, slots_of(ff.take(f)).len() as int));
        lemma_flat_index(sets, f);
        lemma_slots_prefix(ff, f + 1);
        assert(ff.take(f + 1) =~= ff.take(f).push(x));
        lemma_slots_push(ff.take(f), x);
        let groups = pred_groups(x.2.predicate);
        assert(field_slots(x.2).len() == (if x.2.capture { 1int } else { 0int }) + groups.len());
    }
}

/// `Iterator::collect` into a `Vec`: every item the iterator yields, in
/// order (it returns only once the iterator is done). That is stated of
/// iterators that keep to the laws of `next`; of any other iterator nothing
/// is stated.
#[verifier::external_body]
fn collect_sets<'a, I: Iterator<Item = Pattern<'a>>>(sets: I) -> (r: Vec<Pattern<'a>>)
    ensures
        sets.obeys_prophetic_iter_laws() ==> r@ == sets.remaining(),
{
    sets.collect()
}

impl MatchMachine {
    /// Tries field `f` on the value `b[s..e]`, whose members resolved to
    /// `kids` (`uncovered` says whether they violate the field's
    /// exhaustiveness).
    fn run_action(
        &self,
        input: &str,
        b: &[u8],
        s: u64,
        e: u64,
        escaped: bool,
        f: u32,
        uncovered: bool,
        Ghost(kids): Ghost<Seq<Option<Node>>>,
        buf_ready: &mut bool,
        state: &mut MachineState,
    ) -> (r: Result<(), MatchError>)
        requires
            self.wf(),
            b@ == input.spec_bytes(),
            input_ok(b@),
            span_ok(b@, s as int, e as int, escaped),
            f < self.spec_actions().len(),
            self.spec_actions()[f as int].exhaustive
                ==> uncovered == !covered(self.spec_actions(), kids, self.spec_actions()[f as int].set_index),
            old(state).fits(self),
            *old(buf_ready) ==> buf_holds(old(state).unescape_buf@, b@, s as int, e as int),
            captures_fit(old(state).progress().caps, b@),
        ensures
            final(state).fits(self),
            final(state).spec_result().spec_matches() == old(state).spec_result().spec_matches(),
            final(state).spec_depth_limit() == old(state).spec_depth_limit(),
            *final(buf_ready) ==> buf_holds(final(state).unescape_buf@, b@, s as int, e as int),
            captures_fit(final(state).progress().caps, b@),
            agrees(r, action_step(self.spec_actions(), f, b@, s as int, e as int, escaped, kids, old(state).progress()), final(state).progress()),
    {
        proof {
            assert(action_ok(self.actions@[f as int], self.set_count as nat, self.captures_length as nat));
            encode_utf8_valid_utf8(input@);
        }
        let a = &self.actions[f as usize];
        if state.satisfied.get(f as usize) {
            return Ok(());
        }
        if !type_matches(&a.field_type, b, s, e) {
            return Ok(());
        }
        if a.exhaustive && uncovered {
            return Ok(());
        }
        let ghost st0 = state.progress();
        if let Some(p) = &a.predicate {
            let first = b[s as usize];
            let use_buf = first == 0x22 && escaped;
            proof {
                if first == 0x22 {
                    crate::lex::lemma_string_from_bounds(b@, s + 1, false);
                }
            }
            let cs: u64 = if first == 0x22 { s + 1 } else { s };
            let ce: u64 = if first == 0x22 { e - 1 } else { e };
            if use_buf && !*buf_ready {
                string_clear(&mut state.unescape_buf);
                decode_content(input, cs, ce, &mut state.unescape_buf);
                *buf_ready = true;
            }
            let ghost hay = haystack(b@, s as int, e as int, escaped);
            let spans = if use_buf {
                let h = state.unescape_buf.as_str();
                proof { assert(h@ == hay); }
                p.captures(h)
            } else {
                proof {
                    lemma_ascii_boundary(b@, s as int);
                    lemma_ascii_boundary(b@, e - 1);
                }
                let h = str_slice(input, cs as usize, ce as usize);
                proof {
                    encode_utf8_decode_utf8(h@);
                    assert(h@ == hay);
                }
                p.captures(h)
            };
            match spans {
                None => {
                    return Ok(());
                },
                Some(spans) => {
                    proof {
                        assert(forall|g: int| 0 <= g < a.predicate_groups@.len() ==> (#[trigger] a.predicate_groups@[g]).1 < state.result.capture_values@.len());
                    }
                    store_groups(&a.predicate_groups, &spans, b, s, e, escaped, &state.unescape_buf,
                        &mut state.result.capture_values, Ghost(hay));
                },
            }
        }
        let ghost st1 = state.progress();
        state.satisfied.set(f as usize, true);
        match a.value_capture {
            None => {
                proof {
                    assert(state.progress().sat =~= st1.sat.update(f as int, true));
                }
                Ok(())
            },
            Some(c) => {
                let v = Self::build_capture(input, b, s, e, escaped, buf_ready, &mut state.unescape_buf)?;
                let ghost before = state.result.capture_values@;
                state.result.capture_values.set(c as usize, Some(v));
                proof {
                    assert(state.progress().sat =~= st1.sat.update(f as int, true));
                    assert(caps_view(state.result.capture_values@) =~= caps_view(before).update(c as int, Some(v@)));
                    assert(captures_fit(state.progress().caps, b@));
                }
                Ok(())
            },
        }
    }

    /// Compiles the match sets the iterator yields, in order, into one
    /// machine. On success the callback is called, in slot order, with the
    /// record of every capture slot: its set, field, group name and indices
    /// (see [`records_of`]; see [`MatchMachine::compile_patterns`] for what
    /// is compiled and why a set of patterns may be refused). The callback
    /// must accept every record.
    pub fn compile<'a>(
        match_sets: impl Iterator<Item = Pattern<'a>>,
        capture_index_callback: impl FnMut(CaptureCallbackArgs<'a>),
    ) -> (r: Result<MatchMachine, CompileError>)
        requires
            forall|a: CaptureCallbackArgs<'a>| call_requires(capture_index_callback, (a,)),
        ensures
            match_sets.obeys_prophetic_iter_laws() ==> match compile_failure(match_sets.remaining()) {
                Some(e) => r == Err::<MatchMachine, CompileError>(e),
                None => r matches Ok(m) && compiled_from(m, match_sets.remaining())
                    && exists|recs: Seq<CaptureCallbackArgs<'a>>| records_of(recs, match_sets.remaining())
                        && forall|k: int| 0 <= k < recs.len() ==> call_ensures(capture_index_callback, (#[trigger] recs[k],), ()),
            },
            exists|sets: Seq<Pattern<'a>>| match #[trigger] compile_failure(sets) {
                Some(e) => r == Err::<MatchMachine, CompileError>(e),
                None => r matches Ok(m) && compiled_from(m, sets)
                    && exists|recs: Seq<CaptureCallbackArgs<'a>>| records_of(recs, sets)
                        && forall|k: int| 0 <= k < recs.len() ==> call_ensures(capture_index_callback, (#[trigger] recs[k],), ()),
            },
    {
        let mut callback = capture_index_callback;
        let sets = collect_sets(match_sets);
        let ghost given = sets@;
        match Self::compile_patterns(&sets) {
            Err(e) => {
                assert(compile_failure(given) == Some(e));
                Err(e)
            },
            Ok((m, recs)) => {
                let mut k: usize = 0;
                while k < recs.len()
                    invariant
                        k <= recs@.len(),
                        callback == capture_index_callback,
                        forall|a: CaptureCallbackArgs<'a>| call_requires(capture_index_callback, (a,)),
                        forall|j: int| 0 <= j < k ==> call_ensures(capture_index_callback, (#[trigger] recs@[j],), ()),
                    decreases recs@.len() - k,
                {
                    callback(recs[k]);
                    k = k + 1;
                }
                assert(compile_failure(given) is None && compiled_from(m, given));
                assert(records_of(recs@, given));
                Ok(m)
            },
        }
    }

    /// Compiles the match sets `sets` into a machine, with the callback
    /// record of every capture slot in slot order. Fails with the first rule
    /// a set breaks (see [`compile_failure`]).
    pub fn compile_patterns<'a>(sets: &[Pattern<'a>]) -> (r: Result<(MatchMachine, Vec<CaptureCallbackArgs<'a>>), CompileError>)
        ensures
            match compile_failure(sets@) {
                Some(e) => r matches Err(x) && x == e,
                None => r matches Ok((m, recs)) && compiled_from(m, sets@) && records_of(recs@, sets@),
            },
    {
        if sets.len() > 0xFFFF_FFFF {
            return Err(CompileError::TooManyItems);
        }
        let mut k: usize = 0;
        while k < sets.len()
            invariant
                k <= sets@.len(),
                forall|t: int| 0 <= t < k ==> (#[trigger] sets@[t]).fields@.len() <= u32::MAX,
            decreases sets@.len() - k,
        {
            if sets[k].fields.len() > 0xFFFF_FFFF {
                return Err(CompileError::TooManyItems);
            }
            k = k + 1;
        }
        if let Some(e) = check_sets(sets) {
            return Err(e);
        }
        let mut root = Node::new();
        proof {
            lemma_empty_wf(root);
            lemma_empty_height(root);
        }
        let mut actions: Vec<Action> = Vec::new();
        let mut recs: Vec<CaptureCallbackArgs<'a>> = Vec::new();
        let ghost mut done: Seq<(int, int, FieldPattern)> = Seq::empty();
        let ghost mut h: nat = 1;
        let mut s: usize = 0;
        proof {
            assert(sets@.take(0) =~= Seq::<Pattern>::empty());
            assert forall|p: Seq<Step>| #[trigger] actions_at(root, p) == ids_with(done, p) by {
                crate::trie::lemma_empty_actions(root, p);
            }
        }
        while s < sets.len()
            invariant
                s <= sets@.len(),
                sets@.len() <= u32::MAX,
                forall|t: int| 0 <= t < sets@.len() ==> (#[trigger] sets@[t]).fields@.len() <= u32::MAX,
                compile_failure(sets@) == (if flat_fields(sets@).len() > u32::MAX || slots_of(flat_fields(sets@)).len() > u32::MAX {
                    Some(CompileError::TooManyItems)
                } else {
                    None
                }),
                done == flat_fields(sets@.take(s as int)),
                actions@.len() == done.len(),
                done.len() <= u32::MAX,
                recs@.len() == slots_of(done).len(),
                slots_of(done).len() <= u32::MAX,
                forall|t: int| 0 <= t < recs@.len() ==> #[trigger] record_for(recs@[t], slots_of(done)[t], t),
                forall|g: int| 0 <= g < done.len() ==> #[trigger] action_for(actions@[g], done[g], slots_of(done.take(g)).len() as int),
                wf_node(root),
                height_le(root, h),
                forall|p: Seq<Step>| #[trigger] actions_at(root, p) == ids_with(done, p),
            decreases sets@.len() - s,
        {
            let fields = sets[s].fields;
            let ghost base_done = done;
            proof {
                lemma_flat_take(sets@, s as int);
                assert forall|i: int| 0 <= i < done.len() implies (#[trigger] done[i]).0 < s by {
                    lemma_flat_index(sets@.take(s as int), i);
                }
                lemma_slots_sets(done, s as int);
                assert(set_fields(sets@, s as int).take(0) =~= Seq::<(int, int, FieldPattern)>::empty());
                assert(done =~= base_done + set_fields(sets@, s as int).take(0));
            }
            let mut next_set: u32 = 0;
            let mut j: usize = 0;
            while j < fields.len()
                invariant
                    s < sets@.len(),
                    fields@ == sets@[s as int].fields@,
                    j <= fields@.len(),
                    sets@.len() <= u32::MAX,
                    fields@.len() <= u32::MAX,
                    compile_failure(sets@) == (if flat_fields(sets@).len() > u32::MAX || slots_of(flat_fields(sets@)).len() > u32::MAX {
                        Some(CompileError::TooManyItems)
                    } else {
                        None
                    }),
                    base_done == flat_fields(sets@.take(s as int)),
                    done == base_done + set_fields(sets@, s as int).take(j as int),
                    actions@.len() == done.len(),
                    done.len() <= u32::MAX,
                    recs@.len() == slots_of(done).len(),
                    slots_of(done).len() <= u32::MAX,
                    next_set as int == count_set(slots_of(done), s as int),
                    next_set <= recs@.len(),
                    forall|t: int| 0 <= t < recs@.len() ==> #[trigger] record_for(recs@[t], slots_of(done)[t], t),
                    forall|g: int| 0 <= g < done.len() ==> #[trigger] action_for(actions@[g], done[g], slots_of(done.take(g)).len() as int),
                    wf_node(root),
                    height_le(root, h),
                    forall|p: Seq<Step>| #[trigger] actions_at(root, p) == ids_with(done, p),
                decreases fields@.len() - j,
            {
                let ghost x = (s as int, j as int, fields@[j as int]);
                proof {
                    lemma_done_prefix(sets@, s as int, j as int);
                    assert(set_fields(sets@, s as int).take(j + 1) =~= set_fields(sets@, s as int).take(j as int).push(x));
                    assert(done.push(x) =~= base_done + set_fields(sets@, s as int).take(j + 1));
                }
                if actions.len() >= 0xFFFF_FFFF {
                    return Err(CompileError::TooManyItems);
                }
                let ghost h2: nat = if h > fields@[j as int].path@.len() { h } else { (fields@[j as int].path@.len() + 1) as nat };
                proof { crate::trie::lemma_height_mono(root, h, h2); }
                let r = add_field(&mut root, &mut actions, &mut recs, s as u32, j as u32, &fields[j], &mut next_set, Ghost(done));
                if r.is_err() {
                    proof {
                        lemma_slots_prefix(flat_fields(sets@), done.len() + 1int);
                    }
                    return Err(CompileError::TooManyItems);
                }
                proof {
                    h = h2;
                    done = done.push(x);
                }
                j = j + 1;
            }
            proof {
                assert(set_fields(sets@, s as int).take(fields@.len() as int) =~= set_fields(sets@, s as int));
            }
            s = s + 1;
        }
        proof {
            assert(sets@.take(sets@.len() as int) =~= sets@);
        }
        let ghost orig = root;
        merge_wildcards(&mut root, Ghost(h));
        proof {
            lemma_built(orig, root, actions@, sets@);
        }
        let m = MatchMachine {
            captures_length: recs.len() as u32,
            set_count: sets.len() as u32,
            root,
            actions,
        };
        Ok((m, recs))
    }

    /// Matches the whole input `string`: one JSON value, surrounded only by
    /// whitespace. Inputs are limited to `u32::MAX` bytes; longer strings are
    /// rejected with [`MatchError::InputTooLong`]. On success the state holds
    /// the satisfied fields, the captures, and whether each set matched (all
    /// of its fields satisfied); nothing of an earlier match remains. An input
    /// that is too long leaves the state untouched; after any other error no
    /// set is reported matched.
    pub fn match_string(&self, string: &str, state: &mut MachineState) -> (r: Result<(), MatchError>)
        requires
            self.wf(),
            old(state).fits(self),
        ensures
            final(state).fits(self),
            final(state).spec_depth_limit() == old(state).spec_depth_limit(),
            match match_input(self.spec_actions(), self.spec_root(), self.spec_capture_count(), string.spec_bytes(),
                old(state).spec_depth_limit()) {
                Ok(st) => {
                    &&& r is Ok
                    &&& final(state).spec_satisfied() == st.sat
                    &&& final(state).spec_result().spec_captures() == st.caps
                    &&& forall|s: int| 0 <= s < self.spec_set_count()
                        ==> #[trigger] final(state).spec_result().spec_matches()[s] == set_matched(self.spec_actions(), st.sat, s)
                },
                Err(x) => r == Err::<(), MatchError>(x),
            },
            r is Ok ==> captures_fit(final(state).spec_result().spec_captures(), string.spec_bytes()),
            string.spec_bytes().len() > u32::MAX ==> *final(state) == *old(state),
            r matches Err(x) && !(x is InputTooLong) ==> forall|s: int| 0 <= s < self.spec_set_count()
                ==> !#[trigger] final(state).spec_result().spec_matches()[s],
            final(state).spec_result().spec_captures().len() == self.spec_capture_count(),
            final(state).spec_result().spec_matches().len() == self.spec_set_count(),
    {
        let b = string.as_bytes();
        if b.len() > 0xFFFF_FFFF {
            return Err(MatchError::InputTooLong { len: b.len() });
        }
        let n = state.result.capture_values.len();
        let mut k: usize = 0;
        while k < n
            invariant
                k <= n,
                n == state.result.capture_values@.len(),
                old(state).fits(self),
                bits_of(state.satisfied) == bits_of(old(state).satisfied),
                state.result.match_results == old(state).result.match_results,
                state.bracket_stack == old(state).bracket_stack,
                b@.len() <= u32::MAX,
                forall|t: int| 0 <= t < k ==> state.result.capture_values@[t] is None,
            decreases n - k,
        {
            state.result.capture_values.set(k, None);
            k = k + 1;
        }
        state.result.match_results.fill(false);
        state.satisfied.fill(false);
        let ghost limit = state.spec_depth_limit();
        proof {
            assert(state.progress().sat =~= fresh(self.actions@.len(), self.captures_length as nat).sat);
            assert(state.progress().caps =~= fresh(self.actions@.len(), self.captures_length as nat).caps);
            assert(captures_fit(state.progress().caps, b@));
        }
        let pos = skip_ws(b, 0);
        let end = self.process_value(string, b, pos, &self.root, state)?;
        let end = skip_ws(b, end);
        if end != b.len() as u64 {
            return Err(MatchError::TrailingData { pos: end as u32 });
        }
        let ghost sat = state.spec_satisfied();
        let ghost caps = state.result.capture_values@;
        state.result.match_results.fill(true);
        let nf = self.actions.len();
        let mut f: usize = 0;
        while f < nf
            invariant
                self.wf(),
                nf == self.actions@.len(),
                f <= nf,
                state.fits(self),
                state.spec_satisfied() == sat,
                state.result.capture_values@ == caps,
                state.spec_depth_limit() == limit,
                captures_fit(state.progress().caps, b@),
                forall|s: int| 0 <= s < self.set_count ==> #[trigger] bits_of(state.result.match_results)[s]
                    == (forall|g: int| 0 <= g < f && self.actions@[g].set_index == s ==> sat[g]),
            decreases nf - f,
        {
            proof { assert(action_ok(self.actions@[f as int], self.set_count as nat, self.captures_length as nat)); }
            if !state.satisfied.get(f) {
                state.result.match_results.set(self.actions[f].set_index as usize, false);
            }
            f = f + 1;
        }
        Ok(())
    }

    /// Matches the value at `pos` against `node`, returning the position
    /// just past it.
    fn process_value(&self, input: &str, b: &[u8], pos: u64, node: &Node, state: &mut MachineState) -> (r: Result<u64, MatchError>)
        requires
            self.wf(),
            b@ == input.spec_bytes(),
            input_ok(b@),
            pos <= b@.len(),
            node_ok(self.spec_actions(), *node),
            old(state).fits(self),
            captures_fit(old(state).progress().caps, b@),
        ensures
            captures_fit(final(state).progress().caps, b@),
            final(state).fits(self),
            final(state).spec_result().spec_matches() == old(state).spec_result().spec_matches(),
            final(state).spec_depth_limit() == old(state).spec_depth_limit(),
            agrees_walk(r, walk_value(self.spec_actions(), b@, pos as int, *node, old(state).spec_depth_limit(),
                old(state).progress()), final(state).progress()),
            r matches Ok(e) ==> pos < e <= b@.len() && ends_ascii(b@, e as int),
        decreases b@.len() + 2 - pos, 3int,
    {
        proof {
            lemma_node_ok_unfold(self.actions@, *node);
        }
        let has_exh = node_has_exhaustive(&self.actions, node);
        let mut violated: Vec<bool> = Vec::new();
        if has_exh {
            let mut k: usize = 0;
            while k < node.actions.len()
                invariant
                    k <= node.actions@.len(),
                    violated@.len() == k,
                    forall|t: int| 0 <= t < k ==> !violated@[t],
                decreases node.actions@.len() - k,
            {
                violated.push(false);
                k = k + 1;
            }
            assert(violated_ok(violated@, self.spec_actions(), *node, Seq::empty()));
        }
        let ghost limit = state.spec_depth_limit();
        let ghost st0 = state.progress();
        proof { lemma_walk_value_unfold(self.spec_actions(), b@, pos as int, *node, limit, st0); }
        let (end, escaped) = self.scan(input, b, pos, node, has_exh, &mut violated, state)?;
        let ghost kids = scan_value(self.spec_actions(), b@, pos as int, *node, limit, st0).unwrap().3;
        let r = self.run_node_actions(input, b, pos, end, escaped, node, has_exh, &violated, Ghost(kids), state);
        match r {
            Ok(()) => Ok(end),
            Err(x) => Err(x),
        }
    }

    /// Scans the value at `pos` against `node`: walks containers the trie
    /// descends into, validates anything else.
    fn scan(
        &self,
        input: &str,
        b: &[u8],
        pos: u64,
        node: &Node,
        has_exh: bool,
        violated: &mut Vec<bool>,
        state: &mut MachineState,
    ) -> (r: Result<(u64, bool), MatchError>)
        requires
            self.wf(),
            b@ == input.spec_bytes(),
            input_ok(b@),
            pos <= b@.len(),
            node_ok(self.spec_actions(), *node),
            has_exh == has_exhaustive(self.spec_actions(), *node),
            has_exh ==> violated_ok(old(violated)@, self.spec_actions(), *node, Seq::empty()),
            old(state).fits(self),
            captures_fit(old(state).progress().caps, b@),
        ensures
            captures_fit(final(state).progress().caps, b@),
            final(state).fits(self),
            final(state).spec_result().spec_matches() == old(state).spec_result().spec_matches(),
            final(state).spec_depth_limit() == old(state).spec_depth_limit(),
            match (r, scan_value(self.spec_actions(), b@, pos as int, *node, old(state).spec_depth_limit(), old(state).progress())) {
                (Ok((e, esc)), Ok((e2, st, esc2, kids))) => e == e2 && esc == esc2 && final(state).progress() == st
                    && (has_exh ==> violated_ok(final(violated)@, self.spec_actions(), *node, kids)),
                (Err(x), Err(y)) => x == y,
                _ => false,
            },
            r matches Ok((e, esc)) ==> span_ok(b@, pos as int, e as int, esc),
        decreases b@.len() + 2 - pos, 2int,
    {
        proof { lemma_scan_value_unfold(self.spec_actions(), b@, pos as int, *node, state.spec_depth_limit(), state.progress()); }
        let first = peek(b, pos)?;
        let ghost limit = state.spec_depth_limit();
        if first == 0x7B && (node.key_children.len() > 0 || has_exh) {
            let e = self.walk_object(input, b, pos, node, has_exh, violated, state)?;
            Ok((e, false))
        } else if first == 0x5B && (node.index_children.len() > 0 || node.any_index_child.is_some() || has_exh) {
            let e = self.walk_array(input, b, pos, node, has_exh, violated, state)?;
            Ok((e, false))
        } else if first == 0x22 {
            let (e, esc) = validate_string(b, pos)?;
            proof {
                lemma_string_from_bounds(b@, pos + 1, false);
                if has_exh {
                    assert(violated_ok(violated@, self.spec_actions(), *node, Seq::empty()));
                }
            }
            Ok((e, esc))
        } else {
            let e = validate_value(b, pos, &mut state.bracket_stack)?;
            proof {
                lemma_value_ends_ascii(b@, pos as int, Seq::empty(), limit);
                if first == 0x2D || is_digit(first) {
                    crate::validate::lemma_value_number(b@, pos as int, limit);
                }
            }
            Ok((e, false))
        }
    }

    /// Matches a member or element at `v` against `child`, or only
    /// validates it when it has none.
    fn item(&self, input: &str, b: &[u8], v: u64, child: Option<&Node>, state: &mut MachineState) -> (r: Result<u64, MatchError>)
        requires
            self.wf(),
            b@ == input.spec_bytes(),
            input_ok(b@),
            v <= b@.len(),
            child matches Some(c) ==> node_ok(self.spec_actions(), *c),
            old(state).fits(self),
            captures_fit(old(state).progress().caps, b@),
        ensures
            captures_fit(final(state).progress().caps, b@),
            final(state).fits(self),
            final(state).spec_result().spec_matches() == old(state).spec_result().spec_matches(),
            final(state).spec_depth_limit() == old(state).spec_depth_limit(),
            agrees_walk(r, item_value(self.spec_actions(), b@, v as int, match child {
                Some(c) => Some(*c),
                None => None,
            }, old(state).spec_depth_limit(), old(state).progress()), final(state).progress()),
            r matches Ok(e) ==> v < e <= b@.len(),
        decreases b@.len() + 2 - v, 4int,
    {
        proof {
            lemma_item_value_unfold(self.spec_actions(), b@, v as int, match child {
                Some(c) => Some(*c),
                None => None,
            }, state.spec_depth_limit(), state.progress());
        }
        match child {
            Some(c) => {
                let r = self.process_value(input, b, v, c, state);
                r
            },
            None => {
                let r = validate_value(b, v, &mut state.bracket_stack);
                proof {
                    assert(state.progress() == old(state).progress());
                }
                r
            },
        }
    }

    /// Walks the object whose `{` is at `pos`, member by member.
    fn walk_object(
        &self,
        input: &str,
        b: &[u8],
        pos: u64,
        node: &Node,
        has_exh: bool,
        violated: &mut Vec<bool>,
        state: &mut MachineState,
    ) -> (r: Result<u64, MatchError>)
        requires
            self.wf(),
            b@ == input.spec_bytes(),
            input_ok(b@),
            pos < b@.len(),
            b@[pos as int] == 0x7B,
            node_ok(self.spec_actions(), *node),
            has_exh == has_exhaustive(self.spec_actions(), *node),
            has_exh ==> violated_ok(old(violated)@, self.spec_actions(), *node, Seq::empty()),
            old(state).fits(self),
            captures_fit(old(state).progress().caps, b@),
        ensures
            captures_fit(final(state).progress().caps, b@),
            final(state).fits(self),
            final(state).spec_result().spec_matches() == old(state).spec_result().spec_matches(),
            final(state).spec_depth_limit() == old(state).spec_depth_limit(),
            agrees_container(r, walk_object(self.spec_actions(), b@, pos as int, *node, old(state).spec_depth_limit(),
                old(state).progress()), final(state).progress(), has_exh, final(violated)@, self.spec_actions(), *node),
            r matches Ok(e) ==> pos < e <= b@.len() && b@[e - 1] == 0x7D,
        decreases b@.len() + 2 - pos, 1int,
    {
        proof { lemma_walk_object_unfold(self.spec_actions(), b@, pos as int, *node, state.spec_depth_limit(), state.progress()); }
        let j = skip_ws(b, pos + 1);
        let d = peek(b, j)?;
        if d == 0x7D {
            return Ok(j + 1);
        }
        let ghost limit = state.spec_depth_limit();
        let ghost whole = walk_object(self.spec_actions(), b@, pos as int, *node, limit, state.progress());
        let ghost mut kids: Seq<Option<Node>> = Seq::empty();
        let mut i = j;
        loop
            invariant
                self.wf(),
                b@ == input.spec_bytes(),
                input_ok(b@),
                node_ok(self.spec_actions(), *node),
                pos < i <= b@.len(),
                state.fits(self),
                state.spec_depth_limit() == limit,
                has_exh == has_exhaustive(self.spec_actions(), *node),
                state.spec_result().spec_matches() == old(state).spec_result().spec_matches(),
                has_exh ==> violated_ok(violated@, self.spec_actions(), *node, kids),
                limit == old(state).spec_depth_limit(),
                whole == walk_object(self.spec_actions(), b@, pos as int, *node, limit, old(state).progress()),
                walk_members(self.spec_actions(), b@, i as int, *node, limit, state.progress(), kids) == whole,
                captures_fit(state.progress().caps, b@),
            decreases b@.len() - i,
        {
            let ghost st_i = state.progress();
            proof {
                lemma_walk_members_unfold(self.spec_actions(), b@, i as int, *node, limit, st_i, kids);
                lemma_member_step_unfold(self.spec_actions(), b@, i as int, *node, limit, st_i);
            }
            let (v, t) = member_key(input, b, i, node, &mut state.unescape_buf)?;
            proof {
                lemma_node_ok_unfold(self.spec_actions(), *node);
                assert(state.progress() == st_i);
            }
            let child: Option<&Node> = match t {
                Some(t) => Some(&node.key_children[t].1),
                None => None,
            };
            let e = self.item(input, b, v, child, state)?;
            if has_exh {
                note_member(&self.actions, node, child, violated, Ghost(kids));
            }
            proof { kids = kids.push(key_child_at(*node, t)); }
            let (nx, more) = after_item_exec(b, e, 0x7D)?;
            if !more {
                return Ok(nx);
            }
            i = nx;
        }
    }

    /// Walks the array whose `[` is at `pos`, element by element.
    fn walk_array(
        &self,
        input: &str,
        b: &[u8],
        pos: u64,
        node: &Node,
        has_exh: bool,
        violated: &mut Vec<bool>,
        state: &mut MachineState,
    ) -> (r: Result<u64, MatchError>)
        requires
            self.wf(),
            b@ == input.spec_bytes(),
            input_ok(b@),
            pos < b@.len(),
            b@[pos as int] == 0x5B,
            node_ok(self.spec_actions(), *node),
            has_exh == has_exhaustive(self.spec_actions(), *node),
            has_exh ==> violated_ok(old(violated)@, self.spec_actions(), *node, Seq::empty()),
            old(state).fits(self),
            captures_fit(old(state).progress().caps, b@),
        ensures
            captures_fit(final(state).progress().caps, b@),
            final(state).fits(self),
            final(state).spec_result().spec_matches() == old(state).spec_result().spec_matches(),
            final(state).spec_depth_limit() == old(state).spec_depth_limit(),
            agrees_container(r, walk_array(self.spec_actions(), b@, pos as int, *node, old(state).spec_depth_limit(),
                old(state).progress()), final(state).progress(), has_exh, final(violated)@, self.spec_actions(), *node),
            r matches Ok(e) ==> pos < e <= b@.len() && b@[e - 1] == 0x5D,
        decreases b@.len() + 2 - pos, 1int,
    {
        proof { lemma_walk_array_unfold(self.spec_actions(), b@, pos as int, *node, state.spec_depth_limit(), state.progress()); }
        let j = skip_ws(b, pos + 1);
        let d = peek(b, j)?;
        if d == 0x5D {
            return Ok(j + 1);
        }
        let ghost limit = state.spec_depth_limit();
        let ghost whole = walk_array(self.spec_actions(), b@, pos as int, *node, limit, state.progress());
        let ghost mut kids: Seq<Option<Node>> = Seq::empty();
        let mut i = j;
        let mut idx: u64 = 0;
        loop
            invariant
                self.wf(),
                b@ == input.spec_bytes(),
                input_ok(b@),
                node_ok(self.spec_actions(), *node),
                pos < i <= b@.len(),
                idx <= i,
                state.fits(self),
                state.spec_depth_limit() == limit,
                has_exh == has_exhaustive(self.spec_actions(), *node),
                state.spec_result().spec_matches() == old(state).spec_result().spec_matches(),
                has_exh ==> violated_ok(violated@, self.spec_actions(), *node, kids),
                limit == old(state).spec_depth_limit(),
                whole == walk_array(self.spec_actions(), b@, pos as int, *node, limit, old(state).progress()),
                walk_elements(self.spec_actions(), b@, i as int, idx as nat, *node, limit, state.progress(), kids) == whole,
                captures_fit(state.progress().caps, b@),
            decreases b@.len() - i,
        {
            proof {
                lemma_walk_elements_unfold(self.spec_actions(), b@, i as int, idx as nat, *node, limit, state.progress(), kids);
                lemma_element_step_unfold(self.spec_actions(), b@, i as int, idx as nat, *node, limit, state.progress());
            }
            let fixed: Option<usize> = if idx <= 0xFFFF { find_index(node, idx as u16) } else { None };
            proof {
                lemma_children_ok(self.spec_actions(), *node, Seq::empty(), idx as nat);
                if idx <= 0xFFFF {
                    crate::trie::lemma_index_pos_found(node.index_children@, idx as u16, 0);
                }
            }
            let child: Option<&Node> = match fixed {
                Some(t) => Some(&node.index_children[t].1),
                None => match &node.any_index_child {
                    Some(c) => Some(&**c),
                    None => None,
                },
            };
            proof {
                assert(element_child(*node, idx as nat) == (match child {
                    Some(c) => Some(*c),
                    None => None,
                }));
            }
            let e = self.item(input, b, i, child, state)?;
            if has_exh {
                note_member(&self.actions, node, child, violated, Ghost(kids));
            }
            proof { kids = kids.push(element_child(*node, idx as nat)); }
            let (nx, more) = after_item_exec(b, e, 0x5D)?;
            if !more {
                return Ok(nx);
            }
            i = nx;
            idx = idx + 1;
        }
    }

    /// Tries the fields of `node`, in order, on the value `b[s..e]`.
    fn run_node_actions(
        &self,
        input: &str,
        b: &[u8],
        s: u64,
        e: u64,
        escaped: bool,
        node: &Node,
        has_exh: bool,
        violated: &Vec<bool>,
        Ghost(kids): Ghost<Seq<Option<Node>>>,
        state: &mut MachineState,
    ) -> (r: Result<(), MatchError>)
        requires
            self.wf(),
            b@ == input.spec_bytes(),
            input_ok(b@),
            span_ok(b@, s as int, e as int, escaped),
            node_ok(self.spec_actions(), *node),
            has_exh == has_exhaustive(self.spec_actions(), *node),
            has_exh ==> violated_ok(violated@, self.spec_actions(), *node, kids),
            old(state).fits(self),
            captures_fit(old(state).progress().caps, b@),
        ensures
            captures_fit(final(state).progress().caps, b@),
            final(state).fits(self),
            final(state).spec_result().spec_matches() == old(state).spec_result().spec_matches(),
            final(state).spec_depth_limit() == old(state).spec_depth_limit(),
            agrees(r, run_actions(self.spec_actions(), node.actions@, node.actions@.len() as int, b@, s as int, e as int,
                escaped, kids, old(state).progress()), final(state).progress()),
    {
        proof { lemma_node_ok_unfold(self.actions@, *node); }
        let mut buf_ready = false;
        let mut j: usize = 0;
        while j < node.actions.len()
            invariant
                self.wf(),
                b@ == input.spec_bytes(),
                input_ok(b@),
                span_ok(b@, s as int, e as int, escaped),
                j <= node.actions@.len(),
                forall|t: int| 0 <= t < node.actions@.len() ==> #[trigger] node.actions@[t] < self.actions@.len(),
                has_exh == has_exhaustive(self.spec_actions(), *node),
                has_exh ==> violated_ok(violated@, self.spec_actions(), *node, kids),
                state.spec_result().spec_matches() == old(state).spec_result().spec_matches(),
                state.fits(self),
                state.spec_depth_limit() == old(state).spec_depth_limit(),
                buf_ready ==> buf_holds(state.unescape_buf@, b@, s as int, e as int),
                run_actions(self.spec_actions(), node.actions@, j as int, b@, s as int, e as int, escaped, kids,
                    old(state).progress()) == Ok::<Progress, MatchError>(state.progress()),
                captures_fit(state.progress().caps, b@),
            decreases node.actions@.len() - j,
        {
            let f = node.actions[j];
            let uncovered = if self.actions[f as usize].exhaustive {
                proof { assert(has_exhaustive(self.spec_actions(), *node)); }
                violated[j]
            } else {
                false
            };
            let r = self.run_action(input, b, s, e, escaped, f, uncovered, Ghost(kids), &mut buf_ready, state);
            if r.is_err() {
                proof {
                    crate::scan::lemma_run_actions_err(self.spec_actions(), node.actions@, j + 1,
                        node.actions@.len() as int, b@, s as int, e as int, escaped, kids, old(state).progress());
                }
                return r;
            }
            j = j + 1;
        }
        Ok(())
    }

    /// The value captured for a field from the value `b[s..e]`.
    fn build_capture(input: &str, b: &[u8], s: u64, e: u64, escaped: bool, buf_ready: &mut bool, buf: &mut String)
        -> (r: Result<CaptureValue, MatchError>)
        requires
            b@ == input.spec_bytes(),
            input_ok(b@),
            span_ok(b@, s as int, e as int, escaped),
            *old(buf_ready) ==> buf_holds(old(buf)@, b@, s as int, e as int),
        ensures
            *final(buf_ready) ==> buf_holds(final(buf)@, b@, s as int, e as int),
            match (r, value_capture(b@, s as int, e as int, escaped)) {
                (Ok(v), Ok(m)) => v@ == m,
                (Err(x), Err(y)) => x == y,
                _ => false,
            },
            r matches Ok(v) ==> model_fits(v@, b@),
    {
        proof {
            encode_utf8_valid_utf8(input@);
            lemma_ascii_boundary(b@, s as int);
            lemma_ascii_boundary(b@, e - 1);
            if b@[s as int] == 0x22 {
                crate::lex::lemma_string_from_bounds(b@, s + 1, false);
            }
        }
        let c = b[s as usize];
        if c == 0x7B {
            Ok(CaptureValue::Object(Range { start: s as u32, end: e as u32 }))
        } else if c == 0x5B {
            Ok(CaptureValue::Array(Range { start: s as u32, end: e as u32 }))
        } else if c == 0x22 {
            if !escaped {
                Ok(CaptureValue::String(UnescapedString::Borrowed(Range { start: (s + 1) as u32, end: (e - 1) as u32 })))
            } else {
                if !*buf_ready {
                    proof { crate::lex::lemma_string_from_bounds(b@, s + 1, false); }
                    string_clear(buf);
                    decode_content(input, s + 1, e - 1, buf);
                    *buf_ready = true;
                }
                Ok(CaptureValue::String(UnescapedString::Owned(buf.clone())))
            }
        } else if c == 0x74 {
            Ok(CaptureValue::Bool(true))
        } else if c == 0x66 {
            Ok(CaptureValue::Bool(false))
        } else if c == 0x6E {
            Ok(CaptureValue::Null)
        } else if literal_overflows(b, s, e) {
            Err(MatchError::NumberOutOfRange { pos: s as u32 })
        } else {
            Ok(CaptureValue::Number(Range { start: s as u32, end: e as u32 }))
        }
    }
}

} // verus!
