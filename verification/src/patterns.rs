//! The rules a set of patterns must follow to compile, and the numbering of
//! the captures it declares.

use vstd::prelude::*;
use vstd::utf8::encode_utf8;
use vstd::string::StringSliceAdditionalSpecFns;
use crate::types::{CompileError, FieldPattern, FieldType, MatchError, PathSegment, Pattern};
use crate::trie::{Step, step_of, steps_of};
use crate::validate::{validate_value, value_spec};
use crate::lex::lift;
use crate::bits::{Bits, MAX_BITS};
use crate::predicate::{Predicate, regex_group_names};

verus! {

/// The pattern steps of a field's path.
pub open spec fn path_steps(f: FieldPattern) -> Seq<Step> {
    steps_of(f.path@)
}

/// `p` is a strict prefix of `q`.
pub open spec fn strict_prefix(p: Seq<Step>, q: Seq<Step>) -> bool {
    p.len() < q.len() && q.take(p.len() as int) == p
}

/// Whether a value of type `t` can have a child at step `s`: objects have
/// members, arrays have elements, `Any` has either, nothing else has children.
pub open spec fn allows_step(t: FieldType, s: Step) -> bool {
    match t {
        FieldType::Object => s is Key,
        FieldType::Array => !(s is Key),
        FieldType::Any => true,
        _ => false,
    }
}

/// Field `f` descends below field `c`, whose type cannot hold that step.
pub open spec fn type_mismatch(c: FieldPattern, f: FieldPattern) -> bool {
    let p = path_steps(c);
    let q = path_steps(f);
    strict_prefix(p, q) && !allows_step(c.field_type, q[p.len() as int])
}

/// Field `f` descends below the exhaustive field `c` through an `AnyIndex`.
pub open spec fn any_under_exhaustive(c: FieldPattern, f: FieldPattern) -> bool {
    let p = path_steps(c);
    let q = path_steps(f);
    c.exhaustive && strict_prefix(p, q) && exists|k: int| p.len() <= k < q.len() && #[trigger] q[k] is Any
}

/// After a shared prefix, one field steps into an object and the other into an array.
pub open spec fn kinds_conflict(a: FieldPattern, c: FieldPattern) -> bool {
    let p = path_steps(a);
    let q = path_steps(c);
    exists|k: int| 0 <= k < p.len() && k < q.len() && p.take(k) == q.take(k)
        && ((#[trigger] p[k]) is Key) != (q[k] is Key)
}

/// The nesting a literal of `n` bytes may have: as deep as it is long, up to
/// the longest bit stack there can be.
pub open spec fn literal_depth(n: nat) -> nat {
    if n <= MAX_BITS { n } else { MAX_BITS as nat }
}

/// A literal's text is exactly one JSON value, without surrounding whitespace.
pub open spec fn literal_text_ok(l: Seq<u8>) -> bool {
    l.len() <= u32::MAX && value_spec(l, 0, literal_depth(l.len())) == Ok::<int, MatchError>(l.len() as int)
}

pub open spec fn literal_ok(t: FieldType) -> bool {
    match t {
        FieldType::Literal(l) => literal_text_ok(encode_utf8(l@)),
        _ => true,
    }
}

/// Only containers (or `Any`) can be exhaustive.
pub open spec fn exhaustive_ok(f: FieldPattern) -> bool {
    !f.exhaustive || f.field_type is Object || f.field_type is Array || f.field_type is Any
}

/// The first error of a single field among fields `j..` of set `s`.
pub open spec fn field_errors(s: u32, fs: Seq<FieldPattern>, j: int) -> Option<CompileError>
    decreases fs.len() - j,
{
    if j < 0 || j >= fs.len() {
        None
    } else if !literal_ok(fs[j].field_type) {
        Some(CompileError::InvalidLiteral { set_index: s, field_index: j as u32 })
    } else if !exhaustive_ok(fs[j]) {
        Some(CompileError::ExhaustiveUnsupportedType { set_index: s, field_index: j as u32 })
    } else {
        field_errors(s, fs, j + 1)
    }
}

/// The error of the ordered pair of fields `(i, j)` of set `s`, if any.
pub open spec fn pair_error(s: u32, fs: Seq<FieldPattern>, i: int, j: int) -> Option<CompileError> {
    if i == j {
        None
    } else if type_mismatch(fs[i], fs[j]) {
        Some(CompileError::ContainerTypeMismatch { set_index: s, container_field_index: i as u32, field_index: j as u32 })
    } else if any_under_exhaustive(fs[i], fs[j]) {
        Some(CompileError::AnyIndexUnderExhaustive { set_index: s, container_field_index: i as u32, field_index: j as u32 })
    } else if i < j && kinds_conflict(fs[i], fs[j]) {
        Some(CompileError::ConflictingContainerKinds { set_index: s, field_index_a: i as u32, field_index_b: j as u32 })
    } else {
        None
    }
}

/// The first pair error among the pairs `(i, j..)`.
pub open spec fn row_errors(s: u32, fs: Seq<FieldPattern>, i: int, j: int) -> Option<CompileError>
    decreases fs.len() - j,
{
    if j < 0 || j >= fs.len() {
        None
    } else {
        match pair_error(s, fs, i, j) {
            Some(e) => Some(e),
            None => row_errors(s, fs, i, j + 1),
        }
    }
}

/// The first pair error among the rows `i..`, in row-major order.
pub open spec fn pair_errors(s: u32, fs: Seq<FieldPattern>, i: int) -> Option<CompileError>
    decreases fs.len() - i,
{
    if i < 0 || i >= fs.len() {
        None
    } else {
        match row_errors(s, fs, i, 0) {
            Some(e) => Some(e),
            None => pair_errors(s, fs, i + 1),
        }
    }
}

/// The first error of set `s`: single-field errors come before pair errors.
pub open spec fn set_error(s: u32, fs: Seq<FieldPattern>) -> Option<CompileError> {
    match field_errors(s, fs, 0) {
        Some(e) => Some(e),
        None => pair_errors(s, fs, 0),
    }
}

/// The first error among the sets `k..`.
pub open spec fn sets_error(sets: Seq<Pattern>, k: int) -> Option<CompileError>
    decreases sets.len() - k,
{
    if k < 0 || k >= sets.len() {
        None
    } else {
        match set_error(k as u32, sets[k].fields@) {
            Some(e) => Some(e),
            None => sets_error(sets, k + 1),
        }
    }
}

/// Whether two path segments are the same step.
pub fn same_step(a: &PathSegment, b: &PathSegment) -> (r: bool)
    ensures
        r == (step_of(*a) == step_of(*b)),
{
    match (a, b) {
        (PathSegment::Key(x), PathSegment::Key(y)) => *x == *y,
        (PathSegment::Index(x), PathSegment::Index(y)) => *x == *y,
        (PathSegment::AnyIndex, PathSegment::AnyIndex) => true,
        _ => false,
    }
}

fn is_key(a: &PathSegment) -> (r: bool)
    ensures
        r == step_of(*a) is Key,
{
    match a {
        PathSegment::Key(_) => true,
        _ => false,
    }
}

/// Whether `p` is a strict prefix of `q`, step by step.
fn is_strict_prefix(p: &[PathSegment], q: &[PathSegment]) -> (r: bool)
    ensures
        r == strict_prefix(steps_of(p@), steps_of(q@)),
{
    if p.len() >= q.len() {
        return false;
    }
    let ghost sp = steps_of(p@);
    let ghost sq = steps_of(q@);
    let mut k: usize = 0;
    while k < p.len()
        invariant
            k <= p@.len() < q@.len(),
            sp == steps_of(p@),
            sq == steps_of(q@),
            forall|t: int| 0 <= t < k ==> sq[t] == sp[t],
        decreases p@.len() - k,
    {
        if !same_step(&p[k], &q[k]) {
            assert(sq.take(sp.len() as int)[k as int] != sp[k as int]);
            return false;
        }
        k = k + 1;
    }
    assert(sq.take(sp.len() as int) =~= sp);
    true
}

fn allows(t: &FieldType, s: &PathSegment) -> (r: bool)
    ensures
        r == allows_step(*t, step_of(*s)),
{
    match t {
        FieldType::Object => is_key(s),
        FieldType::Array => !is_key(s),
        FieldType::Any => true,
        _ => false,
    }
}

fn check_type_mismatch(c: &FieldPattern, f: &FieldPattern) -> (r: bool)
    ensures
        r == type_mismatch(*c, *f),
{
    is_strict_prefix(c.path, f.path) && !allows(&c.field_type, &f.path[c.path.len()])
}

fn check_any_under(c: &FieldPattern, f: &FieldPattern) -> (r: bool)
    ensures
        r == any_under_exhaustive(*c, *f),
{
    if !c.exhaustive || !is_strict_prefix(c.path, f.path) {
        return false;
    }
    let ghost q = path_steps(*f);
    let mut k: usize = c.path.len();
    while k < f.path.len()
        invariant
            c.path@.len() <= k <= f.path@.len(),
            q == path_steps(*f),
            c.exhaustive,
            strict_prefix(path_steps(*c), q),
            forall|t: int| c.path@.len() <= t < k ==> !(#[trigger] q[t] is Any),
        decreases f.path@.len() - k,
    {
        if let PathSegment::AnyIndex = &f.path[k] {
            assert(q[k as int] is Any);
            assert(path_steps(*c).len() <= k < q.len());
            return true;
        }
        k = k + 1;
    }
    false
}

fn check_kinds_conflict(a: &FieldPattern, c: &FieldPattern) -> (r: bool)
    ensures
        r == kinds_conflict(*a, *c),
{
    let ghost p = path_steps(*a);
    let ghost q = path_steps(*c);
    let mut k: usize = 0;
    while k < a.path.len() && k < c.path.len()
        invariant
            k <= a.path@.len(),
            k <= c.path@.len(),
            p == path_steps(*a),
            q == path_steps(*c),
            p.take(k as int) == q.take(k as int),
            forall|t: int| 0 <= t < k ==> (#[trigger] p[t] is Key) == (q[t] is Key),
        decreases a.path@.len() - k,
    {
        if is_key(&a.path[k]) != is_key(&c.path[k]) {
            assert(p.take(k as int) == q.take(k as int) && (p[k as int] is Key) != (q[k as int] is Key));
            return true;
        }
        if !same_step(&a.path[k], &c.path[k]) {
            assert forall|t: int| 0 <= t < p.len() && t < q.len() && p.take(t) == q.take(t)
                implies !(((#[trigger] p[t]) is Key) != (q[t] is Key)) by {
                if t > k {
                    assert(p.take(t)[k as int] == q.take(t)[k as int]);
                }
            }
            return false;
        }
        assert(p.take(k + 1) =~= p.take(k as int).push(p[k as int]));
        assert(q.take(k + 1) =~= q.take(k as int).push(q[k as int]));
        k = k + 1;
    }
    assert forall|t: int| 0 <= t < p.len() && t < q.len() && p.take(t) == q.take(t)
        implies !(((#[trigger] p[t]) is Key) != (q[t] is Key)) by {
        assert(t < k);
    }
    false
}

/// Whether a literal's text is exactly one JSON value.
fn literal_is_value(l: &String) -> (r: bool)
    ensures
        r == literal_text_ok(encode_utf8(l@)),
{
    let b = l.as_str().as_bytes();
    if b.len() > 0xFFFF_FFFF {
        return false;
    }
    let depth = if b.len() <= MAX_BITS { b.len() } else { MAX_BITS };
    let mut stack = Bits::new(depth);
    match validate_value(b, 0, &mut stack) {
        Ok(e) => e == b.len() as u64,
        Err(_) => false,
    }
}

fn check_field(s: u32, fs: &[FieldPattern], j: usize) -> (r: Option<CompileError>)
    requires
        j < fs@.len(),
    ensures
        r == (if !literal_ok(fs@[j as int].field_type) {
            Some(CompileError::InvalidLiteral { set_index: s, field_index: j as u32 })
        } else if !exhaustive_ok(fs@[j as int]) {
            Some(CompileError::ExhaustiveUnsupportedType { set_index: s, field_index: j as u32 })
        } else {
            None::<CompileError>
        }),
{
    let f = &fs[j];
    if let FieldType::Literal(l) = &f.field_type {
        if !literal_is_value(l) {
            return Some(CompileError::InvalidLiteral { set_index: s, field_index: j as u32 });
        }
    }
    let container = match &f.field_type {
        FieldType::Object | FieldType::Array | FieldType::Any => true,
        _ => false,
    };
    if f.exhaustive && !container {
        return Some(CompileError::ExhaustiveUnsupportedType { set_index: s, field_index: j as u32 });
    }
    None
}

fn check_pair(s: u32, fs: &[FieldPattern], i: usize, j: usize) -> (r: Option<CompileError>)
    requires
        i < fs@.len(),
        j < fs@.len(),
    ensures
        r == pair_error(s, fs@, i as int, j as int),
{
    if i == j {
        None
    } else if check_type_mismatch(&fs[i], &fs[j]) {
        Some(CompileError::ContainerTypeMismatch { set_index: s, container_field_index: i as u32, field_index: j as u32 })
    } else if check_any_under(&fs[i], &fs[j]) {
        Some(CompileError::AnyIndexUnderExhaustive { set_index: s, container_field_index: i as u32, field_index: j as u32 })
    } else if i < j && check_kinds_conflict(&fs[i], &fs[j]) {
        Some(CompileError::ConflictingContainerKinds { set_index: s, field_index_a: i as u32, field_index_b: j as u32 })
    } else {
        None
    }
}

/// The first error of set `s` with fields `fs`.
pub fn check_set(s: u32, fs: &[FieldPattern]) -> (r: Option<CompileError>)
    ensures
        r == set_error(s, fs@),
{
    let n = fs.len();
    let mut j: usize = 0;
    while j < n
        invariant
            n == fs@.len(),
            j <= n,
            field_errors(s, fs@, 0) == field_errors(s, fs@, j as int),
        decreases n - j,
    {
        let e = check_field(s, fs, j);
        if e.is_some() {
            return e;
        }
        j = j + 1;
    }
    let mut i: usize = 0;
    while i < n
        invariant
            n == fs@.len(),
            i <= n,
            field_errors(s, fs@, 0) is None,
            pair_errors(s, fs@, 0) == pair_errors(s, fs@, i as int),
        decreases n - i,
    {
        let mut j: usize = 0;
        while j < n
            invariant
                n == fs@.len(),
                i < n,
                j <= n,
                field_errors(s, fs@, 0) is None,
                pair_errors(s, fs@, 0) == pair_errors(s, fs@, i as int),
                row_errors(s, fs@, i as int, 0) == row_errors(s, fs@, i as int, j as int),
            decreases n - j,
        {
            let e = check_pair(s, fs, i, j);
            if e.is_some() {
                return e;
            }
            j = j + 1;
        }
        i = i + 1;
    }
    None
}

/// The first error among all sets, in set order.
pub fn check_sets(sets: &[Pattern]) -> (r: Option<CompileError>)
    requires
        sets@.len() <= u32::MAX + 1,
    ensures
        r == sets_error(sets@, 0),
{
    let n = sets.len();
    let mut k: usize = 0;
    while k < n
        invariant
            n == sets@.len(),
            n <= u32::MAX + 1,
            k <= n,
            sets_error(sets@, 0) == sets_error(sets@, k as int),
        decreases n - k,
    {
        let e = check_set(k as u32, sets[k].fields);
        if e.is_some() {
            return e;
        }
        k = k + 1;
    }
    None
}

/// Group names that start with `_` get no capture slot.
pub open spec fn skipped_name(n: Seq<char>) -> bool {
    n.len() > 0 && n[0] == '_'
}

/// The capturing groups among `names`: (group index, name) for each named
/// group whose name does not start with `_`, in group order.
pub open spec fn named_groups(names: Seq<Option<Seq<char>>>) -> Seq<(int, Seq<char>)>
    decreases names.len(),
{
    if names.len() == 0 {
        Seq::empty()
    } else {
        let rest = named_groups(names.drop_last());
        match names.last() {
            Some(n) => if skipped_name(n) { rest } else { rest.push(((names.len() - 1) as int, n)) },
            None => rest,
        }
    }
}

/// The capturing groups of a field's predicate.
pub open spec fn pred_groups(p: Option<Predicate>) -> Seq<(int, Seq<char>)> {
    match p {
        Some(p) => named_groups(regex_group_names(p@)),
        None => Seq::empty(),
    }
}

/// The capture slots of one field, in order: its value (`None`) when it
/// captures, then each capturing group of its predicate, by name.
pub open spec fn field_slots(f: FieldPattern) -> Seq<Option<Seq<char>>> {
    (if f.capture { seq![None::<Seq<char>>] } else { Seq::empty() })
        + pred_groups(f.predicate).map_values(|g: (int, Seq<char>)| Some(g.1))
}

/// Every field of every set, in order, with its set and field index. A
/// field's position here is its global field id.
pub open spec fn flat_fields(sets: Seq<Pattern>) -> Seq<(int, int, FieldPattern)>
    decreases sets.len(),
{
    if sets.len() == 0 {
        Seq::empty()
    } else {
        let s = sets.len() - 1;
        flat_fields(sets.drop_last()) + sets.last().fields@.map(|j: int, f: FieldPattern| (s as int, j, f))
    }
}

/// A capture slot: (set index, field index, index within the set, group
/// name or `None` for the field's value).
pub type Slot = (int, int, int, Option<Seq<char>>);

/// How many of `slots` belong to set `s`.
pub open spec fn count_set(slots: Seq<Slot>, s: int) -> nat
    decreases slots.len(),
{
    if slots.len() == 0 {
        0
    } else {
        count_set(slots.drop_last(), s) + if slots.last().0 == s { 1nat } else { 0 }
    }
}

/// The capture slots of the fields `ff`, in order. A slot's position is its
/// machine capture index; within its set, slots are numbered from 0 in the
/// same order.
pub open spec fn slots_of(ff: Seq<(int, int, FieldPattern)>) -> Seq<Slot>
    decreases ff.len(),
{
    if ff.len() == 0 {
        Seq::empty()
    } else {
        let prev = slots_of(ff.drop_last());
        let x = ff.last();
        let base = count_set(prev, x.0);
        prev + field_slots(x.2).map(|t: int, n: Option<Seq<char>>| (x.0, x.1, base + t, n))
    }
}

/// The ids (positions) of the fields of `ff` whose path is `p`, in order.
pub open spec fn ids_with(ff: Seq<(int, int, FieldPattern)>, p: Seq<Step>) -> Seq<u32>
    decreases ff.len(),
{
    if ff.len() == 0 {
        Seq::empty()
    } else {
        ids_with(ff.drop_last(), p) + if path_steps(ff.last().2) == p { seq![(ff.len() - 1) as u32] } else { Seq::empty() }
    }
}

/// Why `sets` does not compile, if it does not: more sets or fields per set
/// than `u32` can count; else the first rule a set breaks; else more fields
/// or captures in all than `u32` can count.
pub open spec fn compile_failure(sets: Seq<Pattern>) -> Option<CompileError> {
    if sets.len() > u32::MAX || exists|s: int| 0 <= s < sets.len() && (#[trigger] sets[s]).fields@.len() > u32::MAX {
        Some(CompileError::TooManyItems)
    } else {
        match sets_error(sets, 0) {
            Some(e) => Some(e),
            None => if flat_fields(sets).len() > u32::MAX || slots_of(flat_fields(sets)).len() > u32::MAX {
                Some(CompileError::TooManyItems)
            } else {
                None
            },
        }
    }
}

proof fn lemma_field_errors_kind(s: u32, fs: Seq<FieldPattern>, j: int)
    ensures
        field_errors(s, fs, j) matches Some(e) ==> (e is InvalidLiteral || e is ExhaustiveUnsupportedType),
    decreases fs.len() - j,
{
    if 0 <= j < fs.len() {
        lemma_field_errors_kind(s, fs, j + 1);
    }
}

/// The field pair a container mismatch names.
pub open spec fn names_mismatch(e: CompileError, s: u32, fs: Seq<FieldPattern>) -> bool {
    e matches CompileError::ContainerTypeMismatch { set_index, container_field_index, field_index } ==> {
        &&& set_index == s
        &&& container_field_index < fs.len()
        &&& field_index < fs.len()
        &&& type_mismatch(fs[container_field_index as int], fs[field_index as int])
    }
}

proof fn lemma_row_errors_kind(s: u32, fs: Seq<FieldPattern>, i: int, j: int)
    requires
        0 <= i < fs.len() <= u32::MAX,
    ensures
        row_errors(s, fs, i, j) matches Some(e) ==> names_mismatch(e, s, fs),
    decreases fs.len() - j,
{
    if 0 <= j < fs.len() {
        lemma_row_errors_kind(s, fs, i, j + 1);
    }
}

proof fn lemma_pair_errors_kind(s: u32, fs: Seq<FieldPattern>, i: int)
    requires
        fs.len() <= u32::MAX,
    ensures
        pair_errors(s, fs, i) matches Some(e) ==> names_mismatch(e, s, fs),
    decreases fs.len() - i,
{
    if 0 <= i < fs.len() {
        lemma_row_errors_kind(s, fs, i, 0);
        lemma_pair_errors_kind(s, fs, i + 1);
    }
}

proof fn lemma_sets_error_kind(sets: Seq<Pattern>, k: int)
    requires
        sets.len() <= u32::MAX,
        forall|t: int| 0 <= t < sets.len() ==> (#[trigger] sets[t]).fields@.len() <= u32::MAX,
    ensures
        sets_error(sets, k) matches Some(e) ==> (e matches CompileError::ContainerTypeMismatch { set_index, .. }
            ==> set_index < sets.len() && names_mismatch(e, set_index, sets[set_index as int].fields@)),
    decreases sets.len() - k,
{
    if 0 <= k < sets.len() {
        let fs = sets[k].fields@;
        lemma_field_errors_kind(k as u32, fs, 0);
        lemma_pair_errors_kind(k as u32, fs, 0);
        lemma_sets_error_kind(sets, k + 1);
    }
}

/// A set fails to compile for a container mismatch only where a field lies
/// below a field whose type cannot hold the step between them: never below a
/// field of type `Any`, never a key below an object, never an index below an
/// array.
pub proof fn lemma_container_mismatch_meaning(sets: Seq<Pattern>)
    ensures
        compile_failure(sets) matches Some(CompileError::ContainerTypeMismatch { set_index, container_field_index, field_index }) ==> {
            let fs = sets[set_index as int].fields@;
            let c = fs[container_field_index as int];
            let f = fs[field_index as int];
            let p = path_steps(c);
            let q = path_steps(f);
            &&& set_index < sets.len() && container_field_index < fs.len() && field_index < fs.len()
            &&& p.len() < q.len() && q.take(p.len() as int) == p
            &&& !(c.field_type is Any)
            &&& c.field_type is Object ==> !(q[p.len() as int] is Key)
            &&& c.field_type is Array ==> q[p.len() as int] is Key
        },
{
    if !(sets.len() > u32::MAX || exists|s: int| 0 <= s < sets.len() && (#[trigger] sets[s]).fields@.len() > u32::MAX) {
        lemma_sets_error_kind(sets, 0);
    }
}

/// The fields of the first `s + 1` sets: those of the first `s`, then set `s`'s.
pub proof fn lemma_flat_take(sets: Seq<Pattern>, s: int)
    requires
        0 <= s < sets.len(),
    ensures
        flat_fields(sets.take(s + 1)) == flat_fields(sets.take(s))
            + sets[s].fields@.map(|j: int, f: FieldPattern| (s, j, f)),
{
    assert(sets.take(s + 1).drop_last() =~= sets.take(s));
    assert(sets.take(s + 1).last() == sets[s]);
}

/// The fields of the first `s` sets come first among all fields.
pub proof fn lemma_flat_prefix(sets: Seq<Pattern>, s: int)
    requires
        0 <= s <= sets.len(),
    ensures
        flat_fields(sets.take(s)).len() <= flat_fields(sets).len(),
        flat_fields(sets).take(flat_fields(sets.take(s)).len() as int) == flat_fields(sets.take(s)),
    decreases sets.len() - s,
{
    if s == sets.len() {
        assert(sets.take(s) =~= sets);
        assert(flat_fields(sets).take(flat_fields(sets).len() as int) =~= flat_fields(sets));
    } else {
        lemma_flat_prefix(sets, s + 1);
        lemma_flat_take(sets, s);
        let a = flat_fields(sets.take(s));
        let b2 = flat_fields(sets.take(s + 1));
        assert(b2.take(a.len() as int) =~= a);
        assert(flat_fields(sets).take(a.len() as int) =~= b2.take(a.len() as int));
    }
}

/// A field id is listed at pattern path `p` exactly when that field's path is `p`.
pub proof fn lemma_ids_with(ff: Seq<(int, int, FieldPattern)>, p: Seq<Step>, f: u32)
    requires
        ff.len() <= u32::MAX,
    ensures
        ids_with(ff, p).contains(f) <==> (f < ff.len() && path_steps(ff[f as int].2) == p),
    decreases ff.len(),
{
    if ff.len() > 0 {
        let prev = ff.drop_last();
        lemma_ids_with(prev, p, f);
        let tail: Seq<u32> = if path_steps(ff.last().2) == p { seq![(ff.len() - 1) as u32] } else { Seq::empty() };
        let all = ids_with(prev, p) + tail;
        assert(ids_with(ff, p) == all);
        if all.contains(f) {
            let k = choose|k: int| 0 <= k < all.len() && all[k] == f;
            if k >= ids_with(prev, p).len() {
                assert(tail[k - ids_with(prev, p).len()] == f);
            } else {
                assert(ids_with(prev, p)[k] == f);
                assert(ids_with(prev, p).contains(f));
            }
        }
        if f < ff.len() && path_steps(ff[f as int].2) == p {
            if f < ff.len() - 1 {
                assert(prev[f as int] == ff[f as int]);
                assert(ids_with(prev, p).contains(f));
                let k = choose|k: int| 0 <= k < ids_with(prev, p).len() && ids_with(prev, p)[k] == f;
                assert(all[k] == f);
            } else {
                assert(all[ids_with(prev, p).len() as int] == f);
            }
        }
    }
}

pub proof fn lemma_count_set_concat(a: Seq<Slot>, b: Seq<Slot>, s: int)
    ensures
        count_set(a + b, s) == count_set(a, s) + count_set(b, s),
    decreases b.len(),
{
    if b.len() == 0 {
        assert(a + b =~= a);
    } else {
        lemma_count_set_concat(a, b.drop_last(), s);
        assert((a + b).drop_last() =~= a + b.drop_last());
    }
}

/// Slots that all belong to one set count fully toward it and not at all
/// toward any other.
pub proof fn lemma_count_set_uniform(b: Seq<Slot>, s: int, t: int)
    requires
        forall|i: int| 0 <= i < b.len() ==> (#[trigger] b[i]).0 == s,
    ensures
        count_set(b, t) == if s == t { b.len() } else { 0 },
    decreases b.len(),
{
    if b.len() > 0 {
        lemma_count_set_uniform(b.drop_last(), s, t);
    }
}

/// The slots of the fields `ff` all belong to sets of `ff`'s fields.
pub proof fn lemma_slots_sets(ff: Seq<(int, int, FieldPattern)>, s: int)
    requires
        forall|i: int| 0 <= i < ff.len() ==> (#[trigger] ff[i]).0 < s,
    ensures
        count_set(slots_of(ff), s) == 0,
    decreases ff.len(),
{
    if ff.len() > 0 {
        let prev = ff.drop_last();
        lemma_slots_sets(prev, s);
        let x = ff.last();
        let new = field_slots(x.2).map(|t: int, n: Option<Seq<char>>| (x.0, x.1, count_set(slots_of(prev), x.0) + t, n));
        lemma_count_set_concat(slots_of(prev), new, s);
        lemma_count_set_uniform(new, x.0, s);
    }
}

/// The slots of a prefix of the fields are a prefix of all slots.
pub proof fn lemma_slots_prefix(ff: Seq<(int, int, FieldPattern)>, k: int)
    requires
        0 <= k <= ff.len(),
    ensures
        slots_of(ff.take(k)).len() <= slots_of(ff).len(),
        slots_of(ff).take(slots_of(ff.take(k)).len() as int) == slots_of(ff.take(k)),
    decreases ff.len() - k,
{
    if k == ff.len() {
        assert(ff.take(k) =~= ff);
        assert(slots_of(ff).take(slots_of(ff).len() as int) =~= slots_of(ff));
    } else {
        lemma_slots_prefix(ff, k + 1);
        assert(ff.take(k + 1).drop_last() =~= ff.take(k));
        let a = slots_of(ff.take(k));
        let b2 = slots_of(ff.take(k + 1));
        assert(b2.take(a.len() as int) =~= a);
        assert(slots_of(ff).take(a.len() as int) =~= b2.take(a.len() as int));
    }
}

pub proof fn lemma_named_groups_take(v: Seq<Option<Seq<char>>>, g: int)
    requires
        0 <= g < v.len(),
    ensures
        named_groups(v.take(g + 1)) == named_groups(v.take(g)) + (match v[g] {
            Some(n) => if skipped_name(n) { Seq::<(int, Seq<char>)>::empty() } else { seq![(g, n)] },
            None => Seq::<(int, Seq<char>)>::empty(),
        }),
{
    assert(v.take(g + 1).drop_last() =~= v.take(g));
    assert(v.take(g + 1).last() == v[g]);
    match v[g] {
        Some(n) => if skipped_name(n) {
            assert(named_groups(v.take(g)) + Seq::<(int, Seq<char>)>::empty() =~= named_groups(v.take(g)));
        } else {
            assert(named_groups(v.take(g)).push((g, n)) =~= named_groups(v.take(g)) + seq![(g, n)]);
        },
        None => {
            assert(named_groups(v.take(g)) + Seq::<(int, Seq<char>)>::empty() =~= named_groups(v.take(g)));
        },
    }
}

pub proof fn lemma_named_groups_mono(v: Seq<Option<Seq<char>>>, k: int)
    requires
        0 <= k <= v.len(),
    ensures
        named_groups(v.take(k)).len() <= named_groups(v).len(),
        named_groups(v).take(named_groups(v.take(k)).len() as int) == named_groups(v.take(k)),
    decreases v.len() - k,
{
    if k == v.len() {
        assert(v.take(k) =~= v);
        assert(named_groups(v).take(named_groups(v).len() as int) =~= named_groups(v));
    } else {
        lemma_named_groups_mono(v, k + 1);
        lemma_named_groups_take(v, k);
        let a = named_groups(v.take(k));
        let b2 = named_groups(v.take(k + 1));
        assert(b2.take(a.len() as int) =~= a);
        assert(named_groups(v).take(a.len() as int) =~= b2.take(a.len() as int));
    }
}

/// The slots of one more field follow the slots of the fields before it.
pub proof fn lemma_slots_push(ff: Seq<(int, int, FieldPattern)>, x: (int, int, FieldPattern))
    ensures
        slots_of(ff.push(x)) == slots_of(ff) + field_slots(x.2).map(
            |t: int, n: Option<Seq<char>>| (x.0, x.1, count_set(slots_of(ff), x.0) + t, n),
        ),
{
    assert(ff.push(x).drop_last() =~= ff);
    assert(ff.push(x).last() == x);
}

pub proof fn lemma_ids_push(ff: Seq<(int, int, FieldPattern)>, x: (int, int, FieldPattern), p: Seq<Step>)
    ensures
        ids_with(ff.push(x), p) == ids_with(ff, p) + if path_steps(x.2) == p { seq![ff.len() as u32] } else { Seq::<u32>::empty() },
{
    assert(ff.push(x).drop_last() =~= ff);
    assert(ff.push(x).last() == x);
}

/// The fields of set `s`, each with its set and field index.
pub open spec fn set_fields(sets: Seq<Pattern>, s: int) -> Seq<(int, int, FieldPattern)> {
    sets[s].fields@.map(|j: int, f: FieldPattern| (s, j, f))
}

/// The fields of the first `s` sets and the first `j + 1` fields of set `s`
/// come first among all fields.
pub proof fn lemma_done_prefix(sets: Seq<Pattern>, s: int, j: int)
    requires
        0 <= s < sets.len(),
        0 <= j < sets[s].fields@.len(),
    ensures
        ({
            let done1 = flat_fields(sets.take(s)) + set_fields(sets, s).take(j + 1);
            &&& done1.len() <= flat_fields(sets).len()
            &&& flat_fields(sets).take(done1.len() as int) == done1
        }),
{
    lemma_flat_take(sets, s);
    lemma_flat_prefix(sets, s + 1);
    let a = flat_fields(sets.take(s));
    let m = set_fields(sets, s);
    let done1 = a + m.take(j + 1);
    assert(flat_fields(sets.take(s + 1)) == a + m);
    assert((a + m).take(done1.len() as int) =~= done1);
    assert(flat_fields(sets).take(done1.len() as int) =~= (a + m).take(done1.len() as int));
}

/// What a field id stands for: field `ff[f].1` of set `ff[f].0`.
pub proof fn lemma_flat_index(sets: Seq<Pattern>, f: int)
    requires
        0 <= f < flat_fields(sets).len(),
    ensures
        0 <= flat_fields(sets)[f].0 < sets.len(),
        0 <= flat_fields(sets)[f].1 < sets[flat_fields(sets)[f].0].fields@.len(),
        flat_fields(sets)[f].2 == sets[flat_fields(sets)[f].0].fields@[flat_fields(sets)[f].1],
    decreases sets.len(),
{
    if sets.len() > 0 {
        let prev = sets.drop_last();
        let s = sets.len() - 1;
        let m = sets.last().fields@.map(|j: int, g: FieldPattern| (s as int, j, g));
        if f < flat_fields(prev).len() {
            lemma_flat_index(prev, f);
            assert(flat_fields(sets)[f] == flat_fields(prev)[f]);
        } else {
            assert(flat_fields(sets)[f] == m[f - flat_fields(prev).len()]);
        }
    }
}

/// Within its set, a slot's index counts the earlier slots of that set.
proof fn lemma_slots_numbered(ff: Seq<(int, int, FieldPattern)>)
    ensures
        forall|k: int| 0 <= k < slots_of(ff).len()
            ==> #[trigger] slots_of(ff)[k].2 == count_set(slots_of(ff).take(k), slots_of(ff)[k].0),
    decreases ff.len(),
{
    if ff.len() > 0 {
        let prev = ff.drop_last();
        lemma_slots_numbered(prev);
        let x = ff.last();
        let ps = slots_of(prev);
        let base = count_set(ps, x.0);
        let new = field_slots(x.2).map(|t: int, n: Option<Seq<char>>| (x.0, x.1, base + t, n));
        let all = slots_of(ff);
        assert(all == ps + new);
        assert forall|k: int| 0 <= k < all.len() implies #[trigger] all[k].2 == count_set(all.take(k), all[k].0) by {
            if k < ps.len() {
                assert(all.take(k) =~= ps.take(k));
                assert(all[k] == ps[k]);
            } else {
                let t = k - ps.len();
                assert(all.take(k) =~= ps + new.take(t));
                lemma_count_set_concat(ps, new.take(t), x.0);
                lemma_count_set_uniform(new.take(t), x.0, x.0);
                assert(all[k] == new[t]);
            }
        }
    }
}

/// Every slot belongs to one of the fields it was made for.
proof fn lemma_slot_owner(ff: Seq<(int, int, FieldPattern)>, k: int)
    requires
        0 <= k < slots_of(ff).len(),
    ensures
        exists|i: int| 0 <= i < ff.len() && (#[trigger] ff[i]).0 == slots_of(ff)[k].0,
    decreases ff.len(),
{
    let prev = ff.drop_last();
    let x = ff.last();
    let ps = slots_of(prev);
    let new = field_slots(x.2).map(|t: int, n: Option<Seq<char>>| (x.0, x.1, count_set(ps, x.0) + t, n));
    assert(slots_of(ff) == ps + new);
    if k < ps.len() {
        lemma_slot_owner(prev, k);
        let i = choose|i: int| 0 <= i < prev.len() && (#[trigger] prev[i]).0 == ps[k].0;
        assert(ff[i] == prev[i]);
    } else {
        assert(slots_of(ff)[k] == new[k - ps.len()]);
        assert(ff[ff.len() - 1] == x);
    }
}

/// Fields in set order give slots in set order.
proof fn lemma_slots_sorted(ff: Seq<(int, int, FieldPattern)>)
    requires
        forall|i: int, j: int| 0 <= i <= j < ff.len() ==> (#[trigger] ff[i]).0 <= (#[trigger] ff[j]).0,
    ensures
        forall|k: int, l: int| 0 <= k <= l < slots_of(ff).len()
            ==> (#[trigger] slots_of(ff)[k]).0 <= (#[trigger] slots_of(ff)[l]).0,
    decreases ff.len(),
{
    if ff.len() > 0 {
        let prev = ff.drop_last();
        assert forall|i: int, j: int| 0 <= i <= j < prev.len() implies (#[trigger] prev[i]).0 <= (#[trigger] prev[j]).0 by {
            assert(prev[i] == ff[i] && prev[j] == ff[j]);
        }
        lemma_slots_sorted(prev);
        let x = ff.last();
        let ps = slots_of(prev);
        let new = field_slots(x.2).map(|t: int, n: Option<Seq<char>>| (x.0, x.1, count_set(ps, x.0) + t, n));
        let all = slots_of(ff);
        assert(all == ps + new);
        assert forall|k: int, l: int| 0 <= k <= l < all.len() implies (#[trigger] all[k]).0 <= (#[trigger] all[l]).0 by {
            if l >= ps.len() {
                assert(all[l] == new[l - ps.len()]);
                if k < ps.len() {
                    assert(all[k] == ps[k]);
                    lemma_slot_owner(prev, k);
                    let i = choose|i: int| 0 <= i < prev.len() && (#[trigger] prev[i]).0 == ps[k].0;
                    assert(prev[i] == ff[i]);
                    assert(ff[ff.len() - 1] == x);
                } else {
                    assert(all[k] == new[k - ps.len()]);
                }
            } else {
                assert(all[k] == ps[k] && all[l] == ps[l]);
            }
        }
    }
}

/// All fields come in set order, each with the index of an existing set.
proof fn lemma_flat_sorted(sets: Seq<Pattern>)
    ensures
        forall|i: int| 0 <= i < flat_fields(sets).len() ==> 0 <= (#[trigger] flat_fields(sets)[i]).0 < sets.len(),
        forall|i: int, j: int| 0 <= i <= j < flat_fields(sets).len()
            ==> (#[trigger] flat_fields(sets)[i]).0 <= (#[trigger] flat_fields(sets)[j]).0,
    decreases sets.len(),
{
    if sets.len() > 0 {
        let prev = sets.drop_last();
        lemma_flat_sorted(prev);
        let s = sets.len() - 1;
        let a = flat_fields(prev);
        let m = sets.last().fields@.map(|j: int, f: FieldPattern| (s as int, j, f));
        let all = flat_fields(sets);
        assert(all == a + m);
        assert forall|i: int| 0 <= i < all.len() implies 0 <= (#[trigger] all[i]).0 < sets.len() by {
            if i < a.len() {
                assert(all[i] == a[i]);
            } else {
                assert(all[i] == m[i - a.len()]);
            }
        }
        assert forall|i: int, j: int| 0 <= i <= j < all.len() implies (#[trigger] all[i]).0 <= (#[trigger] all[j]).0 by {
            if j < a.len() {
                assert(all[i] == a[i] && all[j] == a[j]);
            } else if i < a.len() {
                assert(all[i] == a[i] && all[j] == m[j - a.len()]);
            } else {
                assert(all[i] == m[i - a.len()] && all[j] == m[j - a.len()]);
            }
        }
    }
}

/// How captures are numbered. A slot's position among all slots is its
/// machine capture index; the slots come grouped by set, in set order; and
/// a slot's index within its set is the number of earlier slots of that
/// set, so every set numbers its captures 0, 1, 2, ... without gaps.
pub proof fn lemma_capture_numbering(sets: Seq<Pattern>)
    ensures
        forall|k: int, l: int| 0 <= k <= l < slots_of(flat_fields(sets)).len()
            ==> (#[trigger] slots_of(flat_fields(sets))[k]).0 <= (#[trigger] slots_of(flat_fields(sets))[l]).0,
        forall|k: int| 0 <= k < slots_of(flat_fields(sets)).len()
            ==> #[trigger] slots_of(flat_fields(sets))[k].2
                == count_set(slots_of(flat_fields(sets)).take(k), slots_of(flat_fields(sets))[k].0),
        forall|k: int| 0 <= k < slots_of(flat_fields(sets)).len()
            ==> 0 <= (#[trigger] slots_of(flat_fields(sets))[k]).0 < sets.len(),
{
    let ff = flat_fields(sets);
    lemma_flat_sorted(sets);
    lemma_slots_sorted(ff);
    lemma_slots_numbered(ff);
    assert forall|k: int| 0 <= k < slots_of(ff).len() implies 0 <= (#[trigger] slots_of(ff)[k]).0 < sets.len() by {
        lemma_slot_owner(ff, k);
    }
}

proof fn lemma_leading_byte(v: u32)
    by (bit_vector)
    ensures
        v <= 0x7F ==> (((v & 0x7F) as u8 == 0x5Fu8) <==> v == 0x5F),
        0x80 <= v <= 0x7FF ==> (0xC0u8 | ((v >> 6) & 0x1F) as u8) != 0x5Fu8,
        0x800 <= v <= 0xFFFF ==> (0xE0u8 | ((v >> 12) & 0x0F) as u8) != 0x5Fu8,
        0x10000 <= v <= 0x10FFFF ==> (0xF0u8 | ((v >> 18) & 0x7) as u8) != 0x5Fu8,
{
}

/// Whether a group name starts with `_`.
pub fn is_skipped_name(n: &str) -> (r: bool)
    ensures
        r == skipped_name(n@),
{
    let b = n.as_bytes();
    proof {
        if n@.len() > 0 {
            let c = n@[0] as u32;
            vstd::utf8::char_is_scalar(n@[0]);
            lemma_leading_byte(c);
            assert(encode_utf8(n@) == vstd::utf8::encode_scalar(c) + encode_utf8(n@.drop_first()));
            vstd::utf8::char_u32_cast(n@[0], c);
            vstd::utf8::char_u32_cast('_', 0x5F);
            assert(c == 0x5F <==> n@[0] == '_');
        } else {
            assert(encode_utf8(n@).len() == 0);
        }
    }
    b.len() > 0 && b[0] == 0x5F
}

} // verus!
