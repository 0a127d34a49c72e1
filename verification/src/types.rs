//! The public data types: patterns, capture values, indices and errors.

use vstd::prelude::*;
use crate::predicate::Predicate;
use crate::text::str_slice;
use vstd::string::StringSliceAdditionalSpecFns;
use vstd::utf8::{decode_utf8, is_char_boundary};

verus! {

/// A byte range `start..end` into the matched input.
#[derive(Debug, Clone, Copy, PartialEq, Eq)]
pub struct Range {
    pub start: u32,
    pub end: u32,
}

/// Widens a `u32` byte range to a `usize` range that can index the input.
pub fn range_u32_to_usize(range: Range) -> (r: std::ops::Range<usize>)
    ensures
        r.start == range.start,
        r.end == range.end,
{
    std::ops::Range { start: range.start as usize, end: range.end as usize }
}

/// Builds the range `start..end`.
pub fn range_u32(start: u32, end: u32) -> (r: Range)
    ensures
        r.start == start,
        r.end == end,
{
    Range { start, end }
}

/// One step of a field's path through the document.
#[derive(Debug, Clone)]
pub enum PathSegment {
    /// An object member with this (unescaped) key.
    Key(String),
    /// Fixed array index.
    Index(u16),
    /// First array element whose continuation satisfies this field.
    /// Independent per field: two fields sharing an AnyIndex prefix may be
    /// satisfied by different elements.
    AnyIndex,
}

/// What a field's value must be.
#[derive(Debug)]
pub enum FieldType {
    Object,
    Array,
    String,
    Number,
    Bool,
    Null,
    /// Raw byte-for-byte comparison against the value's text, whitespace-sensitive.
    /// Example: `Literal("[1,2,3]".into())`
    Literal(String),
    /// Match any value, type is returned through CaptureValue.
    Any,
}

impl Clone for FieldType {
    fn clone(&self) -> (r: FieldType)
        ensures
            r == *self,
    {
        match self {
            FieldType::Object => FieldType::Object,
            FieldType::Array => FieldType::Array,
            FieldType::String => FieldType::String,
            FieldType::Number => FieldType::Number,
            FieldType::Bool => FieldType::Bool,
            FieldType::Null => FieldType::Null,
            FieldType::Literal(l) => FieldType::Literal(l.clone()),
            FieldType::Any => FieldType::Any,
        }
    }
}

/// One field of a match set.
#[derive(Debug, Clone)]
pub struct FieldPattern<'a> {
    pub path: &'a [PathSegment],
    pub field_type: FieldType,
    /// Regex the value must satisfy for the field to count as present. Runs
    /// unanchored (a substring match anywhere in the value); anchor with
    /// `^`/`$` to require a full-value match. For strings the haystack is the
    /// unescaped content; for every other type it is the raw JSON text.
    pub predicate: Option<Predicate>,
    pub capture: bool,
    /// For a container value: every member key (object) or element index
    /// (array) must be covered by some field of the same set whose path
    /// passes through it; otherwise this occurrence does not satisfy the field.
    pub exhaustive: bool,
}

/// A match set: it matches when all of its fields are satisfied.
#[derive(Debug, Clone, Copy)]
pub struct Pattern<'a> {
    pub fields: &'a [FieldPattern<'a>],
}

/// A string value: borrowed from the input when it had no escapes.
#[derive(Debug, Clone, PartialEq, Eq)]
pub enum UnescapedString {
    /// The value contained no escape sequences; the range indexes the matched input.
    Borrowed(Range),
    Owned(String),
}

impl UnescapedString {
    /// The range lies on character boundaries of `input`.
    pub open spec fn fits_in(&self, input: Seq<u8>) -> bool {
        str_fits(self@, input)
    }

    /// The string's text: the slice of `input` it borrows, or its own.
    pub fn resolve<'s>(&'s self, input: &'s str) -> (r: &'s str)
        requires
            self.fits_in(input.spec_bytes()),
        ensures
            r@ == match self {
                UnescapedString::Borrowed(range) => decode_utf8(input.spec_bytes().subrange(range.start as int, range.end as int)),
                UnescapedString::Owned(s) => s@,
            },
    {
        match self {
            UnescapedString::Borrowed(range) => {
                let r = str_slice(input, range.start as usize, range.end as usize);
                proof { vstd::utf8::encode_utf8_decode_utf8(r@); }
                r
            },
            UnescapedString::Owned(s) => s.as_str(),
        }
    }
}

/// A captured value.
#[derive(Debug, Clone, PartialEq, Eq)]
pub enum CaptureValue {
    PredicateCapture(UnescapedString),
    Object(Range),
    Array(Range),
    String(UnescapedString),
    /// The number literal's text in the input. Literals outside the finite
    /// f64 range fail the match with [`MatchError::NumberOutOfRange`].
    Number(Range),
    Bool(bool),
    Null,
}

/// What an [`UnescapedString`] denotes: a range of the input, or the
/// characters of the decoded string.
pub enum StrModel {
    Borrowed(Range),
    Owned(Seq<char>),
}

/// What a [`CaptureValue`] denotes, with owned strings seen as characters.
pub enum CaptureModel {
    PredicateCapture(StrModel),
    Object(Range),
    Array(Range),
    String(StrModel),
    Number(Range),
    Bool(bool),
    Null,
}

impl View for UnescapedString {
    type V = StrModel;

    open spec fn view(&self) -> StrModel {
        match self {
            UnescapedString::Borrowed(r) => StrModel::Borrowed(*r),
            UnescapedString::Owned(s) => StrModel::Owned(s@),
        }
    }
}

impl View for CaptureValue {
    type V = CaptureModel;

    open spec fn view(&self) -> CaptureModel {
        match self {
            CaptureValue::PredicateCapture(s) => CaptureModel::PredicateCapture(s@),
            CaptureValue::Object(r) => CaptureModel::Object(*r),
            CaptureValue::Array(r) => CaptureModel::Array(*r),
            CaptureValue::String(s) => CaptureModel::String(s@),
            CaptureValue::Number(r) => CaptureModel::Number(*r),
            CaptureValue::Bool(b) => CaptureModel::Bool(*b),
            CaptureValue::Null => CaptureModel::Null,
        }
    }
}

/// The range `r` lies in `b` between two character boundaries.
pub open spec fn range_fits(r: Range, b: Seq<u8>) -> bool {
    &&& r.start <= r.end <= b.len()
    &&& is_char_boundary(b, r.start as int)
    &&& is_char_boundary(b, r.end as int)
}

/// A borrowed string's range fits `b`.
pub open spec fn str_fits(m: StrModel, b: Seq<u8>) -> bool {
    match m {
        StrModel::Borrowed(r) => range_fits(r, b),
        StrModel::Owned(_) => true,
    }
}

/// Every range a capture holds fits `b`, so it can slice `b`'s text.
pub open spec fn model_fits(m: CaptureModel, b: Seq<u8>) -> bool {
    match m {
        CaptureModel::PredicateCapture(s) => str_fits(s, b),
        CaptureModel::String(s) => str_fits(s, b),
        CaptureModel::Object(r) => range_fits(r, b),
        CaptureModel::Array(r) => range_fits(r, b),
        CaptureModel::Number(r) => range_fits(r, b),
        CaptureModel::Bool(_) => true,
        CaptureModel::Null => true,
    }
}

/// Every capture in `caps` fits `b`.
pub open spec fn captures_fit(caps: Seq<Option<CaptureModel>>, b: Seq<u8>) -> bool {
    forall|k: int| 0 <= k < caps.len() ==> (#[trigger] caps[k] matches Some(m) ==> model_fits(m, b))
}

/// A capture slot seen through [`CaptureValue`]'s view.
pub open spec fn slot_view(c: Option<CaptureValue>) -> Option<CaptureModel> {
    match c {
        Some(v) => Some(v@),
        None => None,
    }
}

/// Index of a capture among all captures of a machine.
#[derive(Debug, Clone, Copy, PartialEq, Eq, Hash)]
pub struct MachineCaptureIndex(u32);

/// Index of a capture among the captures of one match set.
#[derive(Debug, Clone, Copy, PartialEq, Eq, Hash)]
pub struct SetCaptureIndex(u32);

impl MachineCaptureIndex {
    pub closed spec fn spec_value(self) -> u32 {
        self.0
    }

    /// `u32::MAX` is reserved, so every index has a successor count.
    pub fn new(index: u32) -> (r: Option<MachineCaptureIndex>)
        ensures
            r is Some <==> index < u32::MAX,
            r matches Some(i) ==> i.spec_value() == index,
    {
        if index < u32::MAX { Some(MachineCaptureIndex(index)) } else { None }
    }

    pub fn get(self) -> (r: u32)
        ensures
            r == self.spec_value(),
    {
        self.0
    }
}

impl SetCaptureIndex {
    pub closed spec fn spec_value(self) -> u32 {
        self.0
    }

    /// `u32::MAX` is reserved, so every index has a successor count.
    pub fn new(index: u32) -> (r: Option<SetCaptureIndex>)
        ensures
            r is Some <==> index < u32::MAX,
            r matches Some(i) ==> i.spec_value() == index,
    {
        if index < u32::MAX { Some(SetCaptureIndex(index)) } else { None }
    }

    pub fn get(self) -> (r: u32)
        ensures
            r == self.spec_value(),
    {
        self.0
    }
}

/// What the capture callback of [`crate::MatchMachine::compile`] is told about each capture.
#[derive(Debug, Clone, Copy, PartialEq, Eq)]
pub struct CaptureCallbackArgs<'a> {
    pub match_set_index: u32,
    pub field_index: u32,
    pub predicate_capture_name: Option<&'a str>,
    pub capture_index_in_set: SetCaptureIndex,
    pub capture_index_in_machine: MachineCaptureIndex,
}

/// Why a set of patterns does not compile.
#[derive(Debug, Clone, Copy, PartialEq, Eq)]
pub enum CompileError {
    /// A `Literal` type whose text is not exactly one JSON value.
    InvalidLiteral { set_index: u32, field_index: u32 },
    /// A field descends into a same-set field whose type cannot hold that step.
    ContainerTypeMismatch { set_index: u32, container_field_index: u32, field_index: u32 },
    /// Two same-set fields descend from one path as an object and as an array.
    ConflictingContainerKinds { set_index: u32, field_index_a: u32, field_index_b: u32 },
    /// A same-set field below an exhaustive container uses `AnyIndex`.
    AnyIndexUnderExhaustive { set_index: u32, container_field_index: u32, field_index: u32 },
    /// `exhaustive` on a type other than Object, Array or Any.
    ExhaustiveUnsupportedType { set_index: u32, field_index: u32 },
    /// More sets, fields or captures than `u32` indices can number.
    TooManyItems,
}

/// Why an input could not be matched.
#[derive(Debug, Clone, Copy, PartialEq, Eq)]
pub enum MatchError {
    UnexpectedByte { pos: u32, byte: u8 },
    UnexpectedEof,
    TrailingData { pos: u32 },
    InvalidNumber { pos: u32 },
    /// A captured number literal is outside the finite f64 range (e.g.
    /// `1e999`). Only captured numbers are checked; uncaptured ones are
    /// validated syntactically without a range check.
    NumberOutOfRange { pos: u32 },
    InputTooLong { len: usize },
    InvalidEscape { pos: u32 },
    DepthLimitExceeded { pos: u32 },
}

} // verus!
