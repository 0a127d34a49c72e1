//! Matching JSON documents against sets of field patterns in one pass.

pub mod types;
pub mod predicate;
pub mod lex;
pub mod bits;
pub mod validate;
pub mod text;
pub mod unescape;
pub mod trie;
pub mod patterns;
pub mod number;
pub mod scan;
pub mod machine;

pub use types::{
    range_u32, range_u32_to_usize, CaptureCallbackArgs, CaptureValue, CompileError, FieldPattern,
    FieldType, MachineCaptureIndex, MatchError, PathSegment, Pattern, Range, SetCaptureIndex,
    UnescapedString,
};
pub use predicate::{Predicate, PredicateError};
pub use machine::{MachineResult, MachineState, MatchMachine, DEFAULT_DEPTH_LIMIT};
pub use bits::Bits;
pub use lex::parse_hex4;
pub use unescape::unescape_into;
