use std::collections::HashMap;

use json_match::{
    range_u32_to_usize, CaptureCallbackArgs, CaptureValue, CompileError, FieldPattern, FieldType,
    MachineCaptureIndex, MachineState, MatchError, MatchMachine, PathSegment, Pattern, Predicate,
    SetCaptureIndex, UnescapedString, DEFAULT_DEPTH_LIMIT,
};
use PathSegment::{AnyIndex, Index};

/// Machine capture indices keyed by (set index, field index, predicate group name).
type CaptureIndices = HashMap<(u32, u32, Option<String>), MachineCaptureIndex>;

fn compile_err(sets: &[&[FieldPattern<'_>]]) -> CompileError {
    MatchMachine::compile(sets.iter().map(|fields| Pattern { fields }), |_| {}).unwrap_err()
}

fn compile(sets: &[&[FieldPattern<'_>]]) -> (MatchMachine, CaptureIndices) {
    let mut captures = HashMap::new();
    let machine = MatchMachine::compile(sets.iter().map(|fields| Pattern { fields }), |args| {
        captures.insert(
            (
                args.match_set_index,
                args.field_index,
                args.predicate_capture_name.map(str::to_owned),
            ),
            args.capture_index_in_machine,
        );
    })
    .unwrap();
    (machine, captures)
}

fn run(machine: &MatchMachine, input: &str) -> Result<MachineState, MatchError> {
    let mut state = machine.allocate_state();
    machine.match_string(input, &mut state)?;
    Ok(state)
}

/// Leaks the path to satisfy FieldPattern's borrowed slice; fine in tests.
fn field(
    path: Vec<PathSegment>,
    field_type: FieldType,
    predicate: Option<&str>,
    capture: bool,
) -> FieldPattern<'static> {
    FieldPattern {
        path: Vec::leak(path),
        field_type,
        predicate: predicate.map(|p| Predicate::new(p).unwrap()),
        capture,
        exhaustive: false,
    }
}

/// `field` with `exhaustive: true`.
fn xfield(path: Vec<PathSegment>, field_type: FieldType, capture: bool) -> FieldPattern<'static> {
    FieldPattern {
        exhaustive: true,
        ..field(path, field_type, None, capture)
    }
}

fn key(s: &str) -> PathSegment {
    PathSegment::Key(s.into())
}

/// The value of a captured number, read from its text in the input.
fn number(input: &str, capture: Option<&CaptureValue>) -> Option<f64> {
    match capture {
        Some(CaptureValue::Number(range)) => Some(input[range_u32_to_usize(*range)].parse::<f64>().unwrap()),
        _ => None,
    }
}

#[test]
fn basic_nested_capture() {
    let fields = [field(vec![key("a"), key("b")], FieldType::Bool, None, true)];
    let (machine, captures) = compile(&[&fields]);
    let state = run(&machine, r#"{"x":1,"a":{"y":[3],"b":true},"z":null}"#).unwrap();
    assert!(state.result.did_match(0));
    assert!(matches!(
        state.result.capture(captures[&(0, 0, None)]),
        Some(CaptureValue::Bool(true))
    ));
}

#[test]
fn type_mismatch_no_match() {
    let fields = [field(vec![key("a")], FieldType::Number, None, false)];
    let (machine, _) = compile(&[&fields]);
    let state = run(&machine, r#"{"a":"not a number"}"#).unwrap();
    assert!(!state.result.did_match(0));
}

#[test]
fn all_capture_types() {
    let input = r#"{"o":{"k":1},"ar":[1,2],"s":"hi","n":-12.5e2,"b":false,"nul":null}"#;
    let fields = [
        field(vec![key("o")], FieldType::Object, None, true),
        field(vec![key("ar")], FieldType::Array, None, true),
        field(vec![key("s")], FieldType::String, None, true),
        field(vec![key("n")], FieldType::Number, None, true),
        field(vec![key("b")], FieldType::Bool, None, true),
        field(vec![key("nul")], FieldType::Null, None, true),
    ];
    let (machine, captures) = compile(&[&fields]);
    let state = run(&machine, input).unwrap();
    assert!(state.result.did_match(0));
    match state.result.capture(captures[&(0, 0, None)]) {
        Some(CaptureValue::Object(range)) => {
            assert_eq!(&input[range_u32_to_usize(*range)], r#"{"k":1}"#)
        }
        other => panic!("expected Object, got {other:?}"),
    }
    match state.result.capture(captures[&(0, 1, None)]) {
        Some(CaptureValue::Array(range)) => {
            assert_eq!(&input[range_u32_to_usize(*range)], "[1,2]")
        }
        other => panic!("expected Array, got {other:?}"),
    }
    match state.result.capture(captures[&(0, 2, None)]) {
        Some(CaptureValue::String(s)) => assert_eq!(s.resolve(input), "hi"),
        other => panic!("expected String, got {other:?}"),
    }
    assert_eq!(number(input, state.result.capture(captures[&(0, 3, None)])), Some(-1250.0));
    assert!(matches!(
        state.result.capture(captures[&(0, 4, None)]),
        Some(CaptureValue::Bool(false))
    ));
    assert!(matches!(
        state.result.capture(captures[&(0, 5, None)]),
        Some(CaptureValue::Null)
    ));
}

#[test]
fn literal_and_any() {
    let input = r#"{"lit":[1,2,3],"any":{"deep":1}}"#;
    let fields = [
        field(
            vec![key("lit")],
            FieldType::Literal("[1,2,3]".into()),
            None,
            true,
        ),
        field(vec![key("any")], FieldType::Any, None, true),
    ];
    let (machine, captures) = compile(&[&fields]);
    let state = run(&machine, input).unwrap();
    assert!(state.result.did_match(0));
    match state.result.capture(captures[&(0, 1, None)]) {
        Some(CaptureValue::Object(range)) => {
            assert_eq!(&input[range_u32_to_usize(*range)], r#"{"deep":1}"#)
        }
        other => panic!("expected Object, got {other:?}"),
    }
    // Literal is whitespace-sensitive.
    let state = run(&machine, r#"{"lit":[1, 2, 3],"any":0}"#).unwrap();
    assert!(!state.result.did_match(0));
}

#[test]
fn borrowed_string_is_range_into_input() {
    let input = r#"{"s":"plain"}"#;
    let fields = [field(vec![key("s")], FieldType::String, None, true)];
    let (machine, captures) = compile(&[&fields]);
    let state = run(&machine, input).unwrap();
    match state.result.capture(captures[&(0, 0, None)]) {
        Some(CaptureValue::String(UnescapedString::Borrowed(range))) => {
            assert_eq!(&input[range_u32_to_usize(*range)], "plain");
        }
        other => panic!("expected Borrowed, got {other:?}"),
    }
}

#[test]
fn escaped_string_capture_owned() {
    let input = r#"{"s":"line1\nline2 A 😀 \\"}"#;
    let fields = [field(vec![key("s")], FieldType::String, None, true)];
    let (machine, captures) = compile(&[&fields]);
    let state = run(&machine, input).unwrap();
    match state.result.capture(captures[&(0, 0, None)]) {
        Some(CaptureValue::String(s @ UnescapedString::Owned(_))) => {
            assert_eq!(s.resolve(input), "line1\nline2 A 😀 \\");
        }
        other => panic!("expected Owned, got {other:?}"),
    }
}

#[test]
fn escaped_key_lookup() {
    let fields = [field(vec![key("a\nb")], FieldType::Number, None, true)];
    let (machine, captures) = compile(&[&fields]);
    let input = r#"{"a\nb":7}"#;
    let state = run(&machine, input).unwrap();
    assert!(state.result.did_match(0));
    assert_eq!(number(input, state.result.capture(captures[&(0, 0, None)])), Some(7.0));
    // \u escape spelling of a key must also resolve.
    let fields = [field(vec![key("A")], FieldType::Number, None, false)];
    let (machine, _) = compile(&[&fields]);
    assert!(run(&machine, r#"{"\u0041":1}"#).unwrap().result.did_match(0));
}

#[test]
fn predicate_gates_match_and_captures_groups() {
    let input = r#"{"v":"hello-42"}"#;
    let fields = [field(
        vec![key("v")],
        FieldType::String,
        Some(r"^(?<word>\w+)-(?<_junk>\d+)$"),
        true,
    )];
    let (machine, captures) = compile(&[&fields]);
    let state = run(&machine, input).unwrap();
    assert!(state.result.did_match(0));
    // '_'-prefixed groups get no capture slot.
    assert!(!captures.contains_key(&(0, 0, Some("_junk".to_owned()))));
    match state
        .result
        .capture(captures[&(0, 0, Some("word".to_owned()))])
    {
        Some(CaptureValue::PredicateCapture(UnescapedString::Borrowed(range))) => {
            assert_eq!(&input[range_u32_to_usize(*range)], "hello");
        }
        other => panic!("expected Borrowed predicate capture, got {other:?}"),
    }
    // Predicate failure means the field is unsatisfied.
    let state = run(&machine, r#"{"v":"no dash here"}"#).unwrap();
    assert!(!state.result.did_match(0));
}

#[test]
fn predicate_runs_on_unescaped_content() {
    // Raw JSON text is `x\ny`; the predicate must see a real newline.
    let input = r#"{"v":"x\ny"}"#;
    let fields = [field(
        vec![key("v")],
        FieldType::String,
        Some(r"^x\n(?<tail>y)$"),
        false,
    )];
    let (machine, captures) = compile(&[&fields]);
    let state = run(&machine, input).unwrap();
    assert!(state.result.did_match(0));
    match state
        .result
        .capture(captures[&(0, 0, Some("tail".to_owned()))])
    {
        Some(CaptureValue::PredicateCapture(s @ UnescapedString::Owned(_))) => {
            assert_eq!(s.resolve(input), "y");
        }
        other => panic!("expected Owned predicate capture, got {other:?}"),
    }
}

#[test]
fn predicate_on_number_raw_text() {
    let fields = [field(
        vec![key("n")],
        FieldType::Number,
        Some(r"^-?\d+\.\d+$"),
        false,
    )];
    let (machine, _) = compile(&[&fields]);
    assert!(run(&machine, r#"{"n":3.25}"#).unwrap().result.did_match(0));
    assert!(!run(&machine, r#"{"n":325}"#).unwrap().result.did_match(0));
}

#[test]
fn multiple_sets_independent() {
    let a = [field(vec![key("a")], FieldType::Number, None, false)];
    let b = [field(vec![key("a")], FieldType::String, None, false)];
    let empty: [FieldPattern<'_>; 0] = [];
    let (machine, _) = compile(&[&a, &b, &empty]);
    assert_eq!(machine.num_match_sets(), 3);
    let state = run(&machine, r#"{"a":1}"#).unwrap();
    assert!(state.result.did_match(0));
    assert!(!state.result.did_match(1));
    // A set with no fields is vacuously satisfied.
    assert!(state.result.did_match(2));
}

#[test]
fn partial_set_does_not_match() {
    let fields = [
        field(vec![key("a")], FieldType::Number, None, false),
        field(vec![key("missing")], FieldType::Number, None, false),
    ];
    let (machine, _) = compile(&[&fields]);
    assert!(!run(&machine, r#"{"a":1}"#).unwrap().result.did_match(0));
}

#[test]
fn duplicate_keys_first_satisfying_wins() {
    let fields = [field(
        vec![key("a")],
        FieldType::String,
        Some("^[yz]"),
        true,
    )];
    let (machine, captures) = compile(&[&fields]);
    // First occurrence fails the predicate, second satisfies.
    let input = r#"{"a":"x","a":"y"}"#;
    let state = run(&machine, input).unwrap();
    assert!(state.result.did_match(0));
    match state.result.capture(captures[&(0, 0, None)]) {
        Some(CaptureValue::String(s)) => assert_eq!(s.resolve(input), "y"),
        other => panic!("expected String, got {other:?}"),
    }
    // Both satisfy: the first one provides the capture.
    let input = r#"{"a":"y1","a":"z2"}"#;
    let state = run(&machine, input).unwrap();
    match state.result.capture(captures[&(0, 0, None)]) {
        Some(CaptureValue::String(s)) => assert_eq!(s.resolve(input), "y1"),
        other => panic!("expected String, got {other:?}"),
    }
}

#[test]
fn fixed_index() {
    let fields = [field(
        vec![key("a"), Index(1)],
        FieldType::Number,
        None,
        true,
    )];
    let (machine, captures) = compile(&[&fields]);
    let input = r#"{"a":[10,42,99]}"#;
    let state = run(&machine, input).unwrap();
    assert!(state.result.did_match(0));
    assert_eq!(number(input, state.result.capture(captures[&(0, 0, None)])), Some(42.0));
    assert!(!run(&machine, r#"{"a":[10]}"#).unwrap().result.did_match(0));
    assert!(
        !run(&machine, r#"{"a":{"1":42}}"#)
            .unwrap()
            .result
            .did_match(0)
    );
}

#[test]
fn any_index_first_satisfying() {
    let input = r#"{"a":["x","bb","ccc","dd"]}"#;
    let fields = [field(
        vec![key("a"), AnyIndex],
        FieldType::String,
        Some("^..$"),
        true,
    )];
    let (machine, captures) = compile(&[&fields]);
    let state = run(&machine, input).unwrap();
    assert!(state.result.did_match(0));
    match state.result.capture(captures[&(0, 0, None)]) {
        Some(CaptureValue::String(s)) => assert_eq!(s.resolve(input), "bb"),
        other => panic!("expected String, got {other:?}"),
    }
}

#[test]
fn any_index_skips_wrong_types() {
    let fields = [field(
        vec![key("a"), AnyIndex, key("id")],
        FieldType::Number,
        None,
        true,
    )];
    let (machine, captures) = compile(&[&fields]);
    let input = r#"{"a":[1,"s",{"other":0},{"id":5}]}"#;
    let state = run(&machine, input).unwrap();
    assert!(state.result.did_match(0));
    assert_eq!(number(input, state.result.capture(captures[&(0, 0, None)])), Some(5.0));
}

#[test]
fn nested_wildcards() {
    let fields = [field(
        vec![key("a"), AnyIndex, AnyIndex],
        FieldType::Number,
        None,
        true,
    )];
    let (machine, captures) = compile(&[&fields]);
    let input = r#"{"a":[["x"],[null,7]]}"#;
    let state = run(&machine, input).unwrap();
    assert!(state.result.did_match(0));
    assert_eq!(number(input, state.result.capture(captures[&(0, 0, None)])), Some(7.0));
}

#[test]
fn wildcard_merged_into_fixed_index() {
    // The satisfying element for the wildcard field sits AT a fixed index;
    // it is only found because the wildcard subtree is merged into the
    // fixed-index subtree at compile time.
    let input = r#"{"a":["s",5]}"#;
    let fields = [
        field(vec![key("a"), Index(0)], FieldType::Any, None, false),
        field(vec![key("a"), AnyIndex], FieldType::String, None, true),
    ];
    let (machine, captures) = compile(&[&fields]);
    let state = run(&machine, input).unwrap();
    assert!(state.result.did_match(0));
    match state.result.capture(captures[&(0, 1, None)]) {
        Some(CaptureValue::String(s)) => assert_eq!(s.resolve(input), "s"),
        other => panic!("expected String, got {other:?}"),
    }
}

#[test]
fn container_mismatch_leaves_unsatisfied() {
    let fields = [field(
        vec![key("a"), key("b")],
        FieldType::Number,
        None,
        false,
    )];
    let (machine, _) = compile(&[&fields]);
    assert!(!run(&machine, r#"{"a":[1,2]}"#).unwrap().result.did_match(0));
    assert!(!run(&machine, r#"{"a":"b"}"#).unwrap().result.did_match(0));
}

#[test]
fn empty_path_matches_root() {
    let input = r#"  {"k":1}  "#;
    let fields = [field(vec![], FieldType::Object, None, true)];
    let (machine, captures) = compile(&[&fields]);
    let state = run(&machine, input).unwrap();
    assert!(state.result.did_match(0));
    match state.result.capture(captures[&(0, 0, None)]) {
        Some(CaptureValue::Object(range)) => {
            assert_eq!(&input[range_u32_to_usize(*range)], r#"{"k":1}"#)
        }
        other => panic!("expected Object, got {other:?}"),
    }
}

#[test]
fn root_array() {
    let fields = [field(vec![Index(1)], FieldType::Number, None, true)];
    let (machine, captures) = compile(&[&fields]);
    let input = "[1, 2]";
    let state = run(&machine, input).unwrap();
    assert!(state.result.did_match(0));
    assert_eq!(number(input, state.result.capture(captures[&(0, 0, None)])), Some(2.0));
}

#[test]
fn malformed_inputs_error() {
    let fields = [field(vec![key("a")], FieldType::Any, None, false)];
    let (machine, _) = compile(&[&fields]);
    assert!(matches!(
        run(&machine, r#"{"a":tru}"#),
        Err(MatchError::UnexpectedByte { .. })
    ));
    assert!(matches!(
        run(&machine, r#"{"a":1"#),
        Err(MatchError::UnexpectedEof)
    ));
    assert!(matches!(
        run(&machine, "[1,2"),
        Err(MatchError::UnexpectedEof)
    ));
    assert!(matches!(
        run(&machine, r#"{"a":1,}"#),
        Err(MatchError::UnexpectedByte { .. })
    ));
    assert!(matches!(
        run(&machine, "{} x"),
        Err(MatchError::TrailingData { pos: 3 })
    ));
    assert!(matches!(run(&machine, ""), Err(MatchError::UnexpectedEof)));
    // The whole input is validated, so bad escapes error even in values
    // that are never captured or unescaped.
    assert!(matches!(
        run(&machine, r#"{"a":"\q"}"#),
        Err(MatchError::InvalidEscape { .. })
    ));
    assert!(matches!(
        run(&machine, r#"{"a":"\ud83d oops"}"#),
        Err(MatchError::InvalidEscape { .. })
    ));
}

#[test]
fn skipped_regions_are_validated() {
    // "a" is the only pattern path; everything else is skipped — and still
    // must be JSON-compliant.
    let fields = [field(vec![key("a")], FieldType::Any, None, false)];
    let (machine, _) = compile(&[&fields]);
    for bad in [
        r#"{"noise":01,"a":1}"#,         // leading zero
        r#"{"noise":1.,"a":1}"#,         // bare decimal point
        r#"{"noise":1e,"a":1}"#,         // missing exponent digits
        r#"{"noise":+1,"a":1}"#,         // leading plus
        r#"{"noise":--1,"a":1}"#,        // double sign
        r#"{"noise":[1,2},"a":1}"#,      // bracket mismatch
        r#"{"noise":{"x"},"a":1}"#,      // missing colon
        r#"{"noise":[1,],"a":1}"#,       // trailing comma
        r#"{"noise":{"x":},"a":1}"#,     // missing member value
        r#"{"noise":"\q","a":1}"#,       // bad escape in skipped string
        r#"{"noise":"\udc00","a":1}"#,   // lone low surrogate
        "{\"noise\":\"\u{1}\",\"a\":1}", // raw control character
        r#"{"noise":[nul],"a":1}"#,      // bad keyword
    ] {
        assert!(run(&machine, bad).is_err(), "should error: {bad}");
    }
    for good in [
        r#"{"noise":[1,-0.5e+10,{"x":[[]],"y":"A"},true],"a":1}"#,
        r#"{"noise":0.125,"a":1}"#,
        r#"{"noise":-0,"a":1}"#,
    ] {
        assert!(
            run(&machine, good).unwrap().result.did_match(0),
            "should match: {good}"
        );
    }
}

#[test]
fn depth_limit() {
    let fields = [field(vec![key("a")], FieldType::Any, None, false)];
    let (machine, _) = compile(&[&fields]);
    let deep = |n: usize| format!("{}0{}", "[".repeat(n), "]".repeat(n));

    let mut state = machine.allocate_state();
    assert_eq!(state.depth_limit(), DEFAULT_DEPTH_LIMIT);
    machine.match_string(&deep(128), &mut state).unwrap();
    assert!(matches!(
        machine.match_string(&deep(129), &mut state),
        Err(MatchError::DepthLimitExceeded { .. })
    ));

    state.set_depth_limit(4);
    machine.match_string(&deep(4), &mut state).unwrap();
    assert!(matches!(
        machine.match_string(&deep(5), &mut state),
        Err(MatchError::DepthLimitExceeded { .. })
    ));
    // Deep nesting inside a skipped member is limited the same way.
    assert!(matches!(
        machine.match_string(&format!(r#"{{"noise":{},"a":1}}"#, deep(5)), &mut state),
        Err(MatchError::DepthLimitExceeded { .. })
    ));

    state.set_depth_limit(300);
    machine.match_string(&deep(300), &mut state).unwrap();
}

#[test]
fn number_overflow_errors() {
    // JSON has no infinity: captured literals beyond the finite f64 range
    // fail the match.
    let fields = [field(vec![key("n")], FieldType::Number, None, true)];
    let (machine, _) = compile(&[&fields]);
    assert!(matches!(
        run(&machine, r#"{"n":1e999}"#),
        Err(MatchError::NumberOutOfRange { pos: 5 })
    ));
    assert!(matches!(
        run(&machine, r#"{"n":-1e999}"#),
        Err(MatchError::NumberOutOfRange { pos: 5 })
    ));
    // Underflow to zero and subnormals are fine.
    let state = run(&machine, r#"{"n":1e-999}"#).unwrap();
    assert!(state.result.did_match(0));
    // Uncaptured numbers are validated syntactically but never parsed,
    // so no range check applies.
    let fields = [field(vec![key("n")], FieldType::Number, None, false)];
    let (machine, _) = compile(&[&fields]);
    assert!(run(&machine, r#"{"n":1e999}"#).unwrap().result.did_match(0));
}

#[test]
fn predicate_is_unanchored() {
    // Predicates are substring matches unless the pattern anchors itself.
    let fields = [field(vec![key("v")], FieldType::String, Some("bb"), false)];
    let (machine, _) = compile(&[&fields]);
    assert!(
        run(&machine, r#"{"v":"aaabbccc"}"#)
            .unwrap()
            .result
            .did_match(0)
    );
}

#[test]
fn control_character_boundaries() {
    let fields = [field(vec![key("v")], FieldType::String, None, true)];
    let (machine, captures) = compile(&[&fields]);
    // Escaped NUL is legal JSON.
    let state = run(&machine, r#"{"v":"\u0000x"}"#).unwrap();
    match state.result.capture(captures[&(0, 0, None)]) {
        Some(CaptureValue::String(s)) => assert_eq!(s.resolve(r#"{"v":"\u0000x"}"#), "\0x"),
        other => panic!("expected String, got {other:?}"),
    }
    // Raw DEL (0x7F) is legal; only 0x00..=0x1F are rejected unescaped.
    let input = "{\"v\":\"\u{7f}\"}";
    assert!(run(&machine, input).unwrap().result.did_match(0));
}

#[test]
fn deep_pattern_path() {
    // Nesting along matched paths recurses on the call stack, bounded by
    // pattern depth rather than the state's depth limit.
    let path: Vec<PathSegment> = (0..1000).map(|_| key("k")).collect();
    let fields = [field(path, FieldType::Number, None, false)];
    let (machine, _) = compile(&[&fields]);
    let json = format!("{}1{}", "{\"k\":".repeat(1000), "}".repeat(1000));
    assert!(run(&machine, &json).unwrap().result.did_match(0));
}

#[test]
fn unicode_escapes() {
    let input = "{\"s\":\"\\u0041\\ud83d\\ude00\"}";
    let fields = [field(vec![key("s")], FieldType::String, None, true)];
    let (machine, captures) = compile(&[&fields]);
    let state = run(&machine, input).unwrap();
    match state.result.capture(captures[&(0, 0, None)]) {
        Some(CaptureValue::String(s)) => assert_eq!(s.resolve(input), "A😀"),
        other => panic!("expected String, got {other:?}"),
    }
}

#[test]
fn whitespace_tolerated() {
    let fields = [field(
        vec![key("a"), key("b")],
        FieldType::Number,
        None,
        true,
    )];
    let (machine, _) = compile(&[&fields]);
    let state = run(&machine, "\n{ \"a\" : { \"b\" :\t42 } }\r\n").unwrap();
    assert!(state.result.did_match(0));
}

#[test]
fn state_reuse_resets_everything() {
    let fields = [field(vec![key("a")], FieldType::Number, None, true)];
    let (machine, captures) = compile(&[&fields]);
    let mut state = machine.allocate_state();
    machine.match_string(r#"{"a":1}"#, &mut state).unwrap();
    assert!(state.result.did_match(0));
    machine.match_string(r#"{"b":1}"#, &mut state).unwrap();
    assert!(!state.result.did_match(0));
    assert!(matches!(state.result.capture(captures[&(0, 0, None)]), None));
}

#[test]
fn capture_callback_ordering() {
    let set0 = [
        field(
            vec![key("a")],
            FieldType::String,
            Some("(?<g1>x)(?<_skip>y)(?<g2>z)"),
            true,
        ),
        field(vec![key("b")], FieldType::Number, None, false),
        field(vec![key("c")], FieldType::Number, None, true),
    ];
    let set1 = [field(vec![key("d")], FieldType::Number, None, true)];
    let mut seen: Vec<CaptureCallbackArgs> = Vec::new();
    MatchMachine::compile(
        [Pattern { fields: &set0 }, Pattern { fields: &set1 }].into_iter(),
        |args| {
            seen.push(args);
        },
    )
    .unwrap();
    assert_eq!(
        seen,
        &[
            CaptureCallbackArgs {
                match_set_index: 0,
                field_index: 0,
                predicate_capture_name: None,
                capture_index_in_set: SetCaptureIndex::new(0).unwrap(),
                capture_index_in_machine: MachineCaptureIndex::new(0).unwrap(),
            },
            CaptureCallbackArgs {
                match_set_index: 0,
                field_index: 0,
                predicate_capture_name: Some("g1"),
                capture_index_in_set: SetCaptureIndex::new(1).unwrap(),
                capture_index_in_machine: MachineCaptureIndex::new(1).unwrap(),
            },
            CaptureCallbackArgs {
                match_set_index: 0,
                field_index: 0,
                predicate_capture_name: Some("g2"),
                capture_index_in_set: SetCaptureIndex::new(2).unwrap(),
                capture_index_in_machine: MachineCaptureIndex::new(2).unwrap(),
            },
            CaptureCallbackArgs {
                match_set_index: 0,
                field_index: 2,
                predicate_capture_name: None,
                capture_index_in_set: SetCaptureIndex::new(3).unwrap(),
                capture_index_in_machine: MachineCaptureIndex::new(3).unwrap(),
            },
            CaptureCallbackArgs {
                match_set_index: 1,
                field_index: 0,
                predicate_capture_name: None,
                capture_index_in_set: SetCaptureIndex::new(0).unwrap(),
                capture_index_in_machine: MachineCaptureIndex::new(4).unwrap(),
            },
        ]
    );
}

fn matched(machine: &MatchMachine, input: &str) -> bool {
    run(machine, input).unwrap().result.did_match(0)
}

fn compiles(sets: &[&[FieldPattern<'_>]]) -> bool {
    MatchMachine::compile(sets.iter().map(|fields| Pattern { fields }), |_| {}).is_ok()
}

#[test]
fn exhaustive_object() {
    let fields = [
        xfield(vec![key("cfg")], FieldType::Object, false),
        field(vec![key("cfg"), key("a")], FieldType::Number, None, false),
        field(vec![key("cfg"), key("b")], FieldType::String, None, false),
    ];
    let (machine, _) = compile(&[&fields]);
    assert!(matched(&machine, r#"{"cfg":{"a":1,"b":"x"}}"#));
    assert!(matched(&machine, r#"{"cfg":{"b":"x","a":1}}"#));
    assert!(!matched(&machine, r#"{"cfg":{"a":1,"b":"x","c":null}}"#));
}

#[test]
fn exhaustive_object_with_no_children_matches_only_empty() {
    let fields = [xfield(vec![key("cfg")], FieldType::Object, false)];
    let (machine, _) = compile(&[&fields]);
    assert!(matched(&machine, r#"{"cfg":{}}"#));
    assert!(!matched(&machine, r#"{"cfg":{"k":1}}"#));
}

#[test]
fn exhaustive_object_deep_coverage() {
    let fields = [
        xfield(vec![key("cfg")], FieldType::Object, false),
        field(vec![key("cfg"), key("a"), key("b")], FieldType::Number, None, false),
    ];
    let (machine, _) = compile(&[&fields]);
    assert!(matched(&machine, r#"{"cfg":{"a":{"b":1}}}"#));
    assert!(matched(&machine, r#"{"cfg":{"a":{"b":1,"z":9}}}"#));
    assert!(!matched(&machine, r#"{"cfg":{"a":{"b":1},"z":9}}"#));
}

#[test]
fn exhaustive_array() {
    let fields = [
        xfield(vec![key("arr")], FieldType::Array, false),
        field(vec![key("arr"), Index(0)], FieldType::Number, None, false),
        field(vec![key("arr"), Index(1)], FieldType::String, None, false),
    ];
    let (machine, _) = compile(&[&fields]);
    assert!(matched(&machine, r#"{"arr":[1,"x"]}"#));
    assert!(!matched(&machine, r#"{"arr":[1,"x",true]}"#));
    assert!(!matched(&machine, r#"{"arr":[1]}"#));
    assert!(!matched(&machine, r#"{"arr":[]}"#));
}

#[test]
fn exhaustive_array_hole_never_matches_past_it() {
    let fields = [
        xfield(vec![key("arr")], FieldType::Array, false),
        field(vec![key("arr"), Index(0)], FieldType::Number, None, false),
        field(vec![key("arr"), Index(2)], FieldType::Number, None, false),
    ];
    let (machine, _) = compile(&[&fields]);
    assert!(!matched(&machine, r#"{"arr":[1,2,3]}"#));
    assert!(!matched(&machine, r#"{"arr":[1]}"#));
}

#[test]
fn exhaustive_any_trivial_for_non_containers() {
    let fields = [xfield(vec![key("v")], FieldType::Any, false)];
    let (machine, _) = compile(&[&fields]);
    for good in [
        r#"{"v":5}"#,
        r#"{"v":"s"}"#,
        r#"{"v":true}"#,
        r#"{"v":null}"#,
        r#"{"v":{}}"#,
        r#"{"v":[]}"#,
    ] {
        assert!(matched(&machine, good), "{good}");
    }
    for bad in [r#"{"v":{"k":1}}"#, r#"{"v":[1]}"#] {
        assert!(!matched(&machine, bad), "{bad}");
    }
}

#[test]
fn exhaustive_root() {
    let fields = [
        xfield(vec![], FieldType::Object, false),
        field(vec![key("a")], FieldType::Number, None, false),
    ];
    let (machine, _) = compile(&[&fields]);
    assert!(matched(&machine, r#"{"a":1}"#));
    assert!(!matched(&machine, r#"{"a":1,"b":2}"#));
}

#[test]
fn exhaustive_under_any_index_resets_per_element() {
    let fields = [
        xfield(vec![key("list"), AnyIndex], FieldType::Object, false),
        field(vec![key("list"), AnyIndex, key("id")], FieldType::Number, None, false),
    ];
    let (machine, _) = compile(&[&fields]);
    assert!(matched(&machine, r#"{"list":[{"id":1,"extra":2},{"id":3}]}"#));
    assert!(!matched(&machine, r#"{"list":[{"id":1,"extra":2}]}"#));
}

#[test]
fn exhaustive_coverage_is_per_set() {
    let set0 = [
        xfield(vec![key("cfg")], FieldType::Object, false),
        field(vec![key("cfg"), key("a")], FieldType::Number, None, false),
    ];
    let set1 = [field(vec![key("cfg"), key("b")], FieldType::Number, None, false)];
    let (machine, _) = compile(&[&set0, &set1]);
    let state = run(&machine, r#"{"cfg":{"a":1,"b":2}}"#).unwrap();
    assert!(!state.result.did_match(0));
    assert!(state.result.did_match(1));
    let state = run(&machine, r#"{"cfg":{"a":1}}"#).unwrap();
    assert!(state.result.did_match(0));
    assert!(!state.result.did_match(1));
}

#[test]
fn exhaustive_cross_set_any_index_never_covers() {
    let set0 = [
        xfield(vec![key("arr")], FieldType::Array, false),
        field(vec![key("arr"), Index(0)], FieldType::Any, None, false),
    ];
    let set1 = [field(vec![key("arr"), AnyIndex], FieldType::String, None, false)];
    let (machine, _) = compile(&[&set0, &set1]);
    let state = run(&machine, r#"{"arr":["x"]}"#).unwrap();
    assert!(state.result.did_match(0));
    assert!(state.result.did_match(1));
    let state = run(&machine, r#"{"arr":["x","y"]}"#).unwrap();
    assert!(!state.result.did_match(0));
    assert!(state.result.did_match(1));
}

#[test]
fn exhaustive_capture_gated_by_violation() {
    let fields = [
        xfield(vec![key("cfg")], FieldType::Object, true),
        field(vec![key("cfg"), key("a")], FieldType::Number, None, false),
    ];
    let (machine, captures) = compile(&[&fields]);
    let input = r#"{"cfg":{"a":1}}"#;
    let state = run(&machine, input).unwrap();
    assert!(state.result.did_match(0));
    match state.result.capture(captures[&(0, 0, None)]) {
        Some(CaptureValue::Object(range)) => {
            assert_eq!(&input[range_u32_to_usize(*range)], r#"{"a":1}"#)
        }
        other => panic!("expected Object, got {other:?}"),
    }
    let state = run(&machine, r#"{"cfg":{"a":1,"b":2}}"#).unwrap();
    assert!(!state.result.did_match(0));
    assert!(matches!(state.result.capture(captures[&(0, 0, None)]), None));
}

#[test]
fn exhaustive_duplicate_members() {
    let fields = [
        xfield(vec![key("cfg")], FieldType::Object, false),
        field(vec![key("cfg"), key("a")], FieldType::Number, None, false),
    ];
    let (machine, _) = compile(&[&fields]);
    assert!(matched(&machine, r#"{"cfg":{"a":1,"a":2}}"#));
    assert!(matched(&machine, r#"{"cfg":{"z":1},"cfg":{"a":1}}"#));
}

#[test]
fn exhaustive_wrong_container_kind_unsatisfied() {
    let obj = [xfield(vec![key("cfg")], FieldType::Object, false)];
    let (machine, _) = compile(&[&obj]);
    assert!(!matched(&machine, r#"{"cfg":[]}"#));
    assert!(!matched(&machine, r#"{"cfg":1}"#));
    let arr = [xfield(vec![key("cfg")], FieldType::Array, false)];
    let (machine, _) = compile(&[&arr]);
    assert!(!matched(&machine, r#"{"cfg":{}}"#));
}

#[test]
fn exhaustive_tolerates_whitespace() {
    let fields = [
        xfield(vec![key("cfg")], FieldType::Object, false),
        field(vec![key("cfg"), key("a")], FieldType::Number, None, false),
    ];
    let (machine, _) = compile(&[&fields]);
    assert!(matched(&machine, "{ \"cfg\" : {\n\t\"a\" : 1\r\n} }"));
}

#[test]
fn exhaustive_escaped_key_coverage() {
    let fields = [
        xfield(vec![key("cfg")], FieldType::Object, false),
        field(vec![key("cfg"), key("A")], FieldType::Number, None, false),
    ];
    let (machine, _) = compile(&[&fields]);
    assert!(matched(&machine, r#"{"cfg":{"A":1}}"#));
}

#[test]
fn exhaustive_at_fixed_index_with_merged_wildcard() {
    let fields = [
        xfield(vec![key("a"), Index(0)], FieldType::Object, false),
        field(vec![key("a"), AnyIndex, key("x")], FieldType::Number, None, false),
    ];
    let (machine, _) = compile(&[&fields]);
    assert!(matched(&machine, r#"{"a":[{"x":1}]}"#));
    assert!(matched(&machine, r#"{"a":[{"x":1},{"y":5}]}"#));
    assert!(!matched(&machine, r#"{"a":[{"x":1,"z":2}]}"#));
}

#[test]
fn exhaustive_nested() {
    let fields = [
        xfield(vec![key("outer")], FieldType::Object, false),
        xfield(vec![key("outer"), key("inner")], FieldType::Object, false),
        field(vec![key("outer"), key("inner"), key("a")], FieldType::Number, None, false),
    ];
    let (machine, _) = compile(&[&fields]);
    assert!(matched(&machine, r#"{"outer":{"inner":{"a":1}}}"#));
    assert!(!matched(&machine, r#"{"outer":{"inner":{"a":1},"z":2}}"#));
    assert!(!matched(&machine, r#"{"outer":{"inner":{"a":1,"z":2}}}"#));
}

#[test]
fn validate_literal_json() {
    for good in ["[1,2,3]", r#"{"a":1}"#, r#""s""#, "null", "-0.5e2", "[1, 2]"] {
        let fields = [field(vec![key("l")], FieldType::Literal(good.into()), None, false)];
        assert!(compiles(&[&fields]), "should compile: {good}");
    }
    for bad in ["nope", "01", "1 2", " 1", "1 ", "1.", "", "tru", r#"{"a":}"#] {
        let fields = [field(vec![key("l")], FieldType::Literal(bad.into()), None, false)];
        assert!(
            matches!(
                compile_err(&[&fields]),
                CompileError::InvalidLiteral { set_index: 0, field_index: 0 }
            ),
            "should be invalid: {bad:?}"
        );
    }
}

#[test]
fn validate_container_type_mismatch() {
    let cases: Vec<[FieldPattern<'static>; 2]> = vec![
        [
            field(vec![key("foo")], FieldType::Object, None, false),
            field(vec![key("foo"), Index(0)], FieldType::Any, None, false),
        ],
        [
            field(vec![key("foo")], FieldType::Array, None, false),
            field(vec![key("foo"), key("k")], FieldType::Any, None, false),
        ],
        [
            field(vec![key("foo")], FieldType::Number, None, false),
            field(vec![key("foo"), key("baz")], FieldType::Any, None, false),
        ],
        [
            field(vec![key("foo")], FieldType::Literal("{}".into()), None, false),
            field(vec![key("foo"), key("k")], FieldType::Any, None, false),
        ],
    ];
    for fields in &cases {
        assert!(matches!(
            compile_err(&[fields]),
            CompileError::ContainerTypeMismatch {
                set_index: 0,
                container_field_index: 0,
                field_index: 1
            }
        ));
    }
    let swapped = [
        field(vec![key("foo"), Index(0)], FieldType::Any, None, false),
        field(vec![key("foo")], FieldType::Object, None, false),
    ];
    assert!(matches!(
        compile_err(&[&swapped]),
        CompileError::ContainerTypeMismatch {
            set_index: 0,
            container_field_index: 1,
            field_index: 0
        }
    ));
    let good = [
        field(vec![key("o")], FieldType::Object, None, false),
        field(vec![key("o"), key("k")], FieldType::Any, None, false),
        field(vec![key("a")], FieldType::Array, None, false),
        field(vec![key("a"), Index(0)], FieldType::Any, None, false),
        field(vec![key("a"), AnyIndex], FieldType::Any, None, false),
        field(vec![key("any")], FieldType::Any, None, false),
        field(vec![key("any"), key("k")], FieldType::Any, None, false),
    ];
    assert!(compiles(&[&good]));
    let set0 = [field(vec![key("foo")], FieldType::Object, None, false)];
    let set1 = [field(vec![key("foo"), Index(0)], FieldType::Any, None, false)];
    assert!(compiles(&[&set0, &set1]));
}

#[test]
fn validate_conflicting_container_kinds() {
    let fields = [
        field(vec![key("foo"), key("a")], FieldType::Any, None, false),
        field(vec![key("foo"), Index(0)], FieldType::Any, None, false),
    ];
    assert!(matches!(
        compile_err(&[&fields]),
        CompileError::ConflictingContainerKinds {
            set_index: 0,
            field_index_a: 0,
            field_index_b: 1
        }
    ));
    let fields = [
        field(vec![key("x"), key("y"), key("a")], FieldType::Any, None, false),
        field(vec![key("x"), key("y"), AnyIndex], FieldType::Any, None, false),
    ];
    assert!(matches!(
        compile_err(&[&fields]),
        CompileError::ConflictingContainerKinds { .. }
    ));
    let good = [
        field(vec![key("a"), Index(0)], FieldType::Any, None, false),
        field(vec![key("a"), AnyIndex], FieldType::Any, None, false),
        field(vec![key("o"), key("x")], FieldType::Any, None, false),
        field(vec![key("o"), key("y")], FieldType::Any, None, false),
    ];
    assert!(compiles(&[&good]));
}

#[test]
fn validate_any_index_under_exhaustive() {
    let fields = [
        xfield(vec![key("arr")], FieldType::Array, false),
        field(vec![key("arr"), AnyIndex], FieldType::Any, None, false),
    ];
    assert!(matches!(
        compile_err(&[&fields]),
        CompileError::AnyIndexUnderExhaustive {
            set_index: 0,
            container_field_index: 0,
            field_index: 1
        }
    ));
    let fields = [
        xfield(vec![key("cfg")], FieldType::Object, false),
        field(vec![key("cfg"), key("list"), AnyIndex], FieldType::Any, None, false),
    ];
    assert!(matches!(
        compile_err(&[&fields]),
        CompileError::AnyIndexUnderExhaustive { .. }
    ));
    let good = [
        xfield(vec![key("list"), AnyIndex], FieldType::Object, false),
        field(vec![key("list"), AnyIndex, key("id")], FieldType::Number, None, false),
    ];
    assert!(compiles(&[&good]));
    let set0 = [xfield(vec![key("arr")], FieldType::Array, false)];
    let set1 = [field(vec![key("arr"), AnyIndex], FieldType::Any, None, false)];
    assert!(compiles(&[&set0, &set1]));
}

#[test]
fn validate_exhaustive_unsupported_type() {
    for ty in [
        FieldType::String,
        FieldType::Number,
        FieldType::Bool,
        FieldType::Null,
        FieldType::Literal("1".into()),
    ] {
        let fields = [xfield(vec![key("v")], ty.clone(), false)];
        assert!(
            matches!(
                compile_err(&[&fields]),
                CompileError::ExhaustiveUnsupportedType { set_index: 0, field_index: 0 }
            ),
            "should reject exhaustive {ty:?}"
        );
    }
    for ty in [FieldType::Object, FieldType::Array, FieldType::Any] {
        let fields = [xfield(vec![key("v")], ty, false)];
        assert!(compiles(&[&fields]));
    }
}
