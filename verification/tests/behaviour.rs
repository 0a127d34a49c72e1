use json_match::lex::validate_escape;
use json_match::{
    parse_hex4, range_u32, range_u32_to_usize, unescape_into, CaptureValue, CompileError,
    FieldPattern, FieldType, MachineCaptureIndex, MatchError, MatchMachine, PathSegment, Pattern,
    Predicate, SetCaptureIndex, UnescapedString, DEFAULT_DEPTH_LIMIT,
};
use PathSegment::{AnyIndex, Index};

fn key(s: &str) -> PathSegment {
    PathSegment::Key(s.into())
}

fn plain(path: Vec<PathSegment>, field_type: FieldType, capture: bool) -> FieldPattern<'static> {
    FieldPattern {
        path: Vec::leak(path),
        field_type,
        predicate: None,
        capture,
        exhaustive: false,
    }
}

/// Compiles the sets and returns the machine with the machine capture index of
/// every capture record, in the order the callback saw them.
fn build(sets: &[&[FieldPattern<'_>]]) -> (MatchMachine, Vec<MachineCaptureIndex>) {
    let mut slots = Vec::new();
    let machine = MatchMachine::compile(sets.iter().map(|fields| Pattern { fields }), |args| {
        slots.push(args.capture_index_in_machine)
    })
    .unwrap();
    (machine, slots)
}

fn outcome(machine: &MatchMachine, input: &str) -> Result<Vec<u32>, MatchError> {
    let mut state = machine.allocate_state();
    machine.match_string(input, &mut state)?;
    Ok(state.result.matches())
}

#[test]
fn each_match_error_variant() {
    let fields = [plain(vec![key("a")], FieldType::Number, true)];
    let (machine, _) = build(&[&fields]);
    let cases: [(&str, MatchError); 8] = [
        (r#"{"a":x}"#, MatchError::UnexpectedByte { pos: 5, byte: b'x' }),
        (r#"{"a":1"#, MatchError::UnexpectedEof),
        (r#"{"a":1} x"#, MatchError::TrailingData { pos: 8 }),
        (r#"{"a":-}"#, MatchError::InvalidNumber { pos: 5 }),
        (r#"{"a":1e400}"#, MatchError::NumberOutOfRange { pos: 5 }),
        (r#"{"b":"\x"}"#, MatchError::InvalidEscape { pos: 6 }),
        ("", MatchError::UnexpectedEof),
        (r#"{"a":1,}"#, MatchError::UnexpectedByte { pos: 7, byte: b'}' }),
    ];
    for (input, expected) in cases {
        assert_eq!(outcome(&machine, input), Err(expected), "{input}");
    }
    let mut state = machine.allocate_state();
    state.set_depth_limit(1);
    assert_eq!(
        machine.match_string(r#"{"b":[[1]],"a":1}"#, &mut state),
        Err(MatchError::DepthLimitExceeded { pos: 6 })
    );
}

#[test]
fn overflow_threshold_is_exact() {
    // Halfway between f64::MAX and 2^1024: rounds to infinity.
    let threshold = "179769313486231580793728971405303415079934132710037826936173778980444968292764750946649017977587207096330286416692887910946555547851940402630657488671505820681908902000708383676273854845817711531764475730270069855571366959622842914819860834936475292719074168444365510704342711559699508093042880177904174497792";
    let below = "179769313486231580793728971405303415079934132710037826936173778980444968292764750946649017977587207096330286416692887910946555547851940402630657488671505820681908902000708383676273854845817711531764475730270069855571366959622842914819860834936475292719074168444365510704342711559699508093042880177904174497791";
    let fields = [plain(vec![key("n")], FieldType::Number, true)];
    let (machine, slots) = build(&[&fields]);

    let input = format!(r#"{{"n":{threshold}}}"#);
    assert_eq!(outcome(&machine, &input), Err(MatchError::NumberOutOfRange { pos: 5 }));
    let input = format!(r#"{{"n":-{threshold}.0e0}}"#);
    assert_eq!(outcome(&machine, &input), Err(MatchError::NumberOutOfRange { pos: 5 }));

    let input = format!(r#"{{"n":{below}}}"#);
    let mut state = machine.allocate_state();
    machine.match_string(&input, &mut state).unwrap();
    match state.result.capture(slots[0]) {
        Some(CaptureValue::Number(range)) => {
            let value: f64 = input[range_u32_to_usize(*range)].parse().unwrap();
            assert_eq!(value, f64::MAX);
        }
        other => panic!("expected Number, got {other:?}"),
    }
    // The same value written with a fraction and an exponent.
    for ok in ["1.7976931348623157e308", "17976931348623157e292", "0.00001e-400", "0e99999999999"] {
        let input = format!(r#"{{"n":{ok}}}"#);
        assert_eq!(outcome(&machine, &input), Ok(vec![0]), "{ok}");
    }
    for bad in ["1.8e308", "1797693134862315808e290", "1e99999999999999999999"] {
        let input = format!(r#"{{"n":{bad}}}"#);
        assert_eq!(outcome(&machine, &input), Err(MatchError::NumberOutOfRange { pos: 5 }), "{bad}");
    }
}

#[test]
fn set_matches_iff_all_fields_satisfied() {
    let set0 = [
        plain(vec![key("a")], FieldType::Number, false),
        plain(vec![key("b")], FieldType::String, false),
    ];
    let set1 = [plain(vec![key("a")], FieldType::Number, false)];
    let set2: [FieldPattern<'static>; 0] = [];
    let (machine, _) = build(&[&set0, &set1, &set2]);
    assert_eq!(outcome(&machine, r#"{"a":1,"b":"x"}"#), Ok(vec![0, 1, 2]));
    assert_eq!(outcome(&machine, r#"{"a":1,"b":2}"#), Ok(vec![1, 2]));
    assert_eq!(outcome(&machine, r#"[]"#), Ok(vec![2]));
    let mut state = machine.allocate_state();
    machine.match_string(r#"{"b":"x"}"#, &mut state).unwrap();
    let bits = state.result.match_results();
    assert_eq!(bits.len(), 3);
    assert!(!bits.get(0) && !bits.get(1) && bits.get(2));
}

#[test]
fn first_satisfying_value_is_kept() {
    let fields = [FieldPattern {
        predicate: Some(Predicate::new("^y").unwrap()),
        ..plain(vec![key("a")], FieldType::String, true)
    }];
    let (machine, slots) = build(&[&fields]);
    let input = r#"{"a":"x1","a":"y2","a":"y3"}"#;
    let mut state = machine.allocate_state();
    machine.match_string(input, &mut state).unwrap();
    assert!(state.result.did_match(0));
    match state.result.capture(slots[0]) {
        Some(CaptureValue::String(s)) => assert_eq!(s.resolve(input), "y2"),
        other => panic!("expected String, got {other:?}"),
    }
}

#[test]
fn any_index_applies_to_every_element() {
    let fields = [plain(vec![key("xs"), AnyIndex], FieldType::Number, false)];
    let (machine, _) = build(&[&fields]);
    assert_eq!(outcome(&machine, r#"{"xs":["a","b",3]}"#), Ok(vec![0]));
    assert_eq!(outcome(&machine, r#"{"xs":[]}"#), Ok(vec![]));
    let fields = [plain(vec![key("xs"), Index(2)], FieldType::Number, false)];
    let (machine, _) = build(&[&fields]);
    assert_eq!(outcome(&machine, r#"{"xs":[1,2,"c"]}"#), Ok(vec![]));
    assert_eq!(outcome(&machine, r#"{"xs":["a","b",3]}"#), Ok(vec![0]));
}

#[test]
fn escaped_key_spelling_resolves() {
    let fields = [
        FieldPattern {
            exhaustive: true,
            ..plain(vec![key("cfg")], FieldType::Object, false)
        },
        plain(vec![key("cfg"), key("A\"b")], FieldType::Number, false),
    ];
    let (machine, _) = build(&[&fields]);
    assert_eq!(outcome(&machine, r#"{"cfg":{"\u0041\"b":1}}"#), Ok(vec![0]));
    assert_eq!(outcome(&machine, r#"{"cfg":{"\u0041\"c":1}}"#), Ok(vec![]));
}

#[test]
fn literal_field_matches_equal_text_only() {
    let fields = [plain(vec![key("l")], FieldType::Literal("[1,2]".into()), true)];
    let (machine, slots) = build(&[&fields]);
    assert_eq!(slots.len(), 1);
    assert_eq!(outcome(&machine, r#"{"l":[1,2]}"#), Ok(vec![0]));
    assert_eq!(outcome(&machine, r#"{"l":[1,3]}"#), Ok(vec![]));
}

#[test]
fn capture_slots_follow_the_callback() {
    let set0 = [
        plain(vec![key("a")], FieldType::Number, true),
        plain(vec![key("b")], FieldType::Number, false),
    ];
    let set1 = [plain(vec![key("c")], FieldType::Bool, true)];
    let (machine, slots) = build(&[&set0, &set1]);
    assert_eq!(machine.num_match_sets(), 2);
    assert_eq!(machine.num_captures(), 2);
    assert_eq!(slots.iter().map(|s| s.get()).collect::<Vec<_>>(), vec![0, 1]);
    let input = r#"{"c":true,"a":7,"b":1}"#;
    let mut state = machine.allocate_state();
    machine.match_string(input, &mut state).unwrap();
    let captures = state.result.captures();
    assert_eq!(captures.len(), 2);
    assert!(matches!(captures[1], Some(CaptureValue::Bool(true))));
    match &captures[0] {
        Some(CaptureValue::Number(range)) => assert_eq!(&input[range_u32_to_usize(*range)], "7"),
        other => panic!("expected Number, got {other:?}"),
    }
}

#[test]
fn depth_limit_round_trips() {
    let (machine, _) = build(&[]);
    let mut state = machine.allocate_state();
    assert_eq!(state.depth_limit(), DEFAULT_DEPTH_LIMIT);
    state.set_depth_limit(0);
    assert_eq!(state.depth_limit(), 0);
    assert_eq!(machine.match_string("1", &mut state), Ok(()));
    assert_eq!(
        machine.match_string("[]", &mut state),
        Err(MatchError::DepthLimitExceeded { pos: 0 })
    );
}

#[test]
fn too_many_items_is_not_reachable_by_small_inputs() {
    let fields = [plain(vec![key("a")], FieldType::Any, false)];
    assert!(MatchMachine::compile([Pattern { fields: &fields }].into_iter(), |_| {}).is_ok());
    assert_ne!(
        MatchMachine::compile(
            [Pattern { fields: &[plain(vec![key("v")], FieldType::Bool, false)] }].into_iter(),
            |_| {}
        )
        .err(),
        Some(CompileError::TooManyItems)
    );
}

#[test]
fn predicate_rejects_bad_regex() {
    assert!(Predicate::new("(").is_err());
    assert!(Predicate::new("a(?<n>b)").is_ok());
}

#[test]
fn predicate_groups_are_captured_by_position() {
    let fields = [FieldPattern {
        predicate: Some(Predicate::new(r"(?<num>\d+)-(?<tail>.)").unwrap()),
        ..plain(vec![key("v")], FieldType::String, false)
    }];
    let mut names = Vec::new();
    let machine = MatchMachine::compile([Pattern { fields: &fields }].into_iter(), |args| {
        names.push((args.predicate_capture_name.map(str::to_owned), args.capture_index_in_set.get()))
    })
    .unwrap();
    assert_eq!(names, vec![(Some("num".to_owned()), 0), (Some("tail".to_owned()), 1)]);
    let input = r#"{"v":"ab12-z"}"#;
    let mut state = machine.allocate_state();
    machine.match_string(input, &mut state).unwrap();
    let texts: Vec<String> = state
        .result
        .captures()
        .iter()
        .map(|c| match c {
            Some(CaptureValue::PredicateCapture(s)) => s.resolve(input).to_owned(),
            other => panic!("expected String, got {other:?}"),
        })
        .collect();
    assert_eq!(texts, vec!["12".to_owned(), "z".to_owned()]);
}

#[test]
fn capture_index_constructors() {
    assert_eq!(MachineCaptureIndex::new(7).map(|i| i.get()), Some(7));
    assert_eq!(SetCaptureIndex::new(0).map(|i| i.get()), Some(0));
    assert!(MachineCaptureIndex::new(u32::MAX).is_none());
    assert!(SetCaptureIndex::new(u32::MAX).is_none());
    assert_eq!(SetCaptureIndex::new(u32::MAX - 1).map(|i| i.get()), Some(u32::MAX - 1));
}

#[test]
fn ranges_and_strings() {
    let r = range_u32(2, 5);
    assert_eq!(range_u32_to_usize(r), 2..5);
    assert_eq!(UnescapedString::Borrowed(r).resolve("abcdefg"), "cde");
    assert_eq!(UnescapedString::Owned("xy".into()).resolve("abcdefg"), "xy");
}

#[test]
fn hex_and_unescape() {
    assert_eq!(parse_hex4(b"00e9", 0), Some(0xe9));
    assert_eq!(parse_hex4(b"xxFFfF", 2), Some(0xffff));
    assert_eq!(parse_hex4(b"12g4", 0), None);
    let raw = r#"a\n\u00e9\ud83d\ude00\/b"#;
    let mut out = String::from("stale");
    assert_eq!(unescape_into(raw, &mut out, 1), Ok(()));
    assert_eq!(out, "stalea\n\u{e9}\u{1F600}/b");
    for (bad, at) in [(r"ab\q", 2), (r"\ud800x", 0), (r"x\udc00", 1), (r"ab\", 2), (r"\u12", 0)] {
        let mut out = String::new();
        assert_eq!(unescape_into(bad, &mut out, 10), Err(MatchError::InvalidEscape { pos: 10 + at }), "{bad}");
    }
}

#[test]
fn exhaustive_cover_comes_from_the_same_set() {
    let mut whole = plain(vec![key("cfg")], FieldType::Object, false);
    whole.exhaustive = true;
    let set0 = [whole, plain(vec![key("cfg"), key("a")], FieldType::Number, false)];
    let set1 = [plain(vec![key("cfg"), key("b")], FieldType::Number, false)];
    let (machine, _) = build(&[&set0, &set1]);
    assert_eq!(outcome(&machine, r#"{"cfg":{"a":1}}"#), Ok(vec![0]));
    // "b" lies on a path of set 1 only, so set 0's exhaustive field fails.
    assert_eq!(outcome(&machine, r#"{"cfg":{"a":1,"b":2}}"#), Ok(vec![1]));
}

#[test]
fn json_documents_are_accepted_and_others_refused() {
    let fields = [
        plain(vec![key("a"), AnyIndex], FieldType::Any, true),
        plain(vec![key("s")], FieldType::String, true),
    ];
    let (machine, _) = build(&[&fields]);
    for doc in [
        " null ",
        "\t[1, -0.5e+3, true, false, null, \"x\\u00e9\\ud83d\\ude00\"]\r\n",
        r#"{"a":[{"b":[[]]},{}],"s":"\"\\\/\b\f\n\r\t","z":{"y":[0,1e9]}}"#,
        r#"{"a":[],"s":"","a":[1]}"#,
    ] {
        assert!(outcome(&machine, doc).is_ok(), "{doc}");
    }
    for doc in ["nul", "[1,]", "{\"a\" 1}", "01", "\"\u{1}\"", "[1 2]", "{} {}", "\"\\ud800\""] {
        assert!(outcome(&machine, doc).is_err(), "{doc}");
    }
}

#[test]
fn failed_match_reports_no_set() {
    let fields = [plain(vec![key("a")], FieldType::Number, false)];
    let (machine, _) = build(&[&fields]);
    let mut state = machine.allocate_state();
    machine.match_string(r#"{"a":1}"#, &mut state).unwrap();
    assert_eq!(state.result.matches(), vec![0]);
    // The field is satisfied before the error is found; still no set matches.
    assert_eq!(machine.match_string(r#"{"a":1,"#, &mut state), Err(MatchError::UnexpectedEof));
    assert_eq!(state.result.matches(), Vec::<u32>::new());
    assert!(!state.result.did_match(0));
}

#[test]
fn unescape_error_keeps_what_came_before() {
    let mut out = String::from("x");
    assert_eq!(
        unescape_into(r"ab\ncd\q", &mut out, 3),
        Err(MatchError::InvalidEscape { pos: 9 })
    );
    assert_eq!(out, "xab\ncd");
    let mut out = String::from("y");
    assert_eq!(unescape_into(r"\u12", &mut out, 0), Err(MatchError::InvalidEscape { pos: 0 }));
    assert_eq!(out, "y");
}

#[test]
fn escape_validation_agrees_with_decoding() {
    let cases: [&str; 8] = [r"\n", r"\u00e9", r"\ud83d\ude00", r"\q", r"\u12x4", r"\udc00", r"\ud800\n", r"\ud800\u0041"];
    for case in cases {
        let text = format!("ab{case}z");
        let mut out = String::new();
        let decoded = unescape_into(&text[2..], &mut out, 2);
        match validate_escape(text.as_bytes(), 2) {
            Ok(end) => {
                assert!(decoded.is_ok(), "{case}");
                let mut one = String::new();
                assert_eq!(unescape_into(&text[2..end as usize], &mut one, 2), Ok(()), "{case}");
                assert_eq!(one.chars().count(), 1, "{case}");
            }
            Err(e) => {
                assert_eq!(e, MatchError::InvalidEscape { pos: 2 }, "{case}");
                assert_eq!(decoded, Err(MatchError::InvalidEscape { pos: 2 }), "{case}");
            }
        }
    }
}

#[test]
fn escaped_text_decodes_back() {
    let text = "quote \" back \\ tab \t nul \u{0} bell \u{7} unit \u{1f} é 😀 /";
    let mut escaped = String::new();
    for c in text.chars() {
        match c {
            '"' => escaped.push_str("\\\""),
            '\\' => escaped.push_str("\\\\"),
            c if (c as u32) < 0x20 => escaped.push_str(&format!("\\u00{:02x}", c as u32)),
            c => escaped.push(c),
        }
    }
    let mut out = String::new();
    assert_eq!(unescape_into(&escaped, &mut out, 0), Ok(()));
    assert_eq!(out, text);
    // Every character other than a quote or backslash as a `\u` escape,
    // above U+FFFF as a surrogate pair.
    let mut escaped = String::new();
    for c in text.chars() {
        match c {
            '"' => escaped.push_str("\\\""),
            '\\' => escaped.push_str("\\\\"),
            c => {
                let mut units = [0u16; 2];
                for unit in c.encode_utf16(&mut units) {
                    escaped.push_str(&format!("\\u{:04x}", unit));
                }
            }
        }
    }
    let mut out = String::from("kept ");
    assert_eq!(unescape_into(&escaped, &mut out, 0), Ok(()));
    assert_eq!(out, format!("kept {text}"));
    // The same with uppercase hexadecimal letters.
    let upper = escaped.replace("\\ud83d\\ude00", "\\uD83D\\uDE00").replace("\\u00e9", "\\u00E9");
    assert_ne!(upper, escaped);
    let mut out = String::new();
    assert_eq!(unescape_into(&upper, &mut out, 0), Ok(()));
    assert_eq!(out, text);
}

#[test]
fn nesting_along_pattern_paths_is_not_limited() {
    let fields = [plain(vec![key("a"), key("b"), Index(0), key("c")], FieldType::Number, false)];
    let (machine, _) = build(&[&fields]);
    let mut state = machine.allocate_state();
    state.set_depth_limit(1);
    // Four levels along the pattern's path, one level in the skipped member.
    assert_eq!(machine.match_string(r#"{"a":{"b":[{"c":1}]},"z":[1]}"#, &mut state), Ok(()));
    assert_eq!(state.result.matches(), vec![0]);
    // Two levels in a skipped member exceed the limit.
    assert_eq!(
        machine.match_string(r#"{"a":{"b":[{"c":1}]},"z":[[1]]}"#, &mut state),
        Err(MatchError::DepthLimitExceeded { pos: 26 })
    );
}
