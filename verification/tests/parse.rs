use maml::from_str;
use maml::parse_with_report;
use maml::parser::parser;
use maml::tokenizer::tokenize;
use maml::tokenizer::Token;
use maml::utils::parse_string;
use maml::ErrorReason;
use maml::MamlValue;

#[test]
fn test_basic_values() {
    assert!(matches!(from_str("null").unwrap(), MamlValue::Null));
    assert!(matches!(from_str("true").unwrap(), MamlValue::Bool(true)));
    assert!(matches!(from_str("42").unwrap(), MamlValue::Int(42)));
    assert!(matches!(from_str("3.14").unwrap(), MamlValue::Float(_)));
}

#[test]
fn test_string() {
    let val = from_str(r#""hello world""#).unwrap();
    assert!(matches!(val, MamlValue::String(s) if s == "hello world"));
}

#[test]
fn test_array() {
    let val = from_str("[1, 2, 3]").unwrap();
    if let MamlValue::Array(arr) = val {
        assert_eq!(arr.len(), 3);
    } else {
        panic!("Expected array");
    }
}

#[test]
fn test_object() {
    let val = from_str(r#"{ name: "test", value: 42 }"#).unwrap();
    if let MamlValue::Object(obj) = val {
        assert_eq!(obj.len(), 2);
        assert!(obj.iter().any(|(k, _)| k == "name"));
    } else {
        panic!("Expected object");
    }
}

#[test]
fn test_raw_string() {
    let val = from_str(
        r#""""
hello
world
""""#,
    )
    .unwrap();
    if let MamlValue::String(s) = val {
        assert_eq!(s, "hello\nworld\n");
    } else {
        panic!("Expected string");
    }
}

#[test]
fn test_false_literal() {
    assert!(matches!(from_str("false").unwrap(), MamlValue::Bool(false)));
}

#[test]
fn test_number_classification() {
    assert!(matches!(from_str("42").unwrap(), MamlValue::Int(42)));
    match from_str("3.14").unwrap() {
        MamlValue::Float(lexeme) => {
            assert_eq!(lexeme, "3.14");
            let f: f64 = lexeme.parse().unwrap();
            assert!((f - 3.14).abs() < 1e-12);
        }
        other => panic!("expected a float, got {:?}", other),
    }
    // an exponent without a decimal point is still a float, not an integer
    match from_str("1e10").unwrap() {
        MamlValue::Float(lexeme) => {
            let f: f64 = lexeme.parse().unwrap();
            assert!((f - 1e10).abs() < 1.0);
        }
        other => panic!("expected a float, got {:?}", other),
    }
    assert!(matches!(from_str("-7").unwrap(), MamlValue::Int(-7)));
}

#[test]
fn test_array_order() {
    let val = from_str("[1, 2, 3]").unwrap();
    if let MamlValue::Array(arr) = val {
        assert_eq!(arr.len(), 3);
        assert!(matches!(arr[0], MamlValue::Int(1)));
        assert!(matches!(arr[1], MamlValue::Int(2)));
        assert!(matches!(arr[2], MamlValue::Int(3)));
    } else {
        panic!("expected an array");
    }
}

#[test]
fn test_object_exact_members() {
    let val = from_str(r#"{ name: "test", value: 42 }"#).unwrap();
    if let MamlValue::Object(obj) = val {
        assert_eq!(obj.len(), 2);
        assert!(matches!(&obj[0], (k, MamlValue::String(s)) if k == "name" && s == "test"));
        assert!(matches!(&obj[1], (k, MamlValue::Int(42)) if k == "value"));
    } else {
        panic!("expected an object");
    }
}

#[test]
fn test_raw_string_crlf_strip() {
    let val = from_str("\"\"\"\r\nhey\"\"\"").unwrap();
    assert!(matches!(val, MamlValue::String(s) if s == "hey"));
}

#[test]
fn test_raw_string_no_strip_without_newline() {
    let val = from_str(r#""""plain""""#).unwrap();
    assert!(matches!(val, MamlValue::String(s) if s == "plain"));
}

#[test]
fn test_round_trip() {
    let sources = [
        "null",
        "true",
        "[1, 2, 3]",
        r#"{ name: "test", value: 42, more: [1.5, "a\nb", null, { x: [] }] }"#,
        "\"tab\\tquote\\\"backslash\\\\u\\u{1F600}\"",
        "-9223372036854775808",
    ];
    for src in sources {
        let tree = from_str(src).unwrap();
        let text = tree.to_text();
        let again = from_str(&text).unwrap_or_else(|e| panic!("re-parse of {text:?} failed: {e}"));
        assert_eq!(tree, again, "round trip changed the tree for {src:?}");
    }
}

#[test]
fn test_malformed_array_recovers() {
    // the malformed inner array is replaced by an empty one, one error is
    // recorded spanning the region, and the sibling still parses
    let tokens = tokenize("[[1, , 2], 3]").unwrap();
    let (val, errs) = parser(&tokens);
    assert_eq!(errs.len(), 1);
    assert_eq!(errs[0].span.start, 1);
    assert_eq!(errs[0].span.end, 9);
    match val {
        Some(MamlValue::Array(arr)) => {
            assert_eq!(arr.len(), 2);
            assert!(matches!(&arr[0], MamlValue::Array(inner) if inner.is_empty()));
            assert!(matches!(arr[1], MamlValue::Int(3)));
        }
        other => panic!("expected a recovered array, got {:?}", other),
    }
    // through the rendering entry point the same input is an error
    let report = from_str("[[1, , 2], 3]").unwrap_err();
    assert!(report.contains("malformed array body"));
}

#[test]
fn test_unbalanced_bracket_fails() {
    assert!(from_str("[1, 2").is_err());
    assert!(from_str("{ a: 1").is_err());
}

#[test]
fn test_duplicate_keys_last_wins() {
    let val = from_str("{ a: 1, a: 2 }").unwrap();
    if let MamlValue::Object(obj) = val {
        assert_eq!(obj.len(), 1);
        assert!(matches!(&obj[0], (k, MamlValue::Int(2)) if k == "a"));
    } else {
        panic!("expected an object");
    }
}

#[test]
fn test_integer_overflow() {
    let err = tokenize("99999999999999999999").unwrap_err();
    assert_eq!(err.reason, ErrorReason::IntegerOverflow);
    assert!(from_str("99999999999999999999").is_err());
    assert!(from_str("9223372036854775808").is_err());
    assert!(matches!(
        from_str("9223372036854775807").unwrap(),
        MamlValue::Int(9223372036854775807)
    ));
    assert!(matches!(
        from_str("-9223372036854775808").unwrap(),
        MamlValue::Int(-9223372036854775808)
    ));
}

#[test]
fn test_unterminated_string() {
    let err = tokenize("\"abc").unwrap_err();
    assert_eq!(err.reason, ErrorReason::UnterminatedLiteral);
    assert_eq!(err.span.start, 0);
    assert_eq!(err.span.end, 4);
    assert_eq!(from_str("\"abc").unwrap_err(), "Lexer error at 0..4");
}

#[test]
fn test_unterminated_raw_string() {
    let err = tokenize("\"\"\"abc").unwrap_err();
    assert_eq!(err.reason, ErrorReason::UnterminatedLiteral);
}

#[test]
fn test_escapes() {
    let val = from_str(r#""a\nb\t\"\\\u{48}\u{1F600}""#).unwrap();
    assert!(matches!(val, MamlValue::String(s) if s == "a\nb\t\"\\H\u{1F600}"));
}

#[test]
fn test_parse_string_rejects_bad_escapes() {
    assert_eq!(parse_string("plain").unwrap(), "plain");
    assert_eq!(parse_string("a\\u{48}").unwrap(), "aH");
    assert!(parse_string("\\q").is_none());
    assert!(parse_string("\\u{}").is_none());
    assert!(parse_string("\\u{1234567}").is_none());
    assert!(parse_string("\\u{110000}").is_none());
    assert!(parse_string("\\u{D800}").is_none());
    assert!(parse_string("trailing\\").is_none());
}

#[test]
fn test_malformed_escape_is_lexer_error() {
    let err = tokenize("\"a\\qb\"").unwrap_err();
    assert_eq!(err.reason, ErrorReason::MalformedEscape);
}

#[test]
fn test_comments_and_newlines() {
    let val = from_str("# a comment\n[1 # inline\n2]\n").unwrap();
    if let MamlValue::Array(arr) = val {
        assert_eq!(arr.len(), 2);
    } else {
        panic!("expected an array");
    }
}

#[test]
fn test_newline_separated_object() {
    let val = from_str("{\n  a: 1\n  b: 2\n}").unwrap();
    if let MamlValue::Object(obj) = val {
        assert_eq!(obj.len(), 2);
    } else {
        panic!("expected an object");
    }
}

#[test]
fn test_trailing_separators() {
    assert!(matches!(from_str("[1, 2,]").unwrap(), MamlValue::Array(a) if a.len() == 2));
    assert!(matches!(from_str("{ a: 1, }").unwrap(), MamlValue::Object(o) if o.len() == 1));
    assert!(matches!(from_str("[]").unwrap(), MamlValue::Array(a) if a.is_empty()));
    assert!(matches!(from_str("{}").unwrap(), MamlValue::Object(o) if o.is_empty()));
}

#[test]
fn test_nesting_depth_limit() {
    let deep = "[".repeat(200) + &"]".repeat(200);
    assert!(from_str(&deep).is_err());
    let ok = "[".repeat(100) + &"]".repeat(100);
    assert!(from_str(&ok).is_ok());
}

#[test]
fn test_trailing_input_is_error() {
    assert!(from_str("1 2").is_err());
    assert!(from_str("").is_err());
}

#[test]
fn test_keyword_prefix_is_key() {
    // `nullx` is a key, not the null keyword, so it is no top-level value
    assert!(from_str("nullx").is_err());
    let val = from_str("{ nullx: 1 }").unwrap();
    if let MamlValue::Object(obj) = val {
        assert!(matches!(&obj[0], (k, MamlValue::Int(1)) if k == "nullx"));
    } else {
        panic!("expected an object");
    }
}

#[test]
fn test_token_describe() {
    assert_eq!(Token::Int(-5).describe(), "-5");
    assert_eq!(Token::Int(12345).describe(), "12345");
    assert_eq!(Token::Null.describe(), "null");
    assert_eq!(Token::String("hi".to_string()).describe(), "\"hi\"");
    assert_eq!(Token::Newline.describe(), "\\n");
}

#[test]
fn test_to_text_exact() {
    let val = from_str(r#"{ name: "a\nb", xs: [1, -2.5e3] }"#).unwrap();
    assert_eq!(val.to_text(), "{\"name\": \"a\\nb\", \"xs\": [1, -2.5e3]}");
}

#[test]
fn test_parse_with_report_success_and_failure() {
    let (val, report) = parse_with_report("conf.maml", "[true]");
    assert!(matches!(val, Some(MamlValue::Array(_))));
    assert!(report.is_empty());
    let (val, report) = parse_with_report("conf.maml", "[true");
    assert!(val.is_none());
    assert!(!report.is_empty());
}

#[test]
fn test_report_names_the_source() {
    // the rendered report carries the message and source name, so the
    // rendering is not just echoing its input back
    let (_, report) = parse_with_report("widget.maml", "[1, , 2]");
    assert!(report.contains("widget.maml"));
    assert!(report.contains("malformed array body"));
}

#[test]
fn test_lexer_rejects_stray_characters() {
    let err = tokenize("@").unwrap_err();
    assert_eq!(err.reason, ErrorReason::Unexpected);
    let err = tokenize("\"a\nb\"").unwrap_err();
    assert_eq!(err.reason, ErrorReason::Unexpected);
}

#[test]
fn test_get() {
    let val = from_str(r#"{ a: 1, b: "x" }"#).unwrap();
    assert!(matches!(val.get("a"), Some(MamlValue::Int(1))));
    assert!(matches!(val.get("b"), Some(MamlValue::String(s)) if s == "x"));
    assert!(val.get("c").is_none());
    assert!(MamlValue::Int(3).get("a").is_none());
}

#[test]
fn test_missing_separator_is_expected_error() {
    let tokens = tokenize("[1 2").unwrap();
    let (val, errs) = parser(&tokens);
    assert!(val.is_none());
    assert_eq!(errs.len(), 1);
    assert_eq!(errs[0].reason, ErrorReason::Expected);
}

#[test]
fn test_parse_with_report_lexer_error() {
    let (val, report) = parse_with_report("conf.maml", "\"abc");
    assert!(val.is_none());
    assert_eq!(report, "Lexer error at 0..4");
}

#[test]
fn test_error_reports_plain_and_stable() {
    // the report is rendered without color, so it holds no ANSI escapes
    // and two renderings of the same input are identical
    let a = from_str("[1, , 2]").unwrap_err();
    let b = from_str("[1, , 2]").unwrap_err();
    assert_eq!(a, b);
    assert!(!a.contains('\u{1b}'));
    let (_, report) = parse_with_report("conf.maml", "[1, , 2]");
    assert!(!report.contains('\u{1b}'));
}
