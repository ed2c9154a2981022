use minijson::json::{Number, Value};
use minijson::lex::TokenKind;
use minijson::parse::Parse;

fn parse(s: &str) -> Result<Value, minijson::parse::ParseError> {
    Parse::new(s).value()
}

fn num(neg: bool, sig: u64, exp: i64) -> Value {
    Value::Number(Number { neg, sig, exp })
}

/// The reconstruction of a binary float from the decimal triple: repeated
/// multiplication or division by ten, then the sign.
fn to_f64(n: &Number) -> f64 {
    let mut magnitude = n.sig as f64;
    let mut e = n.exp;
    while e > 0 {
        magnitude *= 10.0;
        e -= 1;
    }
    while e < 0 {
        magnitude /= 10.0;
        e += 1;
    }
    if n.neg {
        -magnitude
    } else {
        magnitude
    }
}

#[test]
fn test() {
    let s = r#"{ "foo": 3, "bar": ["baz", -5.8], "qux": 13e5 }"#;
    assert!(Parse::new(s).value().is_ok());
}

#[test]
fn whole_tree_of_sample() {
    let s = r#"{ "foo": 3, "bar": ["baz", -5.8], "qux": 13e5 }"#;
    let expected = Value::Object(vec![
        (String::from("foo"), num(false, 3, 0)),
        (
            String::from("bar"),
            Value::Array(vec![Value::String(String::from("baz")), num(true, 58, -1)]),
        ),
        (String::from("qux"), num(false, 13, 5)),
    ]);
    assert_eq!(parse(s).unwrap(), expected);
}

#[test]
fn unicode_escape_parses_to_the_character() {
    assert_eq!(parse(r#""\u0041""#).unwrap(), Value::String(String::from("A")));
}

#[test]
fn surrogate_pair_parses_to_one_codepoint() {
    assert_eq!(
        parse(r#""\ud83d\ude00""#).unwrap(),
        Value::String(String::from("\u{1F600}"))
    );
}

#[test]
fn unpaired_high_surrogate_is_replacement_not_error() {
    assert_eq!(
        parse(r#""\ud800""#).unwrap(),
        Value::String(String::from("\u{FFFD}"))
    );
}

#[test]
fn lone_low_surrogate_is_replacement() {
    assert_eq!(
        parse(r#""\udc00""#).unwrap(),
        Value::String(String::from("\u{FFFD}"))
    );
}

#[test]
fn high_surrogate_with_bad_partner_consumes_both_escapes() {
    // the second escape is consumed as part of the failed pairing
    assert_eq!(
        parse(r#""\ud83d\u0041""#).unwrap(),
        Value::String(String::from("\u{FFFD}"))
    );
    // but a plain character after the high surrogate stays
    assert_eq!(
        parse(r#""\ud83dA""#).unwrap(),
        Value::String(String::from("\u{FFFD}A"))
    );
}

#[test]
fn empty_object_and_empty_array() {
    assert_eq!(parse("{}").unwrap(), Value::Object(vec![]));
    assert_eq!(parse("[]").unwrap(), Value::Array(vec![]));
}

#[test]
fn duplicate_key_last_write_wins() {
    assert_eq!(
        parse(r#"{"a":1,"a":2}"#).unwrap(),
        Value::Object(vec![(String::from("a"), num(false, 2, 0))])
    );
}

#[test]
fn number_reconstruction() {
    let minus_zero = parse("-0").unwrap();
    assert_eq!(minus_zero, num(true, 0, 0));
    if let Value::Number(n) = &minus_zero {
        let f = to_f64(n);
        assert_eq!(f, 0.0);
        assert!(f.is_sign_negative());
    } else {
        unreachable!();
    }

    let pi_ish = parse("3.14").unwrap();
    assert_eq!(pi_ish, num(false, 314, -2));
    if let Value::Number(n) = &pi_ish {
        assert!((to_f64(n) - 3.14).abs() < 1e-12);
    } else {
        unreachable!();
    }

    let big = parse("13e5").unwrap();
    assert_eq!(big, num(false, 13, 5));
    if let Value::Number(n) = &big {
        assert_eq!(to_f64(n), 1300000.0);
    } else {
        unreachable!();
    }
}

#[test]
fn empty_buffer_fails_at_end_token() {
    let err = parse("").unwrap_err();
    assert_eq!(err.token.kind, TokenKind::End);
    assert_eq!(err.token.start, 0);
    assert_eq!(err.token.end, 0);
}

#[test]
fn missing_closing_brace_is_an_error() {
    assert!(parse(r#"{"a":1"#).is_err());
}

#[test]
fn trailing_token_is_an_error() {
    let err = parse("true false").unwrap_err();
    assert_eq!(err.token.kind, TokenKind::Bool(false));
    assert_eq!(err.token.start, 5);
    assert_eq!(err.token.end, 10);
}

#[test]
fn leading_and_trailing_whitespace_are_skipped() {
    assert_eq!(parse("  null \r\n\t").unwrap(), Value::Null);
}

#[test]
fn scalars() {
    assert_eq!(parse("true").unwrap(), Value::Bool(true));
    assert_eq!(parse("false").unwrap(), Value::Bool(false));
    assert_eq!(parse("null").unwrap(), Value::Null);
    assert_eq!(parse(r#""""#).unwrap(), Value::String(String::new()));
}

#[test]
fn nested_structures() {
    let s = r#"[{"k":[1,[true,null]]},{}]"#;
    let expected = Value::Array(vec![
        Value::Object(vec![(
            String::from("k"),
            Value::Array(vec![
                num(false, 1, 0),
                Value::Array(vec![Value::Bool(true), Value::Null]),
            ]),
        )]),
        Value::Object(vec![]),
    ]);
    assert_eq!(parse(s).unwrap(), expected);
}

#[test]
fn lexical_error_token_fails_the_parse() {
    let err = parse("[1, @]").unwrap_err();
    assert_eq!(err.token.kind, TokenKind::Error);
    assert_eq!(err.token.start, 4);
    assert_eq!(err.token.end, 5);
}

#[test]
fn unterminated_string_fails_the_parse() {
    let err = parse(r#"{"a"#).unwrap_err();
    assert_eq!(err.token.kind, TokenKind::Error);
}

#[test]
fn missing_colon_or_key_fails() {
    assert!(parse(r#"{"a" 1}"#).is_err());
    assert!(parse(r#"{1:2}"#).is_err());
    assert!(parse(r#"{"a":1,}"#).is_err());
    assert!(parse(r#"[1,]"#).is_err());
    assert!(parse(r#"[1 2]"#).is_err());
}

#[test]
fn no_partial_value_on_failure() {
    // the first unexpected token aborts the entire parse
    assert!(parse(r#"[1, 2, }"#).is_err());
    assert!(parse(r#"{"a": {"b": ]}}"#).is_err());
}

fn encode(v: &Value, out: &mut String) {
    match v {
        Value::String(s) => {
            out.push('"');
            for c in s.chars() {
                match c {
                    '"' => out.push_str("\\\""),
                    '\\' => out.push_str("\\\\"),
                    c if (c as u32) < 0x20 => {
                        out.push_str(&format!("\\u{:04x}", c as u32));
                    }
                    c => out.push(c),
                }
            }
            out.push('"');
        }
        Value::Number(n) => {
            if n.neg {
                out.push('-');
            }
            out.push_str(&format!("{}e{}", n.sig, n.exp));
        }
        Value::Bool(true) => out.push_str("true"),
        Value::Bool(false) => out.push_str("false"),
        Value::Null => out.push_str("null"),
        Value::Object(pairs) => {
            out.push('{');
            for (i, (k, v)) in pairs.iter().enumerate() {
                if i > 0 {
                    out.push(',');
                }
                encode(&Value::String(k.clone()), out);
                out.push(':');
                encode(v, out);
            }
            out.push('}');
        }
        Value::Array(items) => {
            out.push('[');
            for (i, v) in items.iter().enumerate() {
                if i > 0 {
                    out.push(',');
                }
                encode(v, out);
            }
            out.push(']');
        }
    }
}

#[test]
fn round_trip_reconstructs_the_tree() {
    let tree = Value::Object(vec![
        (String::from("s"), Value::String(String::from("a\"b\\c\nd"))),
        (String::from("n"), num(true, 125, -2)),
        (String::from("b"), Value::Bool(true)),
        (String::from("z"), Value::Null),
        (
            String::from("arr"),
            Value::Array(vec![
                num(false, 0, 0),
                Value::Object(vec![(String::from("k"), Value::String(String::new()))]),
                Value::Array(vec![]),
            ]),
        ),
    ]);
    let mut text = String::new();
    encode(&tree, &mut text);
    assert_eq!(parse(&text).unwrap(), tree);
}

#[test]
fn insert_pair_overwrites_equal_keys_in_place() {
    let mut obj: minijson::json::Object = Vec::new();
    minijson::json::insert_pair(&mut obj, String::from("x"), num(false, 1, 0));
    minijson::json::insert_pair(&mut obj, String::from("y"), num(false, 2, 0));
    minijson::json::insert_pair(&mut obj, String::from("x"), num(false, 3, 0));
    assert_eq!(
        obj,
        vec![
            (String::from("x"), num(false, 3, 0)),
            (String::from("y"), num(false, 2, 0)),
        ]
    );
}
