use gguf_chisel::json::{encode, encode_pretty, escape, parse, Json};

#[test]
fn parses_scalars_including_exact_u64() {
    assert_eq!(parse("null").unwrap(), Json::Null);
    assert_eq!(parse("true").unwrap(), Json::Bool(true));
    assert_eq!(parse("false").unwrap(), Json::Bool(false));
    assert_eq!(parse("42").unwrap(), Json::Int(42));
    assert_eq!(parse("-7").unwrap(), Json::Int(-7));
    assert_eq!(parse("1.5").unwrap(), Json::Float(1.5f64.to_bits()));
    assert_eq!(parse("-0.5e3").unwrap(), Json::Float((-500.0f64).to_bits()));
    assert_eq!(parse("\"hi\"").unwrap(), Json::Str("hi".into()));

    // This is the whole reason Int is i128: GGUF u64 values must not be
    // squeezed through f64 (2^53) on their way in or out.
    let v = parse("18446744073709551615").unwrap();
    assert_eq!(v, Json::Int(u64::MAX as i128));
    assert_eq!(encode(&v), "18446744073709551615");
}

#[test]
fn string_escapes_roundtrip_including_surrogate_pairs() {
    let v = parse(r#""a\n\t\"\\ é 😀""#).unwrap();
    assert_eq!(v, Json::Str("a\n\t\"\\ é 😀".into()));
    let encoded = encode(&v);
    assert_eq!(parse(&encoded).unwrap(), v);
}

#[test]
fn object_key_order_is_preserved() {
    let v = parse(r#"{"z":1,"a":2,"m":3}"#).unwrap();
    let Json::Obj(pairs) = &v else {
        panic!("not an object")
    };
    let keys: Vec<&str> = pairs.iter().map(|(k, _)| k.as_str()).collect();
    assert_eq!(keys, ["z", "a", "m"]);
    assert_eq!(v.get("a"), Some(&Json::Int(2)));

    let src = r#"{"set":{"k":{"type":"u32","value":4096}},"delete":["a","b"]}"#;
    let v = parse(src).unwrap();
    assert_eq!(encode(&v), src);
}

#[test]
fn pretty_encoding_uses_two_space_indent() {
    let v = parse(r#"{"a":[1,2]}"#).unwrap();
    let pretty = encode_pretty(&v);
    assert_eq!(pretty, "{\n  \"a\": [\n    1,\n    2\n  ]\n}");
    assert_eq!(parse(&pretty).unwrap(), v);
}

#[test]
fn rejects_malformed_documents() {
    let e = parse("{} extra").unwrap_err();
    assert!(e.message.contains("trailing"), "{e:?}");

    assert!(parse("012").is_err());
    assert!(parse("tru").is_err());
    assert!(parse("NaN").is_err());

    assert!(parse("\"abc").is_err());
    assert!(parse(r#""\q""#).is_err());
    assert!(parse(r#""\ud800""#).is_err(), "lone high surrogate");
}

#[test]
fn error_carries_line_and_column() {
    let e = parse("{\n  \"a\": ,\n}").unwrap_err();
    assert_eq!(e.line, 2);
    assert!(e.col > 1);
}

#[test]
fn depth_cap_prevents_stack_exhaustion() {
    let deep = "[".repeat(200) + &"]".repeat(200);
    let e = parse(&deep).unwrap_err();
    assert!(e.message.contains("nesting"), "{e:?}");
}

#[test]
fn encode_handles_nonfinite_floats_and_control_characters() {
    assert_eq!(encode(&Json::Float(f64::NAN.to_bits())), "null");
    assert_eq!(encode(&Json::Float(f64::INFINITY.to_bits())), "null");

    let s = Json::Str("a\u{1}b".into());
    assert_eq!(encode(&s), "\"a\\u0001b\"");
    assert_eq!(parse(&encode(&s)).unwrap(), s);
}

#[test]
fn errors_say_what_was_expected_and_where() {
    let text = |src: &str| parse(src).unwrap_err().to_text();
    assert_eq!(text(""), "unexpected end of input at 1:1");
    assert_eq!(text("[1,"), "unexpected end of input at 1:4");
    assert_eq!(text("[1 2]"), "expected ',' or ']' at 1:4");
    assert_eq!(text("{\"a\" 1}"), "expected ':' at 1:6");
    assert_eq!(text("{\"a\":1 \"b\"}"), "expected ',' or '}' at 1:8");
    assert_eq!(text("{1:2}"), "expected a string key at 1:2");
    assert_eq!(text("nul"), "invalid literal (expected 'null') at 1:1");
    assert_eq!(text("falsy"), "invalid literal (expected 'false') at 1:1");
    assert_eq!(text("?"), "unexpected character '?' at 1:1");
    assert_eq!(text("é"), "unexpected character 'Ã' at 1:1");
    assert_eq!(text("\"é\n\""), "raw control character in string at 1:4");
    assert_eq!(text("\"abc"), "unterminated string at 1:5");
    assert_eq!(text("\"\\q\""), "invalid escape sequence at 1:3");
    assert_eq!(text("\"\\u12\""), "truncated \\u escape at 1:4");
    assert_eq!(text("\"\\u12g4\""), "invalid \\u escape at 1:4");
    assert_eq!(text("\"\\u000é\""), "invalid \\u escape at 1:4");
    assert_eq!(text("[1,\n \"é\\u00é\"]"), "invalid \\u escape at 2:7");
    assert_eq!(text("\"\\ud800\""), "unpaired surrogate at 1:8");
    assert_eq!(text("\"\\ud800\\n\""), "unpaired surrogate at 1:9");
    assert_eq!(text("\"\\ud800\\u0041\""), "invalid low surrogate at 1:14");
    assert_eq!(text("\"\\udc00\""), "invalid unicode escape at 1:8");
    assert_eq!(text("012"), "leading zeros are not allowed at 1:2");
    assert_eq!(text("-"), "invalid number at 1:2");
    assert_eq!(text("1."), "digit expected after decimal point at 1:3");
    assert_eq!(text("1e+"), "digit expected in exponent at 1:4");
    assert_eq!(text("1 1"), "trailing characters after the JSON value at 1:3");
    let deep = "[".repeat(129) + "1" + &"]".repeat(129);
    assert_eq!(text(&deep), "nesting deeper than 128 levels at 1:130");
    let spaced = "[".repeat(129) + " 1";
    assert_eq!(text(&spaced), "nesting deeper than 128 levels at 1:131");
    let broken = "[".repeat(129) + "\n\t 1";
    assert_eq!(text(&broken), "nesting deeper than 128 levels at 2:3");
    let second = "[".repeat(128) + "1, [ 1";
    assert_eq!(text(&second), "nesting deeper than 128 levels at 1:134");
    let member = "[".repeat(128) + " { \"a\" : 1";
    assert_eq!(text(&member), "nesting deeper than 128 levels at 1:137");
    let fits = "[".repeat(128) + "1" + &"]".repeat(128);
    assert_eq!(encode(&parse(&fits).unwrap()), fits);
}

#[test]
fn numbers_keep_their_kind() {
    assert_eq!(parse("-0").unwrap(), Json::Int(0));
    assert_eq!(parse("-0.0").unwrap(), Json::Float((-0.0f64).to_bits()));
    assert_eq!(parse("1E2").unwrap(), Json::Float(100f64.to_bits()));
    assert_eq!(
        parse("170141183460469231731687303715884105727").unwrap(),
        Json::Int(i128::MAX)
    );
    // Beyond 128 bits an integer degrades to the nearest double.
    assert_eq!(
        parse("170141183460469231731687303715884105728").unwrap(),
        Json::Float(1.7014118346046923e38f64.to_bits())
    );
    assert_eq!(parse("1e999").unwrap(), Json::Float(f64::INFINITY.to_bits()));
    assert_eq!(encode(&Json::Float(1f64.to_bits())), "1.0");
    assert_eq!(encode(&Json::Float(1e16f64.to_bits())), "1e16");
    assert_eq!(encode(&Json::Float(0.00001f64.to_bits())), "1e-5");
    assert_eq!(encode(&Json::Int(-12)), "-12");
}

#[test]
fn escapes_of_every_kind_are_read() {
    assert_eq!(
        parse(r#""\"\\\/\b\f\n\r\t\u0041\u00e9\ud83d\ude00""#).unwrap(),
        Json::Str("\"\\/\u{8}\u{c}\n\r\tAé😀".into())
    );
    assert_eq!(escape("a\"b\\c\n\r\t\u{1f}\u{7f}é"), "a\\\"b\\\\c\\n\\r\\t\\u001f\u{7f}é");
}

#[test]
fn written_values_read_back() {
    let v = Json::Obj(vec![
        ("".into(), Json::Null),
        ("a \"b\"".into(), Json::Bool(false)),
        ("n".into(), Json::Int(i128::MIN)),
        (
            "f".into(),
            Json::Arr(vec![
                Json::Float(5e-324f64.to_bits()),
                Json::Float((-1.5e300f64).to_bits()),
                Json::Float(0.1f64.to_bits()),
                Json::Float((-0.0f64).to_bits()),
            ]),
        ),
        ("e".into(), Json::Obj(vec![])),
        ("s".into(), Json::Str("\u{0}\u{1f}\\ é 😀 /".into())),
    ]);
    assert_eq!(parse(&encode(&v)).unwrap(), v);
    assert_eq!(parse(&encode_pretty(&v)).unwrap(), v);
    assert_eq!(v.clone(), v);
    // What is not finite has no spelling.
    let odd = Json::Arr(vec![Json::Float(f64::NEG_INFINITY.to_bits())]);
    assert_eq!(parse(&encode(&odd)).unwrap(), Json::Arr(vec![Json::Null]));
}

#[test]
fn lookups_take_the_first_member() {
    let v = parse(r#"{"a":1,"b":2,"a":3}"#).unwrap();
    assert_eq!(v.get("a"), Some(&Json::Int(1)));
    assert_eq!(v.get("c"), None);
    assert_eq!(Json::Int(1).get("a"), None);
}

#[test]
fn every_error_names_a_place_in_the_text() {
    for bad in [
        "",
        " \n ",
        "[1,\n2,\n",
        "{\"é\": \"\\u000é\"}",
        "\"\\u0é00\"",
        "\"\\ud800\\u000é\"",
        "1e",
        "nul",
        "[] x",
    ] {
        let e = parse(bad).unwrap_err();
        assert!(e.line >= 1 && e.col >= 1, "{bad}");
        let line = bad.split('\n').nth(e.line - 1).unwrap();
        assert!(e.col <= line.len() + 1, "{bad}");
    }
}
