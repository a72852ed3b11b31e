use libucl::{
    decimals, msgpack, Builder, Decimal, Emitter, Flags, Object, Parser, Type, UclErrorType, UclSchemaErrorType,
};

const SAMPLE: &str = r#"a = 1; b = "x"; c = [true, null]; d { e = 1.5 }"#;

fn parse(text: &str) -> Object {
    Parser::new().parse(text).unwrap()
}

fn json(o: &Object) -> String {
    o.dump_into(Emitter::JSON)
}

fn err_code(text: &str) -> UclErrorType {
    Parser::new().parse(text).err().unwrap().code
}

fn schema_code(data: &str, schema: &str) -> Option<UclSchemaErrorType> {
    let d = parse(data);
    let s = parse(schema);
    d.validate_with_schema(&s).err().map(|e| e.code)
}

#[test]
fn round_trip_through_config() {
    let docs = [
        SAMPLE,
        r#"name = "test_string"; section { nice = true; server = ["http://localhost:6666", "test_string"]; chunk = 1Gb; }"#,
        r#"section { flag = true; number = 10k; subsection { hosts = { host = "localhost"; port = 9000 } hosts = { host = "remotehost"; port = 9090 } } }"#,
        r#"t = 10ms; n = -3; s = "tab\there \"q\""; "odd key" = 0.005; e = []; o {} big = 1e3"#,
    ];
    for d in docs.iter() {
        let first = parse(d);
        let text = first.dump_into(Emitter::Config);
        let second = parse(&text);
        assert_eq!(json(&first), json(&second));
    }
}

#[test]
fn round_trip_through_json() {
    let first = parse(SAMPLE);
    let second = parse(&first.dump_into(Emitter::JSON));
    let third = parse(&first.dump_into(Emitter::JSONCompact));
    assert_eq!(json(&first), json(&second));
    assert_eq!(json(&first), json(&third));
}

#[test]
fn fetch_path_equals_chain_of_fetches() {
    let root = parse(r#"a { b { c = 5; } }"#);
    let chained = root.fetch("a").unwrap().fetch("b").unwrap().fetch("c").unwrap();
    let direct = root.fetch_path("a.b.c").unwrap();
    assert_eq!(chained.as_int(), Some(5));
    assert_eq!(direct.as_int(), Some(5));
    assert_eq!(json(&root.fetch_path("a.b").unwrap()), json(&root.fetch("a").unwrap().fetch("b").unwrap()));
    assert_eq!(json(&root.fetch_path("a").unwrap()), json(&root.fetch("a").unwrap()));
    assert!(root.fetch_path("a.x.c").is_none());
    let flat = parse("a = 1");
    assert!(flat.fetch_path("a.b").is_none());
}

#[test]
fn typed_readings_exclude_each_other() {
    let values = [
        Builder::from_int(3).build(),
        Builder::from_decimal(Decimal { mantissa: 15, exponent: -1 }).build(),
        Builder::from_bool(false).build(),
        Builder::from_str("s").build(),
        parse("a = null").fetch("a").unwrap(),
    ];
    for v in values.iter() {
        let n = v.as_int().is_some() as u32
            + v.as_float().is_some() as u32
            + v.as_bool().is_some() as u32
            + v.as_string().is_some() as u32;
        assert!(n <= 1);
    }
    assert_eq!(values[1].as_float(), Some(Decimal { mantissa: 15, exponent: -1 }));
    assert_eq!(values[1].as_int(), None);
    assert_eq!(values[0].as_float(), None);
    assert_eq!(values[4].get_type(), Type::Null);
}

#[test]
fn iteration_is_ordered_and_restartable() {
    let root = parse("a = [1, 2, 3]");
    let mut arr = root.fetch("a").unwrap();
    assert_eq!(arr.size(), 3);
    for pass in 0..2 {
        let mut seen = Vec::new();
        while let Some(x) = arr.next() {
            seen.push(x.as_int().unwrap());
        }
        assert_eq!(seen, vec![1, 2, 3], "pass {}", pass);
        assert!(arr.next().is_none());
        arr.iter_reset();
    }
    assert_eq!(arr.at(1).unwrap().as_int(), Some(2));
    assert!(arr.at(3).is_none());
    let mut not_array = root.fetch("a").unwrap().at(0).unwrap();
    assert!(not_array.next().is_none());
    assert_eq!(not_array.size(), 0);
}

#[test]
fn empty_input_is_an_empty_object() {
    let root = parse("");
    assert_eq!(root.get_type(), Type::Object);
    assert_eq!(json(&root), "{}");
    let blank = parse("  # only a comment\n");
    assert_eq!(json(&blank), "{}");
}

#[test]
fn missing_value_is_a_syntax_error() {
    assert_eq!(err_code("a ="), UclErrorType::Syntax);
    assert_eq!(err_code("a = ;"), UclErrorType::Syntax);
}

#[test]
fn lowercase_query_finds_key() {
    let root = parse("testVar = 10");
    assert!(root.fetch("testvar").is_none());
    assert_eq!(root.fetch("testVar").unwrap().as_int(), Some(10));
    let root = Parser::with_flags(Flags::LOWERCASE).parse("testVar = 10").unwrap();
    assert_eq!(root.fetch("testvar").unwrap().as_int(), Some(10));
    assert_eq!(root.fetch("testvar").unwrap().key(), Some("testvar".to_string()));
}

#[test]
fn numbers_and_suffixes() {
    let root = parse("a = 1Gb; b = 10k; c = 1.5; d = 10s; e = 10ms; f = 2min; g = 1e3; h = -42; i = 1kb; j = 2m; k = 0.005; l = 3h");
    assert_eq!(root.fetch("a").unwrap().as_int(), Some(1073741824));
    assert_eq!(root.fetch("b").unwrap().as_int(), Some(10000));
    assert_eq!(root.fetch("c").unwrap().as_float(), Some(Decimal { mantissa: 15, exponent: -1 }));
    assert_eq!(root.fetch("d").unwrap().as_float(), Some(Decimal { mantissa: 10, exponent: 0 }));
    assert_eq!(root.fetch("e").unwrap().as_float(), Some(Decimal { mantissa: 10, exponent: -3 }));
    assert_eq!(root.fetch("f").unwrap().as_float(), Some(Decimal { mantissa: 120, exponent: 0 }));
    assert_eq!(root.fetch("g").unwrap().as_float(), Some(Decimal { mantissa: 1, exponent: 3 }));
    assert_eq!(root.fetch("h").unwrap().as_int(), Some(-42));
    assert_eq!(root.fetch("i").unwrap().as_int(), Some(1024));
    assert_eq!(root.fetch("j").unwrap().as_float(), Some(Decimal { mantissa: 120, exponent: 0 }));
    assert_eq!(root.fetch("k").unwrap().as_float(), Some(Decimal { mantissa: 5, exponent: -3 }));
    assert_eq!(root.fetch("l").unwrap().as_float(), Some(Decimal { mantissa: 10800, exponent: 0 }));
}

#[test]
fn no_time_keeps_durations_as_strings() {
    let root = Parser::with_flags(Flags::NO_TIME).parse("d = 10s; n = 10k").unwrap();
    assert_eq!(root.fetch("d").unwrap().as_string(), Some("10s".to_string()));
    assert_eq!(root.fetch("n").unwrap().as_int(), Some(10000));
}

#[test]
fn number_out_of_range_is_a_syntax_error() {
    assert_eq!(err_code("a = 99999999999999999999"), UclErrorType::Syntax);
    let root = parse("a = 9223372036854775807; b = -9223372036854775808");
    assert_eq!(root.fetch("a").unwrap().as_int(), Some(i64::MAX));
    assert_eq!(root.fetch("b").unwrap().as_int(), Some(i64::MIN));
}

#[test]
fn booleans_null_and_words() {
    let root = parse("a = yes; b = off; c = TRUE; d = null; e = hello world; f = 12abc");
    assert_eq!(root.fetch("a").unwrap().as_bool(), Some(true));
    assert_eq!(root.fetch("b").unwrap().as_bool(), Some(false));
    assert_eq!(root.fetch("c").unwrap().as_bool(), Some(true));
    assert_eq!(root.fetch("d").unwrap().get_type(), Type::Null);
    assert_eq!(root.fetch("e").unwrap().as_string(), Some("hello world".to_string()));
    assert_eq!(root.fetch("f").unwrap().as_string(), Some("12abc".to_string()));
}

#[test]
fn variables_in_quoted_and_braced_forms() {
    let mut p = Parser::new();
    p.register_var("ENV".to_string(), "test".to_string());
    let root = p.parse(r#"a = "pre-${ENV}-post"; b = $UNKNOWN; c = ${ENV}x"#).unwrap();
    assert_eq!(root.fetch("a").unwrap().as_string(), Some("pre-test-post".to_string()));
    assert_eq!(root.fetch("b").unwrap().as_string(), Some("$UNKNOWN".to_string()));
    assert_eq!(root.fetch("c").unwrap().as_string(), Some("testx".to_string()));
    let root = Parser::new().parse("a = '$ENV'").unwrap();
    assert_eq!(root.fetch("a").unwrap().as_string(), Some("$ENV".to_string()));
}

#[test]
fn later_registration_wins() {
    let mut p = Parser::new();
    p.register_var("V".to_string(), "one".to_string());
    p.register_var("V".to_string(), "two".to_string());
    let root = p.parse("a = $V").unwrap();
    assert_eq!(root.fetch("a").unwrap().as_string(), Some("two".to_string()));
}

#[test]
fn emits_compact_json_exactly() {
    let root = parse(SAMPLE);
    assert_eq!(root.dump_into(Emitter::JSONCompact), r#"{"a":1,"b":"x","c":[true,null],"d":{"e":1.5}}"#);
}

#[test]
fn emits_pretty_json_exactly() {
    let root = parse(SAMPLE);
    let expected = "{\n    \"a\": 1,\n    \"b\": \"x\",\n    \"c\": [\n        true,\n        null\n    ],\n    \"d\": {\n        \"e\": 1.5\n    }\n}";
    assert_eq!(root.dump_into(Emitter::JSON), expected);
    assert_eq!(Emitter::JSON.emit(&root, &Vec::new()), Some(expected.as_bytes().to_vec()));
    let collapsed = "{\n \"a\": 1,\n \"b\": \"x\",\n \"c\": [\n true,\n null\n ],\n \"d\": {\n \"e\": 1.5\n }\n}";
    assert_eq!(root.dump(), collapsed);
}

#[test]
fn emits_config_exactly() {
    let root = parse(SAMPLE);
    let expected = "a = 1;\nb = \"x\";\nc [\n    true,\n    null,\n]\nd {\n    e = 1.5;\n}\n";
    assert_eq!(root.dump_into(Emitter::Config), expected);
}

#[test]
fn emits_yaml_exactly() {
    let root = parse(r#"a = 1; b = "x"; c = [true, null]; d { e = 1.5 }; f = "yes"; g = "two words"; h = []"#);
    let expected = "a: 1\nb: x\nc:\n    - true\n    - null\nd:\n    e: 1.5\nf: \"yes\"\ng: \"two words\"\nh: []\n";
    assert_eq!(root.dump_into(Emitter::YAML), expected);
}

#[test]
fn emits_escapes_and_decimals() {
    let root = parse(r#"s = "q\"tA\n"; k = 0.005; m = -1.25; e = 1e3"#);
    assert_eq!(root.fetch("s").unwrap().as_string(), Some("q\"tA\n".to_string()));
    assert_eq!(root.dump_into(Emitter::JSONCompact), r#"{"s":"q\"tA\n","k":0.005,"m":-1.25,"e":1e3}"#);
}

#[test]
fn msgpack_bytes() {
    let root = parse(r#"a = 1; b = [true, null]; c = "hi"; d = -1; e = 300"#);
    let bytes = msgpack(&root, &Vec::new()).unwrap();
    assert_eq!(Emitter::MsgPack.emit(&root, &Vec::new()), Some(bytes.clone()));
    let mut expected = vec![0x85, 0xa1, b'a', 0x01, 0xa1, b'b', 0x92, 0xc3, 0xc0, 0xa1, b'c', 0xa2, b'h', b'i'];
    expected.extend_from_slice(&[0xa1, b'd', 0xff, 0xa1, b'e', 0xd3, 0, 0, 0, 0, 0, 0, 0x01, 0x2c]);
    assert_eq!(bytes, expected);
}

#[test]
fn msgpack_decimals_take_given_bits() {
    let root = parse("a = 1.5");
    let ds = decimals(&root);
    assert_eq!(ds, vec![Decimal { mantissa: 15, exponent: -1 }]);
    let bits: Vec<u64> = ds.iter().map(|d| format!("{}e{}", d.mantissa, d.exponent).parse::<f64>().unwrap().to_bits()).collect();
    let bytes = msgpack(&root, &bits).unwrap();
    assert_eq!(bytes, vec![0x81, 0xa1, b'a', 0xcb, 0x3f, 0xf8, 0, 0, 0, 0, 0, 0]);
    assert_eq!(Emitter::MsgPack.emit(&root, &bits), Some(bytes));
    assert!(msgpack(&root, &Vec::new()).is_none());
    assert!(Emitter::MsgPack.emit(&root, &Vec::new()).is_none());
    assert_eq!(Emitter::JSONCompact.emit(&root, &Vec::new()), Some(b"{\"a\":1.5}".to_vec()));
}

#[test]
fn parse_errors_by_kind() {
    let deep = format!("a = {}", "[".repeat(300));
    assert_eq!(err_code(&deep), UclErrorType::Nested);
    assert_eq!(err_code(".include \"other.conf\""), UclErrorType::Macro);
    assert_eq!(err_code("a = \"abc"), UclErrorType::Syntax);
    assert_eq!(err_code("a { b = 1;"), UclErrorType::Syntax);
    assert_eq!(err_code("a = [1, 2"), UclErrorType::Syntax);
    assert_eq!(err_code("/* never closed"), UclErrorType::Syntax);
    assert_eq!(err_code("{a = 1} trailing"), UclErrorType::Syntax);
    let e = Parser::new().parse("x = 1;\ny =").err().unwrap();
    assert!(e.description().starts_with("line 2"));
}

#[test]
fn repeated_keys_form_an_implicit_array() {
    let root = parse("a = 1; a = 2; a = 3; b = [1]; b = 2");
    let a = root.fetch("a").unwrap();
    assert_eq!(a.as_int(), Some(1));
    let all: Vec<i64> = root.fetch_all("a").iter().map(|o| o.as_int().unwrap()).collect();
    assert_eq!(all, vec![1, 2, 3]);
    let b = root.fetch_all("b");
    assert_eq!(b.len(), 2);
    assert_eq!(b[0].get_type(), Type::Array);
    assert_eq!(b[1].as_int(), Some(2));
    assert_eq!(root.fetch("b").unwrap().size(), 1);
    assert!(root.fetch_all("c").is_empty());
    assert_eq!(root.dump_into(Emitter::Config), "a = 1;\na = 2;\na = 3;\nb [\n    1,\n]\nb = 2;\n");
    assert_eq!(root.dump_into(Emitter::JSONCompact), r#"{"a":[1,2,3],"b":[[1],2]}"#);
    assert_eq!(root.dump_into(Emitter::YAML), "a:\n    - 1\n    - 2\n    - 3\nb:\n    -\n        - 1\n    - 2\n");
    let strict = Parser::with_flags(Flags::NO_IMPLICIT_ARRAYS).parse("a = 1; a = 2");
    assert_eq!(strict.err().unwrap().code, UclErrorType::Syntax);
    let fine = Parser::with_flags(Flags::NO_IMPLICIT_ARRAYS).parse("a = 1; b = 2").unwrap();
    assert_eq!(fine.fetch("b").unwrap().as_int(), Some(2));
}

#[test]
fn comments_and_top_level_forms() {
    let root = parse("# c\na = 1 # x\n/* b */ b = 2");
    assert_eq!(root.fetch("a").unwrap().as_int(), Some(1));
    assert_eq!(root.fetch("b").unwrap().as_int(), Some(2));
    let arr = parse("[1, 2]");
    assert_eq!(arr.get_type(), Type::Array);
    assert_eq!(arr.size(), 2);
    assert!(arr.key().is_none());
    assert_eq!(parse("{\"k\": 1}").fetch("k").unwrap().key(), Some("k".to_string()));
}

#[test]
fn schema_bounds_and_kinds() {
    let s = r#"{"type": "object", "properties": {"n": {"type": "integer", "minimum": 2, "maximum": 5}, "l": {"type": "array", "maxItems": 1}}}"#;
    assert_eq!(schema_code(r#"{"n": 3}"#, s), None);
    assert_eq!(schema_code(r#"{"n": 1}"#, s), Some(UclSchemaErrorType::Constraint));
    assert_eq!(schema_code(r#"{"n": 6}"#, s), Some(UclSchemaErrorType::Constraint));
    assert_eq!(schema_code(r#"{"n": 1.5}"#, s), Some(UclSchemaErrorType::TypeMismatch));
    assert_eq!(schema_code(r#"{"l": [1, 2]}"#, s), Some(UclSchemaErrorType::Constraint));
    assert_eq!(schema_code(r#"{"n": 3}"#, r#"{"type": 5}"#), Some(UclSchemaErrorType::InvalidSchema));
    assert_eq!(schema_code(r#"{"n": 3}"#, r#"[1]"#), Some(UclSchemaErrorType::InvalidSchema));
    assert_eq!(schema_code(r#"{"n": "abc"}"#, r#"{"properties": {"n": {"minLength": 4}}}"#), Some(UclSchemaErrorType::Constraint));
    assert_eq!(schema_code(r#"{"n": null}"#, r#"{"properties": {"n": {"type": "null"}}}"#), None);
}

#[test]
fn error_codes_map_to_kinds() {
    assert_eq!(libucl::UclErrorType::from_code(0, "x".to_string()).code, UclErrorType::NoError);
    assert_eq!(libucl::UclErrorType::from_code(1, "x".to_string()).code, UclErrorType::Syntax);
    assert_eq!(libucl::UclErrorType::from_code(4, "x".to_string()).code, UclErrorType::Nested);
    assert_eq!(libucl::UclErrorType::from_code(7, "x".to_string()).code, UclErrorType::SSL);
    assert_eq!(libucl::UclErrorType::from_code(42, "why".to_string()).description(), "why");
    assert_eq!(libucl::UclErrorType::from_code(42, "why".to_string()).code, UclErrorType::Other);
    assert_eq!(UclSchemaErrorType::from_code(1, "x".to_string()).code, UclSchemaErrorType::TypeMismatch);
    assert_eq!(UclSchemaErrorType::from_code(5, "x".to_string()).code, UclSchemaErrorType::MissingDependency);
    assert_eq!(UclSchemaErrorType::from_code(-1, "x".to_string()).code, UclSchemaErrorType::Other);
}

#[test]
fn chunks_are_read_in_order() {
    let mut p = Parser::new();
    p.add_chunk("a = 1;\n");
    p.add_chunk("b { c = ");
    p.add_chunk("\"x\" }");
    let root = p.finish().unwrap();
    assert_eq!(root.fetch("a").unwrap().as_int(), Some(1));
    assert_eq!(root.fetch_path("b.c").unwrap().as_string(), Some("x".to_string()));
    let mut q = Parser::new();
    q.add_chunk("a = [1,");
    let root = q.parse(" 2]").unwrap();
    assert_eq!(root.fetch("a").unwrap().size(), 2);
    let mut r = Parser::new();
    r.add_chunk("a = ");
    assert_eq!(r.finish().err().unwrap().code, UclErrorType::Syntax);
}

#[test]
fn repeated_keys_at_the_depth_limit_read_back() {
    let text = format!("x = {}{{a = 1; a = 2}}{}", "[".repeat(127), "]".repeat(127));
    let first = parse(&text);
    let again = parse(&first.dump_into(Emitter::Config));
    assert_eq!(json(&first), json(&again));
    let shallow = parse("x = [{a = 1; a = 2}]");
    let back = parse(&shallow.dump_into(Emitter::Config));
    assert_eq!(json(&shallow), json(&back));
}

#[test]
fn point_without_fraction_digits_is_a_decimal() {
    let root = parse("k = 1.; m = -2.e3; v = 1.2.3");
    assert_eq!(root.fetch("k").unwrap().get_type(), Type::Float);
    assert_eq!(root.fetch("k").unwrap().as_float(), Some(Decimal { mantissa: 1, exponent: 0 }));
    assert_eq!(root.fetch("m").unwrap().as_float(), Some(Decimal { mantissa: -2, exponent: 3 }));
    assert_eq!(root.fetch("v").unwrap().as_string(), Some("1.2.3".to_string()));
}

#[test]
fn iteration_restarts_after_partial_pass() {
    let root = parse("a = [\"x\", \"y\"]");
    let mut arr = root.fetch("a").unwrap();
    assert_eq!(arr.next().unwrap().as_string(), Some("x".to_string()));
    arr.iter_reset();
    assert_eq!(arr.next().unwrap().as_string(), Some("x".to_string()));
    assert_eq!(arr.next().unwrap().as_string(), Some("y".to_string()));
    assert!(arr.next().is_none());
    assert!(arr.next().is_none());
}

#[test]
fn unicode_escapes_decode() {
    let root = parse(r#"a = "caf\u00e9 \u0041\u20ac""#);
    assert_eq!(root.fetch("a").unwrap().as_string(), Some("café A€".to_string()));
    assert_eq!(err_code(r#"a = "\ud800""#), UclErrorType::Syntax);
    assert_eq!(err_code(r#"a = "\u12""#), UclErrorType::Syntax);
    let text = root.dump_into(Emitter::JSONCompact);
    assert_eq!(text, "{\"a\":\"café A€\"}");
}

#[test]
fn repeated_keys_are_written_once_in_json_yaml_and_msgpack() {
    let root = parse("x = 1; w = 1.5; x = 2.5; z = true");
    assert_eq!(root.dump_into(Emitter::JSONCompact), r#"{"x":[1,2.5],"w":1.5,"z":true}"#);
    assert_eq!(
        root.dump_into(Emitter::JSON),
        "{\n    \"x\": [\n        1,\n        2.5\n    ],\n    \"w\": 1.5,\n    \"z\": true\n}"
    );
    assert_eq!(root.dump_into(Emitter::YAML), "x:\n    - 1\n    - 2.5\nw: 1.5\nz: true\n");
    let ds = decimals(&root);
    assert_eq!(ds, vec![Decimal { mantissa: 25, exponent: -1 }, Decimal { mantissa: 15, exponent: -1 }]);
    let bits: Vec<u64> = ds.iter().map(|d| format!("{}e{}", d.mantissa, d.exponent).parse::<f64>().unwrap().to_bits()).collect();
    let bytes = Emitter::MsgPack.emit(&root, &bits).unwrap();
    let mut expected = vec![0x83, 0xa1, b'x', 0x92, 0x01, 0xcb];
    expected.extend_from_slice(&2.5f64.to_bits().to_be_bytes());
    expected.extend_from_slice(&[0xa1, b'w', 0xcb]);
    expected.extend_from_slice(&1.5f64.to_bits().to_be_bytes());
    expected.extend_from_slice(&[0xa1, b'z', 0xc3]);
    assert_eq!(bytes, expected);
    let nested = parse("s { h { p = 1 } h { p = 2 } }");
    assert_eq!(nested.dump(), "{\n \"s\": {\n \"h\": [\n {\n \"p\": 1\n },\n {\n \"p\": 2\n }\n ]\n }\n}");
}
