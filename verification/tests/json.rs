//! Reading JSON.
use lightgpu::json::number::Number;
use lightgpu::json::{parse, Object, Value};

fn error(text: &[u8]) -> String {
    parse(text).unwrap_err()
}

#[test]
fn parses_a_safetensors_header() {
    let h = br#"{"__metadata__":{"scale":"4"},"conv_first.weight":{"dtype":"F32","shape":[64,3,3,3],"data_offsets":[0,6912]}}"#;
    let v = parse(h).unwrap();
    let m = v.get("__metadata__").unwrap();
    assert_eq!(m.get("scale").unwrap().as_str(), Some("4"));
    let t = v.get("conv_first.weight").unwrap();
    assert_eq!(t.get("shape").unwrap().as_array().unwrap().len(), 4);
    assert_eq!(t.get("data_offsets").unwrap().as_array().unwrap()[1].as_usize(), Some(6912));
    assert_eq!(t.get("dtype").unwrap().as_str(), Some("F32"));
}

#[test]
fn rejects_trailing_junk() {
    assert!(parse(b"{}x").is_err());
    assert_eq!(error(b"{}x"), "trailing bytes after JSON value at 2");
}

#[test]
fn handles_escapes() {
    let v = parse(br#"{"a\u002fb":"x\ny"}"#).unwrap();
    assert_eq!(v.get("a/b").unwrap().as_str(), Some("x\ny"));
}

#[test]
fn reads_every_kind_of_value() {
    let v = parse(b" [null, true ,false,\t\"s\",\r\n-2.5, {}, []] ").unwrap();
    let a = v.as_array().unwrap();
    assert_eq!(a.len(), 7);
    assert_eq!(a[0], Value::Null);
    assert_eq!(a[1], Value::Bool(true));
    assert_eq!(a[2], Value::Bool(false));
    assert_eq!(a[3].as_str(), Some("s"));
    assert!(matches!(a[4], Value::Num(Number::Finite { negative: true, .. })));
    assert!(a[5].as_object().unwrap().is_empty());
    assert!(a[6].as_array().unwrap().is_empty());
}

#[test]
fn accessors_refuse_other_kinds() {
    let v = parse(b"[1]").unwrap();
    assert!(v.as_object().is_none());
    assert!(v.as_str().is_none());
    assert!(v.as_usize().is_none());
    assert!(v.get("a").is_none());
    assert!(parse(b"{\"a\":1}").unwrap().get("b").is_none());
    assert!(parse(b"{}").unwrap().as_array().is_none());
}

#[test]
fn the_last_of_equal_keys_is_kept() {
    let v = parse(br#"{"a":1,"b":2,"a":3}"#).unwrap();
    assert_eq!(v.get("a").unwrap().as_usize(), Some(3));
    let o = v.as_object().unwrap();
    assert_eq!(o.len(), 2);
    assert_eq!(o.entries()[0].0, "a");
    assert_eq!(o.entries()[1].0, "b");
    assert_eq!(o.in_text(0).0, "b");
    assert_eq!(o.in_text(1).0, "a");
}

#[test]
fn members_are_listed_by_key_and_keep_the_order_of_the_text() {
    let text = "{\"z\":1,\"a\":2,\"m\":3,\"ab\":4,\"\":5,\"\u{e9}\":6,\"Z\":7,\"\u{1f600}\":8,\"\u{ffff}\":9}";
    let v = parse(text.as_bytes()).unwrap();
    let o = v.as_object().unwrap();
    let keys: Vec<&str> = o.entries().iter().map(|e| e.0).collect();
    assert_eq!(keys, vec!["", "Z", "a", "ab", "m", "z", "\u{e9}", "\u{ffff}", "\u{1f600}"]);
    let mut sorted = keys.clone();
    sorted.sort();
    assert_eq!(keys, sorted);
    assert_eq!(o.entries()[2].1.as_usize(), Some(2));
    let read: Vec<&str> = (0..o.len()).map(|i| o.in_text(i).0).collect();
    assert_eq!(read, vec!["z", "a", "m", "ab", "", "\u{e9}", "Z", "\u{1f600}", "\u{ffff}"]);
}

#[test]
fn reads_all_escapes() {
    let v = parse(br#""\"\\\/\b\f\n\r\t\u0041\u00e9\u20AC""#).unwrap();
    assert_eq!(v.as_str(), Some("\"\\/\u{8}\u{c}\n\r\tA\u{e9}\u{20ac}"));
}

#[test]
fn reads_text_outside_ascii() {
    let v = parse("\"h\u{e9}llo \u{1f600}\"".as_bytes()).unwrap();
    assert_eq!(v.as_str(), Some("h\u{e9}llo \u{1f600}"));
}

#[test]
fn names_the_place_of_a_fault() {
    assert_eq!(error(b""), "unexpected end of JSON");
    assert_eq!(error(b"   "), "unexpected end of JSON");
    assert_eq!(error(b"[1"), "unexpected end of JSON");
    assert_eq!(error(b"[1 2]"), "expected , or ] at 3");
    assert_eq!(error(b"{\"a\" 1}"), "expected : at 5");
    assert_eq!(error(b"{\"a\":1 \"b\"}"), "expected , or } at 7");
    assert_eq!(error(b"{1:2}"), "expected string at 1");
    assert_eq!(error(b"[1,]"), "bad number `` at 3: cannot parse float from empty string");
    assert_eq!(error(b"1.2.3"), "bad number `1.2.3` at 0: invalid float literal");
    assert_eq!(error(b"-"), "bad number `-` at 0: invalid float literal");
    assert_eq!(error(b"\"abc"), "unexpected end of JSON");
}

#[test]
fn words_do_not_run_on() {
    assert_eq!(error(b"trueX"), "bad literal at 4");
    assert_eq!(error(b"truefalse"), "bad literal at 4");
    assert_eq!(error(b"nulls"), "bad literal at 4");
    assert_eq!(error(b"false_"), "bad literal at 5");
    assert_eq!(error(b"nope"), "bad literal at 0");
    assert_eq!(parse(b"[true]").unwrap().as_array().unwrap()[0], Value::Bool(true));
}

#[test]
fn refuses_bad_escapes() {
    assert_eq!(error(br#""\x""#), "bad escape \\x");
    assert_eq!(error(br#""\u00"#), "truncated \\u escape");
    assert_eq!(error(br#""\u00g0""#), "bad \\u escape: invalid digit found in string");
    assert_eq!(error(br#""\u+02f""#), "bad \\u escape: invalid digit found in string");
    assert_eq!(error(br#""\ud800""#), "bad code point");
}

#[test]
fn refuses_bytes_that_are_not_utf8() {
    let expected = std::str::from_utf8(b"a\xffb").unwrap_err().to_string();
    assert_eq!(error(b"\"a\xffb\""), expected);
    let hex = std::str::from_utf8(b"00\xff0").unwrap_err().to_string();
    assert_eq!(error(b"\"\\u00\xff0\""), hex);
}

fn number(text: &str) -> Number {
    match parse(text.as_bytes()) {
        Ok(Value::Num(n)) => n,
        other => panic!("{text}: {other:?}"),
    }
}

#[test]
fn numbers_are_the_nearest_binary64() {
    let cases = [
        "0", "-0", "1", "-1", "0.1", "0.5", "1.5", "3.141592653589793", "1e0", "1e1", "1e-1",
        "123456789012345678901234567890", "9007199254740991", "9007199254740992",
        "9007199254740993", "9007199254740994", "9007199254740995", "18446744073709551615",
        "18446744073709551616", "1.7976931348623157e308", "1.7976931348623158e308",
        "1.7976931348623159e308", "1e308", "1e309", "-1e400", "1e99999999999999999999999999999999",
        "1e-99999999999999999999999999999999", "0e99999999999999999999999999999999999999999",
        "2.2250738585072014e-308", "2.2250738585072011e-308", "4.9e-324", "5e-324", "2.4e-324",
        "2.5e-324", "1e-323", "1e-400", "0.000001", "+7", ".5", "1.", "01", "1E5", "1e+5",
        "6.02214076e23", "8.5", "0.30000000000000004", "4503599627370496.5",
        "4503599627370497.5", "1.00000000000000011102230246251565",
        "1.00000000000000011102230246251566", "0.000000000000000000000000000000000000001e40",
        "7205759403792793.5", "100000000000000000000000", "5e-1", "72057594037927937",
    ];
    for text in cases {
        let expected: f64 = text.parse().unwrap();
        assert_eq!(number(text).to_bits(), expected.to_bits(), "{text}");
    }
}

#[test]
fn numbers_of_many_digits_are_the_nearest_too() {
    let mut seed: u64 = 0x9e37_79b9_7f4a_7c15;
    for round in 0..300 {
        let mut text = String::new();
        let digits = 1 + (round % 40);
        for _ in 0..digits {
            seed = seed.wrapping_mul(6364136223846793005).wrapping_add(1442695040888963407);
            text.push((b'0' + ((seed >> 33) % 10) as u8) as char);
        }
        let exponent = ((seed >> 20) % 700) as i64 - 350;
        text.push_str(&format!("e{exponent}"));
        let expected: f64 = text.parse().unwrap();
        assert_eq!(number(&text).to_bits(), expected.to_bits(), "{text}");
    }
}

#[test]
fn integers_up_to_two_to_the_53_are_exact() {
    for n in [0u64, 1, 6912, 4294967296, 9007199254740991, 9007199254740992] {
        assert_eq!(parse(format!("{n}").as_bytes()).unwrap().as_usize(), Some(n as usize));
    }
}

#[test]
fn only_non_negative_integers_are_extracted() {
    let cases: [(&str, Option<usize>); 14] = [
        ("1e300", None),
        ("18446744073709549568", Some(18446744073709549568)),
        ("-1", None),
        ("-0", Some(0)),
        ("1.5", None),
        ("0.0", Some(0)),
        ("2.0", Some(2)),
        ("25e-1", None),
        ("30e-1", Some(3)),
        ("1e3", Some(1000)),
        ("1e400", None),
        ("1e30", None),
        ("18446744073709551616", None),
        ("1e-400", Some(0)),
    ];
    for (text, expected) in cases {
        assert_eq!(parse(text.as_bytes()).unwrap().as_usize(), expected, "{text}");
    }
}

#[test]
fn refuses_what_is_no_number() {
    for text in ["1e", "1e+", ".", "+", "-.", "e5", ".e5", "1-2", "--1", "1.2e3.4"] {
        assert!(parse(text.as_bytes()).is_err(), "{text}");
    }
}

#[test]
fn reads_nested_values() {
    let v = parse(br#"{"a":[{"b":[[],[1,[2]]]}]}"#).unwrap();
    let inner = v.get("a").unwrap().as_array().unwrap()[0].get("b").unwrap();
    assert_eq!(v.clone(), v);
    let list = inner.as_array().unwrap()[1].as_array().unwrap();
    assert_eq!(list[1].as_array().unwrap()[0].as_usize(), Some(2));
}

#[test]
fn written_values_are_read_back_whatever_the_white_space() {
    let tight = r#"{"a":[1,-2.5e-1,"x\"\\é",null],"b":{"c":true,"d":[]},"e":{}}"#;
    let loose = "\r\n { \"a\" :\t[ 1.0 , -0.25 , \"\\u0078\\\"\\\\\u{e9}\" , null ] ,\n\
                 \"b\":{ \"c\" : true , \"d\" : [ ] } , \"e\" : {\t} } \n";
    let a = parse(tight.as_bytes()).unwrap();
    let b = parse(loose.as_bytes()).unwrap();
    assert_eq!(a, b);
    let items = a.get("a").unwrap().as_array().unwrap();
    assert_eq!(items[2].as_str(), Some("x\"\\\u{e9}"));
    assert_eq!(items[1], parse(b"-0.25").unwrap());
    assert_eq!(parse(b"\"\\/\\b\\f\\n\\r\\t\"").unwrap().as_str(), Some("/\u{8}\u{c}\n\r\t"));
}

#[test]
fn every_number_has_an_exact_literal() {
    let five = "49406564584124654417656879286822137236505980261432476442558568250067550727020875\
                18652998363616359923797965646954457177309266567103559397963987747960107818781263\
                00713190311404527845817167848982103688718636056998730723050006387409153564984387\
                31247339727316961514003171538539807412623856559117102665855668676818703956031062\
                49319452715914924553293054565444011274801297099995419319894090804165633245247571\
                47869014726780159355238611550134803526493472019379026810710749170333222684475333\
                57208324319360923828934583680601060115061698097530783422773183292479049825247307\
                76375927247874656084778203734469699533647017972677717585125660551199131504891101\
                45103786273816725095583738973359899366480994116420570263709027924276754456522908\
                7538682506419718265533447265625e-1074";
    assert_eq!(parse(five.as_bytes()).unwrap(), parse(b"5e-324").unwrap());
    assert_eq!(
        parse(b"9007199254740992").unwrap().as_usize(),
        Some(9007199254740992)
    );
    assert_eq!(parse(b"1e400").unwrap(), Value::Num(Number::Infinite { negative: false }));
    assert_eq!(parse(b"-1e400").unwrap(), Value::Num(Number::Infinite { negative: true }));
}

#[test]
fn equality_looks_at_values() {
    let same = |a: &str, b: &str| parse(a.as_bytes()).unwrap() == parse(b.as_bytes()).unwrap();
    assert!(same("0", "-0"));
    assert!(same("0.1e1", "1"));
    assert!(!same("1", "-1"));
    assert!(!same("1e400", "-1e400"));
    assert!(same(r#"{"a":1,"b":[2]}"#, r#"{"b":[2],"a":1}"#));
    assert!(!same(r#"{"a":1,"b":2}"#, r#"{"a":1,"c":2}"#));
    assert!(!same(r#"{"a":1}"#, r#"{"a":1,"b":2}"#));
    assert!(!same("[1,2]", "[2,1]"));
    assert!(!same("[]", "{}"));
    assert!(!same("null", "false"));
    assert!(!same("\"a\"", "\"b\""));
    let v = parse(br#"{"a":1,"b":2}"#).unwrap();
    let w = parse(br#"{"b":2,"a":1}"#).unwrap();
    assert!(v.as_object().unwrap() == w.as_object().unwrap());
}

#[test]
fn objects_are_built_member_by_member() {
    let mut o = Object::new();
    assert!(o.is_empty());
    o.insert("b".to_string(), Value::Null);
    o.insert("a".to_string(), Value::Bool(true));
    o.insert("b".to_string(), Value::Bool(false));
    assert_eq!(o.len(), 2);
    assert_eq!(o.get("b"), Some(&Value::Bool(false)));
    assert_eq!(Value::Obj(o), parse(br#"{"a":true,"b":false}"#).unwrap());
}
