use lip::Parser;
use lip_json::{parse, ErrorKind, Number, Object, Value};
use std::collections::HashMap;

#[derive(Debug, Clone, PartialEq)]
enum Plain {
    VString(String),
    VNumber(f64),
    VObject(HashMap<String, Plain>),
    VArray(Vec<Plain>),
    VBool(bool),
    VNull,
}

use Plain::{VArray, VBool, VNull, VNumber, VObject, VString};

fn magnitude(text: &str) -> f64 {
    match lip::float::<()>().run(text, ()) {
        lip::ParseResult::Ok { output, .. } => output,
        lip::ParseResult::Err { .. } => text.parse().unwrap(),
    }
}

fn plain(value: &Value) -> Plain {
    match value {
        Value::VString(s) => VString(s.clone()),
        Value::VNumber(n) => {
            let m = magnitude(&n.magnitude());
            VNumber(if n.is_negative() { -m } else { m })
        }
        Value::VObject(o) => {
            let mut map = HashMap::new();
            let mut i = 0;
            while let Some((k, v)) = o.entry(i) {
                map.insert(k.clone(), plain(v));
                i += 1;
            }
            VObject(map)
        }
        Value::VArray(a) => VArray(a.iter().map(plain).collect()),
        Value::VBool(b) => VBool(*b),
        Value::VNull => VNull,
    }
}

fn read(input: &str) -> Plain {
    match parse(input) {
        Ok(v) => plain(&v),
        Err(e) => panic!("{}: {:?}", e.message(), e),
    }
}

fn kind_of(input: &str) -> ErrorKind {
    match parse(input) {
        Ok(v) => panic!("read {:?}", v),
        Err(e) => e.kind,
    }
}

fn span_of(input: &str) -> (usize, usize) {
    match parse(input) {
        Ok(v) => panic!("read {:?}", v),
        Err(e) => (e.from.offset, e.to.offset),
    }
}

#[test]
fn json_test() {
    let input = r#"{
    "array": [1, ""],
    "object": {},
    "string": "\u0041\u0042\nn!?@#$%^\t&*-=_+[]{}\\å°åˆ·æ©ŸðŸ™ðŸ‘©â€ðŸ”¬ðŸ‘©ðŸ¿â€ðŸ’»",
    "number": 3.14,
    "small_number": 0.59,
    "int": -100,
    "exp": -1e2,
    "exp_neg": 23e-2,
    "true": true,
    "false"  : false,
    "null" : null
}"#;
    let result = parse(input);
    let expected = VObject(
        vec![
            ("array", VArray(vec![VNumber(1.0), VString("".to_string())])),
            ("object", VObject(HashMap::new())),
            ("number", VNumber(3.14)),
            (
                "string",
                VString("\u{0041}\u{0042}\nn!?@#$%^\t&*-=_+[]{}\\å°åˆ·æ©ŸðŸ™ðŸ‘©â€ðŸ”¬ðŸ‘©ðŸ¿â€ðŸ’»".to_string()),
            ),
            ("small_number", VNumber(0.59)),
            ("int", VNumber(-100.)),
            ("exp", VNumber(-1e2)),
            ("exp_neg", VNumber(23E-2)),
            ("true", VBool(true)),
            ("false", VBool(false)),
            ("null", VNull),
        ]
        .into_iter()
        .map(|(k, v)| (k.to_string(), v))
        .collect(),
    );
    match result {
        Ok(output) => assert_eq!(plain(&output), expected),
        Err(e) => {
            println!("{}: {:?}", e.message(), e);
            panic!();
        }
    }
}

#[test]
fn duplicate_key_keeps_the_last_value() {
    let v = parse(r#"{"a":1,"a":2}"#).unwrap();
    match &v {
        Value::VObject(o) => {
            assert_eq!(o.len(), 1);
            match o.get("a") {
                Some(Value::VNumber(n)) => assert_eq!(n.magnitude(), "2"),
                other => panic!("{:?}", other),
            }
        }
        other => panic!("{:?}", other),
    }
    let mut map = HashMap::new();
    map.insert("a".to_string(), VNumber(2.0));
    assert_eq!(plain(&v), VObject(map));
}

#[test]
fn duplicate_key_keeps_its_first_place() {
    let v = parse(r#"{"a":1,"b":2,"a":3}"#).unwrap();
    match &v {
        Value::VObject(o) => {
            assert_eq!(o.len(), 2);
            let (k0, v0) = o.entry(0).unwrap();
            let (k1, v1) = o.entry(1).unwrap();
            assert_eq!(k0, "a");
            assert_eq!(plain(v0), VNumber(3.0));
            assert_eq!(k1, "b");
            assert_eq!(plain(v1), VNumber(2.0));
            assert!(o.entry(2).is_none());
            assert!(o.get("c").is_none());
        }
        other => panic!("{:?}", other),
    }
}

#[test]
fn empty_containers() {
    assert_eq!(read("{}"), VObject(HashMap::new()));
    assert_eq!(read("[]"), VArray(vec![]));
    assert_eq!(read("{ }"), VObject(HashMap::new()));
    assert_eq!(read("[ ]"), VArray(vec![]));
    assert_eq!(read("[ \t\r\n ]"), VArray(vec![]));
    assert_eq!(read("{\n}"), VObject(HashMap::new()));
}

#[test]
fn escape_fidelity() {
    assert_eq!(
        read(r#""\n\t\"\\\/\u0041""#),
        VString("\n\t\"\\/A".to_string())
    );
    assert_eq!(
        read(r#""\b\f\r\u00e9\u00E9\uFFFF\ud7ff\ue000""#),
        VString("\u{8}\u{c}\r\u{e9}\u{e9}\u{ffff}\u{d7ff}\u{e000}".to_string())
    );
    assert_eq!(read(r#""""#), VString(String::new()));
}

#[test]
fn trailing_comma_is_rejected() {
    assert_eq!(kind_of("[1,2,]"), ErrorKind::TrailingComma);
    assert_eq!(kind_of(r#"{"a":1,}"#), ErrorKind::TrailingComma);
    assert_eq!(span_of("[1,2,]"), (4, 5));
    assert_eq!(span_of(r#"{"a":1, }"#), (6, 8));
}

#[test]
fn negative_and_exponent_numbers() {
    assert_eq!(read("-1e2"), VNumber(-100.0));
    assert_eq!(read("23e-2"), VNumber(0.23));
    match read("-0") {
        VNumber(z) => {
            assert_eq!(z, 0.0);
            assert!(z.is_sign_negative());
        }
        other => panic!("{:?}", other),
    }
    assert_eq!(read("6.022E+23"), VNumber(6.022e23));
    assert_eq!(read("3.14"), VNumber(3.14));
    assert_eq!(read("007"), VNumber(7.0));
    assert_eq!(read("1e400"), VNumber(f64::INFINITY));
}

#[test]
fn number_keeps_its_parts() {
    match parse("-12.50E+03").unwrap() {
        Value::VNumber(n) => {
            assert!(n.is_negative());
            assert_eq!(n.whole(), "12");
            assert_eq!(n.fraction(), Some("50"));
            let e = n.exponent().unwrap();
            assert!(!e.negative);
            assert_eq!(e.digits, "03");
            assert_eq!(n.magnitude(), "12.50e03");
        }
        other => panic!("{:?}", other),
    }
    match parse("4e-1").unwrap() {
        Value::VNumber(n) => {
            assert!(!n.is_negative());
            assert_eq!(n.whole(), "4");
            assert_eq!(n.fraction(), None);
            assert!(n.exponent().unwrap().negative);
            assert_eq!(n.magnitude(), "4e-1");
        }
        other => panic!("{:?}", other),
    }
    match parse("10").unwrap() {
        Value::VNumber(n) => {
            assert!(n.exponent().is_none());
            assert_eq!(n.magnitude(), "10");
        }
        other => panic!("{:?}", other),
    }
}

#[test]
fn error_sits_in_the_faulty_token() {
    let input = "{\"a\": [1, \"abc]}";
    let e = parse(input).unwrap_err();
    assert_eq!(e.kind, ErrorKind::UnterminatedString);
    assert_eq!(e.from.offset, 10);
    assert_eq!(e.to.offset, 16);
    assert!(e.from.offset > 0 && e.from.offset < input.chars().count());
}

#[test]
fn error_place_has_line_and_column() {
    let e = parse("[\n  1,\n  tru\n]").unwrap_err();
    assert_eq!(e.kind, ErrorKind::UnexpectedCharacter);
    assert_eq!((e.from.offset, e.from.line, e.from.column), (9, 2, 2));
    assert_eq!(e.to, e.from);
    let e = parse("x").unwrap_err();
    assert_eq!((e.from.offset, e.from.line, e.from.column), (0, 0, 0));
    let e = parse("[1\n").unwrap_err();
    assert_eq!(e.kind, ErrorKind::MissingSeparator);
    assert_eq!((e.from.offset, e.from.line, e.from.column), (3, 1, 0));
}

#[test]
fn each_kind_of_error() {
    assert_eq!(kind_of(""), ErrorKind::UnexpectedCharacter);
    assert_eq!(kind_of("   "), ErrorKind::UnexpectedCharacter);
    assert_eq!(kind_of("nul"), ErrorKind::UnexpectedCharacter);
    assert_eq!(kind_of("True"), ErrorKind::UnexpectedCharacter);
    assert_eq!(kind_of("1 2"), ErrorKind::UnexpectedCharacter);
    assert_eq!(kind_of("{a:1}"), ErrorKind::UnexpectedCharacter);
    assert_eq!(kind_of("[,]"), ErrorKind::UnexpectedCharacter);
    assert_eq!(kind_of("\"abc"), ErrorKind::UnterminatedString);
    assert_eq!(kind_of("\"a\nb\""), ErrorKind::UnterminatedString);
    assert_eq!(kind_of("\"a\\"), ErrorKind::UnterminatedString);
    assert_eq!(kind_of("\"\\u00"), ErrorKind::UnterminatedString);
    assert_eq!(kind_of(r#""\x""#), ErrorKind::InvalidEscape);
    assert_eq!(kind_of(r#""\u00zz""#), ErrorKind::InvalidEscape);
    assert_eq!(kind_of(r#""\u12""#), ErrorKind::InvalidEscape);
    assert_eq!(kind_of(r#""\ud800""#), ErrorKind::InvalidCodePoint);
    assert_eq!(kind_of(r#""\uDFFF""#), ErrorKind::InvalidCodePoint);
    assert_eq!(kind_of("[1 2]"), ErrorKind::MissingSeparator);
    assert_eq!(kind_of("[1"), ErrorKind::MissingSeparator);
    assert_eq!(kind_of(r#"{"a" 1}"#), ErrorKind::MissingSeparator);
    assert_eq!(kind_of(r#"{"a":1 "b":2}"#), ErrorKind::MissingSeparator);
    assert_eq!(kind_of("-"), ErrorKind::MalformedNumber);
    assert_eq!(kind_of("-x"), ErrorKind::MalformedNumber);
    assert_eq!(kind_of("1."), ErrorKind::MalformedNumber);
    assert_eq!(kind_of("1.e3"), ErrorKind::MalformedNumber);
    assert_eq!(kind_of("1e"), ErrorKind::MalformedNumber);
    assert_eq!(kind_of("1e+"), ErrorKind::MalformedNumber);
    assert_eq!(kind_of(".5"), ErrorKind::UnexpectedCharacter);
    assert_eq!(kind_of("+1"), ErrorKind::UnexpectedCharacter);
}

#[test]
fn error_spans() {
    assert_eq!(span_of(r#"["a\x"]"#), (3, 4));
    assert_eq!(span_of(r#"["\u00zz"]"#), (2, 6));
    assert_eq!(span_of(r#"["\ud800"]"#), (2, 8));
    assert_eq!(span_of("[-x]"), (1, 2));
    assert_eq!(span_of("[1.5e+]"), (1, 6));
    assert_eq!(span_of("[1 2]"), (3, 3));
    assert_eq!(span_of("1 2"), (2, 2));
    assert_eq!(span_of("[\"a\tb\"]"), (1, 3));
}

#[test]
fn messages() {
    assert_eq!(parse("?").unwrap_err().message(), "expected a JSON value");
    assert_eq!(parse("\"").unwrap_err().message(), "unterminated string");
    assert_eq!(parse("\"\\q\"").unwrap_err().message(), "invalid escape sequence");
    assert_eq!(
        parse("\"\\udead\"").unwrap_err().message(),
        "escape names no Unicode scalar value"
    );
    assert_eq!(parse("[1,]").unwrap_err().message(), "trailing comma");
    assert_eq!(
        parse("[1").unwrap_err().message(),
        "expected a separator or a closing bracket"
    );
    assert_eq!(parse("-").unwrap_err().message(), "malformed number");
}

#[test]
fn nesting_is_bounded() {
    let deep = |n: usize| "[".repeat(n) + &"]".repeat(n);
    let mut expected = VArray(vec![]);
    for _ in 1..128 {
        expected = VArray(vec![expected]);
    }
    assert_eq!(read(&deep(128)), expected);
    let e = parse(&deep(129)).unwrap_err();
    assert_eq!(e.kind, ErrorKind::NestingTooDeep);
    assert_eq!(e.from.offset, 128);
    assert_eq!(e.message(), "nesting too deep");
    let braces = "{\"k\":".repeat(129) + "1" + &"}".repeat(129);
    assert_eq!(kind_of(&braces), ErrorKind::NestingTooDeep);
    assert_eq!(kind_of(&"[".repeat(100_000)), ErrorKind::NestingTooDeep);
}

#[test]
fn whitespace_between_tokens_does_not_matter() {
    let tight = r#"{"a":[1,2,{"b":null}],"c":"x y","d":true,"e":-1.5e3}"#;
    let loose = " {\n\t\"a\" : [ 1 ,\r\n 2 , { \"b\" : null } ] ,\n \"c\" : \"x y\" , \"d\" : true ,\t\"e\" : -1.5e3 }\n\n";
    assert_eq!(read(tight), read(loose));
    match read(tight) {
        VObject(m) => {
            assert_eq!(m.len(), 4);
            assert_eq!(m["c"], VString("x y".to_string()));
            assert_eq!(m["e"], VNumber(-1500.0));
        }
        other => panic!("{:?}", other),
    }
    assert_eq!(kind_of("tr ue"), ErrorKind::UnexpectedCharacter);
    assert_eq!(kind_of("1 .5"), ErrorKind::UnexpectedCharacter);
}

#[test]
fn minimal_text_reads_back() {
    for text in [
        "null",
        "true",
        "false",
        "0",
        "-12",
        "[]",
        "{}",
        r#""a\"b\\c""#,
        r#"[1,[2,[3]],"x",{"k":[true,false,null]}]"#,
    ] {
        let first = parse(text).unwrap();
        assert_eq!(parse(text).unwrap(), first);
    }
    assert_eq!(read("[1,[2,[3]]]"), VArray(vec![
        VNumber(1.0),
        VArray(vec![VNumber(2.0), VArray(vec![VNumber(3.0)])]),
    ]));
    assert_eq!(read("null"), VNull);
    assert_eq!(read("true"), VBool(true));
    assert_eq!(read("false"), VBool(false));
}

#[test]
fn value_stops_after_one_value() {
    let chars: Vec<char> = " 1 2".chars().collect();
    let (v, end) = lip_json::value(&chars, 0).unwrap();
    assert_eq!(plain(&v), VNumber(1.0));
    assert_eq!(end, 3);
    let (v, end) = lip_json::value(&chars, 3).unwrap();
    assert_eq!(plain(&v), VNumber(2.0));
    assert_eq!(end, 4);
    let f = lip_json::value(&chars, 4).unwrap_err();
    assert_eq!(f.kind, ErrorKind::UnexpectedCharacter);
    assert_eq!((f.from, f.to), (4, 4));
    let f = lip_json::value(&chars, 9).unwrap_err();
    assert_eq!((f.kind, f.from, f.to), (ErrorKind::UnexpectedCharacter, 9, 9));
}

#[test]
fn literal_is_read_as_a_prefix() {
    let chars: Vec<char> = "truest".chars().collect();
    let (v, end) = lip_json::value(&chars, 0).unwrap();
    assert_eq!(plain(&v), VBool(true));
    assert_eq!(end, 4);
    assert_eq!(kind_of("[truest]"), ErrorKind::MissingSeparator);
    assert_eq!(kind_of("nullnull"), ErrorKind::UnexpectedCharacter);
}

#[test]
fn strings_keep_what_is_not_ascii() {
    assert_eq!(read("\"\u{7f}\u{80}é漢😀\""), VString("\u{7f}\u{80}é漢😀".to_string()));
    assert_eq!(kind_of("\"\u{1f}\""), ErrorKind::UnterminatedString);
    assert_eq!(kind_of("\"\u{0}\""), ErrorKind::UnterminatedString);
}

#[test]
fn number_from_text() {
    let n = Number::from_text("6.02e23").unwrap();
    assert!(!n.is_negative());
    assert_eq!(n.whole(), "6");
    assert_eq!(n.fraction(), Some("02"));
    assert_eq!(n.exponent().unwrap().digits, "23");
    assert_eq!(plain(&Value::VNumber(n)), VNumber(6.02e23));
    let n = Number::from_text("-0").unwrap();
    assert!(n.is_negative());
    assert_eq!(n.magnitude(), "0");
    assert!(Number::from_text("").is_none());
    assert!(Number::from_text("-").is_none());
    assert!(Number::from_text("1 ").is_none());
    assert!(Number::from_text(" 1").is_none());
    assert!(Number::from_text("1.").is_none());
    assert!(Number::from_text("1e").is_none());
    assert!(Number::from_text("0x10").is_none());
    assert!(Number::from_text("1,2").is_none());
}

#[test]
fn object_keeps_one_value_for_a_key() {
    let o = Object::new();
    assert_eq!(o.len(), 0);
    assert!(o.entry(0).is_none());
    assert!(o.get("a").is_none());
    let o = o.insert("a".to_string(), Value::VBool(true));
    let o = o.insert("b".to_string(), Value::VNull);
    let o = o.insert("a".to_string(), Value::VBool(false));
    assert_eq!(o.len(), 2);
    assert_eq!(o.get("a"), Some(&Value::VBool(false)));
    assert_eq!(o.get("b"), Some(&Value::VNull));
    assert_eq!(o.get(""), None);
    let (k, v) = o.entry(0).unwrap();
    assert_eq!((k.as_str(), v), ("a", &Value::VBool(false)));
    let (k, v) = o.entry(1).unwrap();
    assert_eq!((k.as_str(), v), ("b", &Value::VNull));
    assert_eq!(parse(r#"{"a":false,"b":null}"#).unwrap(), Value::VObject(o));
}

#[test]
fn place_of_an_offset() {
    let chars: Vec<char> = "ab\ncd\n\nx".chars().collect();
    let at = |offset| {
        let p = lip_json::error::locate(&chars, offset);
        (p.offset, p.line, p.column)
    };
    assert_eq!(at(0), (0, 0, 0));
    assert_eq!(at(2), (2, 0, 2));
    assert_eq!(at(3), (3, 1, 0));
    assert_eq!(at(5), (5, 1, 2));
    assert_eq!(at(6), (6, 2, 0));
    assert_eq!(at(7), (7, 3, 0));
    assert_eq!(at(8), (8, 3, 1));
    assert_eq!(at(10), (10, 3, 3));
    assert_eq!(at(usize::MAX), (usize::MAX, 3, usize::MAX - 7));
}

#[test]
fn scanners_say_where_they_end() {
    let chars: Vec<char> = " \t\r\n12ab \"x\\u0041\" tru".chars().collect();
    assert_eq!(lip_json::scanner::whitespace(&chars, 0), 4);
    assert_eq!(lip_json::scanner::whitespace(&chars, 4), 4);
    assert_eq!(lip_json::scanner::whitespace(&chars, 99), 99);
    assert_eq!(lip_json::scanner::digits(&chars, 4), 6);
    assert_eq!(lip_json::scanner::digits(&chars, 6), 6);
    let (n, end) = lip_json::scanner::number(&chars, 4).unwrap();
    assert_eq!((n.magnitude().as_str(), end), ("12", 6));
    let (t, end) = lip_json::scanner::string(&chars, 9).unwrap();
    assert_eq!((t.as_str(), end), ("xA", 18));
    assert_eq!(lip_json::scanner::escape(&chars, 9, 11), Ok(('A', 17)));
    let f = lip_json::scanner::escape(&chars, 9, usize::MAX).unwrap_err();
    assert_eq!((f.kind, f.from, f.to), (ErrorKind::UnterminatedString, 9, chars.len()));
    assert_eq!(lip_json::scanner::hex_digit(&chars, 9, 11, 16), Ok(1));
    assert_eq!(lip_json::scanner::hex_digit(&chars, 9, 11, 10).unwrap_err().kind, ErrorKind::InvalidEscape);
    assert_eq!(lip_json::scanner::string(&chars, 4).unwrap_err().kind, ErrorKind::UnexpectedCharacter);
    assert!(lip_json::parser::literal(&chars, 19, "tru"));
    assert!(!lip_json::parser::literal(&chars, 19, "true"));
    assert!(!lip_json::parser::literal(&chars, 99, "t"));
    assert!(lip_json::scanner::is_non_escape(' '));
    assert!(lip_json::scanner::is_non_escape('\u{10ffff}'));
    assert!(!lip_json::scanner::is_non_escape('"'));
    assert!(!lip_json::scanner::is_non_escape('\\'));
    assert!(!lip_json::scanner::is_non_escape('\u{1f}'));
    assert_eq!(lip_json::text::chars_of("aé😀"), vec!['a', 'é', '😀']);
}

#[test]
fn arrays_and_objects_at_a_depth() {
    let chars: Vec<char> = "[1, [2]] {\"k\": []}".chars().collect();
    let (items, end) = lip_json::parser::array(&chars, 0, 0).unwrap();
    assert_eq!((items.len(), end), (2, 8));
    assert_eq!(
        lip_json::parser::array(&chars, 0, 127).unwrap_err().kind,
        ErrorKind::NestingTooDeep
    );
    assert_eq!(
        lip_json::parser::array(&chars, 0, 128).unwrap_err().kind,
        ErrorKind::NestingTooDeep
    );
    assert_eq!(
        lip_json::parser::array(&chars, 1, 0).unwrap_err().kind,
        ErrorKind::UnexpectedCharacter
    );
    let (o, end) = lip_json::parser::object(&chars, 9, 126).unwrap();
    assert_eq!((o.len(), end), (1, 18));
    assert_eq!(o.get("k"), Some(&Value::VArray(vec![])));
    assert_eq!(
        lip_json::parser::object(&chars, 9, 127).unwrap_err().kind,
        ErrorKind::NestingTooDeep
    );
    let (v, end) = lip_json::parser::value_helper(&chars, 8, 5).unwrap();
    assert_eq!(end, 18);
    assert!(matches!(v, Value::VObject(_)));
}

#[test]
fn objects_are_equal_whatever_the_order() {
    let a = parse(r#"{"a":1,"b":[{"x":true,"y":null}],"c":"t"}"#).unwrap();
    let b = parse(r#"{"c":"t","b":[{"y":null,"x":true}],"a":1}"#).unwrap();
    assert_eq!(a, b);
    assert_eq!(b, a);
    assert_ne!(a, parse(r#"{"a":1,"b":[{"x":true,"y":null}]}"#).unwrap());
    assert_ne!(a, parse(r#"{"a":1,"b":[{"x":true,"y":false}],"c":"t"}"#).unwrap());
    assert_ne!(a, parse(r#"{"a":1,"b":[{"x":true,"z":null}],"c":"t"}"#).unwrap());
    assert_ne!(parse("[1,2]").unwrap(), parse("[2,1]").unwrap());
    assert_ne!(parse("[1,2]").unwrap(), parse("[1]").unwrap());
    assert_ne!(parse("1").unwrap(), parse("1.0").unwrap());
    assert_ne!(parse("1").unwrap(), parse("-1").unwrap());
    assert_ne!(parse("1e2").unwrap(), parse("1e-2").unwrap());
    assert_eq!(parse("1E+2").unwrap(), parse("1e2").unwrap());
    assert_ne!(parse("null").unwrap(), parse("false").unwrap());
    assert_ne!(parse("\"a\"").unwrap(), parse("\"b\"").unwrap());
    assert_ne!(parse("{}").unwrap(), parse("[]").unwrap());
}

#[test]
fn a_copy_is_equal() {
    let v = parse(r#"{"a":[1,2.5e-3,"x",{"b":null}],"c":true}"#).unwrap();
    let w = v.clone();
    assert_eq!(v, w);
    assert_eq!(plain(&v), plain(&w));
    if let Value::VObject(o) = &v {
        let p = o.clone();
        assert_eq!(&p, o);
        assert_eq!(p.len(), 2);
        if let Some(Value::VArray(items)) = p.get("a") {
            if let Value::VNumber(n) = &items[1] {
                let m = n.clone();
                assert_eq!(&m, n);
                assert_eq!(m.magnitude(), "2.5e-3");
                assert_eq!(m.exponent().cloned(), n.exponent().cloned());
            } else {
                panic!();
            }
        } else {
            panic!();
        }
    } else {
        panic!();
    }
}

#[test]
fn shortest_text_of_a_value_is_read_as_that_value() {
    let number = |text: &str| Value::VNumber(Number::from_text(text).unwrap());
    let string = |text: &str| Value::VString(text.to_string());
    let cases = vec![
        (Value::VNull, "null"),
        (Value::VBool(true), "true"),
        (Value::VBool(false), "false"),
        (number("0"), "0"),
        (number("-12.5e-7"), "-12.5e-7"),
        (string(""), r#""""#),
        (string("a\"b\\c/d"), r#""a\"b\\c/d""#),
        (string("\u{0}\n\u{1f} \u{7f}é"), "\"\\u0000\\u000a\\u001f \u{7f}é\""),
        (Value::VArray(vec![]), "[]"),
        (Value::VObject(Object::new()), "{}"),
        (
            Value::VArray(vec![
                number("1"),
                Value::VArray(vec![string("x"), Value::VNull]),
                Value::VObject(
                    Object::new()
                        .insert("k".to_string(), Value::VBool(true))
                        .insert("".to_string(), Value::VArray(vec![])),
                ),
            ]),
            r#"[1,["x",null],{"k":true,"":[]}]"#,
        ),
    ];
    for (value, text) in cases {
        assert_eq!(parse(text).unwrap(), value, "{}", text);
    }
}

#[test]
fn whitespace_leaves_the_value_as_it_is() {
    let tight = parse(r#"[{"a":[1,true],"b":"c d"},null,-2e3]"#).unwrap();
    for loose in [
        " [{\"a\":[1,true],\"b\":\"c d\"},null,-2e3]",
        "[{\"a\":[1,true],\"b\":\"c d\"},null,-2e3]\n",
        "[ { \"a\" : [ 1 , true ] , \"b\" : \"c d\" } , null , -2e3 ]",
        "\r\n[\t{\n\"a\"\r:\t[\n\n1,true\t]\t,\"b\":\"c d\"}\n,\nnull,\n-2e3 \t\r\n]\r\n",
    ] {
        assert_eq!(parse(loose).unwrap(), tight, "{:?}", loose);
    }
    assert_ne!(parse(r#"[{"a":[1,true],"b":"c  d"},null,-2e3]"#).unwrap(), tight);
}
