use simd_json::deserializer::Deserializer;
use simd_json::error::{Error, ErrorType};
use simd_json::numberparse::Float;
use simd_json::value::borrowed;
use simd_json::value::owned::{to_value, Object, Value};
use simd_json::{to_borrowed_value, to_owned_value};

fn parse(text: &str) -> Result<Value, Error> {
    let mut bytes = text.as_bytes().to_vec();
    to_value(&mut bytes)
}

fn kind_at(text: &str) -> (ErrorType, usize) {
    let e = parse(text).unwrap_err();
    (e.error, e.index)
}

/// The owned tree that a borrowed tree stands for, read with `buf`.
fn owned_of(v: &borrowed::Value, buf: &[u8]) -> Value {
    match v {
        borrowed::Value::Null => Value::Null,
        borrowed::Value::Bool(b) => Value::Bool(*b),
        borrowed::Value::I64(i) => Value::I64(*i),
        borrowed::Value::F64(f) => Value::F64(f.clone()),
        borrowed::Value::String(s) => Value::String(s.text(buf).unwrap().to_string()),
        borrowed::Value::Array(a) => Value::Array(a.iter().map(|x| owned_of(x, buf)).collect()),
        borrowed::Value::Object(m) => {
            let mut o = Object::new();
            for (k, x) in m {
                o.insert(k.text(buf).unwrap().to_string(), owned_of(x, buf));
            }
            Value::Object(o)
        }
    }
}

fn both(text: &str) {
    let mut a = text.as_bytes().to_vec();
    let mut b = text.as_bytes().to_vec();
    let owned = to_owned_value(&mut a);
    let borrowed = to_borrowed_value(&mut b);
    match (owned, borrowed) {
        (Ok(o), Ok(v)) => assert_eq!(owned_of(&v, &b), o, "{}", text),
        (Err(e), Err(f)) => assert_eq!(e, f, "{}", text),
        (o, v) => panic!("{}: {:?} against {:?}", text, o, v),
    }
    assert_eq!(a, b);
}

#[test]
fn empty_containers() {
    assert_eq!(parse("{}").unwrap(), Value::Object(Object::new()));
    assert_eq!(parse("[]").unwrap(), Value::Array(vec![]));
    assert_eq!(parse(" [ ] ").unwrap(), Value::Array(vec![]));
    assert_eq!(parse("[[],{}]").unwrap(), Value::Array(vec![Value::Array(vec![]), Value::Object(Object::new())]));
}

#[test]
fn literals() {
    assert_eq!(parse("null").unwrap(), Value::Null);
    assert_eq!(parse("true").unwrap(), Value::Bool(true));
    assert_eq!(parse("false").unwrap(), Value::Bool(false));
    assert_eq!(parse("[null , true,false]").unwrap(), Value::Array(vec![Value::Null, Value::Bool(true), Value::Bool(false)]));
    assert_eq!(kind_at("nul"), (ErrorType::UnexpectedCharacter, 0));
    assert_eq!(kind_at("nullx"), (ErrorType::UnexpectedCharacter, 0));
    assert_eq!(kind_at("[tru]"), (ErrorType::UnexpectedCharacter, 1));
    assert_eq!(kind_at("falsy"), (ErrorType::UnexpectedCharacter, 0));
    assert_eq!(kind_at("True"), (ErrorType::UnexpectedCharacter, 0));
}

#[test]
fn duplicate_keys_last_wins() {
    let v = parse("{\"a\":1,\"b\":2,\"a\":3}").unwrap();
    assert_eq!(v.get("a"), Some(&Value::I64(3)));
    assert_eq!(v.get("b"), Some(&Value::I64(2)));
    let mut expected = Object::new();
    expected.insert("b".to_string(), Value::I64(2));
    expected.insert("a".to_string(), Value::I64(3));
    assert_eq!(v, Value::Object(expected));
}

#[test]
fn large_object_keeps_every_member() {
    let mut text = String::from("{");
    for i in 0..100 {
        if i > 0 {
            text.push(',');
        }
        text.push_str(&format!("\"k{}\":{}", i, i));
    }
    text.push('}');
    let v = parse(&text).unwrap();
    for i in 0..100 {
        assert_eq!(v.get(&format!("k{}", i)), Some(&Value::I64(i)));
    }
    assert_eq!(v.get("k100"), None);
}

#[test]
fn escaped_keys() {
    let v = parse("{\"a\\nb\":1,\"\\u0041\":2}").unwrap();
    assert_eq!(v.get("a\nb"), Some(&Value::I64(1)));
    assert_eq!(v.get("A"), Some(&Value::I64(2)));
}

#[test]
fn unexpected_end() {
    assert_eq!(kind_at(""), (ErrorType::UnexpectedEnd, 0));
    assert_eq!(kind_at("   "), (ErrorType::UnexpectedEnd, 3));
    assert_eq!(kind_at("["), (ErrorType::UnexpectedEnd, 1));
    assert_eq!(kind_at("[1"), (ErrorType::UnexpectedEnd, 2));
    assert_eq!(kind_at("[1,"), (ErrorType::UnexpectedEnd, 3));
    assert_eq!(kind_at("{"), (ErrorType::UnexpectedEnd, 1));
    assert_eq!(kind_at("{\"a\""), (ErrorType::UnexpectedEnd, 4));
    assert_eq!(kind_at("{\"a\":"), (ErrorType::UnexpectedEnd, 5));
    assert_eq!(kind_at("{\"a\":1"), (ErrorType::UnexpectedEnd, 6));
    assert_eq!(kind_at("{\"a\":1,"), (ErrorType::UnexpectedEnd, 7));
    let e = parse("[1").unwrap_err();
    assert_eq!((e.structural, e.character), (2, '\0'));
}

#[test]
fn unexpected_character() {
    assert_eq!(kind_at("]"), (ErrorType::UnexpectedCharacter, 0));
    assert_eq!(kind_at("}"), (ErrorType::UnexpectedCharacter, 0));
    assert_eq!(kind_at(","), (ErrorType::UnexpectedCharacter, 0));
    assert_eq!(kind_at(":"), (ErrorType::UnexpectedCharacter, 0));
    assert_eq!(kind_at("[,1]"), (ErrorType::UnexpectedCharacter, 1));
    assert_eq!(kind_at("[1,,2]"), (ErrorType::UnexpectedCharacter, 3));
    assert_eq!(kind_at("{\"a\":}"), (ErrorType::UnexpectedCharacter, 5));
    assert_eq!(kind_at("abc"), (ErrorType::UnexpectedCharacter, 0));
    assert_eq!(kind_at("\\\"a\""), (ErrorType::UnexpectedCharacter, 0));
}

#[test]
fn expected_string() {
    assert_eq!(kind_at("{1:2}"), (ErrorType::ExpectedString, 1));
    assert_eq!(kind_at("{\"a\":1,}"), (ErrorType::ExpectedString, 7));
    assert_eq!(kind_at("{,}"), (ErrorType::ExpectedString, 1));
    assert_eq!(kind_at("{[]:1}"), (ErrorType::ExpectedString, 1));
    assert_eq!(kind_at("{null:1}"), (ErrorType::ExpectedString, 1));
}

#[test]
fn expected_colon() {
    assert_eq!(kind_at("{\"a\" 1}"), (ErrorType::ExpectedColon, 5));
    assert_eq!(kind_at("{\"a\",1}"), (ErrorType::ExpectedColon, 4));
    assert_eq!(kind_at("{\"a\"}"), (ErrorType::ExpectedColon, 4));
    assert_eq!(kind_at("{\"a\"\"b\"}"), (ErrorType::ExpectedColon, 4));
}

#[test]
fn expected_comma() {
    assert_eq!(kind_at("[1 2]"), (ErrorType::ExpectedComma, 3));
    assert_eq!(kind_at("[1:2]"), (ErrorType::ExpectedComma, 2));
    assert_eq!(kind_at("[\"a\" \"b\"]"), (ErrorType::ExpectedComma, 5));
    assert_eq!(kind_at("[[] []]"), (ErrorType::ExpectedComma, 4));
    assert_eq!(kind_at("{\"a\":1:2}"), (ErrorType::ExpectedComma, 6));
    assert_eq!(kind_at("{\"a\":1 {"), (ErrorType::ExpectedComma, 7));
}

#[test]
fn expected_closes() {
    assert_eq!(kind_at("[1}"), (ErrorType::ExpectedArrayClose, 2));
    assert_eq!(kind_at("[1,2}"), (ErrorType::ExpectedArrayClose, 4));
    assert_eq!(kind_at("{\"a\":1]"), (ErrorType::ExpectedObjectClose, 6));
    assert_eq!(kind_at("[{\"a\":[1}]"), (ErrorType::ExpectedArrayClose, 8));
}

#[test]
fn trailing_data() {
    assert_eq!(kind_at("1 2"), (ErrorType::TrailingData, 2));
    assert_eq!(kind_at("[] []"), (ErrorType::TrailingData, 3));
    assert_eq!(kind_at("{}x"), (ErrorType::TrailingData, 2));
    assert_eq!(kind_at("null,"), (ErrorType::TrailingData, 4));
    assert_eq!(kind_at("\"a\"x"), (ErrorType::TrailingData, 3));
    assert_eq!(kind_at("[1]]"), (ErrorType::TrailingData, 3));
    assert_eq!(parse("[1] \n ").unwrap(), Value::Array(vec![Value::I64(1)]));
}

#[test]
fn invalid_utf8() {
    let mut bytes = vec![b'"', 0xff, b'"'];
    let e = to_value(&mut bytes).unwrap_err();
    assert_eq!(e, Error::generic(ErrorType::InvalidUtf8));
    assert_eq!((e.structural, e.index, e.character), (0, 0, '\u{1F4A9}'));
    let mut bytes = vec![b'[', 0xc3, b']'];
    assert_eq!(to_value(&mut bytes).unwrap_err().error, ErrorType::InvalidUtf8);
}

#[test]
fn custom_error() {
    let e = Error::custom("missing field".to_string());
    assert_eq!(e.error, ErrorType::Custom("missing field".to_string()));
    assert_eq!((e.structural, e.index, e.character), (0, 0, '\u{1F4A9}'));
}

#[test]
fn nesting_up_to_the_limit() {
    let deep = format!("{}{}", "[".repeat(1024), "]".repeat(1024));
    let mut v = &parse(&deep).unwrap();
    let mut depth = 0;
    while let Some(a) = v.as_array() {
        depth += 1;
        if a.is_empty() {
            break;
        }
        v = &a[0];
    }
    assert_eq!(depth, 1024);
    let deeper = format!("{}{}", "[".repeat(1025), "]".repeat(1025));
    assert_eq!(kind_at(&deeper), (ErrorType::UnexpectedCharacter, 1024));
    let objects = format!("{}1{}", "{\"a\":".repeat(1024), "}".repeat(1024));
    assert!(parse(&objects).is_ok());
    let objects = format!("{}1{}", "{\"a\":".repeat(1025), "}".repeat(1025));
    assert_eq!(parse(&objects).unwrap_err().error, ErrorType::UnexpectedCharacter);
}

#[test]
fn configured_depth_limit() {
    let mut bytes = b"[[1]]".to_vec();
    let mut de = Deserializer::from_slice(&mut bytes).unwrap();
    de.set_depth_limit(1);
    let e = de.to_value_owned_root().unwrap_err();
    assert_eq!((e.error, e.index), (ErrorType::UnexpectedCharacter, 1));
    let mut bytes = b"[[1]]".to_vec();
    let mut de = Deserializer::from_slice(&mut bytes).unwrap();
    de.set_depth_limit(2);
    assert_eq!(
        de.to_value_owned_root().unwrap(),
        Value::Array(vec![Value::Array(vec![Value::I64(1)])])
    );
    let mut bytes = b"7".to_vec();
    let mut de = Deserializer::from_slice(&mut bytes).unwrap();
    de.set_depth_limit(0);
    assert_eq!(de.to_value_owned_root().unwrap(), Value::I64(7));
}

#[test]
fn document_of_one_block() {
    let mut text = String::from("[");
    while text.len() < 61 {
        text.push_str("1,");
    }
    text.push_str("2 ]");
    assert_eq!(text.len(), 64);
    let v = parse(&text).unwrap();
    assert_eq!(v.as_array().unwrap().len(), 31);
    let padded = format!("{}{}", " ".repeat(60), "[17]");
    assert_eq!(padded.len(), 64);
    assert_eq!(parse(&padded).unwrap(), Value::Array(vec![Value::I64(17)]));
    let crossing = format!("{}{}", " ".repeat(61), "[\"ab\\ncd\", 17]");
    assert_eq!(
        parse(&crossing).unwrap(),
        Value::Array(vec![Value::String("ab\ncd".to_string()), Value::I64(17)])
    );
}

#[test]
fn count_of_elements() {
    let mut bytes = b"[1,[2,3],{\"a\":[4,5,6]},\"x,y\"] ".to_vec();
    let mut de = Deserializer::from_slice(&mut bytes).unwrap();
    de.skip();
    assert_eq!(de.count_elements(), 4);
    de.skip();
    de.skip();
    de.skip();
    assert_eq!(de.count_elements(), 2);
    let mut bytes = b"[]".to_vec();
    let mut de = Deserializer::from_slice(&mut bytes).unwrap();
    de.skip();
    assert_eq!(de.count_elements(), 0);
    let mut bytes = b"{\"a\":1,\"b\":{\"c\":2,\"d\":3}}".to_vec();
    let mut de = Deserializer::from_slice(&mut bytes).unwrap();
    de.skip();
    assert_eq!(de.count_elements(), 2);
}

#[test]
fn borrowed_and_owned_agree() {
    for text in [
        "{\"a\":1,\"b\":[true,null,\"x\\ny\"]}",
        "-1.5e2",
        "\"\\uD83D\\uDCA9\"",
        "9223372036854775808",
        "[1,2,]",
        "{\"a\":1 \"b\":2}",
        "[\"a\\\\\", \"\\\"b\", {\"k\\tey\": \"v\\u00e9\", \"k\\tey\": [\"w\"]}]",
        "{\"a\":{\"a\":{\"a\":[\"\\n\", \"plain\", 1.25]}}}",
        "[\"\\x\"]",
        "",
        "[1}",
        "\"abc",
    ] {
        both(text);
    }
}

#[test]
fn borrowed_tree_points_into_the_buffer() {
    let mut buf = b"[\"plain\", \"a\\nb\", {\"k\": -2.5}]".to_vec();
    let v = to_borrowed_value(&mut buf).unwrap();
    let items = v.as_array().unwrap();
    let first = items[0].as_span().unwrap();
    assert_eq!((first.start, first.len), (2, 5));
    assert_eq!(first.text(&buf), Some("plain"));
    let second = items[1].as_span().unwrap();
    assert_eq!((second.start, second.len), (11, 3));
    assert_eq!(second.text(&buf), Some("a\nb"));
    let members = items[2].as_object().unwrap();
    assert_eq!(members.len(), 1);
    assert_eq!(members[0].0.text(&buf), Some("k"));
    assert_eq!(members[0].1, borrowed::Value::F64(Float { literal: b"-2.5".to_vec() }));
}

#[test]
fn borrowed_object_keeps_source_order_and_duplicates() {
    let mut buf = b"{\"b\":1,\"a\":2,\"b\":3}".to_vec();
    let v = to_borrowed_value(&mut buf).unwrap();
    let members = v.as_object().unwrap();
    let keys: Vec<&str> = members.iter().map(|m| m.0.text(&buf).unwrap()).collect();
    assert_eq!(keys, vec!["b", "a", "b"]);
    assert_eq!(members[2].1, borrowed::Value::I64(3));
}

#[test]
fn accessors() {
    let v = parse("{\"n\":null,\"t\":true,\"i\":-3,\"u\":3,\"f\":0.5,\"s\":\"x\",\"a\":[],\"o\":{}}").unwrap();
    assert!(v.is_object() && !v.is_array() && !v.is_null());
    assert!(v.as_object().is_some() && v.as_array().is_none());
    assert!(v.get("n").unwrap().is_null());
    assert_eq!(v.get("t").unwrap().as_bool(), Some(true));
    assert_eq!(v.get("i").unwrap().as_i64(), Some(-3));
    assert_eq!(v.get("i").unwrap().as_u64(), None);
    assert_eq!(v.get("u").unwrap().as_u64(), Some(3));
    assert_eq!(v.get("f").unwrap().as_f64(), Some(&Float { literal: b"0.5".to_vec() }));
    assert_eq!(v.get("f").unwrap().as_i64(), None);
    assert_eq!(v.get("s").unwrap().as_string(), Some("x".to_string()));
    assert_eq!(v.get("s").unwrap().as_bool(), None);
    assert!(v.get("a").unwrap().is_array());
    assert!(v.get("o").unwrap().is_object());
    assert_eq!(v.get("a").unwrap().get("x"), None);
    assert_eq!(Value::default(), Value::Null);
}

#[test]
fn borrowed_lookup_takes_the_last_member() {
    let mut buf = b"{\"b\":1,\"a\\n\":2,\"b\":\"thr\\u00e9e\",\"c\":{\"b\":4}}".to_vec();
    let v = to_borrowed_value(&mut buf).unwrap();
    assert_eq!(v.get(&buf, "b").unwrap().as_str(&buf), Some("thr\u{e9}e"));
    assert_eq!(v.get(&buf, "a\n"), Some(&borrowed::Value::I64(2)));
    assert_eq!(v.get(&buf, "a"), None);
    assert_eq!(v.get(&buf, ""), None);
    assert_eq!(v.get(&buf, "c").unwrap().get(&buf, "b"), Some(&borrowed::Value::I64(4)));
    assert_eq!(v.get(&buf, "c").unwrap().get(&buf, "c"), None);
    assert_eq!(v.get(&buf, "b").unwrap().get(&buf, "b"), None);
    assert_eq!(v.as_str(&buf), None);
    let key = v.as_object().unwrap()[1].0;
    assert!(key.holds(&buf, b"a\n"));
    assert!(!key.holds(&buf, b"a"));
    assert!(!key.holds(&buf, b"a\t"));
}

#[test]
fn clone_keeps_the_value() {
    let v = parse("{\"a\":[1,2.5,\"x\",null,{\"b\":[true]}],\"c\":{}}").unwrap();
    let w = v.clone();
    assert_eq!(v, w);
    let o = v.as_object().unwrap().clone();
    assert_eq!(Value::Object(o), w);
}

#[test]
fn members_are_listed_once() {
    let v = parse("{\"a\":1,\"b\":2,\"a\":3}").unwrap();
    let mut entries = match v {
        Value::Object(o) => o.into_entries(),
        other => panic!("not an object: {:?}", other),
    };
    entries.sort_by(|x, y| x.0.cmp(&y.0));
    assert_eq!(entries, vec![("a".to_string(), Value::I64(3)), ("b".to_string(), Value::I64(2))]);
    let mut o = Object::with_capacity(usize::MAX);
    assert_eq!(o.insert("k".to_string(), Value::Null), None);
    assert_eq!(o.insert("k".to_string(), Value::Bool(true)), Some(Value::Null));
    assert_eq!(o.get("k"), Some(&Value::Bool(true)));
    assert_eq!(o.get("j"), None);
    assert_eq!(o.into_entries(), vec![("k".to_string(), Value::Bool(true))]);
}
