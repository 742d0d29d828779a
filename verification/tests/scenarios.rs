use simd_json::error::{Error, ErrorType};
use simd_json::numberparse::Float;
use simd_json::value::owned::{to_value, Object, Value};

fn parse(text: &str) -> Result<Value, Error> {
    let mut bytes = text.as_bytes().to_vec();
    to_value(&mut bytes)
}

fn float_of(v: &Value) -> f64 {
    match v {
        Value::F64(f) => std::str::from_utf8(&f.literal).unwrap().parse::<f64>().unwrap(),
        other => panic!("not a float: {:?}", other),
    }
}

#[test]
fn object_with_nested_array() {
    let v = parse("{\"a\":1,\"b\":[true,null,\"x\\ny\"]}").unwrap();
    let mut expected = Object::new();
    expected.insert("a".to_string(), Value::I64(1));
    expected.insert(
        "b".to_string(),
        Value::Array(vec![Value::Bool(true), Value::Null, Value::String("x\ny".to_string())]),
    );
    assert_eq!(v, Value::Object(expected));
    assert_eq!(v.get("a"), Some(&Value::I64(1)));
    assert_eq!(v.get("b").unwrap().as_array().unwrap().len(), 3);
    assert_eq!(v.get("c"), None);
}

#[test]
fn negative_float_with_exponent() {
    let v = parse("-1.5e2").unwrap();
    assert_eq!(v, Value::F64(Float { literal: b"-1.5e2".to_vec() }));
    assert_eq!(float_of(&v), -150.0);
}

#[test]
fn surrogate_pair_decodes_to_four_bytes() {
    let v = parse("\"\\uD83D\\uDCA9\"").unwrap();
    match v {
        Value::String(s) => assert_eq!(s.as_bytes(), &[0xF0, 0x9F, 0x92, 0xA9]),
        other => panic!("not a string: {:?}", other),
    }
}

#[test]
fn integer_beyond_i64_is_promoted() {
    let v = parse("9223372036854775808").unwrap();
    assert_eq!(float_of(&v), 9.223372036854775808e18);
}

#[test]
fn trailing_comma_in_array() {
    let e = parse("[1,2,]").unwrap_err();
    assert_eq!(e.error, ErrorType::UnexpectedCharacter);
    assert_eq!(e.index, 5);
    assert_eq!(e.character, ']');
    assert_eq!(e.structural, 5);
}

#[test]
fn missing_comma_in_object() {
    let e = parse("{\"a\":1 \"b\":2}").unwrap_err();
    assert_eq!(e.error, ErrorType::ExpectedComma);
    assert_eq!(e.index, 7);
    assert_eq!(e.character, '"');
    assert_eq!(e.structural, 4);
}
