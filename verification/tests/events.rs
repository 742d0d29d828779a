use simd_json::deserializer::Deserializer;
use simd_json::error::ErrorType;
use simd_json::serde::de::{CommaSeparated, Event};

fn describe(e: &Event) -> String {
    match e {
        Event::Unit => "unit".to_string(),
        Event::Bool(b) => format!("bool {}", b),
        Event::I64(i) => format!("i64 {}", i),
        Event::F64(f) => format!("f64 {}", std::str::from_utf8(&f.literal).unwrap()),
        Event::Str(s) => format!("str {}", s),
        Event::Array => "array".to_string(),
        Event::Object => "object".to_string(),
    }
}

#[test]
fn events_of_scalars() {
    for (text, expected) in [
        ("null", "unit"),
        ("true", "bool true"),
        ("false", "bool false"),
        ("-17", "i64 -17"),
        ("2.5", "f64 2.5"),
        ("\"a\\nb\"", "str a\nb"),
        ("[1]", "array"),
        ("{}", "object"),
    ] {
        let mut bytes = text.as_bytes().to_vec();
        let mut de = Deserializer::from_slice(&mut bytes).unwrap();
        let event = de.deserialize_any().unwrap();
        assert_eq!(describe(&event), expected);
    }
    let mut bytes = b"]".to_vec();
    let mut de = Deserializer::from_slice(&mut bytes).unwrap();
    assert_eq!(de.deserialize_any().unwrap_err().error, ErrorType::UnexpectedCharacter);
    let mut bytes = b" ".to_vec();
    let mut de = Deserializer::from_slice(&mut bytes).unwrap();
    assert_eq!(de.deserialize_any().unwrap_err().error, ErrorType::UnexpectedEnd);
}

#[test]
fn walk_through_an_array() {
    let mut bytes = b"[1, \"two\", [3]]".to_vec();
    let mut de = Deserializer::from_slice(&mut bytes).unwrap();
    assert_eq!(describe(&de.deserialize_any().unwrap()), "array");
    let mut walk = CommaSeparated::new();
    assert_eq!(walk.size_hint(&de), Some(3));
    assert_eq!(walk.next_element_seed(&mut de), Ok(true));
    assert_eq!(describe(&de.deserialize_any().unwrap()), "i64 1");
    assert_eq!(walk.next_element_seed(&mut de), Ok(true));
    assert_eq!(describe(&de.deserialize_any().unwrap()), "str two");
    assert_eq!(walk.next_element_seed(&mut de), Ok(true));
    assert_eq!(describe(&de.deserialize_any().unwrap()), "array");
    let mut inner = CommaSeparated::new();
    assert_eq!(inner.size_hint(&de), Some(1));
    assert_eq!(inner.next_element_seed(&mut de), Ok(true));
    assert_eq!(describe(&de.deserialize_any().unwrap()), "i64 3");
    assert_eq!(inner.next_element_seed(&mut de), Ok(false));
    assert_eq!(walk.next_element_seed(&mut de), Ok(false));
    assert_eq!(de.peek().unwrap_err().error, ErrorType::UnexpectedEnd);
}

#[test]
fn walk_through_an_object() {
    let mut bytes = b"{\"a\": null, \"b\": 2}".to_vec();
    let mut de = Deserializer::from_slice(&mut bytes).unwrap();
    assert_eq!(describe(&de.deserialize_any().unwrap()), "object");
    let mut walk = CommaSeparated::new();
    assert_eq!(walk.size_hint(&de), Some(2));
    assert_eq!(walk.next_key_seed(&mut de), Ok(true));
    assert_eq!(describe(&de.deserialize_any().unwrap()), "str a");
    assert_eq!(walk.next_value_seed(&mut de), Ok(()));
    assert_eq!(de.deserialize_option(), Ok(true));
    assert_eq!(walk.next_key_seed(&mut de), Ok(true));
    assert_eq!(describe(&de.deserialize_any().unwrap()), "str b");
    assert_eq!(walk.next_value_seed(&mut de), Ok(()));
    assert_eq!(de.deserialize_option(), Ok(false));
    assert_eq!(describe(&de.deserialize_any().unwrap()), "i64 2");
    assert_eq!(walk.next_key_seed(&mut de), Ok(false));
}

#[test]
fn empty_containers_end_at_once() {
    let mut bytes = b"[]".to_vec();
    let mut de = Deserializer::from_slice(&mut bytes).unwrap();
    de.deserialize_any().unwrap();
    let mut walk = CommaSeparated::new();
    assert_eq!(walk.size_hint(&de), Some(0));
    assert_eq!(walk.next_element_seed(&mut de), Ok(false));
    let mut bytes = b"{}".to_vec();
    let mut de = Deserializer::from_slice(&mut bytes).unwrap();
    de.deserialize_any().unwrap();
    let mut walk = CommaSeparated::new();
    assert_eq!(walk.next_key_seed(&mut de), Ok(false));
    let fresh = CommaSeparated::new();
    let mut bytes = b"1".to_vec();
    let de = Deserializer::from_slice(&mut bytes).unwrap();
    assert_eq!(fresh.size_hint(&de), None);
}

#[test]
fn separators_are_checked() {
    let mut bytes = b"[1 2]".to_vec();
    let mut de = Deserializer::from_slice(&mut bytes).unwrap();
    de.deserialize_any().unwrap();
    let mut walk = CommaSeparated::new();
    assert_eq!(walk.next_element_seed(&mut de), Ok(true));
    de.deserialize_any().unwrap();
    let e = walk.next_element_seed(&mut de).unwrap_err();
    assert_eq!((e.error, e.index), (ErrorType::ExpectedComma, 3));

    let mut bytes = b"[1}".to_vec();
    let mut de = Deserializer::from_slice(&mut bytes).unwrap();
    de.deserialize_any().unwrap();
    let mut walk = CommaSeparated::new();
    assert_eq!(walk.next_element_seed(&mut de), Ok(true));
    de.deserialize_any().unwrap();
    let e = walk.next_element_seed(&mut de).unwrap_err();
    assert_eq!((e.error, e.index), (ErrorType::ExpectedArrayClose, 2));

    let mut bytes = b"{\"a\" 1, 2:3 \"b\":4]".to_vec();
    let mut de = Deserializer::from_slice(&mut bytes).unwrap();
    de.deserialize_any().unwrap();
    let mut walk = CommaSeparated::new();
    assert_eq!(walk.next_key_seed(&mut de), Ok(true));
    de.deserialize_any().unwrap();
    let e = walk.next_value_seed(&mut de).unwrap_err();
    assert_eq!((e.error, e.index), (ErrorType::ExpectedColon, 5));
    let e = walk.next_key_seed(&mut de).unwrap_err();
    assert_eq!((e.error, e.index), (ErrorType::ExpectedString, 8));
    de.skip();
    de.skip();
    let e = walk.next_key_seed(&mut de).unwrap_err();
    assert_eq!((e.error, e.index), (ErrorType::ExpectedComma, 12));
    de.skip();
    de.skip();
    let e = walk.next_key_seed(&mut de).unwrap_err();
    assert_eq!((e.error, e.index), (ErrorType::ExpectedObjectClose, 17));
    assert_eq!(walk.next_key_seed(&mut de).unwrap_err().error, ErrorType::UnexpectedEnd);
}

#[test]
fn absent_optional_must_spell_null() {
    let mut bytes = b"nul".to_vec();
    let mut de = Deserializer::from_slice(&mut bytes).unwrap();
    assert_eq!(de.deserialize_option().unwrap_err().error, ErrorType::UnexpectedCharacter);
    let mut bytes = b"".to_vec();
    let mut de = Deserializer::from_slice(&mut bytes).unwrap();
    assert_eq!(de.deserialize_option().unwrap_err().error, ErrorType::UnexpectedEnd);
}
