use simd_json::error::{Error, ErrorType};
use simd_json::stringparse::{parse_short_str, parse_str};
use simd_json::value::owned::{to_value, Value};

fn parse(text: &[u8]) -> Result<Value, Error> {
    let mut bytes = text.to_vec();
    to_value(&mut bytes)
}

fn string_of(text: &[u8]) -> String {
    match parse(text).unwrap() {
        Value::String(s) => s,
        other => panic!("not a string: {:?}", other),
    }
}

fn kind_of(text: &[u8]) -> ErrorType {
    parse(text).unwrap_err().error
}

#[test]
fn simple_escapes() {
    assert_eq!(string_of(b"\"\\\" \\\\ \\/ \\b \\f \\n \\r \\t\""), "\" \\ / \u{8} \u{c} \n \r \t");
}

#[test]
fn unicode_escapes_of_each_width() {
    assert_eq!(string_of(b"\"\\u0041\""), "A");
    assert_eq!(string_of(b"\"\\u00e9\""), "\u{e9}");
    assert_eq!(string_of(b"\"\\u20AC\""), "\u{20ac}");
    assert_eq!(string_of(b"\"\\ud83d\\udca9\""), "\u{1F4A9}");
    assert_eq!(string_of(b"\"\\uD800\\uDC00\""), "\u{10000}");
    assert_eq!(string_of(b"\"\\uDBFF\\uDFFF\""), "\u{10FFFF}");
    assert_eq!(string_of(b"\"\\uFFFF\""), "\u{FFFF}");
    assert_eq!(string_of(b"\"\\u007f\\u0080\\u07ff\\u0800\""), "\u{7f}\u{80}\u{7ff}\u{800}");
}

#[test]
fn embedded_nul() {
    assert_eq!(string_of(b"\"a\\u0000b\"").as_bytes(), &[b'a', 0, b'b']);
}

#[test]
fn raw_multibyte_text_is_kept() {
    assert_eq!(string_of("\"h\u{e9}llo \u{1F4A9}\"".as_bytes()), "h\u{e9}llo \u{1F4A9}");
}

#[test]
fn long_strings_take_the_general_path() {
    let body = "x".repeat(100);
    assert_eq!(string_of(format!("\"{}\"", body).as_bytes()), body);
    let escaped = format!("\"{}\\n{}\"", body, body);
    assert_eq!(string_of(escaped.as_bytes()), format!("{}\n{}", body, body));
    let late = format!("\"{}\\n\"", "y".repeat(31));
    assert_eq!(string_of(late.as_bytes()), format!("{}\n", "y".repeat(31)));
}

#[test]
fn invalid_escape() {
    assert_eq!(kind_of(b"\"\\x\""), ErrorType::InvalidEscape);
    assert_eq!(kind_of(b"\"\\ \""), ErrorType::InvalidEscape);
    let e = parse(b"[1, \"a\\qb\"]").unwrap_err();
    assert_eq!(e.error, ErrorType::InvalidEscape);
    assert_eq!(e.index, 4);
    assert_eq!(e.character, '"');
    assert_eq!(e.structural, 3);
}

#[test]
fn invalid_unicode_codepoint() {
    assert_eq!(kind_of(b"\"\\u12\""), ErrorType::InvalidUnicodeCodepoint);
    assert_eq!(kind_of(b"\"\\u12G4\""), ErrorType::InvalidUnicodeCodepoint);
    assert_eq!(kind_of(b"\"\\uD83D\""), ErrorType::InvalidUnicodeCodepoint);
    assert_eq!(kind_of(b"\"\\uD83Dx\""), ErrorType::InvalidUnicodeCodepoint);
    assert_eq!(kind_of(b"\"\\uD83D\\u0041\""), ErrorType::InvalidUnicodeCodepoint);
    assert_eq!(kind_of(b"\"\\uDCA9\""), ErrorType::InvalidUnicodeCodepoint);
    assert_eq!(kind_of(b"\"\\uD83D\\n\""), ErrorType::InvalidUnicodeCodepoint);
}

#[test]
fn unexpected_end_of_string() {
    assert_eq!(kind_of(b"\"abc"), ErrorType::UnexpectedEndOfString);
    assert_eq!(kind_of(b"\""), ErrorType::UnexpectedEndOfString);
    assert_eq!(kind_of(b"\"abc\\"), ErrorType::UnexpectedEndOfString);
    assert_eq!(kind_of(b"[\"abc, 1]"), ErrorType::UnexpectedEndOfString);
}

#[test]
fn escape_free_string_leaves_the_buffer() {
    let mut buf = b"  \"plain text\"  ".to_vec();
    let before = buf.clone();
    assert_eq!(parse_str(&mut buf, 2, 16), Ok(10));
    assert_eq!(buf, before);
    assert_eq!(&buf[3..13], b"plain text");
    assert_eq!(parse_short_str(&mut buf, 2, 16), Ok(10));
    assert_eq!(buf, before);
}

#[test]
fn escaped_string_is_decoded_in_place() {
    let mut buf = b"\"a\\nb\\u0041\" ,".to_vec();
    assert_eq!(parse_str(&mut buf, 0, 13), Ok(4));
    assert_eq!(&buf[1..5], b"a\nbA");
    assert_eq!(&buf[12..], b" ,");
    let mut buf = b"\"a\\nb\\u0041\" ,".to_vec();
    assert_eq!(parse_short_str(&mut buf, 0, 13), Ok(4));
    assert_eq!(&buf[1..5], b"a\nbA");
}

#[test]
fn string_must_close_before_the_limit() {
    let mut buf = b"\"abc\"".to_vec();
    assert_eq!(parse_str(&mut buf, 0, 4), Err(ErrorType::UnexpectedEndOfString));
    assert_eq!(parse_short_str(&mut buf, 0, 4), Err(ErrorType::UnexpectedEndOfString));
    assert_eq!(parse_str(&mut buf, 0, 5), Ok(3));
}

#[test]
fn control_characters_pass_raw() {
    assert_eq!(string_of(b"\"a\tb\""), "a\tb");
}
