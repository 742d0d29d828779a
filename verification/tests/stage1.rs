use simd_json::charutils::{byte_classes, OPERATOR_CLASSES, WHITESPACE_CLASSES};
use simd_json::error::ErrorType;
use simd_json::stage1::find_structural_bits;

/// A tokenizer that reads byte by byte.
fn reference(input: &[u8]) -> Vec<u32> {
    let mut out = Vec::new();
    let mut escaped = false;
    let mut in_string = false;
    let mut boundary = true;
    for (i, &c) in input.iter().enumerate() {
        let quote = c == b'"' && !escaped;
        let inside = in_string != quote;
        let ws = matches!(c, b' ' | b'\t' | b'\n' | b'\r');
        let op = matches!(c, b'{' | b'}' | b'[' | b']' | b':' | b',');
        if (quote && inside) || (op && !inside) || (!inside && !quote && !ws && boundary) {
            out.push(i as u32);
        }
        escaped = c == b'\\' && !escaped;
        in_string = inside;
        boundary = !inside && (ws || op || quote);
    }
    out
}

fn check(input: &[u8]) {
    let found = find_structural_bits(input).unwrap();
    assert_eq!(found, reference(input), "input {:?}", String::from_utf8_lossy(input));
    for w in found.windows(2) {
        assert!(w[0] < w[1]);
    }
    for &k in &found {
        let c = input[k as usize];
        assert!(!matches!(c, b' ' | b'\t' | b'\n' | b'\r'));
    }
}

#[test]
fn index_of_small_document() {
    let input = b"{\"a\":1,\"b\":[true,null,\"x\\ny\"]}";
    let found = find_structural_bits(input).unwrap();
    assert_eq!(found, vec![0, 1, 4, 5, 6, 7, 10, 11, 12, 16, 17, 21, 22, 28, 29]);
}

#[test]
fn index_of_empty_input() {
    assert_eq!(find_structural_bits(b"").unwrap(), Vec::<u32>::new());
    assert_eq!(find_structural_bits(b"   \n\t ").unwrap(), Vec::<u32>::new());
}

#[test]
fn index_skips_string_interiors() {
    let input = b"[\"a,b:{}[]\", \"\\\"\", \"\\\\\"]";
    let found = find_structural_bits(input).unwrap();
    assert_eq!(found, vec![0, 1, 11, 13, 17, 19, 23]);
}

#[test]
fn index_marks_what_follows_a_closing_quote() {
    assert_eq!(find_structural_bits(b"\"a\"x").unwrap(), vec![0, 3]);
    assert_eq!(find_structural_bits(b"1\"a\"").unwrap(), vec![0, 1]);
    assert_eq!(find_structural_bits(b"12 34").unwrap(), vec![0, 3]);
}

#[test]
fn index_rejects_invalid_utf8() {
    assert_eq!(find_structural_bits(&[b'"', 0xff, b'"']), Err(ErrorType::InvalidUtf8));
    assert_eq!(find_structural_bits(&[0xc3]), Err(ErrorType::InvalidUtf8));
    check("\"\u{e9}\u{1F4A9}\"".as_bytes());
}

#[test]
fn index_agrees_with_reference_across_blocks() {
    for pad in 0..140usize {
        let mut doc = Vec::new();
        doc.extend(std::iter::repeat(b' ').take(pad));
        doc.extend_from_slice(b"{\"key\\\"\\\\\":[1, 2.5e3, \"a\\\\\\\\\\\"b\", true, null, {\"x\": \"\\\\\"}]}");
        check(&doc);
    }
}

#[test]
fn index_handles_backslash_runs_across_blocks() {
    for run in 0..70usize {
        for pad in 60..68usize {
            let mut doc = Vec::new();
            doc.extend(std::iter::repeat(b' ').take(pad));
            doc.push(b'"');
            doc.extend(std::iter::repeat(b'\\').take(run));
            doc.extend_from_slice(b"\" , \"z\" ]");
            check(&doc);
        }
    }
}

#[test]
fn index_handles_strings_across_blocks() {
    for len in 0..200usize {
        let mut doc = Vec::new();
        doc.extend_from_slice(b"[\"");
        doc.extend(std::iter::repeat(b'a').take(len));
        doc.extend_from_slice(b"\",{\"b\":\"");
        doc.extend(std::iter::repeat(b',').take(len));
        doc.extend_from_slice(b"\"}]");
        check(&doc);
    }
}

#[test]
fn index_of_document_of_one_block() {
    let mut doc = Vec::new();
    doc.push(b'[');
    doc.extend(std::iter::repeat(b' ').take(62));
    doc.push(b']');
    assert_eq!(doc.len(), 64);
    assert_eq!(find_structural_bits(&doc).unwrap(), vec![0, 63]);
    doc.insert(63, b'1');
    assert_eq!(doc.len(), 65);
    assert_eq!(find_structural_bits(&doc).unwrap(), vec![0, 63, 64]);
}

#[test]
fn index_of_unterminated_string() {
    check(b"[\"abc, 1, 2");
    assert_eq!(find_structural_bits(b"[\"abc, 1, 2").unwrap(), vec![0, 1]);
}

#[test]
fn index_of_garbage() {
    check(b"\\\"a\" \\\\\"b\" }{ ][ ,:");
    check(b"tru e nul,l fa\"lse\"x");
    let mut state = 12345u32;
    for _ in 0..200 {
        let mut doc = Vec::new();
        for _ in 0..150 {
            state = state.wrapping_mul(1103515245).wrapping_add(12345);
            let c = b" \"\\\\,:[]{}a1\n"[((state >> 16) % 13) as usize];
            doc.push(c);
        }
        check(&doc);
    }
}

#[test]
fn nibble_tables_tell_the_classes() {
    for b in 0..=255u8 {
        let classes = byte_classes(b);
        let op = matches!(b, b'{' | b'}' | b'[' | b']' | b':' | b',');
        let ws = matches!(b, b' ' | b'\t' | b'\n' | b'\r');
        assert_eq!(classes & OPERATOR_CLASSES != 0, op, "byte {:#x}", b);
        assert_eq!(classes & WHITESPACE_CLASSES != 0, ws, "byte {:#x}", b);
    }
}
