use barkus::corpus::{parse_go_string_literal, parse_tape_bytes, parse_tape_bytes_checked};

#[test]
fn raw_binary_corpus() {
    assert_eq!(parse_tape_bytes(&[0x0A, 0x3F, 0x01], "tape1").unwrap(), vec![0x0A, 0x3F, 0x01]);
    assert_eq!(parse_tape_bytes(&[0xFF], "tape2").unwrap(), vec![0xFF]);
}

#[test]
fn go_fuzz_v1_bytes() {
    let t = parse_tape_bytes(b"go test fuzz v1\n[]byte(\"\\x0a\\x3f\\x01\")\n", "corpus1").unwrap();
    assert_eq!(t, vec![0x0A, 0x3F, 0x01]);
}

#[test]
fn go_fuzz_v1_string() {
    let t = parse_tape_bytes(b"go test fuzz v1\nstring(\"hello\\nworld\")\n", "corpus1").unwrap();
    assert_eq!(t, b"hello\nworld");
}

#[test]
fn go_fuzz_v1_escapes() {
    let t = parse_tape_bytes(b"go test fuzz v1\n[]byte(\"\\t\\r\\\\\\\"\\x41\\n\")\n", "corpus1").unwrap();
    assert_eq!(t, b"\t\r\\\"\x41\n");
}

#[test]
fn go_fuzz_v1_octal() {
    let t = parse_tape_bytes(b"go test fuzz v1\n[]byte(\"\\101\\012\")\n", "corpus1").unwrap();
    assert_eq!(t, b"A\n");
}

#[test]
fn go_fuzz_v1_first_value_only() {
    let t = parse_tape_bytes(b"go test fuzz v1\n[]byte(\"\\x0a\")\nstring(\"ignored\")\n", "corpus1").unwrap();
    assert_eq!(t, vec![0x0A]);
}

#[test]
fn go_fuzz_blank_lines_skipped() {
    let t = parse_tape_bytes(b"go test fuzz v1\n\n   \n  string(\"ok\")  \n", "f").unwrap();
    assert_eq!(t, b"ok");
}

#[test]
fn go_fuzz_errors_name_the_file() {
    let e = parse_tape_bytes(b"go test fuzz v1\n", "f").unwrap_err();
    assert_eq!(e, "f: Go fuzz file has no value line");
    let e = parse_tape_bytes(b"go test fuzz v1\nint(3)\n", "f").unwrap_err();
    assert_eq!(e, "f: unsupported Go fuzz value line: int(3)");
    let e = parse_tape_bytes(b"go test fuzz v1\n\xff\n", "f").unwrap_err();
    assert!(e.starts_with("f: invalid UTF-8 in Go fuzz file: "));
}

#[test]
fn go_string_escapes() {
    assert_eq!(parse_go_string_literal("\\u00e9", "p").unwrap(), "é".as_bytes());
    assert_eq!(parse_go_string_literal("\\U0001F600", "p").unwrap(), "😀".as_bytes());
    assert_eq!(parse_go_string_literal("\\a\\b\\f\\v", "p").unwrap(), vec![7, 8, 12, 11]);
    assert_eq!(parse_go_string_literal("\\7", "p").unwrap(), vec![7]);
    assert_eq!(parse_go_string_literal("x\\", "p").unwrap_err(), "p: trailing backslash in Go string");
    assert_eq!(parse_go_string_literal("\\q", "p").unwrap_err(), "p: unknown escape \\q in Go string");
    assert_eq!(parse_go_string_literal("\\x4", "p").unwrap_err(), "p: truncated \\x escape");
    assert_eq!(parse_go_string_literal("\\ud800", "p").unwrap_err(), "p: invalid Unicode codepoint U+D800");
}

#[test]
fn octal_escape_above_a_byte_is_reported_apart() {
    let over = b"go test fuzz v1\n[]byte(\"\\777\")\n";
    assert!(parse_tape_bytes_checked(over, "f").is_none());
    let fine = b"go test fuzz v1\n[]byte(\"\\101\\377\")\n";
    assert_eq!(parse_tape_bytes_checked(fine, "f"), Some(Ok(vec![b'A', 255])));
    let raw = b"\\777";
    assert_eq!(parse_tape_bytes_checked(raw, "f"), Some(Ok(raw.to_vec())));
}

#[test]
fn octal_escape_above_a_byte_is_an_error() {
    assert_eq!(parse_go_string_literal("\\477", "p").unwrap_err(), "p: octal escape value above 255");
    let raw = b"go test fuzz v1\n[]byte(\"\\477\")\n";
    assert_eq!(parse_tape_bytes(raw, "f").unwrap_err(), "f: octal escape value above 255");
}
