use asan_report::util::{elide_size, tail_string, sanitize};
use asan_report::meminfo::parse_meminfo_line;

fn bytes(s: &str) -> Vec<u8> {
    s.as_bytes().to_vec()
}

#[test]
fn test_elide_size_fits() {
    assert_eq!(elide_size(&bytes("hi"), 10), bytes("hi"));
    assert_eq!(elide_size(&bytes("hello"), 8), bytes("hello"));
}

#[test]
fn test_elide_size_truncates() {
    assert_eq!(elide_size(&bytes("hello world"), 8), bytes("hello..."));
    assert_eq!(elide_size(&bytes("abcdef"), 3), bytes("..."));
}

#[test]
fn test_elide_size_tiny_budget() {
    assert_eq!(elide_size(&bytes("hello"), 2), bytes("..."));
    assert_eq!(elide_size(&bytes(""), 0), bytes("..."));
}

#[test]
fn test_tail_string_takes_last_lines() {
    let lines = tail_string(&bytes("a\nb\nc"), 2);
    assert_eq!(lines, vec![bytes("b"), bytes("c")]);
}

#[test]
fn test_tail_string_trailing_newline_yields_empty_field() {
    let lines = tail_string(&bytes("a\nb\n"), 5);
    assert_eq!(lines, vec![bytes("a"), bytes("b"), bytes("")]);
}

#[test]
fn test_tail_string_zero_limit() {
    let lines = tail_string(&bytes("a\nb"), 0);
    assert!(lines.is_empty());
}

#[test]
fn test_sanitize_replaces_unsafe_bytes() {
    assert_eq!(sanitize(&bytes("foo/bar baz!")), bytes("foo_bar_baz_"));
    assert_eq!(sanitize(&bytes("ok-name_0")), bytes("ok-name_0"));
}

#[test]
fn test_sanitize_caps_length() {
    let long = "a".repeat(150);
    let s = sanitize(&bytes(&long));
    assert_eq!(s.len(), 100);
    assert_eq!(s, bytes(&"a".repeat(100)));
}

#[test]
fn test_parse_meminfo_line_matches() {
    assert_eq!(parse_meminfo_line(&bytes("MemAvailable:   123456 kB")), Some(123456));
    assert_eq!(parse_meminfo_line(&bytes("MemAvailable: 0 kB")), Some(0));
}

#[test]
fn test_parse_meminfo_line_rejects() {
    assert_eq!(parse_meminfo_line(&bytes("MemFree:  123 kB")), None);
    assert_eq!(parse_meminfo_line(&bytes("MemAvailable: 123")), None);
    assert_eq!(parse_meminfo_line(&bytes("MemAvailable: kB")), None);
    assert_eq!(parse_meminfo_line(&bytes("")), None);
}
