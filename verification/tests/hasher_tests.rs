use sigil::cache::hash_file_contents;
use sigil::hasher::{body_hash, body_hash_raw, extract_raw_bytes, sig_hash, struct_hash};

#[test]
fn struct_hash_deterministic() {
    let input = b"def foo():\n    return 1\n";
    assert_eq!(struct_hash(input), struct_hash(input));
}

#[test]
fn struct_hash_16_hex_chars() {
    let h = struct_hash(b"anything");
    assert_eq!(h.len(), 16);
    assert!(h.chars().all(|c| c.is_ascii_hexdigit()));
}

#[test]
fn struct_hash_changes_on_whitespace() {
    let a = struct_hash(b"def foo():\n    return 1\n");
    let b = struct_hash(b"def foo():\n        return 1\n");
    assert_ne!(a, b);
}

#[test]
fn struct_hash_is_prefix_of_full_digest() {
    let full = hash_file_contents(b"hello world");
    assert_eq!(full.len(), 64);
    assert_eq!(full, "d74981efa70a0c880b8d8c1985d075dbcbf679b99a5f9914e5aaf96b831a9e24");
    assert_eq!(struct_hash(b"hello world"), "d74981efa70a0c88");
}

#[test]
fn hash_file_contents_deterministic() {
    assert_eq!(hash_file_contents(b"hello world"), hash_file_contents(b"hello world"));
}

#[test]
fn hash_file_contents_differs() {
    assert_ne!(hash_file_contents(b"hello world"), hash_file_contents(b"hello world!"));
}

#[test]
fn body_hash_strips_indentation() {
    let src_a = "def foo():\n    return 1\n";
    let src_b = "def foo():\n        return 1\n";
    assert_eq!(body_hash(src_a, 2, 2), body_hash(src_b, 2, 2));
}

#[test]
fn body_hash_strips_comments() {
    let src_a = "def foo():\n    return 1\n";
    let src_b = "def foo():\n    # a comment\n    return 1\n";
    assert_eq!(body_hash(src_a, 2, 2), body_hash(src_b, 2, 3));
}

#[test]
fn body_hash_detects_logic_change() {
    let src_a = "def foo():\n    return 1\n";
    let src_b = "def foo():\n    return 2\n";
    assert_ne!(body_hash(src_a, 2, 2), body_hash(src_b, 2, 2));
}

#[test]
fn body_hash_none_for_single_line() {
    assert!(body_hash("import os\n", 2, 1).is_none());
}

#[test]
fn body_hash_none_when_body_start_exceeds_end() {
    assert!(body_hash("def foo(): pass\n", 3, 1).is_none());
}

#[test]
fn body_hash_skips_docstrings() {
    let a = "def f():\n    \"\"\"Doc\n    more doc\n    \"\"\"\n    return 1\n";
    let b = "def f():\n    return 1\n";
    assert_eq!(body_hash(a, 2, 5), body_hash(b, 2, 2));
    let one_line = "def f():\n    \"\"\"Doc.\"\"\"\n    return 1\n";
    assert_eq!(body_hash(one_line, 2, 3), body_hash(b, 2, 2));
}

#[test]
fn body_hash_raw_keeps_comments() {
    let a = "key:\n  # note\n  value: 1\n";
    let b = "key:\n  value: 1\n";
    assert_ne!(body_hash_raw(a, 1, 3), body_hash_raw(b, 1, 2));
    assert_eq!(body_hash_raw("a:  1\n", 1, 1), body_hash_raw("  a: 1  \n", 1, 1));
    assert!(body_hash_raw("\n\n", 1, 2).is_none());
}

#[test]
fn sig_hash_none_for_none() {
    assert!(sig_hash(None).is_none());
}

#[test]
fn sig_hash_normalizes_whitespace() {
    let a = sig_hash(Some("def foo(x:  int) -> bool:"));
    let b = sig_hash(Some("def foo(x: int) -> bool:"));
    assert_eq!(a, b);
}

#[test]
fn sig_hash_detects_param_change() {
    let a = sig_hash(Some("def foo(x: int) -> bool:"));
    let b = sig_hash(Some("def foo(x: int, y: int) -> bool:"));
    assert_ne!(a, b);
}

#[test]
fn raw_bytes_cover_the_line_range() {
    let src = "a\nbb\nccc\n";
    assert_eq!(extract_raw_bytes(src, 2, 3), "bb\nccc");
    assert_eq!(extract_raw_bytes(src, 1, 1), "a");
    assert_eq!(extract_raw_bytes(src, 2, 9), "bb\nccc\n");
    assert_eq!(extract_raw_bytes(src, 3, 2), "a\nbb");
}
