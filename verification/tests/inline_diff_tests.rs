use sigil::inline_diff::{compute_inline_diff, extract_entity_text, DiffLineKind};

#[test]
fn extract_entity_text_works() {
    let source = "line1\nline2\nline3\nline4\n";
    assert_eq!(extract_entity_text(source, 2, 3), "line2\nline3");
}

#[test]
fn extract_entity_text_edges() {
    let source = "a\r\nb\nc";
    assert_eq!(extract_entity_text(source, 0, 1), "a");
    assert_eq!(extract_entity_text(source, 2, 9), "b\nc");
    assert_eq!(extract_entity_text(source, 5, 9), "");
    assert_eq!(extract_entity_text(source, 3, 2), "");
}

#[test]
fn identical_returns_none() {
    assert!(compute_inline_diff("hello\n", "hello\n").is_none());
}

#[test]
fn detects_added_line() {
    let diff = compute_inline_diff("a\n", "a\nb\n").unwrap();
    assert!(diff.iter().any(|l| l.kind == DiffLineKind::Added && l.text == "b"));
}

#[test]
fn detects_removed_line() {
    let diff = compute_inline_diff("a\nb\n", "a\n").unwrap();
    assert!(diff.iter().any(|l| l.kind == DiffLineKind::Removed && l.text == "b"));
}

#[test]
fn detects_changed_line() {
    let diff = compute_inline_diff(
        "def foo():\n    return True\n",
        "def foo():\n    return False\n",
    )
    .unwrap();
    assert!(diff.iter().any(|l| l.kind == DiffLineKind::Removed && l.text.contains("True")));
    assert!(diff.iter().any(|l| l.kind == DiffLineKind::Added && l.text.contains("False")));
}

#[test]
fn changes_come_with_one_line_of_context() {
    let diff = compute_inline_diff("def foo():\n    return True\n", "def foo():\n    return False\n").unwrap();
    let got: Vec<(DiffLineKind, &str)> = diff.iter().map(|l| (l.kind, l.text.as_str())).collect();
    assert_eq!(
        got,
        vec![
            (DiffLineKind::Context, "def foo():"),
            (DiffLineKind::Removed, "    return True"),
            (DiffLineKind::Added, "    return False"),
        ]
    );
    let diff = compute_inline_diff("a\nb\nc\nd\ne\n", "a\nb\nX\nd\ne\n").unwrap();
    let got: Vec<(DiffLineKind, &str)> = diff.iter().map(|l| (l.kind, l.text.as_str())).collect();
    assert_eq!(
        got,
        vec![
            (DiffLineKind::Context, "b"),
            (DiffLineKind::Removed, "c"),
            (DiffLineKind::Added, "X"),
            (DiffLineKind::Context, "d"),
        ]
    );
    // Differing texts always give some lines, even when only a line ending changed.
    assert!(!compute_inline_diff("a", "a\n").unwrap().is_empty());
}
