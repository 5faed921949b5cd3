use sigil::diff_json::{ChangeKind, DiffResult, EntityDiff};

fn ed(change: ChangeKind, name: &str, file: &str, breaking: bool) -> EntityDiff {
    EntityDiff {
        change,
        name: name.into(),
        kind: "function".into(),
        file: file.into(),
        old_file: None,
        old_name: None,
        sig_changed: None,
        body_changed: None,
        breaking,
        breaking_reason: None,
        old: None,
        new: None,
        inline_diff: None,
        change_details: None,
    }
}

#[test]
fn compute_summary_counts() {
    let entities = vec![
        ed(ChangeKind::Added, "foo", "a.py", false),
        ed(ChangeKind::Modified, "bar", "a.py", true),
        ed(ChangeKind::FormattingOnly, "baz", "a.py", false),
    ];
    let s = DiffResult::compute_summary(&entities);
    assert_eq!(s.added, 1);
    assert_eq!(s.modified, 1);
    assert_eq!(s.formatting_only, 1);
    assert!(s.has_breaking_change);
}

#[test]
fn detect_cross_file_pattern() {
    let diffs = vec![
        ed(ChangeKind::Modified, "init", "a.py", false),
        ed(ChangeKind::Modified, "init", "b.py", false),
    ];
    let patterns = DiffResult::detect_patterns(&diffs);
    assert_eq!(patterns.len(), 1);
    assert_eq!(patterns[0].files.len(), 2);
    assert!(patterns[0].description.contains("init"));
}

#[test]
fn patterns_group_by_base_name_sort_files_and_widest_first() {
    let diffs = vec![
        ed(ChangeKind::Modified, "A.run", "z.py", false),
        ed(ChangeKind::Added, "helper", "b.py", false),
        ed(ChangeKind::Modified, "B.run", "c.py", false),
        ed(ChangeKind::Added, "helper", "a.py", false),
        ed(ChangeKind::Added, "helper", "c.py", false),
        ed(ChangeKind::FormattingOnly, "fmt", "a.py", false),
        ed(ChangeKind::FormattingOnly, "fmt", "b.py", false),
        ed(ChangeKind::Modified, "run", "z.py", false),
    ];
    let patterns = DiffResult::detect_patterns(&diffs);
    assert_eq!(patterns.len(), 2);
    assert_eq!(patterns[0].description, "same added applied to helper across 3 files");
    assert_eq!(patterns[0].files, vec!["a.py", "b.py", "c.py"]);
    assert_eq!(patterns[1].description, "same modified applied to run across 2 files");
    assert_eq!(patterns[1].files, vec!["c.py", "z.py"]);
    assert_eq!(patterns[1].entity_names, vec!["A.run", "B.run", "run"]);
    assert_eq!(patterns[1].change, ChangeKind::Modified);
}

#[test]
fn single_file_groups_are_not_patterns() {
    let diffs = vec![
        ed(ChangeKind::Removed, "x", "a.py", false),
        ed(ChangeKind::Removed, "x", "a.py", false),
    ];
    assert!(DiffResult::detect_patterns(&diffs).is_empty());
    let s = DiffResult::compute_summary(&diffs);
    assert_eq!(s.removed, 2);
    assert!(!s.has_breaking_change);
}

#[test]
fn every_pattern_spans_two_files_or_more() {
    let diffs = vec![
        ed(ChangeKind::Modified, "init", "a.py", false),
        ed(ChangeKind::Modified, "init", "a.py", false),
        ed(ChangeKind::Added, "x", "a.py", false),
        ed(ChangeKind::Added, "x", "b.py", false),
        ed(ChangeKind::Removed, "y", "q.py", false),
    ];
    let patterns = DiffResult::detect_patterns(&diffs);
    assert_eq!(patterns.len(), 1);
    assert!(patterns.iter().all(|p| p.files.len() >= 2));
}
