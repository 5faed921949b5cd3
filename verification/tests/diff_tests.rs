use sigil::diff::{diff_from_sources, diff_sources};
use sigil::git::{FileChange, FileStatus};
use sigil::cache::Cache;
use sigil::diff::assemble_diff;
use sigil::diff_json::{ChangeKind, EntityDiff};
use sigil::entity::{Entity, Reference};
use sigil::index::reuse_unchanged;
use sigil::inline_diff::DiffLineKind;

fn entity(file: &str, name: &str, start: u32, end: u32) -> Entity {
    Entity {
        file: file.to_string(),
        name: name.to_string(),
        kind: "function".to_string(),
        line_start: start,
        line_end: end,
        parent: None,
        sig: None,
        meta: None,
        body_hash: None,
        sig_hash: None,
        struct_hash: "h".to_string(),
        visibility: None,
        blast_radius: None,
    }
}

fn modified(old: Entity, new: Entity) -> EntityDiff {
    EntityDiff {
        change: ChangeKind::Modified,
        name: new.name.clone(),
        kind: "function".to_string(),
        file: new.file.clone(),
        old_file: None,
        old_name: None,
        sig_changed: Some(false),
        body_changed: Some(true),
        breaking: false,
        breaking_reason: None,
        old: Some(old),
        new: Some(new),
        inline_diff: None,
        change_details: None,
    }
}

#[test]
fn assemble_diff_fills_inline_diff_and_summary() {
    let old_src = "def f():\n    return 1\n".to_string();
    let new_src = "def f():\n    return 2\n".to_string();
    let d = modified(entity("a.py", "f", 1, 2), entity("a.py", "f", 1, 2));
    let r = assemble_diff(
        "HEAD~1",
        "HEAD",
        vec![d],
        &[("a.py".to_string(), old_src)],
        &[("a.py".to_string(), new_src)],
    );
    assert_eq!(r.base_ref, "HEAD~1");
    assert_eq!(r.head_ref, "HEAD");
    assert_eq!(r.summary.modified, 1);
    let lines = r.entities[0].inline_diff.as_ref().expect("inline diff");
    assert_eq!(lines.len(), 3);
    assert_eq!(lines[0].kind, DiffLineKind::Context);
    assert_eq!(lines[0].text, "def f():");
    assert_eq!(lines[1].kind, DiffLineKind::Removed);
    assert_eq!(lines[1].text, "    return 1");
    assert_eq!(lines[2].kind, DiffLineKind::Added);
    assert_eq!(lines[2].text, "    return 2");
    assert!(r.entities[0].change_details.is_some());
}

#[test]
fn assemble_diff_leaves_records_without_sources_alone() {
    let d = modified(entity("a.py", "f", 1, 2), entity("a.py", "f", 1, 2));
    let r = assemble_diff("main", "feature", vec![d], &[], &[]);
    assert!(r.entities[0].inline_diff.is_none());
    assert!(r.entities[0].change_details.is_none());
    assert_eq!(r.patterns.len(), 0);
}

#[test]
fn reuse_unchanged_keeps_the_files_previous_rows() {
    let mut cache = Cache::new();
    cache.insert("a.rs".to_string(), "abc".to_string());
    let prev = vec![entity("a.rs", "x", 1, 2), entity("b.rs", "y", 1, 2), entity("a.rs", "z", 5, 6)];
    let refs = vec![
        Reference { file: "a.rs".to_string(), caller: None, name: "y".to_string(), ref_kind: "call".to_string(), line: 3 },
        Reference { file: "b.rs".to_string(), caller: None, name: "x".to_string(), ref_kind: "call".to_string(), line: 1 },
    ];
    let cache = Some(cache);
    let (es, rs) = reuse_unchanged(&cache, &prev, &refs, true, "a.rs", "abc").expect("unchanged file");
    let names: Vec<&str> = es.iter().map(|e| e.name.as_str()).collect();
    assert_eq!(names, vec!["x", "z"]);
    assert_eq!(rs.len(), 1);
    let (_, no_refs) = reuse_unchanged(&cache, &prev, &refs, false, "a.rs", "abc").unwrap();
    assert!(no_refs.is_empty());
    assert!(reuse_unchanged(&cache, &prev, &refs, true, "a.rs", "other").is_none());
    assert!(reuse_unchanged(&None, &prev, &refs, true, "a.rs", "abc").is_none());
}

#[test]
fn diff_sources_pick_sides_languages_and_utf8() {
    let changes = vec![
        FileChange { path: "a.py".into(), status: FileStatus::Modified },
        FileChange { path: "new.py".into(), status: FileStatus::Added },
        FileChange { path: "gone.py".into(), status: FileStatus::Deleted },
        FileChange { path: "notes.txt".into(), status: FileStatus::Modified },
        FileChange { path: "bin.py".into(), status: FileStatus::Modified },
    ];
    let old_bytes = vec![
        ("a.py".to_string(), b"def f():\n    return 1\n".to_vec()),
        ("new.py".to_string(), b"x = 1\n".to_vec()),
        ("gone.py".to_string(), b"y = 2\n".to_vec()),
        ("notes.txt".to_string(), b"hi\n".to_vec()),
        ("bin.py".to_string(), vec![0xff]),
    ];
    let new_bytes = vec![
        ("a.py".to_string(), b"def f():\n    return 2\n".to_vec()),
        ("new.py".to_string(), b"x = 1\n".to_vec()),
        ("gone.py".to_string(), b"y = 3\n".to_vec()),
        ("bin.py".to_string(), b"z = 0\n".to_vec()),
    ];
    let (olds, news) = diff_sources(&changes, &old_bytes, &new_bytes);
    let op: Vec<&str> = olds.iter().map(|(p, _)| p.as_str()).collect();
    let np: Vec<&str> = news.iter().map(|(p, _)| p.as_str()).collect();
    assert_eq!(op, vec!["a.py", "gone.py"]);
    assert_eq!(np, vec!["a.py", "new.py", "bin.py"]);
    assert_eq!(olds[0].1, "def f():\n    return 1\n");
    let d = modified(entity("a.py", "f", 1, 2), entity("a.py", "f", 1, 2));
    let r = diff_from_sources("HEAD~1", "HEAD", &changes, &old_bytes, &new_bytes, vec![d]);
    assert_eq!(r.summary.modified, 1);
    let lines = r.entities[0].inline_diff.as_ref().expect("inline diff");
    assert_eq!(lines.len(), 3);
    assert_eq!(lines[2].text, "    return 2");
}
