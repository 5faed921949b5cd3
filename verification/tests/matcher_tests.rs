use sigil::entity::Entity;
use sigil::matcher::{match_entities, MatchKind};

fn entity(file: &str, name: &str, body_hash: Option<&str>, sig_hash: Option<&str>, struct_hash: &str) -> Entity {
    Entity {
        file: file.to_string(),
        name: name.to_string(),
        kind: "function".to_string(),
        line_start: 1, line_end: 5,
        parent: None,
        sig: Some(format!("def {}():", name)),
        meta: None,
        body_hash: body_hash.map(|s| s.to_string()),
        sig_hash: sig_hash.map(|s| s.to_string()),
        struct_hash: struct_hash.to_string(),
        visibility: None,
        blast_radius: None,
    }
}

#[test]
fn exact_match_same_file_same_name() {
    let old = vec![entity("a.py", "foo", Some("bh1"), Some("sh1"), "st1")];
    let new = vec![entity("a.py", "foo", Some("bh2"), Some("sh1"), "st2")];
    let matches = match_entities(&old, &new);
    assert_eq!(matches.len(), 1);
    assert!(matches[0].old.is_some());
    assert!(matches[0].new.is_some());
    assert_eq!(matches[0].match_kind, MatchKind::ExactMatch);
}

#[test]
fn moved_entity_detected() {
    let old = vec![entity("a.py", "foo", Some("bh1"), Some("sh1"), "st1")];
    let new = vec![entity("b.py", "foo", Some("bh1"), Some("sh1"), "st1")];
    let matches = match_entities(&old, &new);
    assert_eq!(matches.len(), 1);
    assert_eq!(matches[0].match_kind, MatchKind::Moved);
}

#[test]
fn renamed_entity_detected_by_body_hash() {
    let old = vec![entity("a.py", "foo", Some("bh1"), Some("sh1"), "st1")];
    let new = vec![entity("a.py", "bar", Some("bh1"), Some("sh2"), "st2")];
    let matches = match_entities(&old, &new);
    assert_eq!(matches.len(), 1);
    assert_eq!(matches[0].match_kind, MatchKind::Renamed);
}

#[test]
fn added_and_removed() {
    let old = vec![entity("a.py", "foo", Some("bh1"), Some("sh1"), "st1")];
    let new = vec![entity("a.py", "bar", Some("bh2"), Some("sh2"), "st2")];
    let matches = match_entities(&old, &new);
    let added = matches.iter().filter(|m| m.match_kind == MatchKind::Added).count();
    let removed = matches.iter().filter(|m| m.match_kind == MatchKind::Removed).count();
    assert_eq!(added, 1);
    assert_eq!(removed, 1);
}

#[test]
fn imports_not_renamed() {
    let mut old_e = entity("a.py", "os", None, None, "st1");
    old_e.kind = "import".to_string();
    let mut new_e = entity("a.py", "sys", None, None, "st2");
    new_e.kind = "import".to_string();
    let matches = match_entities(&[old_e], &[new_e]);
    let added = matches.iter().filter(|m| m.match_kind == MatchKind::Added).count();
    let removed = matches.iter().filter(|m| m.match_kind == MatchKind::Removed).count();
    assert_eq!(added, 1);
    assert_eq!(removed, 1);
}

#[test]
fn unchanged_entity_excluded() {
    let e = entity("a.py", "foo", Some("bh1"), Some("sh1"), "st1");
    let matches = match_entities(&[e.clone()], &[e]);
    assert!(matches.is_empty());
}

#[test]
fn unchanged_pairs_leave_both_sides_alike() {
    let old = vec![
        entity("a.rs", "same", Some("b1"), None, "s1"),
        entity("a.rs", "edited", Some("b2"), None, "s2"),
        entity("a.rs", "dropped", Some("b3"), None, "s3"),
    ];
    let new = vec![
        entity("a.rs", "same", Some("b1"), None, "s1"),
        entity("a.rs", "edited", Some("b2x"), None, "s2x"),
        entity("b.rs", "fresh", Some("b9"), None, "s9"),
        entity("b.rs", "fresh2", Some("b8"), None, "s8"),
    ];
    let ms = match_entities(&old, &new);
    let with_old = ms.iter().filter(|m| m.old.is_some()).count();
    let with_new = ms.iter().filter(|m| m.new.is_some()).count();
    assert_eq!(with_old, old.len() - 1);
    assert_eq!(with_new, new.len() - 1);
    for m in &ms {
        assert_eq!(m.match_kind == MatchKind::Added, m.old.is_none());
        assert_eq!(m.match_kind == MatchKind::Removed, m.new.is_none());
    }
}
