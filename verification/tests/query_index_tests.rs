use sigil::entity::{Entity, Reference};
use sigil::query::index::Index;

fn ent(file: &str, name: &str, kind: &str) -> Entity {
    Entity {
        file: file.to_string(),
        name: name.to_string(),
        kind: kind.to_string(),
        line_start: 1,
        line_end: 2,
        parent: None,
        sig: None,
        meta: None,
        body_hash: None,
        sig_hash: None,
        struct_hash: "deadbeef".to_string(),
        visibility: None,
        blast_radius: None,
    }
}

fn refr(file: &str, caller: Option<&str>, name: &str, kind: &str) -> Reference {
    Reference {
        file: file.to_string(),
        caller: caller.map(|c| c.to_string()),
        name: name.to_string(),
        ref_kind: kind.to_string(),
        line: 1,
    }
}

#[test]
fn empty_index_has_zero_counts() {
    let idx = Index::build(vec![], vec![]);
    assert_eq!(idx.len(), (0, 0));
    assert!(idx.is_empty());
}

#[test]
fn entities_by_name_finds_all_matches() {
    let idx = Index::build(
        vec![
            ent("a.rs", "foo", "function"),
            ent("b.rs", "foo", "function"), // ambiguous — two files define foo
            ent("c.rs", "bar", "function"),
        ],
        vec![],
    );
    let foos: Vec<_> = idx.entities_by_name("foo");
    assert_eq!(foos.len(), 2);
    let bars: Vec<_> = idx.entities_by_name("bar");
    assert_eq!(bars.len(), 1);
    let missing: Vec<_> = idx.entities_by_name("nope");
    assert_eq!(missing.len(), 0);
}

#[test]
fn entities_by_file_groups_correctly() {
    let idx = Index::build(
        vec![
            ent("a.rs", "foo", "function"),
            ent("a.rs", "bar", "function"),
            ent("b.rs", "baz", "function"),
        ],
        vec![],
    );
    let in_a: Vec<_> = idx.entities_by_file("a.rs");
    assert_eq!(in_a.len(), 2);
    let in_b: Vec<_> = idx.entities_by_file("b.rs");
    assert_eq!(in_b.len(), 1);
}

#[test]
fn refs_to_returns_callers() {
    let idx = Index::build(
        vec![ent("a.rs", "foo", "function")],
        vec![
            refr("b.rs", Some("main"), "foo", "call"),
            refr("c.rs", Some("helper"), "foo", "call"),
            refr("d.rs", Some("main"), "other", "call"), // should not match
        ],
    );
    let callers: Vec<_> = idx.refs_to("foo");
    assert_eq!(callers.len(), 2);
    let callers_other: Vec<_> = idx.refs_to("other");
    assert_eq!(callers_other.len(), 1);
}

#[test]
fn refs_from_returns_callees() {
    let idx = Index::build(
        vec![],
        vec![
            refr("a.rs", Some("main"), "foo", "call"),
            refr("a.rs", Some("main"), "bar", "call"),
            refr("a.rs", Some("helper"), "foo", "call"),
        ],
    );
    let from_main: Vec<_> = idx.refs_from("main");
    assert_eq!(from_main.len(), 2);
    let from_helper: Vec<_> = idx.refs_from("helper");
    assert_eq!(from_helper.len(), 1);
}

#[test]
fn refs_with_no_caller_skipped_in_refs_from() {
    // Top-level refs (no enclosing caller) must not appear in refs_from.
    let idx = Index::build(
        vec![],
        vec![
            refr("a.rs", None, "foo", "import"),
            refr("a.rs", Some("main"), "foo", "call"),
        ],
    );
    let from_main: Vec<_> = idx.refs_from("main");
    assert_eq!(from_main.len(), 1);
    // Top-level ref is still findable via refs_to
    let to_foo: Vec<_> = idx.refs_to("foo");
    assert_eq!(to_foo.len(), 2);
}

#[test]
fn refs_in_file_groups_by_file() {
    let idx = Index::build(
        vec![],
        vec![
            refr("a.rs", Some("m"), "x", "call"),
            refr("a.rs", Some("m"), "y", "call"),
            refr("b.rs", Some("m"), "z", "call"),
        ],
    );
    let in_a: Vec<_> = idx.refs_in_file("a.rs");
    assert_eq!(in_a.len(), 2);
}

#[test]
fn of_kind_filters_by_reference_kind() {
    let a = Reference { file: "a.rs".into(), caller: None, name: "f".into(), ref_kind: "call".into(), line: 1 };
    let b = Reference { file: "a.rs".into(), caller: None, name: "f".into(), ref_kind: "import".into(), line: 2 };
    let c = Reference { file: "b.rs".into(), caller: None, name: "f".into(), ref_kind: "call".into(), line: 3 };
    let all = vec![&a, &b, &c];
    let calls = sigil::query::index::of_kind(all.clone(), Some("call"));
    assert_eq!(calls.iter().map(|r| r.line).collect::<Vec<_>>(), vec![1, 3]);
    assert_eq!(sigil::query::index::of_kind(all, None).len(), 3);
}
