use sigil::entity::{BlastRadius, Entity};
use sigil::query::index::Index;
use sigil::where_cmd::find_definitions;

fn ent(file: &str, name: &str, kind: &str, parent: Option<&str>, line: u32) -> Entity {
    Entity {
        file: file.into(),
        name: name.into(),
        kind: kind.into(),
        line_start: line,
        line_end: line + 2,
        parent: parent.map(String::from),
        sig: Some(format!("sig of {name}")),
        meta: None,
        body_hash: None,
        sig_hash: None,
        struct_hash: "h".into(),
        visibility: Some("public".into()),
        blast_radius: Some(BlastRadius::default()),
    }
}

#[test]
fn where_matches_tail_segment_across_parents() {
    let idx = Index::build(
        vec![
            ent("a.py", "Parameter.get_default", "method", Some("Parameter"), 10),
            ent("a.py", "Option.get_default", "method", Some("Option"), 50),
            ent("a.py", "CliRunner.get_default_prog_name", "method", Some("CliRunner"), 100),
        ],
        vec![],
    );
    let report = find_definitions(&idx, "get_default", false);
    assert_eq!(report.definitions.len(), 2, "only exact tail match, not prefix");
    assert_eq!(report.definitions[0].parent.as_deref(), Some("Parameter"));
    assert_eq!(report.definitions[0].name, "get_default", "name is tail-only, not qualified");
    assert_eq!(report.definitions[1].parent.as_deref(), Some("Option"));
    assert_eq!(report.definitions[1].name, "get_default");
}

#[test]
fn where_collapses_python_overloads() {
    let idx = Index::build(
        vec![
            ent("a.py", "P.get_default", "method", Some("P"), 10),
            ent("a.py", "P.get_default", "method", Some("P"), 15),
            ent("a.py", "P.get_default", "method", Some("P"), 20),
        ],
        vec![],
    );
    let report = find_definitions(&idx, "get_default", false);
    assert_eq!(report.definitions.len(), 1);
    assert_eq!(report.definitions[0].overloads, 3);
    assert_eq!(report.definitions[0].line, 10, "earliest line wins");
}

#[test]
fn where_filters_tests_by_default() {
    let idx = Index::build(
        vec![
            ent("src/core.py", "P.get_default", "method", Some("P"), 10),
            ent("tests/test_core.py", "FakeP.get_default", "method", Some("FakeP"), 30),
        ],
        vec![],
    );
    let default = find_definitions(&idx, "get_default", false);
    assert_eq!(default.definitions.len(), 1, "test file filtered out by default");
    let with_tests = find_definitions(&idx, "get_default", true);
    assert_eq!(with_tests.definitions.len(), 2);
    assert!(with_tests.definitions[1].in_test);
}

#[test]
fn where_skips_variables_and_imports() {
    let idx = Index::build(
        vec![
            ent("a.py", "foo", "variable", None, 10),
            ent("a.py", "foo", "import", None, 20),
            ent("a.py", "foo", "function", None, 30),
        ],
        vec![],
    );
    let report = find_definitions(&idx, "foo", false);
    assert_eq!(report.definitions.len(), 1);
    assert_eq!(report.definitions[0].kind, "function");
}

#[test]
fn overloads_add_up_to_the_candidates() {
    let idx = Index::build(
        vec![
            ent("a.py", "A.f", "method", Some("A"), 1),
            ent("a.py", "A.f", "method", Some("A"), 9),
            ent("b.py", "f", "function", None, 3),
            ent("a.py", "A.f", "method", Some("A"), 20),
            ent("b.py", "B.f", "method", Some("B"), 30),
            ent("c.py", "f", "variable", None, 1),
        ],
        vec![],
    );
    let report = find_definitions(&idx, "f", true);
    assert_eq!(report.definitions.len(), 3);
    let total: u32 = report.definitions.iter().map(|d| d.overloads).sum();
    assert_eq!(total, 5);
    for (i, a) in report.definitions.iter().enumerate() {
        for b in &report.definitions[i + 1..] {
            assert!(!(a.file == b.file && a.parent == b.parent && a.kind == b.kind));
        }
    }
}
