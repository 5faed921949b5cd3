use sigil::hasher::struct_hash;
use sigil::index::index_files;
use sigil::markdown_index::parse_markdown_file;

const SAMPLE: &str = "---\ntitle: Sample\n---\n\nIntro paragraph.\n\n# Installation\n\n## Prerequisites\n\n- Rust\n- Git\n\n```bash\ncargo build\n```\n\n| A | B |\n|---|---|\n\n> quoted\n\n# Usage\nRun it.\n";

#[test]
fn blank_file_has_no_entities() {
    let (entities, refs) = parse_markdown_file("  \n\n\t\n", "test.md").unwrap();
    assert!(entities.is_empty());
    assert!(refs.is_empty());
}

#[test]
fn sample_document_blocks() {
    let (es, refs) = parse_markdown_file(SAMPLE, "docs/sample.md").unwrap();
    assert!(refs.is_empty());
    let got: Vec<(&str, &str, u32, u32, Option<&str>)> = es
        .iter()
        .map(|e| (e.kind.as_str(), e.name.as_str(), e.line_start, e.line_end, e.parent.as_deref()))
        .collect();
    assert_eq!(
        got,
        vec![
            ("frontmatter", "frontmatter", 1, 3, None),
            ("paragraph", "paragraph", 5, 5, None),
            ("section", "Installation", 7, 22, None),
            ("section", "Prerequisites", 9, 22, Some("Installation")),
            ("list", "list", 11, 12, Some("Prerequisites")),
            ("code_block", "bash", 14, 16, Some("Prerequisites")),
            ("table", "table", 18, 19, Some("Prerequisites")),
            ("blockquote", "blockquote", 21, 21, Some("Prerequisites")),
            ("section", "Usage", 23, 24, None),
            ("paragraph", "paragraph", 24, 24, Some("Usage")),
        ]
    );
    assert!(es.iter().all(|e| e.file == "docs/sample.md" && e.sig.is_none() && e.body_hash.is_none()));
    assert_eq!(es[5].struct_hash, struct_hash(b"```bash\ncargo build\n```"));
    assert_eq!(es[0].struct_hash, struct_hash(b"---\ntitle: Sample\n---"));
}

#[test]
fn markdown_fixture_kinds_and_hierarchy() {
    let (es, _) = parse_markdown_file(SAMPLE, "sample.md").unwrap();
    assert!(es.len() >= 10);
    let kinds: Vec<&str> = es.iter().map(|e| e.kind.as_str()).collect();
    for k in ["frontmatter", "section", "code_block", "table", "list", "blockquote", "paragraph"] {
        assert!(kinds.contains(&k), "missing {k}");
    }
    let installation = es.iter().find(|e| e.name == "Installation").unwrap();
    assert!(installation.parent.is_none());
    let prereqs = es.iter().find(|e| e.name == "Prerequisites").unwrap();
    assert_eq!(prereqs.parent.as_deref(), Some("Installation"));
}

#[test]
fn unclosed_fence_runs_to_the_end_and_unclosed_frontmatter_is_text() {
    let (es, _) = parse_markdown_file("---\nnot closed\n\n~~~\ncode\n# not a heading\n", "a.md").unwrap();
    let got: Vec<(&str, u32, u32)> = es.iter().map(|e| (e.kind.as_str(), e.line_start, e.line_end)).collect();
    assert_eq!(got, vec![("paragraph", 1, 2), ("code_block", 4, 6)]);
    assert_eq!(es[1].name, "code_block");
}

#[test]
fn headings_need_a_space_and_at_most_six_hashes() {
    let (es, _) = parse_markdown_file("#tag\n\n####### seven\n\n###### six\n1. one\n2) two\n", "a.md").unwrap();
    let got: Vec<(&str, &str)> = es.iter().map(|e| (e.kind.as_str(), e.name.as_str())).collect();
    assert_eq!(got, vec![("paragraph", "paragraph"), ("paragraph", "paragraph"), ("section", "six"), ("list", "list")]);
}

#[test]
fn index_gives_markdown_entities() {
    let files = vec![("docs/sample.md".to_string(), SAMPLE.as_bytes().to_vec())];
    let (es, rs, _) = index_files(&files, &None, &[], &[], true);
    assert_eq!(es.len(), 10);
    assert!(rs.is_empty());
    for w in es.windows(2) {
        assert!(w[0].line_start <= w[1].line_start);
    }
}
