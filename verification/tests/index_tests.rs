use sigil::cache::{hash_file_contents, Cache};
use sigil::index::{extension_of, index_files};
use sigil::entity::{Entity, Reference};
use sigil::index::{find_decorator_start, fixed_language, is_import_kind, normalize_kind, sort_entities, sort_references};

fn ent(file: &str, line: u32, name: &str) -> Entity {
    Entity {
        file: file.into(),
        name: name.into(),
        kind: "function".into(),
        line_start: line,
        line_end: line + 1,
        parent: None,
        sig: None,
        meta: None,
        body_hash: None,
        sig_hash: None,
        struct_hash: "0".into(),
        visibility: None,
        blast_radius: None,
    }
}

#[test]
fn normalize_kind_mappings() {
    assert_eq!(normalize_kind("trait_impl"), "impl");
    assert_eq!(normalize_kind("field"), "property");
    assert_eq!(normalize_kind("procedure"), "function");
    assert_eq!(normalize_kind("function"), "function");
    assert_eq!(normalize_kind("class"), "class");
}

#[test]
fn import_kinds() {
    assert!(is_import_kind("import"));
    assert!(is_import_kind("use"));
    assert!(is_import_kind("package"));
    assert!(!is_import_kind("function"));
}

#[test]
fn decorators_are_scanned_upwards() {
    let src = "import x\n@app.route('/')\n  @login_required\ndef view():\n    pass\n";
    assert_eq!(find_decorator_start(src, 4, "python"), 2);
    assert_eq!(find_decorator_start(src, 4, "go"), 4);
    let rs = "#[derive(Debug)]\n#[serde(rename = \"x\")]\npub struct S;\n";
    assert_eq!(find_decorator_start(rs, 3, "rust"), 1);
    assert_eq!(find_decorator_start(rs, 1, "rust"), 1);
}

#[test]
fn languages_known_by_extension() {
    assert_eq!(fixed_language("json"), Some("json"));
    assert_eq!(fixed_language("yml"), Some("yaml"));
    assert_eq!(fixed_language("toml"), Some("toml"));
    assert_eq!(fixed_language("mdx"), Some("markdown"));
    assert_eq!(fixed_language("rs"), None);
}

#[test]
fn entities_sorted_by_file_then_line_stably() {
    let es = vec![ent("b.rs", 3, "x"), ent("a.rs", 9, "y"), ent("b.rs", 1, "z"), ent("a.rs", 9, "w")];
    let sorted = sort_entities(es);
    let names: Vec<&str> = sorted.iter().map(|e| e.name.as_str()).collect();
    assert_eq!(names, vec!["y", "w", "z", "x"]);
}

#[test]
fn references_sorted_by_file_then_line() {
    let r = |f: &str, l: u32, n: &str| Reference { file: f.into(), caller: None, name: n.into(), ref_kind: "call".into(), line: l };
    let sorted = sort_references(vec![r("b", 2, "1"), r("a", 5, "2"), r("b", 1, "3")]);
    let names: Vec<&str> = sorted.iter().map(|x| x.name.as_str()).collect();
    assert_eq!(names, vec!["2", "3", "1"]);
}

fn rref(file: &str, name: &str, line: u32) -> Reference {
    Reference { file: file.into(), caller: None, name: name.into(), ref_kind: "call".into(), line }
}

#[test]
fn index_files_reuses_parses_and_skips() {
    let a_src = b"fn helper() {}\nfn main() { helper(); }\n".to_vec();
    let kept_src = b"fn old() {}\n".to_vec();
    let mut prev = Cache::new();
    prev.insert("src/kept.rs".to_string(), hash_file_contents(&kept_src));
    prev.insert("src/a.rs".to_string(), "stale".to_string());
    let prev_entities = vec![ent("src/kept.rs", 1, "old"), ent("src/a.rs", 1, "gone")];
    let prev_refs = vec![rref("src/kept.rs", "x", 3), rref("src/a.rs", "y", 1)];
    let files = vec![
        ("src/kept.rs".to_string(), kept_src.clone()),
        ("src/a.rs".to_string(), a_src.clone()),
        ("notes.txt".to_string(), b"hello".to_vec()),
        ("src/bad.rs".to_string(), vec![0xff, 0xfe]),
        ("README.md".to_string(), b"# Title\n".to_vec()),
        ("conf.json".to_string(), b"{}".to_vec()),
    ];
    let (es, rs, cache) = index_files(&files, &Some(prev), &prev_entities, &prev_refs, true);
    // The unchanged file keeps its previous entity; the changed one is parsed
    // afresh; the Markdown file gives its heading.
    assert_eq!((es[0].file.as_str(), es[0].name.as_str(), es[0].kind.as_str()), ("README.md", "Title", "section"));
    assert_eq!(es.last().unwrap().name, "old");
    let fresh: Vec<&str> = es.iter().filter(|e| e.file == "src/a.rs").map(|e| e.name.as_str()).collect();
    assert!(fresh.contains(&"helper") && fresh.contains(&"main"));
    assert!(!es.iter().any(|e| e.name == "gone"));
    assert!(rs.iter().any(|r| r.file == "src/kept.rs" && r.name == "x"));
    assert!(rs.iter().any(|r| r.file == "src/a.rs" && r.name == "helper"));
    assert!(!rs.iter().any(|r| r.name == "y"));
    // Sorted by file, then line.
    for w in rs.windows(2) {
        assert!((w[0].file.as_str(), w[0].line) <= (w[1].file.as_str(), w[1].line));
    }
    let paths: Vec<&str> = cache.files.iter().map(|(p, _)| p.as_str()).collect();
    assert_eq!(paths, vec!["src/kept.rs", "src/a.rs", "README.md"]);
    assert_eq!(cache.files[1].1, hash_file_contents(&a_src));
    // Without references, none come out.
    let (_, rs2, _) = index_files(&files, &None, &prev_entities, &prev_refs, false);
    assert!(rs2.is_empty());
    assert_eq!(extension_of("a/b.tar.gz"), "gz");
    assert_eq!(extension_of("a/.bashrc"), "");
    assert_eq!(extension_of("Makefile"), "");
}

#[test]
fn parse_single_file_python() {
    let source = "def foo(x: int) -> bool:\n    return True\n";
    let (entities, _refs) = sigil::index::parse_single_file(source, "test.py", "python").unwrap();
    assert!(!entities.is_empty());
    let names: Vec<&str> = entities.iter().map(|e| e.name.as_str()).collect();
    assert!(names.contains(&"foo"));
}

#[test]
fn parse_single_file_rust() {
    let source = "pub fn bar(x: i32) -> bool {\n    true\n}\n";
    let (entities, _refs) = sigil::index::parse_single_file(source, "test.rs", "rust").unwrap();
    assert!(!entities.is_empty());
}

#[test]
fn parse_single_file_empty_source() {
    let (entities, refs) = sigil::index::parse_single_file("", "test.py", "python").unwrap();
    assert!(entities.is_empty());
    assert!(refs.is_empty());
}

#[test]
fn parse_single_file_entity_fields() {
    let source = "pub fn bar(x: i32) -> bool {\n    true\n}\n";
    let (entities, _) = sigil::index::parse_single_file(source, "src/b.rs", "rust").unwrap();
    let bar = entities.iter().find(|e| e.name == "bar").unwrap();
    assert_eq!(bar.file, "src/b.rs");
    assert_eq!(bar.kind, "function");
    assert_eq!((bar.line_start, bar.line_end), (1, 3));
    let raw = sigil::hasher::extract_raw_bytes(source, 1, 3);
    assert_eq!(bar.struct_hash, sigil::hasher::struct_hash(raw.as_bytes()));
    assert_eq!(bar.struct_hash.len(), 16);
    assert!(bar.sig.is_none() && bar.body_hash.is_none() && bar.meta.is_none());
}

#[test]
fn parse_single_file_routes_data_languages() {
    let (md, refs) = sigil::index::parse_single_file("# Title\n", "a.md", "markdown").unwrap();
    assert_eq!(md.len(), 1);
    assert!(refs.is_empty());
    assert!(sigil::index::parse_single_file("{}", "a.json", "json").is_err());
    assert!(sigil::index::parse_single_file("x", "a.py", "no-such-language").unwrap_err().starts_with("parse error: "));
}
