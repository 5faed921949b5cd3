use sigil::parser::treesitter::{ReferenceEntry, SymbolEntry, TextEntry};
use sigil::query::explore::{explore_cap, explore_output, explore_text, DirOverview};
use sigil::query::{format_references, format_search_results, format_symbols, FileEntry, SearchResult};

fn sym(kind: &str, name: &str, vis: Option<&str>, parent: Option<&str>) -> SymbolEntry {
    SymbolEntry {
        file: "src/a.rs".to_string(),
        name: name.to_string(),
        kind: kind.to_string(),
        line: [3, 9],
        parent: parent.map(|p| p.to_string()),
        visibility: vis.map(|v| v.to_string()),
    }
}

#[test]
fn search_results_render_each_kind() {
    let results = vec![
        SearchResult::Symbol(sym("function", "run", Some("private"), Some("Engine"))),
        SearchResult::File(FileEntry {
            path: "README.md".to_string(),
            lang: None,
            lines: 42,
            title: Some("Sigil".to_string()),
        }),
        SearchResult::Text(TextEntry {
            file: "src/b.rs".to_string(),
            kind: "comment".to_string(),
            line: [1, 2],
            text: "first\nsecond".to_string(),
            parent: None,
        }),
    ];
    let out = format_search_results(&results);
    assert_eq!(
        out,
        "[symbol] function run src/a.rs:3-9 (in Engine)\n         visibility: private\n\
         [file]   README.md (unknown, 42 lines) -- Sigil\n\
         [text]   comment src/b.rs:1-2 \n         first second\n"
    );
    assert_eq!(format_search_results(&[]), "No results found.");
}

#[test]
fn text_preview_is_cut_at_100_chars() {
    let long = "x".repeat(150);
    let results = vec![SearchResult::Text(TextEntry {
        file: "f".to_string(),
        kind: "docstring".to_string(),
        line: [5, 6],
        text: long,
        parent: Some("M".to_string()),
    })];
    let out = format_search_results(&results);
    assert_eq!(out, format!("[text]   docstring f:5-6 (in M) \n         {}\n", "x".repeat(100)));
}

#[test]
fn symbols_are_padded_and_show_non_public_visibility() {
    let out = format_symbols(&[sym("fn", "main", Some("public"), None), sym("struct", "Cfg", Some("crate"), None)]);
    let expected = format!(
        "{:12} {:40} src/a.rs:3-9\n{:12} {:40} src/a.rs:3-9\n{:12} visibility: crate\n",
        "fn", "main", "struct", "Cfg", ""
    );
    assert_eq!(out, expected);
    assert_eq!(format_symbols(&[]), "No symbols found.");
}

#[test]
fn references_name_the_caller_or_top_level() {
    let refs = vec![
        ReferenceEntry {
            file: "a.rs".to_string(),
            name: "helper".to_string(),
            kind: "call".to_string(),
            line: [7, 7],
            caller: Some("main".to_string()),
        },
        ReferenceEntry {
            file: "a.rs".to_string(),
            name: "std::fs".to_string(),
            kind: "import".to_string(),
            line: [1, 1],
            caller: None,
        },
    ];
    assert_eq!(
        format_references(&refs),
        "call         main -> helper at a.rs:7\nimport       <top-level> -> std::fs at a.rs:1\n"
    );
    assert_eq!(format_references(&[]), "No references found.");
}

fn row(dir: &str, file: &str) -> (String, String, Option<String>) {
    (dir.to_string(), file.to_string(), Some("rust".to_string()))
}

#[test]
fn explore_text_groups_files_by_directory() {
    let overview = vec![
        DirOverview { path: "src".to_string(), file_count: 4 },
        DirOverview { path: "".to_string(), file_count: 1 },
    ];
    let files = vec![row("src", "a.rs"), row("", "build.rs"), row("src", "b.rs")];
    assert_eq!(
        explore_text(&overview, &files),
        "./ (1 files)\n  build.rs\nsrc/ (4 files)\n  a.rs\n  b.rs\n  ... +2 more\n"
    );
    assert_eq!(explore_text(&[], &files), "No files found.");
}

#[test]
fn explore_cap_shares_entries_among_groups() {
    assert_eq!(explore_cap(4, 100), 25);
    assert_eq!(explore_cap(0, 10), 10);
    assert_eq!(explore_cap(50, 10), 1);
}

#[test]
fn explore_output_lists_subprojects_and_sums_groups() {
    let projects = vec!["".to_string(), "web".to_string()];
    let overview = vec![
        ("lib".to_string(), Some("rust".to_string()), 1, 2usize),
        ("lib".to_string(), None, 0, 3usize),
    ];
    let files = vec![row("lib", "x.rs")];
    assert_eq!(
        explore_output(&projects, true, &overview, &files),
        "Subprojects:\n  web\n\nlib/ (5 files)\n  x.rs\n  ... +4 more\n"
    );
    assert_eq!(
        explore_output(&projects, false, &overview, &files),
        "lib/ (5 files)\n  x.rs\n  ... +4 more\n"
    );
}
