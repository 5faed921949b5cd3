use sigil::diff::diff_language;
use sigil::index::index_language;

#[test]
fn vendored_parser_extracts_rust_symbols() {
    let source = b"pub fn hello() -> u32 { 42 }\npub struct Foo;\n";
    let (symbols, _texts, _refs) =
        sigil::parser::treesitter::parse_file(source, "rust", "test.rs")
            .expect("vendored parser should parse trivial Rust");

    let names: Vec<&str> = symbols.iter().map(|s| s.name.as_str()).collect();
    assert!(names.contains(&"hello"), "expected `hello` in {:?}", names);
    assert!(names.contains(&"Foo"), "expected `Foo` in {:?}", names);
}

#[test]
fn vendored_parser_extracts_python_symbols() {
    let source = b"def foo(x):\n    return x\n\nclass Bar:\n    pass\n";
    let (symbols, _texts, _refs) =
        sigil::parser::treesitter::parse_file(source, "python", "test.py")
            .expect("vendored parser should parse trivial Python");

    let names: Vec<&str> = symbols.iter().map(|s| s.name.as_str()).collect();
    assert!(names.contains(&"foo"), "expected `foo` in {:?}", names);
    assert!(names.contains(&"Bar"), "expected `Bar` in {:?}", names);
}

#[test]
fn vendored_parser_extracts_typescript_symbols() {
    let source = b"export function greet(name: string): string { return `hi ${name}`; }\nexport class Agent {}\n";
    let (symbols, _texts, _refs) =
        sigil::parser::treesitter::parse_file(source, "typescript", "test.ts")
            .expect("vendored parser should parse trivial TypeScript");

    let names: Vec<&str> = symbols.iter().map(|s| s.name.as_str()).collect();
    assert!(names.contains(&"greet"), "expected `greet` in {:?}", names);
    assert!(names.contains(&"Agent"), "expected `Agent` in {:?}", names);
}

#[test]
fn parse_references_places_rows_in_the_file() {
    let source = "fn helper() {}\nfn main() { helper(); }\n";
    let refs = sigil::index::parse_references(source, "src/main.rs", "rust").unwrap();
    let call = refs.iter().find(|r| r.name == "helper").expect("call to helper");
    assert_eq!(call.file, "src/main.rs");
    assert_eq!(call.caller.as_deref(), Some("main"));
    assert_eq!(call.line, 2);
}

#[test]
fn parse_references_reports_unknown_language() {
    let err = sigil::index::parse_references("x", "a.zz", "klingon").unwrap_err();
    assert!(err.starts_with("parse error: "));
}

#[test]
fn languages_by_extension() {
    assert_eq!(index_language("py"), Some("python"));
    assert_eq!(index_language("hh"), Some("cpp"));
    assert_eq!(diff_language("notes.yaml"), None);
    assert_eq!(index_language("yml"), Some("yaml"));
    assert_eq!(index_language("rs"), Some("rust"));
    assert_eq!(index_language("exe"), None);
    assert_eq!(diff_language("a/b/config.json"), Some("json"));
    assert_eq!(diff_language("src/lib.rs"), Some("rust"));
    assert_eq!(diff_language("Makefile"), None);
}
