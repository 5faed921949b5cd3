use sigil::benchmark::{count_or_proxy, counted_or_proxy, pick_high_blast_symbol, BenchmarkFormat, BenchmarkOptions};
use sigil::entity::{BlastRadius, Entity};
use sigil::query::index::Index;
use sigil::tokens::{CountError, Tokenizer};

fn entity(name: &str, kind: &str, direct_files: Option<u32>) -> Entity {
    Entity {
        file: "a.rs".to_string(),
        name: name.to_string(),
        kind: kind.to_string(),
        line_start: 1,
        line_end: 2,
        parent: None,
        sig: None,
        meta: None,
        body_hash: None,
        sig_hash: None,
        struct_hash: "0000".to_string(),
        visibility: None,
        blast_radius: direct_files.map(|d| BlastRadius { direct_callers: d, direct_files: d, transitive_callers: d }),
    }
}

#[test]
fn proxy_token_count_matches_prior_spec() {
    assert_eq!(sigil::tokens::proxy_count(""), 0);
    assert_eq!(sigil::tokens::proxy_count("a"), 1);
    assert_eq!(sigil::tokens::proxy_count("abcd"), 1);
    assert_eq!(sigil::tokens::proxy_count("abcde"), 2);
}

#[test]
fn format_parse_covers_known_values() {
    assert_eq!(BenchmarkFormat::parse("markdown"), Some(BenchmarkFormat::Markdown));
    assert_eq!(BenchmarkFormat::parse("json"), Some(BenchmarkFormat::Json));
    assert!(BenchmarkFormat::parse("").is_none());
}

#[test]
fn format_parse_short_alias_and_case() {
    assert_eq!(BenchmarkFormat::parse("md"), Some(BenchmarkFormat::Markdown));
    assert!(BenchmarkFormat::parse("JSON").is_none());
}

#[test]
fn default_options() {
    let o = BenchmarkOptions::default();
    assert_eq!(o.refspec, "HEAD~1..HEAD");
    assert!(o.symbol.is_none());
    assert_eq!(o.format, BenchmarkFormat::Markdown);
    assert_eq!(o.tokenizer, Tokenizer::Proxy);
}

#[test]
fn fallback_to_proxy_on_error() {
    assert_eq!(counted_or_proxy(Err(CountError { tokenizer: Tokenizer::O200k }), "abcdefgh"), 2);
    assert_eq!(counted_or_proxy(Ok(7), "abcdefgh"), 7);
    assert_eq!(count_or_proxy(&Tokenizer::Proxy, "abcde"), 2);
}

#[test]
fn high_blast_symbol_skips_imports_and_prefers_last_tie() {
    let idx = Index::build(
        vec![
            entity("os", "import", Some(50)),
            entity("a", "function", Some(3)),
            entity("b", "function", Some(7)),
            entity("c", "class", Some(7)),
            entity("d", "function", None),
        ],
        vec![],
    );
    assert_eq!(pick_high_blast_symbol(&idx), Some("c".to_string()));
    let only_imports = Index::build(vec![entity("os", "import", Some(1))], vec![]);
    assert_eq!(pick_high_blast_symbol(&only_imports), None);
}

fn ent_in(file: &str, name: &str) -> sigil::entity::Entity {
    sigil::entity::Entity {
        file: file.to_string(),
        name: name.to_string(),
        kind: "function".to_string(),
        line_start: 1,
        line_end: 2,
        parent: None,
        sig: None,
        meta: None,
        body_hash: None,
        sig_hash: None,
        struct_hash: "h".to_string(),
        visibility: None,
        blast_radius: None,
    }
}

fn ref_in(file: &str, name: &str) -> sigil::entity::Reference {
    sigil::entity::Reference {
        file: file.to_string(),
        caller: Some("main".to_string()),
        name: name.to_string(),
        ref_kind: "call".to_string(),
        line: 1,
    }
}

#[test]
fn files_touching_symbol_are_distinct_sorted_and_capped() {
    let idx = sigil::query::index::Index::build(
        vec![ent_in("src/z.rs", "run"), ent_in("src/a.rs", "other")],
        vec![ref_in("src/m.rs", "run"), ref_in("src/b.rs", "run"), ref_in("src/m.rs", "run"), ref_in("src/c.rs", "x")],
    );
    assert_eq!(
        sigil::benchmark::files_touching_symbol(&idx, "run", 100),
        vec!["src/b.rs".to_string(), "src/m.rs".to_string(), "src/z.rs".to_string()]
    );
    assert_eq!(
        sigil::benchmark::files_touching_symbol(&idx, "run", 2),
        vec!["src/b.rs".to_string(), "src/m.rs".to_string()]
    );
    assert_eq!(
        sigil::benchmark::top_files(&idx, 20),
        vec!["src/a.rs".to_string(), "src/z.rs".to_string()]
    );
}

#[test]
fn count_or_proxy_uses_the_bpe_count() {
    let s = "hello hello hello hello hello hello";
    let bpe = Tokenizer::Cl100k.count(s).unwrap();
    assert_eq!(count_or_proxy(&Tokenizer::Cl100k, s), bpe);
    assert_ne!(bpe, sigil::tokens::proxy_count(s));
    assert_eq!(count_or_proxy(&Tokenizer::O200k, s), Tokenizer::O200k.count(s).unwrap());
    assert_eq!(count_or_proxy(&Tokenizer::P50k, s), Tokenizer::P50k.count(s).unwrap());
}
