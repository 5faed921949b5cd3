use sigil::tokens::{proxy_count, Tokenizer};

#[test]
fn parse_accepts_documented_aliases() {
    assert_eq!(Tokenizer::parse(""), Some(Tokenizer::Proxy));
    assert_eq!(Tokenizer::parse("proxy"), Some(Tokenizer::Proxy));
    assert_eq!(Tokenizer::parse("bytes"), Some(Tokenizer::Proxy));
    assert_eq!(Tokenizer::parse("cl100k"), Some(Tokenizer::Cl100k));
    assert_eq!(Tokenizer::parse("cl100k_base"), Some(Tokenizer::Cl100k));
    assert_eq!(Tokenizer::parse("O200K_BASE"), Some(Tokenizer::O200k));
    assert_eq!(Tokenizer::parse("gibberish"), None);
}

#[test]
fn proxy_count_matches_prior_benchmark_heuristic() {
    assert_eq!(proxy_count(""), 0);
    assert_eq!(proxy_count("a"), 1);
    assert_eq!(proxy_count("abcd"), 1);
    assert_eq!(proxy_count("abcde"), 2);
}

#[test]
fn proxy_always_works_without_feature() {
    assert!(Tokenizer::Proxy.count("hello world").is_ok());
    assert!(!Tokenizer::Proxy.is_accurate());
}

#[test]
fn bpe_counts_are_finite_and_non_zero() {
    for enc in [Tokenizer::Cl100k, Tokenizer::O200k, Tokenizer::P50k] {
        let n = enc.count("Hello, world!").unwrap();
        assert!(n > 0 && n < 20, "{enc:?} produced implausible count {n}");
        assert!(enc.is_accurate());
    }
}

#[test]
fn proxy_counts_utf8_bytes_not_chars() {
    // "é" is two bytes, "→" three.
    assert_eq!(proxy_count("é"), 1);
    assert_eq!(proxy_count("ééé"), 2);
    assert_eq!(proxy_count("→→→"), 3);
}

#[test]
fn parse_mixed_case_and_unknown() {
    assert_eq!(Tokenizer::parse("Bytes"), Some(Tokenizer::Proxy));
    assert_eq!(Tokenizer::parse("P50K"), Some(Tokenizer::P50k));
    assert_eq!(Tokenizer::parse("o200k"), Some(Tokenizer::O200k));
    assert_eq!(Tokenizer::parse(" proxy"), None);
}

#[test]
fn labels_name_each_tokenizer() {
    assert_eq!(Tokenizer::Proxy.label(), "bytes/4 proxy");
    assert_eq!(Tokenizer::Cl100k.label(), "cl100k_base (GPT-3.5/4)");
    assert_eq!(Tokenizer::O200k.label(), "o200k_base (GPT-4o/o3)");
    assert_eq!(Tokenizer::P50k.label(), "p50k_base (legacy)");
    assert_eq!(Tokenizer::default(), Tokenizer::Proxy);
}

#[test]
fn proxy_count_via_count_matches_proxy() {
    assert_eq!(Tokenizer::Proxy.count("abcdefghi").unwrap(), 3);
}
