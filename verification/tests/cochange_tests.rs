use sigil::cochange::{compute_manifest, parse_git_log, partners_of, CochangeConfig, CochangeManifest, Pair};

#[test]
fn parse_git_log_splits_commits_on_marker() {
    let log = "\
---abc123
src/a.rs
src/b.rs

---def456
src/b.rs
src/c.rs
";
    let commits = parse_git_log(log, 30);
    assert_eq!(commits.len(), 2);
    assert!(commits[0].contains(&"src/a.rs".to_string()));
    assert!(commits[0].contains(&"src/b.rs".to_string()));
    assert!(commits[1].contains(&"src/c.rs".to_string()));
}

#[test]
fn parse_git_log_skips_massive_commits() {
    let mut log = String::from("---abc\n");
    for i in 0..50 {
        log.push_str(&format!("f{i}.rs\n"));
    }
    log.push_str("---def\nsmall.rs\n");
    let commits = parse_git_log(&log, 30);
    assert_eq!(commits.len(), 1);
    assert!(commits[0].contains(&"small.rs".to_string()));
}

#[test]
fn parse_git_log_sorts_and_dedups_files() {
    let text = "---abc\nsrc/b.rs\nsrc/a.rs\nsrc/b.rs\n\n---def\nREADME.md\n";
    let commits = parse_git_log(text, 30);
    assert_eq!(commits.len(), 2);
    assert_eq!(commits[0], vec!["src/a.rs".to_string(), "src/b.rs".to_string()]);
    assert_eq!(commits[1], vec!["README.md".to_string()]);
}

#[test]
fn parse_git_log_drops_large_and_empty_commits() {
    let text = "orphan.rs\n---1\na\nb\nc\n---2\n---3\n  x  \nx\n";
    let commits = parse_git_log(text, 2);
    assert_eq!(commits, vec![vec!["x".to_string()]]);
}

#[test]
fn default_config() {
    let c = CochangeConfig::default();
    assert_eq!(c.commits, 500);
    assert_eq!(c.min_support, 2);
    assert_eq!(c.max_files_per_commit, 30);
}

fn commit(files: &[&str]) -> Vec<String> {
    let mut v: Vec<String> = files.iter().map(|s| s.to_string()).collect();
    v.sort();
    v.dedup();
    v
}

fn weight(p: &Pair) -> f64 {
    p.support as f64 / ((p.count_a as f64) * (p.count_b as f64)).sqrt()
}

#[test]
fn compute_manifest_assigns_weight_and_support() {
    let cfg = CochangeConfig {
        min_support: 1,
        commits: 10,
        max_files_per_commit: 10,
    };
    let c1 = commit(&["a.rs", "b.rs"]);
    let c2 = commit(&["a.rs", "b.rs"]);
    let c3 = commit(&["a.rs", "c.rs"]);
    let m = compute_manifest(&[c1, c2, c3], &cfg, "test");
    assert_eq!(m.commits_scanned, 3);
    let ab = m
        .pairs
        .iter()
        .find(|p| p.a == "a.rs" && p.b == "b.rs")
        .expect("(a,b) pair missing");
    assert_eq!(ab.support, 2);
    assert!((weight(ab) - 0.8164965809277261).abs() < 1e-9);
    let ac = m
        .pairs
        .iter()
        .find(|p| p.a == "a.rs" && p.b == "c.rs")
        .expect("(a,c) pair missing");
    assert_eq!(ac.support, 1);
    assert_eq!(m.pairs[0].a, "a.rs");
    assert_eq!(m.pairs[0].b, "b.rs");
}

#[test]
fn min_support_filters_weak_pairs() {
    let cfg = CochangeConfig {
        min_support: 2,
        commits: 10,
        max_files_per_commit: 10,
    };
    let c1 = commit(&["a.rs", "b.rs"]);
    let c2 = commit(&["a.rs", "c.rs"]);
    let m = compute_manifest(&[c1, c2], &cfg, "test");
    assert!(m.pairs.is_empty());
}

#[test]
fn partners_of_returns_matches_from_both_sides() {
    let manifest = CochangeManifest {
        version: "1".to_string(),
        sigil_version: "test".to_string(),
        commits_scanned: 5,
        min_support: 1,
        file_count: 3,
        pairs: vec![
            Pair { a: "a.rs".to_string(), b: "b.rs".to_string(), support: 4, count_a: 5, count_b: 5 },
            Pair { a: "a.rs".to_string(), b: "c.rs".to_string(), support: 2, count_a: 5, count_b: 9 },
            Pair { a: "d.rs".to_string(), b: "b.rs".to_string(), support: 3, count_a: 6, count_b: 6 },
        ],
    };
    let for_b = partners_of(&manifest, "b.rs");
    let files: Vec<&str> = for_b.iter().map(|p| p.file).collect();
    assert!(files.contains(&"a.rs"));
    assert!(files.contains(&"d.rs"));
    assert_eq!(for_b.len(), 2);
}

#[test]
fn manifest_counts_files_and_orders_by_weight_then_name() {
    let cfg = CochangeConfig { min_support: 1, commits: 10, max_files_per_commit: 10 };
    // x and y always together (weight 1); p, q together once, each also alone once.
    let commits = vec![
        commit(&["x.rs", "y.rs"]),
        commit(&["p.rs", "q.rs"]),
        commit(&["p.rs"]),
        commit(&["q.rs"]),
        commit(&["y.rs", "x.rs"]),
    ];
    let m = compute_manifest(&commits, &cfg, "0.1.0");
    assert_eq!(m.file_count, 4);
    assert_eq!(m.version, "1");
    assert_eq!(m.sigil_version, "0.1.0");
    assert_eq!(m.pairs.len(), 2);
    assert_eq!((m.pairs[0].a.as_str(), m.pairs[0].b.as_str()), ("x.rs", "y.rs"));
    assert_eq!((m.pairs[0].support, m.pairs[0].count_a, m.pairs[0].count_b), (2, 2, 2));
    assert_eq!((m.pairs[1].a.as_str(), m.pairs[1].b.as_str()), ("p.rs", "q.rs"));
    assert_eq!((m.pairs[1].support, m.pairs[1].count_a, m.pairs[1].count_b), (1, 2, 2));
}

#[test]
fn equal_weights_fall_back_to_file_names() {
    let cfg = CochangeConfig { min_support: 1, commits: 10, max_files_per_commit: 10 };
    let commits = vec![commit(&["m.rs", "n.rs"]), commit(&["b.rs", "c.rs"])];
    let m = compute_manifest(&commits, &cfg, "t");
    assert_eq!(m.pairs[0].a, "b.rs");
    assert_eq!(m.pairs[1].a, "m.rs");
}

#[test]
fn partners_of_mined_manifest_are_the_cochanged_files_heaviest_first() {
    let cfg = CochangeConfig { min_support: 1, commits: 10, max_files_per_commit: 10 };
    let commits = vec![
        commit(&["api.rs", "types.rs"]),
        commit(&["api.rs", "types.rs"]),
        commit(&["api.rs", "README.md"]),
        commit(&["README.md"]),
        commit(&["README.md"]),
        commit(&["lib.rs"]),
    ];
    let m = compute_manifest(&commits, &cfg, "t");
    let partners = partners_of(&m, "api.rs");
    let files: Vec<&str> = partners.iter().map(|p| p.file).collect();
    assert_eq!(files, vec!["types.rs", "README.md"]);
    let w = |p: &sigil::cochange::Partner| p.support as f64 / ((p.count_a as f64) * (p.count_b as f64)).sqrt();
    assert!(w(&partners[0]) >= w(&partners[1]));
    assert!(partners_of(&m, "lib.rs").is_empty());
}
