use sigil::query::duckdb_backend::{
    callees_query, callers_query, children_query, file_symbols_query, needs_rebuild, search_symbols_query,
    should_auto_engage, Stamp, DEFAULT_AUTO_UPGRADE_THRESHOLD_BYTES,
};

#[test]
fn should_auto_engage_honors_threshold() {
    assert!(!should_auto_engage(&[10, 20, 0], 50));
    assert!(should_auto_engage(&[10, 20, 20], 50));
    assert!(should_auto_engage(&[u64::MAX, u64::MAX, 1], u64::MAX));
    assert_eq!(DEFAULT_AUTO_UPGRADE_THRESHOLD_BYTES, 50 * 1024 * 1024);
}

#[test]
fn stale_or_missing_stamp_rebuilds() {
    let s = Stamp { entities_len: 10, entities_mtime_ms: 5, refs_len: 3, refs_mtime_ms: 7 };
    assert!(!needs_rebuild(Some(s), s));
    assert!(needs_rebuild(Some(Stamp { refs_len: 4, ..s }), s));
    assert!(needs_rebuild(None, s));
}

#[test]
fn reference_lookups_filter_and_limit() {
    let (sql, params) = callers_query("Foo", None, 0);
    assert_eq!(sql, "SELECT file, caller, name, ref_kind, line FROM refs WHERE name = ? ORDER BY file, line");
    assert_eq!(params, vec!["Foo".to_string()]);
    let (sql, params) = callees_query("main", Some("call"), 5);
    assert_eq!(
        sql,
        "SELECT file, caller, name, ref_kind, line FROM refs WHERE caller = ? AND ref_kind = ? ORDER BY file, line LIMIT 5"
    );
    assert_eq!(params, vec!["main".to_string(), "call".to_string()]);
}

#[test]
fn entity_lookups_filter_and_order() {
    let (sql, params) = file_symbols_query("a.rs", Some("struct"), 10);
    assert!(sql.ends_with("FROM entities WHERE file = ? AND kind = ? ORDER BY line_start LIMIT 10"));
    assert_eq!(params, vec!["a.rs".to_string(), "struct".to_string()]);
    let (sql, params) = children_query("a.rs", "Foo", None, 0);
    assert!(sql.ends_with("WHERE file = ? AND parent = ? ORDER BY line_start"));
    assert_eq!(params, vec!["a.rs".to_string(), "Foo".to_string()]);
}

#[test]
fn search_lowercases_the_needle_and_adds_prefix() {
    assert!(search_symbols_query("", None, None, 10).is_none());
    let (sql, params) = search_symbols_query("PARSE", None, Some("src/"), 0).unwrap();
    assert!(sql.ends_with("WHERE lower(name) LIKE ? AND file LIKE ? ORDER BY file, line_start"));
    assert_eq!(params, vec!["%parse%".to_string(), "src/%".to_string()]);
}

#[test]
fn populate_sql_quotes_paths_and_builds_indexes() {
    assert_eq!(sigil::query::duckdb_backend::path_for_sql("/tmp/o'brien/x.jsonl"), "/tmp/o''brien/x.jsonl");
    assert_eq!(sigil::query::duckdb_backend::path_for_sql("plain"), "plain");
    let sql = sigil::query::duckdb_backend::populate_sql("/r/.sigil/entities.jsonl", "/r/it's/refs.jsonl");
    assert!(sql.starts_with("CREATE TABLE entities AS SELECT * FROM read_json_auto('/r/.sigil/entities.jsonl');\n"));
    assert!(sql.contains("CREATE TABLE refs     AS SELECT * FROM read_json_auto('/r/it''s/refs.jsonl');"));
    assert!(sql.ends_with("CREATE INDEX idx_refs_file   ON refs(file);"));
    assert_eq!(sql.matches("CREATE INDEX").count(), 5);
}
