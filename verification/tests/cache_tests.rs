use sigil::cache::Cache;

#[test]
fn file_changed_new_file() {
    let cache = Cache { version: "1".into(), files: Vec::new() };
    assert!(cache.file_changed("new.py", "abc123"));
}

#[test]
fn file_changed_same_hash() {
    let mut cache = Cache { version: "1".into(), files: Vec::new() };
    cache.insert("old.py".to_string(), "abc123".to_string());
    assert!(!cache.file_changed("old.py", "abc123"));
}

#[test]
fn file_changed_different_hash() {
    let mut cache = Cache { version: "1".into(), files: Vec::new() };
    cache.insert("old.py".to_string(), "abc123".to_string());
    assert!(cache.file_changed("old.py", "def456"));
}

#[test]
fn new_cache_is_empty_version_one() {
    let c = Cache::new();
    assert_eq!(c.version, "1");
    assert!(c.files.is_empty());
}

#[test]
fn insert_replaces_previous_hash() {
    let mut c = Cache::new();
    c.insert("a.py".to_string(), "h1".to_string());
    c.insert("b.py".to_string(), "h2".to_string());
    c.insert("a.py".to_string(), "h3".to_string());
    assert_eq!(c.files.len(), 2);
    assert!(!c.file_changed("a.py", "h3"));
    assert!(c.file_changed("a.py", "h1"));
    assert!(!c.file_changed("b.py", "h2"));
}
