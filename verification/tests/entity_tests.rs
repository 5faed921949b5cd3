use sigil::entity::is_test_path;

#[test]
fn detects_rust_test_conventions() {
    assert!(is_test_path("tests/integration.rs"));
    assert!(is_test_path("src/foo/tests/fixture.rs"));
    assert!(is_test_path("src/parser_test.rs"));
    assert!(is_test_path("src/test_utils.rs"));
    assert!(!is_test_path("src/parser.rs"));
    assert!(!is_test_path("src/entity.rs"));
}

#[test]
fn detects_python_test_conventions() {
    assert!(is_test_path("tests/test_core.py"));
    assert!(is_test_path("tests/core_test.py"));
    assert!(is_test_path("src/test_utils.py"));
    assert!(!is_test_path("src/core.py"));
}

#[test]
fn detects_js_ts_test_conventions() {
    assert!(is_test_path("src/foo.test.ts"));
    assert!(is_test_path("src/foo.spec.js"));
    assert!(is_test_path("src/__tests__/foo.ts"));
    assert!(is_test_path("packages/api/tests/handler.test.tsx"));
    assert!(!is_test_path("src/foo.ts"));
}

#[test]
fn detects_go_test_convention() {
    assert!(is_test_path("pkg/handler_test.go"));
    assert!(!is_test_path("pkg/handler.go"));
}

#[test]
fn detects_java_test_conventions() {
    assert!(is_test_path("src/main/java/FooTest.java"));
    assert!(is_test_path("src/test/java/FooTest.java"));
    assert!(is_test_path("com/example/TestFoo.java"));
    assert!(!is_test_path("src/main/java/Foo.java"));
}

#[test]
fn does_not_false_positive_on_words_containing_test() {
    assert!(!is_test_path("src/attestation.rs"));
    assert!(!is_test_path("src/latest.py"));
    assert!(!is_test_path("contest/engine.ts"));
}

#[test]
fn handles_windows_style_paths() {
    assert!(is_test_path("tests\\integration.rs"));
    assert!(is_test_path("src\\foo\\__tests__\\bar.ts"));
}

#[test]
fn ruby_spec_and_java_tests_suffixes() {
    assert!(is_test_path("spec/models/user_spec.rb"));
    assert!(is_test_path("src/main/java/FooTests.java"));
    assert!(!is_test_path("Test.rb"));
}
