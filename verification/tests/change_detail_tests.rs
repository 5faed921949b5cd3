use sigil::change_detail::{
    classify_token_change, extract_change_details, is_identifier, is_number, pair_similar_lines,
    truncate_str, DetailKind,
};
use sigil::inline_diff::{DiffLine, DiffLineKind};

fn chars(s: &str) -> Vec<char> {
    s.chars().collect()
}

fn removed(t: &str) -> DiffLine {
    DiffLine { kind: DiffLineKind::Removed, text: t.into() }
}

fn added(t: &str) -> DiffLine {
    DiffLine { kind: DiffLineKind::Added, text: t.into() }
}

#[test]
fn detects_string_value_change() {
    let lines = vec![
        removed(r#"    cmd.Flags().StringP("commit", "c", "true", "Promote changes")"#),
        added(r#"    cmd.Flags().StringP("commit", "c", "false", "Promote changes")"#),
    ];
    let details = extract_change_details(&lines);
    assert!(!details.is_empty());
    assert!(details.iter().any(|d| d.description.contains("true") && d.description.contains("false")));
}

#[test]
fn detects_number_value_change() {
    let lines = vec![removed("    port: 8080,"), added("    port: 3000,")];
    let details = extract_change_details(&lines);
    assert!(details.iter().any(|d| d.description.contains("8080") && d.description.contains("3000")));
}

#[test]
fn detects_identifier_change() {
    let lines = vec![
        removed("    return self.validate_card(card)"),
        added("    return self.check_card(card)"),
    ];
    let details = extract_change_details(&lines);
    assert!(details.iter().any(|d| d.description.contains("validate_card") && d.description.contains("check_card")));
}

#[test]
fn detects_added_argument() {
    let lines = vec![removed("def process(order, card):"), added("def process(order, card, key=None):")];
    let details = extract_change_details(&lines);
    assert!(details.iter().any(|d| d.description.contains("key")
        || d.kind == DetailKind::ArgumentAdded
        || d.kind == DetailKind::ValueChanged));
}

#[test]
fn no_details_for_comment_only_changes() {
    let lines = vec![removed("    # old comment"), added("    # new comment")];
    let details = extract_change_details(&lines);
    assert!(details.is_empty() || details.iter().all(|d| d.kind == DetailKind::Comment));
}

#[test]
fn unpaired_lines_produce_details() {
    let lines = vec![removed("    old_method()"), removed("    another_old()"), added("    new_method()")];
    let details = extract_change_details(&lines);
    assert!(!details.is_empty());
}

#[test]
fn empty_lines_no_details() {
    let details = extract_change_details(&[]);
    assert!(details.is_empty());
}

#[test]
fn token_diff_includes_surrounding_context() {
    let lines = vec![
        removed("if (typeof window !== 'undefined') {"),
        added("if (typeof window === 'undefined') return;"),
    ];
    let details = extract_change_details(&lines);
    assert!(!details.is_empty(), "should produce change details");
    let desc = &details[0].description;
    assert!(desc.contains("window"), "token diff should include surrounding context: {}", desc);
}

#[test]
fn pair_lines_by_similarity_test() {
    let removed = vec!["    flag default: true".to_string(), "    help: old description".to_string()];
    let added = vec!["    flag default: false".to_string(), "    help: new description".to_string()];
    let pairs = pair_similar_lines(&removed, &added);
    assert_eq!(pairs.len(), 2);
}

#[test]
fn config_value_change_produces_token_diff() {
    let lines = vec![removed("\"PyJWT==2.11.0\","), added("\"PyJWT==2.12.0\",")];
    let details = extract_change_details(&lines);
    assert!(!details.is_empty(), "single value change should produce a token diff");
    assert!(details.iter().any(|d| d.description.contains("2.11.0") && d.description.contains("2.12.0")));
}

#[test]
fn pairing_picks_best_and_keeps_unmatched() {
    let removed = vec!["a b c d".to_string(), "x y".to_string()];
    let added = vec!["a b c z".to_string(), "a b q r".to_string()];
    let pairs = pair_similar_lines(&removed, &added);
    assert_eq!(pairs, vec![("a b c d".to_string(), "a b c z".to_string())]);
}

#[test]
fn pairing_uses_char_overlap_for_single_words() {
    // one word each, no word in common: 4 of 5 characters agree.
    let pairs = pair_similar_lines(&["abcde".to_string()], &["abcdX".to_string()]);
    assert_eq!(pairs.len(), 1);
    let pairs = pair_similar_lines(&["abcde".to_string()], &["vwxyz".to_string()]);
    assert!(pairs.is_empty());
}

#[test]
fn unpaired_removed_and_added_are_listed() {
    let lines = vec![removed("  alpha beta"), added("  gamma delta"), added("// just a comment")];
    let details = extract_change_details(&lines);
    let kinds: Vec<DetailKind> = details.iter().map(|d| d.kind).collect();
    assert_eq!(kinds, vec![DetailKind::LineRemoved, DetailKind::LineAdded]);
    assert_eq!(details[0].description, "- alpha beta");
    assert_eq!(details[1].description, "+ gamma delta");
}

#[test]
fn number_syntax_follows_f64_parsing() {
    for s in ["8080", "3.5", ".5", "5.", "1e10", "-2E-3", "+inf", "NaN", "Infinity"] {
        assert!(is_number(&chars(s)), "{s}");
        assert!(s.parse::<f64>().is_ok());
    }
    for s in ["", ".", "1.2.3", "e5", "1e", "0x10", " 1", "1_000"] {
        assert!(!is_number(&chars(s)), "{s}");
        assert!(s.parse::<f64>().is_err());
    }
}

#[test]
fn classification_of_token_pairs() {
    assert_eq!(classify_token_change(&chars("\"a\""), &chars("'b'")), DetailKind::ValueChanged);
    assert_eq!(classify_token_change(&chars("8080"), &chars("3000")), DetailKind::ValueChanged);
    assert_eq!(classify_token_change(&chars("self.a"), &chars("self.b_2")), DetailKind::IdentifierChanged);
    assert_eq!(classify_token_change(&chars("a(b)"), &chars("c")), DetailKind::ValueChanged);
    assert!(is_identifier(&chars("größe")));
    assert!(!is_identifier(&chars("")));
}

#[test]
fn truncation_counts_characters() {
    let long: String = "x".repeat(85);
    let t: String = truncate_str(&chars(&long), 80).into_iter().collect();
    assert_eq!(t, format!("{}...", "x".repeat(80)));
    let short: String = truncate_str(&chars("abc"), 80).into_iter().collect();
    assert_eq!(short, "abc");
}
