use sigil::change_detail::{diff_line_pair, extract_change_details, pair_similar_lines, DetailKind};
use sigil::git::parse_ref_spec;
use sigil::hasher::extract_raw_bytes;
use sigil::inline_diff::{extract_entity_text, DiffLine, DiffLineKind};
use sigil::markdown_formatter::format_ref_spec;

fn chars(s: &str) -> Vec<char> {
    s.chars().collect()
}

#[test]
fn ref_spec_round_trips() {
    assert_eq!(parse_ref_spec(&format_ref_spec("main", "feature")).unwrap(), ("main".to_string(), "feature".to_string()));
    assert_eq!(parse_ref_spec(&format_ref_spec("v1.0", "")).unwrap(), ("v1.0".to_string(), "HEAD".to_string()));
    assert_eq!(parse_ref_spec(&format_ref_spec("HEAD~3", "HEAD")).unwrap(), ("HEAD~3".to_string(), "HEAD".to_string()));
}

#[test]
fn similar_pairs_keep_order_and_use_each_added_line_once() {
    let removed = vec!["let a = compute(x, y);".to_string(), "let b = compute(x, y);".to_string(), "zzz".to_string()];
    let added = vec!["let a = compute(x, z);".to_string()];
    let pairs = pair_similar_lines(&removed, &added);
    assert_eq!(pairs.len(), 1);
    assert_eq!(pairs[0].0, removed[0]);
    assert_eq!(pairs[0].1, added[0]);
}

#[test]
fn details_without_added_lines_list_the_removed_ones() {
    let lines = vec![
        DiffLine { kind: DiffLineKind::Context, text: "fn f() {".into() },
        DiffLine { kind: DiffLineKind::Removed, text: "    let x = 1;  ".into() },
        DiffLine { kind: DiffLineKind::Removed, text: "    // note".into() },
    ];
    let d = extract_change_details(&lines);
    assert_eq!(d.len(), 1);
    assert_eq!(d[0].kind, DetailKind::LineRemoved);
    assert_eq!(d[0].description, "- let x = 1;");
    assert!(extract_change_details(&[]).is_empty());
}

#[test]
fn line_pair_details_empty_exactly_when_trimmed_lines_agree() {
    assert!(diff_line_pair(&chars("  x = 1  "), &chars("x = 1")).is_empty());
    assert!(!diff_line_pair(&chars("x = 1"), &chars("x = 2")).is_empty());
    assert!(!diff_line_pair(&chars("x = 1"), &chars("x =  1")).is_empty());
    assert_eq!(diff_line_pair(&chars("// a"), &chars("// a")).len(), 1);
}

#[test]
fn raw_text_is_the_split_lines() {
    let src = "a\nbb\n\nccc\n";
    let parts: Vec<&str> = src.split('\n').collect();
    for s in 1..=parts.len() {
        for e in s..=parts.len() {
            assert_eq!(extract_raw_bytes(src, s, e), parts[s - 1..e].join("\n"));
        }
    }
    let lines: Vec<&str> = src.lines().collect();
    for s in 1..=lines.len() {
        for e in s..=lines.len() {
            assert_eq!(extract_entity_text(src, s as u32, e as u32), extract_raw_bytes(src, s, e));
        }
    }
}

#[test]
fn raw_text_is_a_slice_of_the_source_for_any_lines() {
    let src = "a\nb\nc";
    for (s, e) in [(2usize, 9usize), (3, 2), (7, 8), (1, 1), (0, 0)] {
        let r = extract_raw_bytes(src, s, e);
        assert!(src.contains(r.as_str()), "({s}, {e}) gave {r:?}");
    }
    assert_eq!(extract_raw_bytes(src, 2, 9), "b\nc");
    assert_eq!(extract_raw_bytes(src, 3, 2), "a\nb");
}
