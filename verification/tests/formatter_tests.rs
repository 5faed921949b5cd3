use sigil::change_detail::{ChangeDetail, DetailKind};
use sigil::diff_json::{ChangeKind, CrossFilePattern, DiffResult, DiffSummary, EntityDiff};
use sigil::formatter::{format_entity_diff, format_terminal, format_terminal_runs, paint, plain_text, Style};
use sigil::inline_diff::{DiffLine, DiffLineKind};

fn summary(added: usize, modified: usize, formatting_only: usize, breaking: bool) -> DiffSummary {
    DiffSummary { added, removed: 0, modified, moved: 0, renamed: 0, formatting_only, has_breaking_change: breaking }
}

fn result(entities: Vec<EntityDiff>, patterns: Vec<CrossFilePattern>, s: DiffSummary) -> DiffResult {
    DiffResult { base_ref: "abc".into(), head_ref: "def".into(), entities, patterns, summary: s }
}

fn ed(change: ChangeKind, name: &str, file: &str) -> EntityDiff {
    EntityDiff {
        change,
        name: name.into(),
        kind: "function".into(),
        file: file.into(),
        old_file: None,
        old_name: None,
        sig_changed: None,
        body_changed: None,
        breaking: false,
        breaking_reason: None,
        old: None,
        new: None,
        inline_diff: None,
        change_details: None,
    }
}

#[test]
fn format_terminal_includes_summary() {
    let output = format_terminal(&result(vec![], vec![], summary(1, 2, 3, false)));
    assert!(output.contains("1 added"));
    assert!(output.contains("2 modified"));
    assert!(output.contains("3 formatting only"));
}

#[test]
fn format_terminal_shows_breaking_warning() {
    let output = format_terminal(&result(vec![], vec![], summary(0, 1, 0, true)));
    assert!(output.contains("BREAKING"));
}

#[test]
fn summary_and_warning_runs() {
    let r = result(vec![], vec![], summary(1, 2, 3, false));
    assert_eq!(plain_text(&format_terminal_runs(&r)), "\n1 added, 0 removed, 2 modified, 0 moved, 0 renamed, 3 formatting only\n");
    let runs = format_terminal_runs(&result(vec![], vec![], summary(0, 1, 0, true)));
    assert!(plain_text(&runs).contains("BREAKING"));
    assert_eq!(runs.last().unwrap().style, Style::Plain);
    assert_eq!(runs[runs.len() - 2].style, Style::RedBold);
}

#[test]
fn painting_follows_the_colour_switch() {
    let r = result(vec![], vec![], summary(0, 1, 0, true));
    colored::control::set_override(true);
    let on = format_terminal(&r);
    let bold_green = paint(Style::GreenBold, "x");
    let dimmed = paint(Style::Dimmed, "y");
    let plain = paint(Style::Plain, "z");
    colored::control::set_override(false);
    let off = format_terminal(&r);
    let green_off = paint(Style::Green, "x");
    colored::control::unset_override();
    assert!(on.ends_with("\u{1b}[1;31m\u{26a0} BREAKING CHANGES DETECTED\u{1b}[0m\n"));
    assert!(on.contains("\u{1b}[2m0 added, 0 removed, 1 modified, 0 moved, 0 renamed, 0 formatting only\u{1b}[0m"));
    assert_eq!(bold_green, "\u{1b}[1;32mx\u{1b}[0m");
    assert_eq!(dimmed, "\u{1b}[2my\u{1b}[0m");
    assert_eq!(plain, "z");
    assert_eq!(off, plain_text(&format_terminal_runs(&r)));
    assert_eq!(green_off, "x");
}

#[test]
fn entities_grouped_by_sorted_file() {
    let es = vec![ed(ChangeKind::Added, "b1", "b.rs"), ed(ChangeKind::Removed, "a1", "a.rs"), ed(ChangeKind::Added, "b2", "b.rs")];
    let pats = vec![CrossFilePattern {
        description: "same added applied to x across 2 files".into(),
        entity_names: vec!["x".into()],
        files: vec!["a.rs".into(), "b.rs".into()],
        change: ChangeKind::Added,
    }];
    let out = plain_text(&format_terminal_runs(&result(es, pats, summary(2, 0, 0, false))));
    let expected = "\na.rs\n  \u{25b8} REMOVED a1 (function)\n\nb.rs\n  \u{25b8} ADDED b1 (function)\n  \u{25b8} ADDED b2 (function)\n\nCross-file patterns:\n  \u{25b8} same added applied to x across 2 files (a.rs, b.rs)\n\n2 added, 0 removed, 0 modified, 0 moved, 0 renamed, 0 formatting only\n";
    assert_eq!(out, expected);
}

#[test]
fn entity_notes_details_and_inline_lines() {
    let mut e = ed(ChangeKind::Modified, "f", "a.rs");
    e.sig_changed = Some(true);
    e.body_changed = Some(true);
    e.breaking = true;
    e.change_details = Some(vec![ChangeDetail { kind: DetailKind::ValueChanged, description: "1 \u{2192} 2".into() }]);
    e.inline_diff = Some((0..12).map(|i| DiffLine { kind: if i % 2 == 0 { DiffLineKind::Removed } else { DiffLineKind::Added }, text: format!("l{i}") }).collect());
    let runs = format_entity_diff(&e);
    let out = plain_text(&runs);
    assert!(out.starts_with("  \u{25b8} MODIFIED f (function)\n  \u{2502} signature changed, body changed\n  \u{2502} \u{26a0} BREAKING\n  \u{2502}   1 \u{2192} 2"));
    assert!(out.contains("\n  \u{2502}   - l0\n  \u{2502}   + l1"));
    assert!(!out.contains("l10"));
    assert!(out.ends_with("\n  \u{2502}   ... and 2 more lines"));
    let mut m = ed(ChangeKind::Moved, "g", "new.rs");
    m.old_file = Some("old.rs".into());
    assert_eq!(plain_text(&format_entity_diff(&m)), "  \u{25b8} MOVED g (function)\n  \u{2502} old.rs \u{2192} new.rs");
    let mut r = ed(ChangeKind::Renamed, "h2", "a.rs");
    r.old_name = Some("h1".into());
    assert_eq!(plain_text(&format_entity_diff(&r)), "  \u{25b8} RENAMED h2 (function)  h1 \u{2192} h2");
}
