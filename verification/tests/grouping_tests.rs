use sigil::grouping::compute_groups;
use sigil::output::{DiffOutput, FileSection, FileSummary, Meta, OutputEntity, OutputPattern, OutputSummary};

fn make_output() -> DiffOutput {
    DiffOutput {
        meta: Meta {
            base_ref: "HEAD~1".to_string(),
            head_ref: "HEAD".to_string(),
            base_sha: None,
            head_sha: None,
            generated_at: String::new(),
            sigil_version: "0.2.0".to_string(),
        },
        summary: OutputSummary {
            files_changed: 2,
            patterns: 1,
            moves: 0,
            added: 1,
            removed: 0,
            modified: 2,
            renamed: 0,
            formatting_only: 0,
            has_breaking: false,
            natural_language: String::new(),
            summary_line: None,
        },
        breaking: vec![],
        patterns: vec![OutputPattern {
            id: "pat_1".to_string(),
            pattern_type: "body_identical".to_string(),
            entity_kind: "function".to_string(),
            from_glob: None,
            to_glob: None,
            entity_name: Some("init".to_string()),
            file_count: 2,
            files: vec!["a.py".to_string(), "b.py".to_string()],
            entities: vec!["init".to_string()],
        }],
        moves: vec![],
        files: vec![
            FileSection {
                file: "a.py".to_string(),
                summary: FileSummary { added: 0, modified: 1, removed: 0, renamed: 0, formatting_only: 0 },
                entities: vec![OutputEntity {
                    change: "modified".to_string(),
                    name: "init".to_string(),
                    kind: "function".to_string(),
                    line: 10, line_end: 20,
                    sig_changed: None, body_changed: Some(true),
                    breaking: false, breaking_reason: None,
                    pattern_ref: Some("pat_1".to_string()),
                    token_changes: vec![], old_name: None, context: None,
                }],
            },
            FileSection {
                file: "b.py".to_string(),
                summary: FileSummary { added: 1, modified: 1, removed: 0, renamed: 0, formatting_only: 0 },
                entities: vec![
                    OutputEntity {
                        change: "modified".to_string(),
                        name: "init".to_string(),
                        kind: "function".to_string(),
                        line: 5, line_end: 15,
                        sig_changed: None, body_changed: Some(true),
                        breaking: false, breaking_reason: None,
                        pattern_ref: Some("pat_1".to_string()),
                        token_changes: vec![], old_name: None, context: None,
                    },
                    OutputEntity {
                        change: "added".to_string(),
                        name: "helper".to_string(),
                        kind: "function".to_string(),
                        line: 20, line_end: 30,
                        sig_changed: None, body_changed: None,
                        breaking: false, breaking_reason: None,
                        pattern_ref: None,
                        token_changes: vec![], old_name: None, context: None,
                    },
                ],
            },
        ],
        groups: None,
    }
}


#[test]
fn groups_pattern_entities_together() {
    let output = make_output();
    let groups = compute_groups(&output);
    let pat_group = groups.iter().find(|g| g.label.contains("pattern")).unwrap();
    assert_eq!(pat_group.entities.len(), 2);
    assert_eq!(pat_group.file_count, 2);
}

#[test]
fn non_pattern_entities_grouped_by_file() {
    let output = make_output();
    let groups = compute_groups(&output);
    let file_group = groups.iter().find(|g| g.label.contains("helper"));
    assert!(file_group.is_some(), "non-pattern entity should be in a file group");
}

#[test]
fn empty_output_produces_no_groups() {
    let output = DiffOutput {
        meta: Meta {
            base_ref: "HEAD~1".to_string(), head_ref: "HEAD".to_string(),
            base_sha: None, head_sha: None,
            generated_at: String::new(), sigil_version: "0.2.0".to_string(),
        },
        summary: OutputSummary {
            files_changed: 0, patterns: 0, moves: 0,
            added: 0, removed: 0, modified: 0, renamed: 0,
            formatting_only: 0, has_breaking: false,
            natural_language: String::new(), summary_line: None,
        },
        breaking: vec![], patterns: vec![], moves: vec![], files: vec![],
        groups: None,
    };
    assert!(compute_groups(&output).is_empty());
}

#[test]
fn group_sizes_add_up_to_pattern_hits_and_loose_entities() {
    let mut output = make_output();
    output.files[1].entities.push(sigil::output::OutputEntity {
        change: "formatting_only".to_string(),
        name: "fmt".to_string(),
        kind: "function".to_string(),
        line: 40, line_end: 41,
        sig_changed: None, body_changed: None,
        breaking: false, breaking_reason: None,
        pattern_ref: None,
        token_changes: vec![], old_name: None, context: None,
    });
    let groups = compute_groups(&output);
    let total: usize = groups.iter().map(|g| g.entities.len()).sum();
    // Two `init` hits of the pattern, plus `helper`; `fmt` is left out.
    assert_eq!(total, 3);
    assert!(!groups.iter().any(|g| g.entities.iter().any(|e| e.name == "fmt")));
}
