//! The structured form of a diff that the renderers and the grouping work
//! on.

use vstd::prelude::*;
use crate::inline_diff::DiffLine;
use crate::grouping::ChangeGroup;

verus! {

/// Where the diff came from.
#[derive(Debug)]
pub struct Meta {
    pub base_ref: String,
    pub head_ref: String,
    pub base_sha: Option<String>,
    pub head_sha: Option<String>,
    pub generated_at: String,
    pub sigil_version: String,
}

/// Totals over the whole diff.
#[derive(Debug)]
pub struct OutputSummary {
    pub files_changed: usize,
    pub patterns: usize,
    pub moves: usize,
    pub added: usize,
    pub removed: usize,
    pub modified: usize,
    pub renamed: usize,
    pub formatting_only: usize,
    pub has_breaking: bool,
    pub natural_language: String,
    pub summary_line: Option<String>,
}

/// One breaking change.
#[derive(Debug)]
pub struct BreakingEntry {
    pub entity: String,
    pub kind: String,
    pub file: String,
    pub line: u32,
    pub reason: String,
    pub external_callers: Option<u32>,
    pub callers_in_diff: Option<u32>,
}

/// A change applied in the same way across several files.
#[derive(Debug)]
pub struct OutputPattern {
    pub id: String,
    pub pattern_type: String,
    pub entity_kind: String,
    pub from_glob: Option<String>,
    pub to_glob: Option<String>,
    pub entity_name: Option<String>,
    pub file_count: usize,
    pub files: Vec<String>,
    pub entities: Vec<String>,
}

/// An entity that moved from one file to another. (The move detector's
/// floating-point confidence stays with the application layer.)
#[derive(Debug)]
pub struct MoveEntry {
    pub entity: String,
    pub kind: String,
    pub from_file: String,
    pub to_file: String,
    pub from_line: u32,
    pub to_line: u32,
    pub breaking: bool,
}

/// A token-level change inside a modified entity.
#[derive(Debug)]
pub struct TokenChange {
    pub change_type: String,
    pub from: String,
    pub to: String,
}

/// Before/after code around a change.
#[derive(Debug)]
pub struct SnippetContext {
    pub base_snippet: String,
    pub head_snippet: String,
    pub language: String,
    pub snippet_kind: String,
    pub hunks: Option<Vec<DiffLine>>,
}

/// One changed entity within a file section.
#[derive(Debug)]
pub struct OutputEntity {
    pub change: String,
    pub name: String,
    pub kind: String,
    pub line: u32,
    pub line_end: u32,
    pub sig_changed: Option<bool>,
    pub body_changed: Option<bool>,
    pub breaking: bool,
    pub breaking_reason: Option<String>,
    pub pattern_ref: Option<String>,
    pub token_changes: Vec<TokenChange>,
    pub old_name: Option<String>,
    pub context: Option<SnippetContext>,
}

/// Per-file change counts.
#[derive(Debug)]
pub struct FileSummary {
    pub added: usize,
    pub modified: usize,
    pub removed: usize,
    pub renamed: usize,
    pub formatting_only: usize,
}

/// The changed entities of one file.
#[derive(Debug)]
pub struct FileSection {
    pub file: String,
    pub summary: FileSummary,
    pub entities: Vec<OutputEntity>,
}

/// A whole diff.
#[derive(Debug)]
pub struct DiffOutput {
    pub meta: Meta,
    pub summary: OutputSummary,
    pub breaking: Vec<BreakingEntry>,
    pub patterns: Vec<OutputPattern>,
    pub moves: Vec<MoveEntry>,
    pub files: Vec<FileSection>,
    pub groups: Option<Vec<ChangeGroup>>,
}

} // verus!
