//! Terminal rendering of a diff result.
//!
//! The text is first produced as styled runs, then painted with `colored`
//! (ANSI colours, on or off as the terminal and environment decide).

use vstd::prelude::*;
use colored::Colorize;
use crate::change_detail::{ChangeDetail, DetailKind};
use crate::diff_json::{ChangeKind, CrossFilePattern, DiffResult, DiffSummary, EntityDiff};
use crate::fmt::{decimal, join, push_joined, push_num, push_str};
use crate::inline_diff::{DiffLine, DiffLineKind};
use crate::text::{chars_vec, contains_sub, insert_sorted, sorted_distinct, str_eq, string_from, string_views, strictly_sorted};

verus! {

broadcast use vstd::string::group_string_axioms;

/// How a run of text is painted.
#[derive(Debug, Clone, Copy, PartialEq, Eq, Structural)]
pub enum Style {
    Plain,
    Bold,
    Dimmed,
    Red,
    Green,
    Yellow,
    Cyan,
    RedBold,
    GreenBold,
    YellowBold,
    CyanBold,
    MagentaBold,
}

/// A run of text in one style.
#[derive(Debug)]
pub struct StyledText {
    pub style: Style,
    pub text: String,
}

pub type Run = (Style, Seq<char>);

pub open spec fn runs_view(v: Seq<StyledText>) -> Seq<Run> {
    v.map_values(|t: StyledText| (t.style, t.text@))
}

/// All the text of some runs, styles dropped.
pub open spec fn runs_text(rs: Seq<Run>) -> Seq<char>
    decreases rs.len(),
{
    if rs.len() == 0 {
        Seq::empty()
    } else {
        runs_text(rs.drop_last()) + rs.last().1
    }
}

fn push_run(out: &mut Vec<StyledText>, style: Style, text: Vec<char>)
    ensures
        runs_view(final(out)@) == runs_view(old(out)@).push((style, text@)),
{
    let ghost before = out@;
    out.push(StyledText { style, text: string_from(&text) });
    assert(runs_view(out@) == runs_view(before).push((style, text@)));
}

fn push_run_str(out: &mut Vec<StyledText>, style: Style, text: &str)
    ensures
        runs_view(final(out)@) == runs_view(old(out)@).push((style, text@)),
{
    push_run(out, style, chars_vec(text));
}

/// The label of a change kind and its style.
pub open spec fn change_label(k: ChangeKind) -> Run {
    match k {
        ChangeKind::Added => (Style::GreenBold, "\u{25b8} ADDED"@),
        ChangeKind::Removed => (Style::RedBold, "\u{25b8} REMOVED"@),
        ChangeKind::Modified => (Style::YellowBold, "\u{25b8} MODIFIED"@),
        ChangeKind::Moved => (Style::CyanBold, "\u{25b8} MOVED"@),
        ChangeKind::Renamed => (Style::MagentaBold, "\u{25b8} RENAMED"@),
        ChangeKind::FormattingOnly => (Style::Dimmed, "\u{25b8} FORMATTING ONLY"@),
    }
}

/// The style of a change detail.
pub open spec fn detail_style(k: DetailKind) -> Style {
    match k {
        DetailKind::ValueChanged => Style::Yellow,
        DetailKind::IdentifierChanged => Style::Cyan,
        DetailKind::ArgumentAdded => Style::Green,
        DetailKind::ArgumentRemoved => Style::Red,
        DetailKind::Comment => Style::Dimmed,
        DetailKind::LineAdded => Style::Green,
        DetailKind::LineRemoved => Style::Red,
    }
}

/// The "signature changed" / "body changed" notes of a modification.
pub open spec fn modified_notes(sig_changed: Option<bool>, body_changed: Option<bool>) -> Seq<Seq<char>> {
    let a: Seq<Seq<char>> = if sig_changed == Some(true) {
        seq!["signature changed"@]
    } else {
        Seq::empty()
    };
    if body_changed == Some(true) {
        a.push("body changed"@)
    } else {
        a
    }
}

/// The runs describing how the entity changed, after its header.
pub open spec fn change_note_runs(d: EntityDiff) -> Seq<Run> {
    match d.change {
        ChangeKind::Moved => match d.old_file {
            Some(f) => seq![
                (Style::Plain, "\n  \u{2502} "@),
                (Style::Dimmed, f@),
                (Style::Plain, " \u{2192} "@ + d.file@),
            ],
            None => Seq::empty(),
        },
        ChangeKind::Renamed => match d.old_name {
            Some(n) => seq![
                (Style::Plain, "  "@),
                (Style::Dimmed, n@),
                (Style::Plain, " \u{2192} "@ + d.name@),
            ],
            None => Seq::empty(),
        },
        ChangeKind::Modified => {
            let notes = modified_notes(d.sig_changed, d.body_changed);
            if notes.len() > 0 {
                seq![(Style::Plain, "\n  \u{2502} "@ + join(notes, ", "@))]
            } else {
                Seq::empty()
            }
        },
        _ => Seq::empty(),
    }
}

/// One run per change detail.
pub open spec fn detail_runs(ds: Seq<ChangeDetail>) -> Seq<Run>
    decreases ds.len(),
{
    if ds.len() == 0 {
        Seq::empty()
    } else {
        detail_runs(ds.drop_last()) + seq![
            (Style::Plain, "\n  \u{2502}   "@),
            (detail_style(ds.last().kind), ds.last().description@),
        ]
    }
}

/// The runs of one inline-diff line.
pub open spec fn diff_line_runs(l: DiffLine) -> Seq<Run> {
    match l.kind {
        DiffLineKind::Removed => seq![(Style::Plain, "\n  \u{2502}   "@), (Style::Red, "- "@ + l.text@)],
        DiffLineKind::Added => seq![(Style::Plain, "\n  \u{2502}   "@), (Style::Green, "+ "@ + l.text@)],
        _ => seq![(Style::Plain, "\n  \u{2502}     "@), (Style::Dimmed, l.text@)],
    }
}

pub open spec fn diff_lines_runs(ls: Seq<DiffLine>) -> Seq<Run>
    decreases ls.len(),
{
    if ls.len() == 0 {
        Seq::empty()
    } else {
        diff_lines_runs(ls.drop_last()) + diff_line_runs(ls.last())
    }
}

/// The first ten inline-diff lines, and a count of the rest.
pub open spec fn inline_runs(ls: Seq<DiffLine>) -> Seq<Run> {
    if ls.len() > 10 {
        diff_lines_runs(ls.take(10)) + seq![
            (Style::Plain, "\n  \u{2502}   "@),
            (Style::Dimmed, "... and "@ + decimal((ls.len() - 10) as nat) + " more lines"@),
        ]
    } else {
        diff_lines_runs(ls)
    }
}

/// Label, name and kind of a changed entity.
pub open spec fn header_runs(d: EntityDiff) -> Seq<Run> {
    seq![(Style::Plain, "  "@), change_label(d.change), (Style::Plain, " "@), (Style::Bold, d.name@), (
        Style::Plain,
        " ("@ + d.kind@ + ")"@,
    )]
}

/// The breaking mark, if any.
pub open spec fn breaking_runs(breaking: bool) -> Seq<Run> {
    if breaking {
        seq![(Style::Plain, "\n  \u{2502} "@), (Style::Red, "\u{26a0} BREAKING"@)]
    } else {
        Seq::empty()
    }
}

/// The runs of one changed entity: label, name and kind; how it changed;
/// a breaking mark; its change details; up to ten inline-diff lines.
pub open spec fn entity_runs(d: EntityDiff) -> Seq<Run> {
    header_runs(d) + change_note_runs(d) + breaking_runs(d.breaking) + (match d.change_details {
        Some(ds) => detail_runs(ds@),
        None => Seq::empty(),
    }) + (match d.inline_diff {
        Some(ls) => inline_runs(ls@),
        None => Seq::empty(),
    })
}

fn push_kind_note(out: &mut Vec<StyledText>, d: &EntityDiff)
    ensures
        runs_view(final(out)@) == runs_view(old(out)@) + change_note_runs(*d),
{
    let ghost start = runs_view(out@);
    match d.change {
        ChangeKind::Moved => {
            if let Some(f) = &d.old_file {
                push_run_str(out, Style::Plain, "\n  \u{2502} ");
                push_run_str(out, Style::Dimmed, f.as_str());
                let mut t = chars_vec(" \u{2192} ");
                push_str(&mut t, d.file.as_str());
                push_run(out, Style::Plain, t);
            }
            assert(runs_view(out@) == start + change_note_runs(*d));
        },
        ChangeKind::Renamed => {
            if let Some(n) = &d.old_name {
                push_run_str(out, Style::Plain, "  ");
                push_run_str(out, Style::Dimmed, n.as_str());
                let mut t = chars_vec(" \u{2192} ");
                push_str(&mut t, d.name.as_str());
                push_run(out, Style::Plain, t);
            }
            assert(runs_view(out@) == start + change_note_runs(*d));
        },
        ChangeKind::Modified => {
            let mut notes: Vec<Vec<char>> = Vec::new();
            if d.sig_changed == Some(true) {
                notes.push(chars_vec("signature changed"));
            }
            if d.body_changed == Some(true) {
                notes.push(chars_vec("body changed"));
            }
            assert(crate::fmt::views(notes@) == modified_notes(d.sig_changed, d.body_changed));
            if notes.len() > 0 {
                let mut t = chars_vec("\n  \u{2502} ");
                push_joined(&mut t, &notes, ", ");
                push_run(out, Style::Plain, t);
            }
            assert(runs_view(out@) == start + change_note_runs(*d));
        },
        _ => {
            assert(runs_view(out@) == start + change_note_runs(*d));
        },
    }
}

fn push_details(out: &mut Vec<StyledText>, ds: &Vec<ChangeDetail>)
    ensures
        runs_view(final(out)@) == runs_view(old(out)@) + detail_runs(ds@),
{
    let ghost start = runs_view(out@);
    let mut i: usize = 0;
    while i < ds.len()
        invariant
            i <= ds@.len(),
            runs_view(out@) == start + detail_runs(ds@.take(i as int)),
        decreases ds@.len() - i,
    {
        assert(ds@.take(i + 1).drop_last() == ds@.take(i as int));
        push_run_str(out, Style::Plain, "\n  \u{2502}   ");
        let style = match ds[i].kind {
            DetailKind::ValueChanged => Style::Yellow,
            DetailKind::IdentifierChanged => Style::Cyan,
            DetailKind::ArgumentAdded => Style::Green,
            DetailKind::ArgumentRemoved => Style::Red,
            DetailKind::Comment => Style::Dimmed,
            DetailKind::LineAdded => Style::Green,
            DetailKind::LineRemoved => Style::Red,
        };
        push_run_str(out, style, ds[i].description.as_str());
        i += 1;
    }
    assert(ds@.take(ds@.len() as int) == ds@);
}

fn push_diff_lines(out: &mut Vec<StyledText>, ls: &Vec<DiffLine>, n: usize)
    requires
        n <= ls@.len(),
    ensures
        runs_view(final(out)@) == runs_view(old(out)@) + diff_lines_runs(ls@.take(n as int)),
{
    let ghost start = runs_view(out@);
    let mut i: usize = 0;
    while i < n
        invariant
            i <= n <= ls@.len(),
            runs_view(out@) == start + diff_lines_runs(ls@.take(i as int)),
        decreases n - i,
    {
        assert(ls@.take(i + 1).drop_last() == ls@.take(i as int));
        let l = &ls[i];
        match l.kind {
            DiffLineKind::Removed => {
                push_run_str(out, Style::Plain, "\n  \u{2502}   ");
                let mut t = chars_vec("- ");
                push_str(&mut t, l.text.as_str());
                push_run(out, Style::Red, t);
            },
            DiffLineKind::Added => {
                push_run_str(out, Style::Plain, "\n  \u{2502}   ");
                let mut t = chars_vec("+ ");
                push_str(&mut t, l.text.as_str());
                push_run(out, Style::Green, t);
            },
            _ => {
                push_run_str(out, Style::Plain, "\n  \u{2502}     ");
                push_run_str(out, Style::Dimmed, l.text.as_str());
            },
        }
        i += 1;
    }
}

fn push_header(out: &mut Vec<StyledText>, d: &EntityDiff)
    ensures
        runs_view(final(out)@) == runs_view(old(out)@) + header_runs(*d),
{
    let ghost start = runs_view(out@);
    push_run_str(out, Style::Plain, "  ");
    match d.change {
        ChangeKind::Added => push_run_str(out, Style::GreenBold, "\u{25b8} ADDED"),
        ChangeKind::Removed => push_run_str(out, Style::RedBold, "\u{25b8} REMOVED"),
        ChangeKind::Modified => push_run_str(out, Style::YellowBold, "\u{25b8} MODIFIED"),
        ChangeKind::Moved => push_run_str(out, Style::CyanBold, "\u{25b8} MOVED"),
        ChangeKind::Renamed => push_run_str(out, Style::MagentaBold, "\u{25b8} RENAMED"),
        ChangeKind::FormattingOnly => push_run_str(out, Style::Dimmed, "\u{25b8} FORMATTING ONLY"),
    }
    push_run_str(out, Style::Plain, " ");
    push_run_str(out, Style::Bold, d.name.as_str());
    let mut t = chars_vec(" (");
    push_str(&mut t, d.kind.as_str());
    push_str(&mut t, ")");
    push_run(out, Style::Plain, t);
    assert(runs_view(out@) == start + header_runs(*d));
}

fn push_breaking(out: &mut Vec<StyledText>, breaking: bool)
    ensures
        runs_view(final(out)@) == runs_view(old(out)@) + breaking_runs(breaking),
{
    let ghost start = runs_view(out@);
    if breaking {
        push_run_str(out, Style::Plain, "\n  \u{2502} ");
        push_run_str(out, Style::Red, "\u{26a0} BREAKING");
    }
    assert(runs_view(out@) == start + breaking_runs(breaking));
}

fn push_inline(out: &mut Vec<StyledText>, ls: &Vec<DiffLine>)
    ensures
        runs_view(final(out)@) == runs_view(old(out)@) + inline_runs(ls@),
{
    let ghost start = runs_view(out@);
    if ls.len() > 10 {
        push_diff_lines(out, ls, 10);
        push_run_str(out, Style::Plain, "\n  \u{2502}   ");
        let mut m = chars_vec("... and ");
        push_num(&mut m, (ls.len() - 10) as u64);
        push_str(&mut m, " more lines");
        push_run(out, Style::Dimmed, m);
        assert(runs_view(out@) == start + inline_runs(ls@));
    } else {
        push_diff_lines(out, ls, ls.len());
        assert(ls@.take(ls@.len() as int) == ls@);
    }
}

/// The runs of one changed entity (see `entity_runs`).
pub fn format_entity_diff(d: &EntityDiff) -> (r: Vec<StyledText>)
    ensures
        runs_view(r@) == entity_runs(*d),
{
    let mut out: Vec<StyledText> = Vec::new();
    push_header(&mut out, d);
    push_kind_note(&mut out, d);
    push_breaking(&mut out, d.breaking);
    let ghost before_details = runs_view(out@);
    if let Some(ds) = &d.change_details {
        push_details(&mut out, ds);
    }
    let ghost before_inline = runs_view(out@);
    if let Some(ls) = &d.inline_diff {
        push_inline(&mut out, ls);
    }
    assert(runs_view(out@) == entity_runs(*d));
    out
}

/// The changed entities of file `f`, in order.
pub open spec fn entities_in_file(es: Seq<EntityDiff>, f: Seq<char>) -> Seq<EntityDiff>
    decreases es.len(),
{
    if es.len() == 0 {
        Seq::empty()
    } else if es.last().file@ == f {
        entities_in_file(es.drop_last(), f).push(es.last())
    } else {
        entities_in_file(es.drop_last(), f)
    }
}

/// Each entity's runs followed by a newline.
pub open spec fn entity_list_runs(es: Seq<EntityDiff>) -> Seq<Run>
    decreases es.len(),
{
    if es.len() == 0 {
        Seq::empty()
    } else {
        entity_list_runs(es.drop_last()) + entity_runs(es.last()) + seq![(Style::Plain, "\n"@)]
    }
}

/// One section per file (in `str` order): the file name in bold, then
/// its changed entities.
pub open spec fn file_sections_runs(es: Seq<EntityDiff>, fs: Seq<Seq<char>>) -> Seq<Run>
    decreases fs.len(),
{
    if fs.len() == 0 {
        Seq::empty()
    } else {
        file_sections_runs(es, fs.drop_last()) + seq![
            (Style::Plain, "\n"@),
            (Style::Bold, fs.last()),
            (Style::Plain, "\n"@),
        ] + entity_list_runs(entities_in_file(es, fs.last()))
    }
}

pub open spec fn pattern_list_runs(ps: Seq<CrossFilePattern>) -> Seq<Run>
    decreases ps.len(),
{
    if ps.len() == 0 {
        Seq::empty()
    } else {
        pattern_list_runs(ps.drop_last()) + seq![
            (Style::Plain, "  \u{25b8} "@),
            (Style::Cyan, ps.last().description@),
            (Style::Plain, " ("@),
            (Style::Dimmed, join(string_views(ps.last().files@), ", "@)),
            (Style::Plain, ")\n"@),
        ]
    }
}

/// The cross-file patterns under a bold heading, when there are any.
pub open spec fn patterns_runs(ps: Seq<CrossFilePattern>) -> Seq<Run> {
    if ps.len() == 0 {
        Seq::empty()
    } else {
        seq![(Style::Plain, "\n"@), (Style::Bold, "Cross-file patterns:"@), (Style::Plain, "\n"@)]
            + pattern_list_runs(ps)
    }
}

/// The summary line, and the breaking-change warning when one breaks.
pub open spec fn summary_runs(s: DiffSummary) -> Seq<Run> {
    seq![
        (Style::Plain, "\n"@),
        (Style::Dimmed, decimal(s.added as nat) + " added, "@ + decimal(s.removed as nat) + " removed, "@
            + decimal(s.modified as nat) + " modified, "@ + decimal(s.moved as nat) + " moved, "@
            + decimal(s.renamed as nat) + " renamed, "@ + decimal(s.formatting_only as nat)
            + " formatting only"@),
        (Style::Plain, "\n"@),
    ] + if s.has_breaking_change {
        seq![(Style::RedBold, "\u{26a0} BREAKING CHANGES DETECTED"@), (Style::Plain, "\n"@)]
    } else {
        Seq::empty()
    }
}

/// The whole terminal report of a diff.
pub open spec fn terminal_runs(r: DiffResult) -> Seq<Run> {
    let es = r.entities@;
    file_sections_runs(es, sorted_distinct(es.map_values(|e: EntityDiff| e.file@))) + patterns_runs(
        r.patterns@,
    ) + summary_runs(r.summary)
}

fn push_runs(out: &mut Vec<StyledText>, more: Vec<StyledText>)
    ensures
        runs_view(final(out)@) == runs_view(old(out)@) + runs_view(more@),
{
    let mut more = more;
    let ghost a = out@;
    let ghost b = more@;
    out.append(&mut more);
    assert(runs_view(out@) == runs_view(a) + runs_view(b));
}

fn push_file_section(out: &mut Vec<StyledText>, es: &Vec<EntityDiff>, f: &String)
    ensures
        runs_view(final(out)@) == runs_view(old(out)@) + seq![
            (Style::Plain, "\n"@),
            (Style::Bold, f@),
            (Style::Plain, "\n"@),
        ] + entity_list_runs(entities_in_file(es@, f@)),
{
    let ghost start = runs_view(out@);
    push_run_str(out, Style::Plain, "\n");
    push_run_str(out, Style::Bold, f.as_str());
    push_run_str(out, Style::Plain, "\n");
    let ghost head = runs_view(out@);
    assert(head == start + seq![(Style::Plain, "\n"@), (Style::Bold, f@), (Style::Plain, "\n"@)]);
    let mut i: usize = 0;
    while i < es.len()
        invariant
            i <= es@.len(),
            runs_view(out@) == head + entity_list_runs(entities_in_file(es@.take(i as int), f@)),
        decreases es@.len() - i,
    {
        assert(es@.take(i + 1).drop_last() == es@.take(i as int));
        if str_eq(es[i].file.as_str(), f.as_str()) {
            let ghost mid = runs_view(out@);
            let rs = format_entity_diff(&es[i]);
            push_runs(out, rs);
            push_run_str(out, Style::Plain, "\n");
            let ghost x = entities_in_file(es@.take(i as int), f@);
            assert(entities_in_file(es@.take(i + 1), f@) == x.push(es@[i as int]));
            assert(x.push(es@[i as int]).drop_last() == x);
            assert(entity_list_runs(x.push(es@[i as int])) == entity_list_runs(x) + entity_runs(es@[i as int])
                + seq![(Style::Plain, "\n"@)]);
            assert(runs_view(out@) == head + entity_list_runs(x.push(es@[i as int])));
        } else {
            assert(entities_in_file(es@.take(i + 1), f@) == entities_in_file(es@.take(i as int), f@));
        }
        i += 1;
    }
    assert(es@.take(es@.len() as int) == es@);
}

fn push_patterns(out: &mut Vec<StyledText>, ps: &Vec<CrossFilePattern>)
    ensures
        runs_view(final(out)@) == runs_view(old(out)@) + patterns_runs(ps@),
{
    let ghost start = runs_view(out@);
    if ps.len() == 0 {
        return;
    }
    push_run_str(out, Style::Plain, "\n");
    push_run_str(out, Style::Bold, "Cross-file patterns:");
    push_run_str(out, Style::Plain, "\n");
    let ghost head = runs_view(out@);
    let mut i: usize = 0;
    while i < ps.len()
        invariant
            i <= ps@.len(),
            runs_view(out@) == head + pattern_list_runs(ps@.take(i as int)),
        decreases ps@.len() - i,
    {
        assert(ps@.take(i + 1).drop_last() == ps@.take(i as int));
        push_run_str(out, Style::Plain, "  \u{25b8} ");
        push_run_str(out, Style::Cyan, ps[i].description.as_str());
        push_run_str(out, Style::Plain, " (");
        let mut files: Vec<Vec<char>> = Vec::new();
        let mut k: usize = 0;
        while k < ps[i].files.len()
            invariant
                i < ps@.len(),
                k <= ps@[i as int].files@.len(),
                crate::fmt::views(files@) == string_views(ps@[i as int].files@.take(k as int)),
            decreases ps@[i as int].files@.len() - k,
        {
            let ghost fb = files@;
            files.push(chars_vec(ps[i].files[k].as_str()));
            assert(crate::fmt::views(files@) == crate::fmt::views(fb).push(ps@[i as int].files@[k as int]@));
            assert(string_views(ps@[i as int].files@.take(k + 1)) == string_views(ps@[i as int].files@.take(k as int)).push(ps@[i as int].files@[k as int]@));
            k += 1;
        }
        assert(ps@[i as int].files@.take(ps@[i as int].files@.len() as int) == ps@[i as int].files@);
        let mut joined: Vec<char> = Vec::new();
        push_joined(&mut joined, &files, ", ");
        push_run(out, Style::Dimmed, joined);
        push_run_str(out, Style::Plain, ")\n");
        i += 1;
    }
    assert(ps@.take(ps@.len() as int) == ps@);
}

fn push_summary(out: &mut Vec<StyledText>, s: &DiffSummary)
    ensures
        runs_view(final(out)@) == runs_view(old(out)@) + summary_runs(*s),
{
    let ghost start = runs_view(out@);
    push_run_str(out, Style::Plain, "\n");
    let mut t: Vec<char> = Vec::new();
    push_num(&mut t, s.added as u64);
    push_str(&mut t, " added, ");
    push_num(&mut t, s.removed as u64);
    push_str(&mut t, " removed, ");
    push_num(&mut t, s.modified as u64);
    push_str(&mut t, " modified, ");
    push_num(&mut t, s.moved as u64);
    push_str(&mut t, " moved, ");
    push_num(&mut t, s.renamed as u64);
    push_str(&mut t, " renamed, ");
    push_num(&mut t, s.formatting_only as u64);
    push_str(&mut t, " formatting only");
    push_run(out, Style::Dimmed, t);
    push_run_str(out, Style::Plain, "\n");
    if s.has_breaking_change {
        push_run_str(out, Style::RedBold, "\u{26a0} BREAKING CHANGES DETECTED");
        push_run_str(out, Style::Plain, "\n");
    }
    assert(runs_view(out@) == start + summary_runs(*s));
}

/// The runs of the terminal report of a diff (see `terminal_runs`): the
/// changed entities by file, the cross-file patterns, and the summary.
pub fn format_terminal_runs(result: &DiffResult) -> (r: Vec<StyledText>)
    ensures
        runs_view(r@) == terminal_runs(*result),
{
    let es = &result.entities;
    let ghost fv = es@.map_values(|e: EntityDiff| e.file@);
    let mut files: Vec<String> = Vec::new();
    let mut i: usize = 0;
    while i < es.len()
        invariant
            i <= es@.len(),
            fv == es@.map_values(|e: EntityDiff| e.file@),
            string_views(files@) == sorted_distinct(fv.take(i as int)),
            strictly_sorted(string_views(files@)),
        decreases es@.len() - i,
    {
        assert(fv.take(i + 1).drop_last() == fv.take(i as int));
        assert(fv.take(i + 1).last() == es@[i as int].file@);
        insert_sorted(&mut files, es[i].file.clone());
        i += 1;
    }
    assert(fv.take(es@.len() as int) == fv);
    let mut out: Vec<StyledText> = Vec::new();
    let mut k: usize = 0;
    while k < files.len()
        invariant
            k <= files@.len(),
            runs_view(out@) == file_sections_runs(es@, string_views(files@).take(k as int)),
        decreases files@.len() - k,
    {
        assert(string_views(files@).take(k + 1).drop_last() == string_views(files@).take(k as int));
        assert(string_views(files@).take(k + 1).last() == files@[k as int]@);
        push_file_section(&mut out, es, &files[k]);
        k += 1;
    }
    assert(string_views(files@).take(files@.len() as int) == string_views(files@));
    push_patterns(&mut out, &result.patterns);
    push_summary(&mut out, &result.summary);
    out
}

/// The text of some runs without their styles.
pub fn plain_text(runs: &Vec<StyledText>) -> (r: String)
    ensures
        r@ == runs_text(runs_view(runs@)),
{
    let mut out: Vec<char> = Vec::new();
    let mut i: usize = 0;
    while i < runs.len()
        invariant
            i <= runs@.len(),
            out@ == runs_text(runs_view(runs@.take(i as int))),
        decreases runs@.len() - i,
    {
        assert(runs_view(runs@.take(i + 1)).drop_last() == runs_view(runs@.take(i as int)));
        push_str(&mut out, runs[i].text.as_str());
        i += 1;
    }
    assert(runs@.take(runs@.len() as int) == runs@);
    string_from(&out)
}

// ---------------------------------------------------------------------
// Painting
// ---------------------------------------------------------------------

/// The sequence that ends a painted run.
pub open spec fn ansi_reset() -> Seq<char> {
    "\u{1b}[0m"@
}

/// The escape sequence that starts a run painted with the given codes.
pub open spec fn ansi_prefix(codes: Seq<char>) -> Seq<char> {
    "\u{1b}["@ + codes + "m"@
}

/// The foreground code of each colour name the report uses.
pub open spec fn fg_code(name: Seq<char>) -> Option<Seq<char>> {
    if name == "red"@ {
        Some("31"@)
    } else if name == "green"@ {
        Some("32"@)
    } else if name == "yellow"@ {
        Some("33"@)
    } else if name == "magenta"@ {
        Some("35"@)
    } else if name == "cyan"@ {
        Some("36"@)
    } else {
        None
    }
}

/// The codes of a style: `1` bold, `2` dimmed, `3x` a foreground colour.
pub open spec fn style_codes(s: Style) -> Seq<char> {
    match s {
        Style::Plain => Seq::empty(),
        Style::Bold => "1"@,
        Style::Dimmed => "2"@,
        Style::Red => "31"@,
        Style::Green => "32"@,
        Style::Yellow => "33"@,
        Style::Cyan => "36"@,
        Style::RedBold => "1;31"@,
        Style::GreenBold => "1;32"@,
        Style::YellowBold => "1;33"@,
        Style::CyanBold => "1;36"@,
        Style::MagentaBold => "1;35"@,
    }
}

/// What painting `text` with the escape `prefix` may give. Colours are on
/// or off as the terminal and environment decide, so: the text unchanged,
/// the text between the prefix and the reset sequence, or the text and the
/// reset sequence (colours switched off while it was painted). A text that
/// holds a reset sequence of its own is left open.
pub open spec fn painted_with(text: Seq<char>, prefix: Seq<char>, p: Seq<char>) -> bool {
    ||| p == text
    ||| p == prefix + text + ansi_reset()
    ||| p == text + ansi_reset()
    ||| contains_sub(text, ansi_reset())
}

/// What painting a run may give; a plain run is its text.
pub open spec fn run_painted(run: Run, p: Seq<char>) -> bool {
    if run.0 == Style::Plain {
        p == run.1
    } else {
        painted_with(run.1, ansi_prefix(style_codes(run.0)), p)
    }
}

/// Some pieces of text, one after the other.
pub open spec fn pieces_text(ps: Seq<Seq<char>>) -> Seq<char>
    decreases ps.len(),
{
    if ps.len() == 0 {
        Seq::empty()
    } else {
        pieces_text(ps.drop_last()) + ps.last()
    }
}

/// `p` is the runs painted one by one and put together.
pub open spec fn painted_runs(rs: Seq<Run>, p: Seq<char>) -> bool {
    exists|ps: Seq<Seq<char>>|
        #![trigger pieces_text(ps)]
        ps.len() == rs.len() && (forall|i: int| 0 <= i < rs.len() ==> run_painted(rs[i], #[trigger] ps[i]))
            && p == pieces_text(ps)
}

/// `text.color(name)` of `colored`, written out by its `Display`.
/// Claimed: the result is one of the outcomes of `painted_with` for the
/// prefix `ESC[<code>m` of the colour; which one depends on the terminal,
/// the environment and `colored::control`, and is not claimed.
#[verifier::external_body]
fn paint_color(text: &str, name: &str) -> (r: String)
    requires
        fg_code(name@) is Some,
    ensures
        painted_with(text@, ansi_prefix(fg_code(name@).unwrap()), r@),
{
    text.color(name).to_string()
}

/// `text.color(name).bold()` of `colored`, written out by its `Display`.
/// Claimed: one of the outcomes of `painted_with` for the prefix
/// `ESC[1;<code>m`; which one is not claimed (as for `paint_color`).
#[verifier::external_body]
fn paint_color_bold(text: &str, name: &str) -> (r: String)
    requires
        fg_code(name@) is Some,
    ensures
        painted_with(text@, ansi_prefix("1;"@ + fg_code(name@).unwrap()), r@),
{
    text.color(name).bold().to_string()
}

/// `text.bold()` of `colored`, written out by its `Display`. Claimed: one
/// of the outcomes of `painted_with` for the prefix `ESC[1m`.
#[verifier::external_body]
fn paint_bold(text: &str) -> (r: String)
    ensures
        painted_with(text@, ansi_prefix("1"@), r@),
{
    text.bold().to_string()
}

/// `text.dimmed()` of `colored`, written out by its `Display`. Claimed: one
/// of the outcomes of `painted_with` for the prefix `ESC[2m`.
#[verifier::external_body]
fn paint_dimmed(text: &str) -> (r: String)
    ensures
        painted_with(text@, ansi_prefix("2"@), r@),
{
    text.dimmed().to_string()
}

proof fn lemma_colour_names()
    ensures
        fg_code("red"@) == Some("31"@),
        fg_code("green"@) == Some("32"@),
        fg_code("yellow"@) == Some("33"@),
        fg_code("magenta"@) == Some("35"@),
        fg_code("cyan"@) == Some("36"@),
        "1;"@ + "31"@ == "1;31"@,
        "1;"@ + "32"@ == "1;32"@,
        "1;"@ + "33"@ == "1;33"@,
        "1;"@ + "35"@ == "1;35"@,
        "1;"@ + "36"@ == "1;36"@,
{
    reveal_strlit("red");
    reveal_strlit("green");
    reveal_strlit("yellow");
    reveal_strlit("magenta");
    reveal_strlit("cyan");
    reveal_strlit("1;");
    reveal_strlit("31");
    reveal_strlit("32");
    reveal_strlit("33");
    reveal_strlit("35");
    reveal_strlit("36");
    reveal_strlit("1;31");
    reveal_strlit("1;32");
    reveal_strlit("1;33");
    reveal_strlit("1;35");
    reveal_strlit("1;36");
    assert("red"@.len() == 3 && "green"@.len() == 5 && "yellow"@.len() == 6);
    assert("magenta"@.len() == 7 && "cyan"@.len() == 4);
    assert("1;"@ + "31"@ =~= "1;31"@);
    assert("1;"@ + "32"@ =~= "1;32"@);
    assert("1;"@ + "33"@ =~= "1;33"@);
    assert("1;"@ + "35"@ =~= "1;35"@);
    assert("1;"@ + "36"@ =~= "1;36"@);
}

/// Paint one run in its style; a plain run is left as it is.
pub fn paint(style: Style, text: &str) -> (r: String)
    ensures
        run_painted((style, text@), r@),
{
    proof {
        lemma_colour_names();
    }
    match style {
        Style::Plain => String::from_str(text),
        Style::Bold => paint_bold(text),
        Style::Dimmed => paint_dimmed(text),
        Style::Red => paint_color(text, "red"),
        Style::Green => paint_color(text, "green"),
        Style::Yellow => paint_color(text, "yellow"),
        Style::Cyan => paint_color(text, "cyan"),
        Style::RedBold => paint_color_bold(text, "red"),
        Style::GreenBold => paint_color_bold(text, "green"),
        Style::YellowBold => paint_color_bold(text, "yellow"),
        Style::CyanBold => paint_color_bold(text, "cyan"),
        Style::MagentaBold => paint_color_bold(text, "magenta"),
    }
}

/// Paint the runs one by one and put them together.
pub fn paint_runs(runs: &Vec<StyledText>) -> (r: String)
    ensures
        painted_runs(runs_view(runs@), r@),
{
    let ghost rs = runs_view(runs@);
    let mut out: Vec<char> = Vec::new();
    let ghost mut ps: Seq<Seq<char>> = Seq::empty();
    let mut i: usize = 0;
    while i < runs.len()
        invariant
            i <= runs@.len(),
            rs == runs_view(runs@),
            ps.len() == i,
            forall|k: int| 0 <= k < i ==> run_painted(rs[k], #[trigger] ps[k]),
            out@ == pieces_text(ps),
        decreases runs@.len() - i,
    {
        let p = paint(runs[i].style, runs[i].text.as_str());
        push_str(&mut out, p.as_str());
        proof {
            let before = ps;
            ps = ps.push(p@);
            assert(ps.drop_last() == before);
        }
        i += 1;
    }
    assert(ps.len() == rs.len() && (forall|k: int| 0 <= k < rs.len() ==> run_painted(rs[k], #[trigger] ps[k]))
        && out@ == pieces_text(ps));
    string_from(&out)
}

/// The terminal report of a diff, painted: the changed entities by file,
/// the cross-file patterns, and the summary (see `terminal_runs`).
pub fn format_terminal(result: &DiffResult) -> (r: String)
    ensures
        painted_runs(terminal_runs(*result), r@),
{
    paint_runs(&format_terminal_runs(result))
}

} // verus!

