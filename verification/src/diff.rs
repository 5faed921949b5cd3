//! A structural diff between two refs: its options, and the assembly of
//! the per-entity records (inline diffs, change details, patterns,
//! summary) once the entities of both sides have been matched.

use vstd::prelude::*;
use vstd::utf8::{decode_utf8, valid_utf8};
use crate::change_detail::{change_details, details_view, extract_change_details};
use crate::diff_json::{patterns_view, spec_patterns, summary_of, DiffResult, EntityDiff};
use crate::inline_diff::{
    compute_inline_diff, shown_lines, entity_text, extract_entity_text, line_changes,
    lines_view, DiffLineKind,
};
use crate::parser::languages::{detect_language, language_of_extension};
use crate::git::{FileChange, FileStatus};
use crate::text::{after_last, chars_vec, str_eq, string_from, tail_after_last};

verus! {

/// Options of `sigil diff`.
#[derive(Debug, Clone, Copy, PartialEq, Eq, Structural)]
pub struct DiffOptions {
    /// Also report entities that did not change.
    pub include_unchanged: bool,
    /// Log progress to stderr.
    pub verbose: bool,
}

impl Default for DiffOptions {
    fn default() -> (r: Self)
        ensures
            r == (DiffOptions { include_unchanged: false, verbose: false }),
    {
        DiffOptions { include_unchanged: false, verbose: false }
    }
}

/// The language a changed file is parsed with for the diff: JSON by its
/// extension (the part after the last `.`), else the parser's table;
/// `None`: the file is skipped.
pub open spec fn diff_language_of(path: Seq<char>) -> Option<Seq<char>> {
    let ext = after_last(path, '.');
    if ext == "json"@ {
        Some("json"@)
    } else {
        language_of_extension(ext)
    }
}

/// The language a changed file is parsed with for the diff.
pub fn diff_language(path: &str) -> (r: Option<&'static str>)
    ensures
        match r {
            Some(l) => diff_language_of(path@) == Some(l@),
            None => diff_language_of(path@) is None,
        },
{
    let ext = string_from(&tail_after_last(&chars_vec(path), '.'));
    if str_eq(ext.as_str(), "json") {
        proof {
            reveal_strlit("json");
        }
        Some("json")
    } else {
        detect_language(ext.as_str())
    }
}

/// The source recorded for `path`: the last entry with that path, as a
/// map that is filled in order keeps it.
pub open spec fn source_for(srcs: Seq<(String, String)>, path: Seq<char>) -> Option<Seq<char>>
    decreases srcs.len(),
{
    if srcs.len() == 0 {
        None
    } else if srcs.last().0@ == path {
        Some(srcs.last().1@)
    } else {
        source_for(srcs.drop_last(), path)
    }
}

/// The texts of both sides of a paired entity, when both sources are
/// known.
pub open spec fn paired_texts(
    d: EntityDiff,
    olds: Seq<(String, String)>,
    news: Seq<(String, String)>,
) -> Option<(Seq<char>, Seq<char>)> {
    match (d.old, d.new) {
        (Some(o), Some(n)) => match (source_for(olds, o.file@), source_for(news, n.file@)) {
            (Some(os), Some(ns)) => Some(
                (
                    entity_text(os, o.line_start as nat, o.line_end as nat),
                    entity_text(ns, n.line_start as nat, n.line_end as nat),
                ),
            ),
            _ => None,
        },
        _ => None,
    }
}

/// The shown diff lines between two texts (see `shown_lines`); `None`
/// when the texts are identical.
pub open spec fn inline_lines(old: Seq<char>, new: Seq<char>) -> Option<
    Seq<(DiffLineKind, Seq<char>)>,
> {
    if old == new {
        None
    } else {
        Some(shown_lines(line_changes(old, new)))
    }
}

/// `e` is `d` with its inline diff and change details filled in from the
/// sources: everything else is kept; where a source is missing nothing
/// changes; otherwise the inline diff is the changed lines of the two
/// entity texts, and the change details are those of the inline diff
/// when there are any.
pub open spec fn enriched(
    d: EntityDiff,
    e: EntityDiff,
    olds: Seq<(String, String)>,
    news: Seq<(String, String)>,
) -> bool {
    &&& e.change == d.change
    &&& e.name == d.name
    &&& e.kind == d.kind
    &&& e.file == d.file
    &&& e.old_file == d.old_file
    &&& e.old_name == d.old_name
    &&& e.sig_changed == d.sig_changed
    &&& e.body_changed == d.body_changed
    &&& e.breaking == d.breaking
    &&& e.breaking_reason == d.breaking_reason
    &&& e.old == d.old
    &&& e.new == d.new
    &&& match paired_texts(d, olds, news) {
        None => e.inline_diff == d.inline_diff && e.change_details == d.change_details,
        Some(texts) => match inline_lines(texts.0, texts.1) {
            None => e.inline_diff is None && e.change_details == d.change_details,
            Some(cl) => match e.inline_diff {
                Some(ls) => {
                    &&& lines_view(ls@) == cl
                    &&& if change_details(ls@).len() > 0 {
                        e.change_details matches Some(ds) && details_view(ds@) == change_details(ls@)
                    } else {
                        e.change_details == d.change_details
                    }
                },
                None => false,
            },
        },
    }
}

/// The source recorded for `path` in `srcs`.
fn find_source<'a>(srcs: &'a [(String, String)], path: &str) -> (r: Option<&'a String>)
    ensures
        match r {
            Some(s) => source_for(srcs@, path@) == Some(s@),
            None => source_for(srcs@, path@) is None,
        },
{
    let mut i: usize = srcs.len();
    assert(srcs@.take(i as int) == srcs@);
    while i > 0
        invariant
            i <= srcs@.len(),
            source_for(srcs@, path@) == source_for(srcs@.take(i as int), path@),
        decreases i,
    {
        assert(srcs@.take(i as int).drop_last() == srcs@.take(i - 1));
        if str_eq(srcs[i - 1].0.as_str(), path) {
            return Some(&srcs[i - 1].1);
        }
        i -= 1;
    }
    None
}

/// Fill in one record's inline diff and change details.
fn enrich(
    d: EntityDiff,
    olds: &[(String, String)],
    news: &[(String, String)],
) -> (e: EntityDiff)
    ensures
        enriched(d, e, olds@, news@),
{
    let mut e = d;
    let texts = match (&e.old, &e.new) {
        (Some(o), Some(n)) => match (find_source(olds, o.file.as_str()), find_source(news, n.file.as_str())) {
            (Some(os), Some(ns)) => Some(
                (
                    extract_entity_text(os.as_str(), o.line_start, o.line_end),
                    extract_entity_text(ns.as_str(), n.line_start, n.line_end),
                ),
            ),
            _ => None,
        },
        _ => None,
    };
    match texts {
        Some((ot, nt)) => {
            let il = compute_inline_diff(ot.as_str(), nt.as_str());
            match &il {
                Some(ls) => {
                    let details = extract_change_details(ls.as_slice());
                    if details.len() > 0 {
                        e.change_details = Some(details);
                    }
                },
                None => {},
            }
            e.inline_diff = il;
        },
        None => {},
    }
    e
}

/// Fill in the inline diffs and change details of the classified
/// records, then gather their cross-file patterns and summary counts.
/// `old_sources` and `new_sources` are the texts of the files at the
/// base and head refs, by path.
pub fn assemble_diff(
    base_ref: &str,
    head_ref: &str,
    entities: Vec<EntityDiff>,
    old_sources: &[(String, String)],
    new_sources: &[(String, String)],
) -> (r: DiffResult)
    ensures
        r.base_ref@ == base_ref@,
        r.head_ref@ == head_ref@,
        r.entities@.len() == entities@.len(),
        forall|k: int|
            0 <= k < entities@.len() ==> enriched(
                #[trigger] entities@[k],
                r.entities@[k],
                old_sources@,
                new_sources@,
            ),
        patterns_view(r.patterns@) == spec_patterns(r.entities@),
        r.summary == summary_of(r.entities@, r.entities@.len() as int),
{
    let ghost input = entities@;
    let mut out: Vec<EntityDiff> = Vec::new();
    for d in iter: entities.into_iter()
        invariant
            iter.seq() == input,
            out@.len() == iter.index(),
            forall|k: int|
                0 <= k < out@.len() ==> enriched(
                    #[trigger] input[k],
                    out@[k],
                    old_sources@,
                    new_sources@,
                ),
    {
        out.push(enrich(d, old_sources, new_sources));
    }
    let patterns = DiffResult::detect_patterns(out.as_slice());
    let summary = DiffResult::compute_summary(out.as_slice());
    DiffResult {
        base_ref: String::from_str(base_ref),
        head_ref: String::from_str(head_ref),
        entities: out,
        patterns,
        summary,
    }
}

/// The contents recorded for `path`: the last entry with that path.
pub open spec fn bytes_for(entries: Seq<(String, Vec<u8>)>, path: Seq<char>) -> Option<Seq<u8>>
    decreases entries.len(),
{
    if entries.len() == 0 {
        None
    } else if entries.last().0@ == path {
        Some(entries.last().1@)
    } else {
        bytes_for(entries.drop_last(), path)
    }
}

/// The contents recorded for `path` in `entries`.
fn find_bytes<'a>(entries: &'a [(String, Vec<u8>)], path: &str) -> (r: Option<&'a Vec<u8>>)
    ensures
        match r {
            Some(b) => bytes_for(entries@, path@) == Some(b@),
            None => bytes_for(entries@, path@) is None,
        },
{
    let mut i: usize = entries.len();
    assert(entries@.take(i as int) == entries@);
    while i > 0
        invariant
            i <= entries@.len(),
            bytes_for(entries@, path@) == bytes_for(entries@.take(i as int), path@),
        decreases i,
    {
        assert(entries@.take(i as int).drop_last() == entries@.take(i - 1));
        if str_eq(entries[i - 1].0.as_str(), path) {
            return Some(&entries[i - 1].1);
        }
        i -= 1;
    }
    None
}

/// `(path, text)` pairs as plain values.
pub open spec fn sources_view(v: Seq<(String, String)>) -> Seq<(Seq<char>, Seq<char>)> {
    v.map_values(|p: (String, String)| (p.0@, p.1@))
}

/// The sources of one side of a diff among the first `n` changes: for
/// each change with a diff language that exists on that side (not added,
/// for the old side; not deleted, for the new side) and whose contents on
/// that side are known and valid UTF-8, its path and text, in order.
pub open spec fn side_sources(
    changes: Seq<FileChange>,
    n: int,
    entries: Seq<(String, Vec<u8>)>,
    old_side: bool,
) -> Seq<(Seq<char>, Seq<char>)>
    decreases n,
{
    if n <= 0 {
        Seq::empty()
    } else {
        let acc = side_sources(changes, n - 1, entries, old_side);
        let c = changes[n - 1];
        let present = if old_side {
            c.status != FileStatus::Added
        } else {
            c.status != FileStatus::Deleted
        };
        if diff_language_of(c.path@) is Some && present {
            match bytes_for(entries, c.path@) {
                Some(b) => if valid_utf8(b) {
                    acc.push((c.path@, decode_utf8(b)))
                } else {
                    acc
                },
                None => acc,
            }
        } else {
            acc
        }
    }
}

fn push_side_source(
    out: &mut Vec<(String, String)>,
    path: &String,
    entries: &[(String, Vec<u8>)],
)
    ensures
        sources_view(final(out)@) == match bytes_for(entries@, path@) {
            Some(b) => if valid_utf8(b) {
                sources_view(old(out)@).push((path@, decode_utf8(b)))
            } else {
                sources_view(old(out)@)
            },
            None => sources_view(old(out)@),
        },
{
    if let Some(b) = find_bytes(entries, path.as_str()) {
        if let Some(t) = crate::index::utf8_text(b.as_slice()) {
            proof {
                vstd::utf8::encode_utf8_decode_utf8(t@);
            }
            let ghost before = out@;
            out.push((path.clone(), t));
            assert(sources_view(out@) == sources_view(before).push(sources_view(out@).last()));
        }
    }
}

/// The sources a diff reads: for each changed file with a diff language
/// (see `diff_language_of`), its text at the base ref unless it was added
/// and its text at the head ref unless it was deleted, from the contents
/// read at each ref (`old_bytes`, `new_bytes`; a file missing there or
/// not UTF-8 has no source on that side).
pub fn diff_sources(
    changes: &[FileChange],
    old_bytes: &[(String, Vec<u8>)],
    new_bytes: &[(String, Vec<u8>)],
) -> (r: (Vec<(String, String)>, Vec<(String, String)>))
    ensures
        sources_view(r.0@) == side_sources(changes@, changes@.len() as int, old_bytes@, true),
        sources_view(r.1@) == side_sources(changes@, changes@.len() as int, new_bytes@, false),
{
    let mut olds: Vec<(String, String)> = Vec::new();
    let mut news: Vec<(String, String)> = Vec::new();
    let mut i: usize = 0;
    while i < changes.len()
        invariant
            i <= changes@.len(),
            sources_view(olds@) == side_sources(changes@, i as int, old_bytes@, true),
            sources_view(news@) == side_sources(changes@, i as int, new_bytes@, false),
        decreases changes@.len() - i,
    {
        let c = &changes[i];
        if diff_language(c.path.as_str()).is_some() {
            if c.status != FileStatus::Added {
                push_side_source(&mut olds, &c.path, old_bytes);
            }
            if c.status != FileStatus::Deleted {
                push_side_source(&mut news, &c.path, new_bytes);
            }
        }
        i += 1;
    }
    (olds, news)
}

/// A diff from the files read at both refs: the sources of each side
/// (see `diff_sources`), and `classified`, the classified matches of the
/// entities of both sides, each filled in from those sources, with their
/// patterns and summary (as `assemble_diff`). Entity extraction and the
/// classification of matches are not part of this library, so the records
/// come in as `classified`.
pub fn diff_from_sources(
    base_ref: &str,
    head_ref: &str,
    changes: &[FileChange],
    old_bytes: &[(String, Vec<u8>)],
    new_bytes: &[(String, Vec<u8>)],
    classified: Vec<EntityDiff>,
) -> (r: DiffResult)
    ensures
        r.base_ref@ == base_ref@,
        r.head_ref@ == head_ref@,
        r.entities@.len() == classified@.len(),
        exists|olds: Seq<(String, String)>, news: Seq<(String, String)>|
            #![trigger sources_view(olds), sources_view(news)]
            sources_view(olds) == side_sources(changes@, changes@.len() as int, old_bytes@, true)
            && sources_view(news) == side_sources(changes@, changes@.len() as int, new_bytes@, false)
            && forall|k: int|
                0 <= k < classified@.len() ==> enriched(#[trigger] classified@[k], r.entities@[k], olds, news),
        patterns_view(r.patterns@) == spec_patterns(r.entities@),
        r.summary == summary_of(r.entities@, r.entities@.len() as int),
{
    let (olds, news) = diff_sources(changes, old_bytes, new_bytes);
    let r = assemble_diff(base_ref, head_ref, classified, olds.as_slice(), news.as_slice());
    assert(sources_view(olds@) == side_sources(changes@, changes@.len() as int, old_bytes@, true));
    r
}

} // verus!
