//! Queries over the entity index and their plain-text renderings.

pub mod duckdb_backend;
pub mod explore;
pub mod index;

use vstd::prelude::*;
use crate::entity::{Entity, Reference};
use crate::fmt::{decimal, push_chars, push_num, push_padded, push_spaces, push_str, spaces};
use crate::query::index::{FileHit, SearchHit};
use crate::parser::treesitter::{ReferenceEntry, SymbolEntry, TextEntry};
use crate::text::{chars_vec, replace_char, replaced, slice_range, string_from};

verus! {

/// ` (in P)` for an entity with parent `P`, nothing otherwise.
pub open spec fn parent_note(p: Option<String>) -> Seq<char> {
    match p {
        Some(s) => " (in "@ + s@ + ")"@,
        None => Seq::empty(),
    }
}

/// `file:start-end`.
pub open spec fn span_text(e: Entity) -> Seq<char> {
    e.file@ + ":"@ + decimal(e.line_start as nat) + "-"@ + decimal(e.line_end as nat)
}

/// One line of `format_refs`.
pub open spec fn ref_line(r: Reference) -> Seq<char> {
    let caller = match r.caller {
        Some(c) => c@,
        None => "<top-level>"@,
    };
    r.ref_kind@ + spaces(12 - r.ref_kind@.len()) + " "@ + caller + " -> "@ + r.name@ + " at "@
        + r.file@ + ":"@ + decimal(r.line as nat) + "\n"@
}

pub open spec fn refs_text(rs: Seq<&Reference>) -> Seq<char>
    decreases rs.len(),
{
    if rs.len() == 0 {
        Seq::empty()
    } else {
        refs_text(rs.drop_last()) + ref_line(*rs.last())
    }
}

/// One line of `format_entities`.
pub open spec fn entity_line(e: Entity) -> Seq<char> {
    e.kind@ + spaces(12 - e.kind@.len()) + " "@ + e.name@ + spaces(40 - e.name@.len()) + " "@
        + span_text(e) + parent_note(e.parent) + "\n"@
}

pub open spec fn entities_text(es: Seq<&Entity>) -> Seq<char>
    decreases es.len(),
{
    if es.len() == 0 {
        Seq::empty()
    } else {
        entities_text(es.drop_last()) + entity_line(*es.last())
    }
}

/// One line of `format_search_hits`.
pub open spec fn hit_line(h: SearchHit) -> Seq<char> {
    match h {
        SearchHit::Symbol(e) => "[symbol] "@ + e.kind@ + " "@ + e.name@ + " "@ + span_text(*e)
            + parent_note(e.parent) + "\n"@,
        SearchHit::File(f) => {
            let lang = match f.lang {
                Some(l) => l@,
                None => "unknown"@,
            };
            "[file]   "@ + f.path@ + " ("@ + lang + ", "@ + decimal(f.entity_count as nat)
                + " symbols)\n"@
        },
    }
}

pub open spec fn hits_text(hs: Seq<SearchHit>) -> Seq<char>
    decreases hs.len(),
{
    if hs.len() == 0 {
        Seq::empty()
    } else {
        hits_text(hs.drop_last()) + hit_line(hs.last())
    }
}

fn push_parent_note(out: &mut Vec<char>, p: &Option<String>)
    ensures
        final(out)@ == old(out)@ + parent_note(*p),
{
    match p {
        Some(s) => {
            push_str(out, " (in ");
            push_str(out, s.as_str());
            push_str(out, ")");
        },
        None => {},
    }
}

fn push_span(out: &mut Vec<char>, e: &Entity)
    ensures
        final(out)@ == old(out)@ + span_text(*e),
{
    push_str(out, e.file.as_str());
    push_str(out, ":");
    push_num(out, e.line_start as u64);
    push_str(out, "-");
    push_num(out, e.line_end as u64);
}

fn push_ref_line(out: &mut Vec<char>, r: &Reference)
    ensures
        final(out)@ == old(out)@ + ref_line(*r),
{
    push_padded(out, r.ref_kind.as_str(), 12);
    push_str(out, " ");
    match &r.caller {
        Some(c) => push_str(out, c.as_str()),
        None => push_str(out, "<top-level>"),
    }
    push_str(out, " -> ");
    push_str(out, r.name.as_str());
    push_str(out, " at ");
    push_str(out, r.file.as_str());
    push_str(out, ":");
    push_num(out, r.line as u64);
    push_str(out, "\n");
}

fn push_entity_line(out: &mut Vec<char>, e: &Entity)
    ensures
        final(out)@ == old(out)@ + entity_line(*e),
{
    push_padded(out, e.kind.as_str(), 12);
    push_str(out, " ");
    push_padded(out, e.name.as_str(), 40);
    push_str(out, " ");
    push_span(out, e);
    push_parent_note(out, &e.parent);
    push_str(out, "\n");
}

fn push_hit_line(out: &mut Vec<char>, h: &SearchHit)
    ensures
        final(out)@ == old(out)@ + hit_line(*h),
{
    match h {
        SearchHit::Symbol(e) => {
            push_str(out, "[symbol] ");
            push_str(out, e.kind.as_str());
            push_str(out, " ");
            push_str(out, e.name.as_str());
            push_str(out, " ");
            push_span(out, e);
            push_parent_note(out, &e.parent);
            push_str(out, "\n");
        },
        SearchHit::File(f) => {
            push_str(out, "[file]   ");
            push_str(out, f.path.as_str());
            push_str(out, " (");
            match &f.lang {
                Some(l) => push_str(out, l.as_str()),
                None => push_str(out, "unknown"),
            }
            push_str(out, ", ");
            push_num(out, f.entity_count as u64);
            push_str(out, " symbols)\n");
        },
    }
}

/// Renders search hits, one line each; `No results found.` when empty.
pub fn format_search_hits(hits: &[SearchHit<'_>]) -> (r: String)
    ensures
        r@ == if hits@.len() == 0 { "No results found."@ } else { hits_text(hits@) },
{
    if hits.len() == 0 {
        return String::from_str("No results found.");
    }
    let mut out: Vec<char> = Vec::new();
    let mut i: usize = 0;
    while i < hits.len()
        invariant
            i <= hits@.len(),
            out@ == hits_text(hits@.take(i as int)),
        decreases hits@.len() - i,
    {
        push_hit_line(&mut out, &hits[i]);
        assert(hits@.take(i + 1).drop_last() == hits@.take(i as int));
        i += 1;
    }
    assert(hits@.take(hits@.len() as int) == hits@);
    string_from(&out)
}

/// Renders entities as aligned `kind name file:start-end` rows;
/// `No symbols found.` when empty.
pub fn format_entities(entities: &[&Entity]) -> (r: String)
    ensures
        r@ == if entities@.len() == 0 { "No symbols found."@ } else { entities_text(entities@) },
{
    if entities.len() == 0 {
        return String::from_str("No symbols found.");
    }
    let mut out: Vec<char> = Vec::new();
    let mut i: usize = 0;
    while i < entities.len()
        invariant
            i <= entities@.len(),
            out@ == entities_text(entities@.take(i as int)),
        decreases entities@.len() - i,
    {
        push_entity_line(&mut out, entities[i]);
        assert(entities@.take(i + 1).drop_last() == entities@.take(i as int));
        i += 1;
    }
    assert(entities@.take(entities@.len() as int) == entities@);
    string_from(&out)
}

/// Renders references as `kind caller -> name at file:line` rows;
/// `No references found.` when empty.
pub fn format_refs(refs: &[&Reference]) -> (r: String)
    ensures
        r@ == if refs@.len() == 0 { "No references found."@ } else { refs_text(refs@) },
{
    if refs.len() == 0 {
        return String::from_str("No references found.");
    }
    let mut out: Vec<char> = Vec::new();
    let mut i: usize = 0;
    while i < refs.len()
        invariant
            i <= refs@.len(),
            out@ == refs_text(refs@.take(i as int)),
        decreases refs@.len() - i,
    {
        push_ref_line(&mut out, refs[i]);
        assert(refs@.take(i + 1).drop_last() == refs@.take(i as int));
        i += 1;
    }
    assert(refs@.take(refs@.len() as int) == refs@);
    string_from(&out)
}

/// A file-level search result of the code search.
#[derive(Debug)]
pub struct FileEntry {
    pub path: String,
    pub lang: Option<String>,
    pub lines: u32,
    pub title: Option<String>,
}

/// One result of the code search: a symbol, a file or a text block.
#[derive(Debug)]
pub enum SearchResult {
    Symbol(SymbolEntry),
    File(FileEntry),
    Text(TextEntry),
}

/// `s` when present, else `d`.
pub open spec fn text_or(o: Option<String>, d: Seq<char>) -> Seq<char> {
    match o {
        Some(s) => s@,
        None => d,
    }
}

/// `file:first-last`.
pub open spec fn line_span(file: Seq<char>, line: [u32; 2]) -> Seq<char> {
    file + ":"@ + decimal(line[0] as nat) + "-"@ + decimal(line[1] as nat)
}

/// The first 100 characters of a text block, newlines made spaces.
pub open spec fn preview(t: Seq<char>) -> Seq<char> {
    replace_char(if t.len() <= 100 { t } else { t.take(100) }, '\n', ' ')
}

/// The lines `format_search_results` gives one result.
pub open spec fn result_text(r: SearchResult) -> Seq<char> {
    match r {
        SearchResult::Symbol(s) => {
            let vis = text_or(s.visibility, Seq::empty());
            "[symbol] "@ + s.kind@ + " "@ + s.name@ + " "@ + line_span(s.file@, s.line)
                + parent_note(s.parent) + "\n"@ + if vis.len() > 0 {
                "         visibility: "@ + vis + "\n"@
            } else {
                Seq::empty()
            }
        },
        SearchResult::File(f) => {
            let title = text_or(f.title, Seq::empty());
            "[file]   "@ + f.path@ + " ("@ + text_or(f.lang, "unknown"@) + ", "@ + decimal(
                f.lines as nat,
            ) + " lines)"@ + (if title.len() > 0 {
                " -- "@ + title
            } else {
                Seq::empty()
            }) + "\n"@
        },
        SearchResult::Text(t) => {
            let parent = text_or(t.parent, Seq::empty());
            "[text]   "@ + t.kind@ + " "@ + line_span(t.file@, t.line) + " "@ + (if parent.len()
                > 0 {
                "(in "@ + parent + ") "@
            } else {
                Seq::empty()
            }) + "\n"@ + "         "@ + preview(t.text@) + "\n"@
        },
    }
}

pub open spec fn results_text(rs: Seq<SearchResult>) -> Seq<char>
    decreases rs.len(),
{
    if rs.len() == 0 {
        Seq::empty()
    } else {
        results_text(rs.drop_last()) + result_text(rs.last())
    }
}

/// One row of `format_symbols`: kind padded to 12, name padded to 40, the
/// span and the parent; then the visibility on a row of its own when it
/// is given and not `public`.
pub open spec fn symbol_row(s: SymbolEntry) -> Seq<char> {
    let vis = text_or(s.visibility, Seq::empty());
    s.kind@ + spaces(12 - s.kind@.len()) + " "@ + s.name@ + spaces(40 - s.name@.len()) + " "@
        + line_span(s.file@, s.line) + parent_note(s.parent) + "\n"@ + if vis.len() > 0 && vis
        != "public"@ {
        spaces(12) + " visibility: "@ + vis + "\n"@
    } else {
        Seq::empty()
    }
}

pub open spec fn symbols_text(ss: Seq<SymbolEntry>) -> Seq<char>
    decreases ss.len(),
{
    if ss.len() == 0 {
        Seq::empty()
    } else {
        symbols_text(ss.drop_last()) + symbol_row(ss.last())
    }
}

/// One row of `format_references`: kind padded to 12, caller (or
/// `<top-level>`), name, and where.
pub open spec fn reference_row_text(r: ReferenceEntry) -> Seq<char> {
    r.kind@ + spaces(12 - r.kind@.len()) + " "@ + text_or(r.caller, "<top-level>"@) + " -> "@
        + r.name@ + " at "@ + r.file@ + ":"@ + decimal(r.line[0] as nat) + "\n"@
}

pub open spec fn references_text(rs: Seq<ReferenceEntry>) -> Seq<char>
    decreases rs.len(),
{
    if rs.len() == 0 {
        Seq::empty()
    } else {
        references_text(rs.drop_last()) + reference_row_text(rs.last())
    }
}

fn push_opt_or(out: &mut Vec<char>, o: &Option<String>, d: &str)
    ensures
        final(out)@ == old(out)@ + text_or(*o, d@),
{
    match o {
        Some(s) => push_str(out, s.as_str()),
        None => push_str(out, d),
    }
}

fn push_line_span(out: &mut Vec<char>, file: &str, line: &[u32; 2])
    ensures
        final(out)@ == old(out)@ + line_span(file@, *line),
{
    push_str(out, file);
    push_str(out, ":");
    push_num(out, line[0] as u64);
    push_str(out, "-");
    push_num(out, line[1] as u64);
}

fn opt_len(o: &Option<String>) -> (r: usize)
    ensures
        r == text_or(*o, Seq::empty()).len(),
{
    match o {
        Some(s) => s.as_str().unicode_len(),
        None => 0,
    }
}

fn push_result(out: &mut Vec<char>, r: &SearchResult)
    ensures
        final(out)@ == old(out)@ + result_text(*r),
{
    match r {
        SearchResult::Symbol(s) => {
            push_str(out, "[symbol] ");
            push_str(out, s.kind.as_str());
            push_str(out, " ");
            push_str(out, s.name.as_str());
            push_str(out, " ");
            push_line_span(out, s.file.as_str(), &s.line);
            push_parent_note(out, &s.parent);
            push_str(out, "\n");
            if opt_len(&s.visibility) > 0 {
                push_str(out, "         visibility: ");
                push_opt_or(out, &s.visibility, "");
                push_str(out, "\n");
            }
        },
        SearchResult::File(f) => {
            push_str(out, "[file]   ");
            push_str(out, f.path.as_str());
            push_str(out, " (");
            push_opt_or(out, &f.lang, "unknown");
            push_str(out, ", ");
            push_num(out, f.lines as u64);
            push_str(out, " lines)");
            if opt_len(&f.title) > 0 {
                push_str(out, " -- ");
                push_opt_or(out, &f.title, "");
            }
            push_str(out, "\n");
        },
        SearchResult::Text(t) => {
            push_str(out, "[text]   ");
            push_str(out, t.kind.as_str());
            push_str(out, " ");
            push_line_span(out, t.file.as_str(), &t.line);
            push_str(out, " ");
            if opt_len(&t.parent) > 0 {
                push_str(out, "(in ");
                push_opt_or(out, &t.parent, "");
                push_str(out, ") ");
            }
            push_str(out, "\n");
            push_str(out, "         ");
            let cs = chars_vec(t.text.as_str());
            let n: usize = if cs.len() <= 100 { cs.len() } else { 100 };
            let head = slice_range(&cs, 0, n);
            assert(head@ == (if cs@.len() <= 100 { cs@ } else { cs@.take(100) }));
            let p = replaced(&head, '\n', ' ');
            push_chars(out, &p);
            push_str(out, "\n");
        },
    }
}

fn push_symbol_row(out: &mut Vec<char>, s: &SymbolEntry)
    ensures
        final(out)@ == old(out)@ + symbol_row(*s),
{
    push_padded(out, s.kind.as_str(), 12);
    push_str(out, " ");
    push_padded(out, s.name.as_str(), 40);
    push_str(out, " ");
    push_line_span(out, s.file.as_str(), &s.line);
    push_parent_note(out, &s.parent);
    push_str(out, "\n");
    let public = match &s.visibility {
        Some(v) => crate::text::str_eq(v.as_str(), "public"),
        None => false,
    };
    proof {
        reveal_strlit("public");
    }
    if opt_len(&s.visibility) > 0 && !public {
        push_spaces(out, 12);
        push_str(out, " visibility: ");
        push_opt_or(out, &s.visibility, "");
        push_str(out, "\n");
    }
}

fn push_reference_row(out: &mut Vec<char>, r: &ReferenceEntry)
    ensures
        final(out)@ == old(out)@ + reference_row_text(*r),
{
    push_padded(out, r.kind.as_str(), 12);
    push_str(out, " ");
    push_opt_or(out, &r.caller, "<top-level>");
    push_str(out, " -> ");
    push_str(out, r.name.as_str());
    push_str(out, " at ");
    push_str(out, r.file.as_str());
    push_str(out, ":");
    push_num(out, r.line[0] as u64);
    push_str(out, "\n");
}

/// Renders code-search results, one block each; `No results found.`
/// when there are none.
pub fn format_search_results(results: &[SearchResult]) -> (r: String)
    ensures
        r@ == if results@.len() == 0 { "No results found."@ } else { results_text(results@) },
{
    if results.len() == 0 {
        return String::from_str("No results found.");
    }
    let mut out: Vec<char> = Vec::new();
    let mut i: usize = 0;
    while i < results.len()
        invariant
            i <= results@.len(),
            out@ == results_text(results@.take(i as int)),
        decreases results@.len() - i,
    {
        push_result(&mut out, &results[i]);
        assert(results@.take(i + 1).drop_last() == results@.take(i as int));
        i += 1;
    }
    assert(results@.take(results@.len() as int) == results@);
    string_from(&out)
}

/// Renders symbols as aligned rows; `No symbols found.` when there are
/// none.
pub fn format_symbols(symbols: &[SymbolEntry]) -> (r: String)
    ensures
        r@ == if symbols@.len() == 0 { "No symbols found."@ } else { symbols_text(symbols@) },
{
    if symbols.len() == 0 {
        return String::from_str("No symbols found.");
    }
    let mut out: Vec<char> = Vec::new();
    let mut i: usize = 0;
    while i < symbols.len()
        invariant
            i <= symbols@.len(),
            out@ == symbols_text(symbols@.take(i as int)),
        decreases symbols@.len() - i,
    {
        push_symbol_row(&mut out, &symbols[i]);
        assert(symbols@.take(i + 1).drop_last() == symbols@.take(i as int));
        i += 1;
    }
    assert(symbols@.take(symbols@.len() as int) == symbols@);
    string_from(&out)
}

/// Renders references as `kind caller -> name at file:line` rows; `No
/// references found.` when there are none.
pub fn format_references(refs: &[ReferenceEntry]) -> (r: String)
    ensures
        r@ == if refs@.len() == 0 { "No references found."@ } else { references_text(refs@) },
{
    if refs.len() == 0 {
        return String::from_str("No references found.");
    }
    let mut out: Vec<char> = Vec::new();
    let mut i: usize = 0;
    while i < refs.len()
        invariant
            i <= refs@.len(),
            out@ == references_text(refs@.take(i as int)),
        decreases refs@.len() - i,
    {
        push_reference_row(&mut out, &refs[i]);
        assert(refs@.take(i + 1).drop_last() == refs@.take(i as int));
        i += 1;
    }
    assert(refs@.take(refs@.len() as int) == refs@);
    string_from(&out)
}

} // verus!
