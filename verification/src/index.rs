//! The deterministic parts of building the index: kind normalisation,
//! decorator scanning, the languages known by extension, what an
//! incremental run keeps from the previous index, and the final ordering
//! of entities and references.

use vstd::prelude::*;
use vstd::string::StringSliceAdditionalSpecFns;
use crate::cache::{blake3_hex, hash_file_contents, Cache};
use crate::parser::languages::{detect_language, language_of_extension};
use crate::parser::treesitter::{
    opt_view, parse_file, parsed_file, reference_view, symbol_view, ReferenceEntry, ReferenceView, SymbolEntry,
    SymbolView,
};
use crate::entity::{same_entity, Entity, Reference};
use crate::fmt::push_str;
use crate::text::{
    after_last, chars_vec, is_prefix, lines, lines_of, seq_lt, starts_with, str_eq, string_from, trim,
    trim_chars,
};

verus! {

broadcast use vstd::string::group_string_axioms;

/// Kind names of the parser mapped onto sigil's vocabulary.
pub open spec fn kind_normalized(kind: Seq<char>) -> Seq<char> {
    if kind == "trait_impl"@ {
        "impl"@
    } else if kind == "field"@ {
        "property"@
    } else if kind == "procedure"@ {
        "function"@
    } else {
        kind
    }
}

/// `trait_impl` → `impl`, `field` → `property`, `procedure` →
/// `function`; any other kind unchanged.
pub fn normalize_kind(kind: &str) -> (r: String)
    ensures
        r@ == kind_normalized(kind@),
{
    if str_eq(kind, "trait_impl") {
        String::from_str("impl")
    } else if str_eq(kind, "field") {
        String::from_str("property")
    } else if str_eq(kind, "procedure") {
        String::from_str("function")
    } else {
        String::from_str(kind)
    }
}

/// Whether a kind stands for an import.
pub fn is_import_kind(kind: &str) -> (r: bool)
    ensures
        r == (kind@ == "import"@ || kind@ == "use"@ || kind@ == "package"@),
{
    str_eq(kind, "import") || str_eq(kind, "use") || str_eq(kind, "package")
}

/// Whether a trimmed line is a decorator / attribute in `lang`: `@...` in
/// Python, Java, C#, TypeScript, JavaScript and TSX; `#[...]` or
/// `#![...]` in Rust; never in other languages.
pub open spec fn is_decorator_line(t: Seq<char>, lang: Seq<char>) -> bool {
    if lang == "python"@ || lang == "java"@ || lang == "csharp"@ || lang == "typescript"@ || lang
        == "javascript"@ || lang == "tsx"@ {
        is_prefix("@"@, t)
    } else if lang == "rust"@ {
        is_prefix("#["@, t) || is_prefix("#!["@, t)
    } else {
        false
    }
}

/// First line (1-based) of the run of decorator lines that ends just
/// above `start`.
pub open spec fn decorator_start(ls: Seq<Seq<char>>, start: int, lang: Seq<char>) -> int
    decreases start,
{
    if start > 1 && start - 2 < ls.len() && is_decorator_line(trim(ls[start - 2]), lang) {
        decorator_start(ls, start - 1, lang)
    } else {
        start
    }
}

fn is_decorator(t: &[char], lang: &str) -> (r: bool)
    ensures
        r == is_decorator_line(t@, lang@),
{
    if str_eq(lang, "python") || str_eq(lang, "java") || str_eq(lang, "csharp") || str_eq(
        lang,
        "typescript",
    ) || str_eq(lang, "javascript") || str_eq(lang, "tsx") {
        starts_with(t, "@")
    } else if str_eq(lang, "rust") {
        starts_with(t, "#[") || starts_with(t, "#![")
    } else {
        false
    }
}

/// Scan upwards from `line_start` (1-based) over consecutive decorator or
/// attribute lines and return the first of them (`line_start` when there
/// are none).
pub fn find_decorator_start(source: &str, line_start: usize, lang: &str) -> (r: usize)
    requires
        line_start <= lines(source@).len() + 1,
    ensures
        r == decorator_start(lines(source@), line_start as int, lang@),
{
    let text = chars_vec(source);
    let ls = lines_of(&text);
    let ghost all = lines(source@);
    let mut start = line_start;
    let mut done = false;
    while start > 1 && !done
        invariant
            done ==> decorator_start(all, start as int, lang@) == start,
            start <= line_start,
            ls@.len() == all.len(),
            line_start <= all.len() + 1,
            forall|j: int| 0 <= j < ls@.len() ==> (#[trigger] ls@[j])@ == all[j],
            decorator_start(all, line_start as int, lang@) == decorator_start(all, start as int, lang@),
        decreases start + if done { 0usize } else { 1usize },
    {
        let t = trim_chars(&ls[start - 2]);
        if is_decorator(&t, lang) {
            start -= 1;
        } else {
            done = true;
        }
    }
    start
}

/// The language a file extension implies without asking the parser:
/// JSON, YAML, TOML and Markdown.
pub fn fixed_language(ext: &str) -> (r: Option<&'static str>)
    ensures
        r == (if ext@ == "json"@ {
            Some("json")
        } else if ext@ == "yaml"@ || ext@ == "yml"@ {
            Some("yaml")
        } else if ext@ == "toml"@ {
            Some("toml")
        } else if ext@ == "md"@ || ext@ == "markdown"@ || ext@ == "mdx"@ {
            Some("markdown")
        } else {
            None::<&'static str>
        }),
{
    if str_eq(ext, "json") {
        Some("json")
    } else if str_eq(ext, "yaml") || str_eq(ext, "yml") {
        Some("yaml")
    } else if str_eq(ext, "toml") {
        Some("toml")
    } else if str_eq(ext, "md") || str_eq(ext, "markdown") || str_eq(ext, "mdx") {
        Some("markdown")
    } else {
        None
    }
}

/// The entities of `file` among `es`, in order.
pub open spec fn entities_in(es: Seq<Entity>, file: Seq<char>) -> Seq<Entity> {
    es.filter(|e: Entity| e.file@ == file)
}

/// The references of `file` among `rs`, in order.
pub open spec fn references_in(rs: Seq<Reference>, file: Seq<char>) -> Seq<Reference> {
    rs.filter(|r: Reference| r.file@ == file)
}

/// `r` is a field-for-field copy of `s`.
pub open spec fn copies_of(r: Seq<Entity>, s: Seq<Entity>) -> bool {
    &&& r.len() == s.len()
    &&& forall|k: int| 0 <= k < s.len() ==> same_entity(#[trigger] r[k], s[k])
}

/// Copies of the entities of `file`, in order.
fn copy_entities_in(es: &[Entity], file: &str) -> (r: Vec<Entity>)
    ensures
        copies_of(r@, entities_in(es@, file@)),
{
    let mut r: Vec<Entity> = Vec::new();
    let mut i: usize = 0;
    while i < es.len()
        invariant
            i <= es@.len(),
            copies_of(r@, entities_in(es@.take(i as int), file@)),
        decreases es@.len() - i,
    {
        assert(es@.take(i + 1).drop_last() == es@.take(i as int));
        proof {
            reveal(Seq::filter);
        }
        if str_eq(es[i].file.as_str(), file) {
            r.push(es[i].duplicate());
        }
        i += 1;
    }
    assert(es@.take(es@.len() as int) == es@);
    r
}

/// Copies of the references of `file`, in order.
fn copy_references_in(rs: &[Reference], file: &str) -> (r: Vec<Reference>)
    ensures
        r@ == references_in(rs@, file@),
{
    let mut r: Vec<Reference> = Vec::new();
    let mut i: usize = 0;
    while i < rs.len()
        invariant
            i <= rs@.len(),
            r@ == references_in(rs@.take(i as int), file@),
        decreases rs@.len() - i,
    {
        assert(rs@.take(i + 1).drop_last() == rs@.take(i as int));
        proof {
            reveal(Seq::filter);
        }
        if str_eq(rs[i].file.as_str(), file) {
            r.push(rs[i].duplicate());
        }
        i += 1;
    }
    assert(rs@.take(rs@.len() as int) == rs@);
    r
}

/// What an incremental run keeps of `file` from the previous index: when
/// the previous run's cache holds the file's current content hash, the
/// previous entities of the file and (when references are indexed) its
/// previous references, in order; otherwise nothing, and the file is
/// parsed again.
pub fn reuse_unchanged(
    prev_cache: &Option<Cache>,
    prev_entities: &[Entity],
    prev_refs: &[Reference],
    include_refs: bool,
    file: &str,
    hash: &str,
) -> (r: Option<(Vec<Entity>, Vec<Reference>)>)
    ensures
        r is Some <==> (prev_cache matches Some(c) && c.lookup(file@) == Some(hash@)),
        r matches Some(p) ==> {
            &&& copies_of(p.0@, entities_in(prev_entities@, file@))
            &&& p.1@ == if include_refs {
                references_in(prev_refs@, file@)
            } else {
                Seq::empty()
            }
        },
{
    match prev_cache {
        Some(c) => {
            if c.file_changed(file, hash) {
                None
            } else {
                let es = copy_entities_in(prev_entities, file);
                let rs = if include_refs {
                    copy_references_in(prev_refs, file)
                } else {
                    Vec::new()
                };
                Some((es, rs))
            }
        },
        None => None,
    }
}

/// The language the index parses a file with: JSON, YAML, TOML and
/// Markdown by extension, else the parser's own table; `None`:
/// unsupported.
pub open spec fn index_language_of(ext: Seq<char>) -> Option<Seq<char>> {
    if ext == "json"@ {
        Some("json"@)
    } else if ext == "yaml"@ || ext == "yml"@ {
        Some("yaml"@)
    } else if ext == "toml"@ {
        Some("toml"@)
    } else if ext == "md"@ || ext == "markdown"@ || ext == "mdx"@ {
        Some("markdown"@)
    } else {
        language_of_extension(ext)
    }
}

/// The language the index parses a file of extension `ext` with.
pub fn index_language(ext: &str) -> (r: Option<&'static str>)
    ensures
        match r {
            Some(l) => index_language_of(ext@) == Some(l@),
            None => index_language_of(ext@) is None,
        },
{
    proof {
        reveal_strlit("json");
        reveal_strlit("yaml");
        reveal_strlit("toml");
        reveal_strlit("markdown");
    }
    match fixed_language(ext) {
        Some(l) => Some(l),
        None => detect_language(ext),
    }
}

/// A reference row as plain values: `(file, caller, name, kind, line)`.
pub open spec fn reference_row(r: Reference) -> (Seq<char>, Option<Seq<char>>, Seq<char>, Seq<char>, u32) {
    (r.file@, opt_view(r.caller), r.name@, r.ref_kind@, r.line)
}

/// The index rows of a file's parsed references: placed in `file_path`,
/// with their caller, name and kind, at their first line.
pub open spec fn reference_rows(file_path: Seq<char>, rs: Seq<ReferenceView>) -> Seq<
    (Seq<char>, Option<Seq<char>>, Seq<char>, Seq<char>, u32),
> {
    rs.map_values(|e: ReferenceView| (file_path, e.5, e.1, e.2, e.3))
}

/// `anyhow::Error`'s `Display`: the parser's message (`to_string`).
/// Nothing is claimed of its text.
#[verifier::external_body]
fn error_text(e: anyhow::Error) -> (r: String) {
    e.to_string()
}

/// The message of a failed parse: `parse error: ` and the parser's own
/// message.
fn parse_error_message(e: anyhow::Error) -> (r: String)
    ensures
        r@.len() >= 13,
        r@.subrange(0, 13) == "parse error: "@,
{
    let text = error_text(e);
    let mut out: Vec<char> = Vec::new();
    push_str(&mut out, "parse error: ");
    let ghost head = out@;
    push_str(&mut out, text.as_str());
    proof {
        reveal_strlit("parse error: ");
        assert(out@.subrange(0, 13) == head);
    }
    string_from(&out)
}

/// The references of a source file as index rows, from the parser
/// (`Err` with `parse error: ...` when it fails).
pub fn parse_references(source: &str, file_path: &str, language: &str) -> (r: Result<Vec<Reference>, String>)
    requires
        source.spec_bytes().len() < 0xFFFF_FFFF,
    ensures
        match r {
            Ok(rows) => parsed_file(source.spec_bytes(), language@, file_path@) matches Some(t)
                && rows@.map_values(|x: Reference| reference_row(x)) == reference_rows(file_path@, t.2),
            Err(m) => parsed_file(source.spec_bytes(), language@, file_path@) is None
                && m@.len() >= 13 && m@.subrange(0, 13) == "parse error: "@,
        },
{
    match parse_file(source.as_bytes(), language, file_path) {
        Ok((_, _, refs)) => Ok(reference_rows_of(file_path, refs.as_slice())),
        Err(e) => Err(parse_error_message(e)),
    }
}

/// The entity of a parsed symbol of `source` in `file`: its name, its
/// kind normalised, its lines and parent, and the short hash of its raw
/// text. Signature, markers, body hash and signature hash are left empty:
/// their extraction is not part of this library.
pub open spec fn symbol_entity(e: Entity, source: Seq<char>, file: Seq<char>, sym: SymbolView) -> bool {
    &&& e.file@ == file
    &&& e.name@ == sym.1
    &&& e.kind@ == kind_normalized(sym.2)
    &&& e.line_start == sym.3
    &&& e.line_end == sym.4
    &&& crate::entity::opt_view(e.parent) == sym.5
    &&& e.sig is None
    &&& e.meta is None
    &&& e.body_hash is None
    &&& e.sig_hash is None
    &&& e.struct_hash@ == crate::hasher::short_hash(
        vstd::utf8::encode_utf8(crate::hasher::raw_text(source, sym.3 as int, sym.4 as int)),
    )
    &&& e.visibility is None
    &&& e.blast_radius is None
}

/// `es` are the entities of the parsed symbols `syms`, one each, in order.
pub open spec fn symbol_entities(es: Seq<Entity>, source: Seq<char>, file: Seq<char>, syms: Seq<SymbolView>) -> bool {
    &&& es.len() == syms.len()
    &&& forall|k: int| 0 <= k < es.len() ==> symbol_entity(#[trigger] es[k], source, file, syms[k])
}

/// The entities of parsed symbols are determined by them, field by field.
pub proof fn lemma_symbol_entities_unique(
    a: Seq<Entity>,
    b: Seq<Entity>,
    source: Seq<char>,
    file: Seq<char>,
    syms: Seq<SymbolView>,
)
    requires
        symbol_entities(a, source, file, syms),
        symbol_entities(b, source, file, syms),
    ensures
        copies_of(a, b),
{
    assert forall|k: int| 0 <= k < b.len() implies same_entity(#[trigger] a[k], b[k]) by {
        assert(symbol_entity(a[k], source, file, syms[k]));
        assert(symbol_entity(b[k], source, file, syms[k]));
    }
}

fn symbol_entities_of(source: &str, file_path: &str, syms: &[SymbolEntry]) -> (r: Vec<Entity>)
    requires
        source@.len() + 1 < usize::MAX,
    ensures
        symbol_entities(r@, source@, file_path@, syms@.map_values(|e: SymbolEntry| symbol_view(e))),
{
    let ghost sv = syms@.map_values(|e: SymbolEntry| symbol_view(e));
    let mut out: Vec<Entity> = Vec::new();
    let mut i: usize = 0;
    while i < syms.len()
        invariant
            i <= syms@.len(),
            source@.len() + 1 < usize::MAX,
            sv == syms@.map_values(|e: SymbolEntry| symbol_view(e)),
            out@.len() == i,
            forall|k: int| 0 <= k < i ==> symbol_entity(#[trigger] out@[k], source@, file_path@, sv[k]),
        decreases syms@.len() - i,
    {
        let sym = &syms[i];
        assert(sv[i as int] == symbol_view(syms@[i as int]));
        let first = sym.line[0];
        let last = sym.line[1];
        let raw = extract_raw_bytes_of(source, first as usize, last as usize);
        let h = crate::hasher::struct_hash(raw.as_str().as_bytes());
        let e = Entity {
            file: String::from_str(file_path),
            name: sym.name.clone(),
            kind: normalize_kind(sym.kind.as_str()),
            line_start: first,
            line_end: last,
            parent: match &sym.parent {
                Some(p) => Some(p.clone()),
                None => None,
            },
            sig: None,
            meta: None,
            body_hash: None,
            sig_hash: None,
            struct_hash: h,
            visibility: None,
            blast_radius: None,
        };
        out.push(e);
        assert(out@[i as int] == e);
        i += 1;
    }
    out
}

fn extract_raw_bytes_of(source: &str, line_start: usize, line_end: usize) -> (r: String)
    requires
        source@.len() + 1 < usize::MAX,
    ensures
        r@ == crate::hasher::raw_text(source@, line_start as int, line_end as int),
{
    crate::hasher::extract_raw_bytes(source, line_start, line_end)
}

/// The entities and references of a source file: Markdown through its
/// block scanner; an `Err` for JSON, YAML and TOML, whose indexers this
/// library does not hold; any other language through the tree-sitter
/// parser, one entity per symbol (see `symbol_entity`) and one reference
/// row per reference, `Err` with `parse error: ...` when it fails.
pub fn parse_single_file(source: &str, file_path: &str, language: &str) -> (r: Result<
    (Vec<Entity>, Vec<Reference>),
    String,
>)
    requires
        source.spec_bytes().len() < 0xFFFF_FFFE,
    ensures
        language@ == "markdown"@ ==> (r matches Ok(p) && crate::markdown_index::md_entities(
            p.0@,
            source@,
            file_path@,
        ) && p.1@.len() == 0),
        language@ == "json"@ || language@ == "yaml"@ || language@ == "toml"@ ==> r is Err,
        !is_data_language(language@) ==> match r {
            Ok(p) => parsed_file(source.spec_bytes(), language@, file_path@) matches Some(t) && symbol_entities(
                p.0@,
                source@,
                file_path@,
                t.0,
            ) && p.1@.map_values(|x: Reference| reference_row(x)) == reference_rows(file_path@, t.2),
            Err(m) => parsed_file(source.spec_bytes(), language@, file_path@) is None && m@.len() >= 13
                && m@.subrange(0, 13) == "parse error: "@,
        },
{
    proof {
        reveal_strlit("markdown");
        reveal_strlit("json");
        reveal_strlit("yaml");
        reveal_strlit("toml");
        crate::markdown_index::lemma_encode_len(source@);
    }
    if str_eq(language, "markdown") {
        assert("markdown"@.len() == 8 && "json"@.len() == 4 && "yaml"@.len() == 4 && "toml"@.len() == 4);
        return crate::markdown_index::parse_markdown_file(source, file_path);
    }
    if str_eq(language, "json") || str_eq(language, "yaml") || str_eq(language, "toml") {
        let mut m: Vec<char> = Vec::new();
        push_str(&mut m, "no indexer for ");
        push_str(&mut m, language);
        return Err(string_from(&m));
    }
    match parse_file(source.as_bytes(), language, file_path) {
        Ok((syms, _texts, refs)) => {
            let es = symbol_entities_of(source, file_path, syms.as_slice());
            Ok((es, reference_rows_of(file_path, refs.as_slice())))
        },
        Err(e) => Err(parse_error_message(e)),
    }
}

/// Markdown, JSON, YAML or TOML: the languages indexed without the
/// tree-sitter parser.
pub open spec fn is_data_language(lang: Seq<char>) -> bool {
    lang == "markdown"@ || lang == "json"@ || lang == "yaml"@ || lang == "toml"@
}

fn reference_rows_of(file_path: &str, refs: &[ReferenceEntry]) -> (r: Vec<Reference>)
    ensures
        r@.map_values(|x: Reference| reference_row(x)) == reference_rows(
            file_path@,
            refs@.map_values(|e: ReferenceEntry| reference_view(e)),
        ),
{
    let mut r: Vec<Reference> = Vec::new();
    let mut i: usize = 0;
    while i < refs.len()
        invariant
            i <= refs@.len(),
            r@.len() == i,
            forall|k: int| 0 <= k < i ==> reference_row(#[trigger] r@[k]) == (file_path@, opt_view(refs@[k].caller), refs@[k].name@, refs@[k].kind@, refs@[k].line[0]),
        decreases refs@.len() - i,
    {
        let e = &refs[i];
        r.push(Reference {
            file: String::from_str(file_path),
            caller: crate::entity::copy_opt(&e.caller),
            name: e.name.clone(),
            ref_kind: e.kind.clone(),
            line: e.line[0],
        });
        i += 1;
    }
    assert(r@.map_values(|x: Reference| reference_row(x)) =~= reference_rows(
        file_path@,
        refs@.map_values(|e: ReferenceEntry| reference_view(e)),
    ));
    r
}

/// Index order of two locations: by file, then by line.
pub open spec fn loc_le(f1: Seq<char>, l1: u32, f2: Seq<char>, l2: u32) -> bool {
    seq_lt(f1, f2) || (f1 == f2 && l1 <= l2)
}

/// `x` inserted after the last entity not after it.
pub open spec fn insert_entity(s: Seq<Entity>, x: Entity) -> Seq<Entity>
    decreases s.len(),
{
    if s.len() == 0 {
        seq![x]
    } else if loc_le(s.last().file@, s.last().line_start, x.file@, x.line_start) {
        s.push(x)
    } else {
        insert_entity(s.drop_last(), x).push(s.last())
    }
}

/// Stable sort of entities by file, then first line.
pub open spec fn sort_entities_spec(s: Seq<Entity>) -> Seq<Entity>
    decreases s.len(),
{
    if s.len() == 0 {
        s
    } else {
        insert_entity(sort_entities_spec(s.drop_last()), s.last())
    }
}

/// `x` inserted after the last reference not after it.
pub open spec fn insert_reference(s: Seq<Reference>, x: Reference) -> Seq<Reference>
    decreases s.len(),
{
    if s.len() == 0 {
        seq![x]
    } else if loc_le(s.last().file@, s.last().line, x.file@, x.line) {
        s.push(x)
    } else {
        insert_reference(s.drop_last(), x).push(s.last())
    }
}

/// Stable sort of references by file, then line.
pub open spec fn sort_references_spec(s: Seq<Reference>) -> Seq<Reference>
    decreases s.len(),
{
    if s.len() == 0 {
        s
    } else {
        insert_reference(sort_references_spec(s.drop_last()), s.last())
    }
}

fn loc_le_exec(f1: &String, l1: u32, f2: &String, l2: u32) -> (r: bool)
    ensures
        r == loc_le(f1@, l1, f2@, l2),
{
    let a = chars_vec(f1.as_str());
    let b = chars_vec(f2.as_str());
    crate::text::chars_lt(&a, &b) || (str_eq(f1.as_str(), f2.as_str()) && l1 <= l2)
}

proof fn lemma_insert_entity(s: Seq<Entity>, x: Entity, k: int)
    requires
        0 <= k <= s.len(),
        forall|j: int| k <= j < s.len() ==> !loc_le(#[trigger] s[j].file@, s[j].line_start, x.file@, x.line_start),
        k == 0 || loc_le(s[k - 1].file@, s[k - 1].line_start, x.file@, x.line_start),
    ensures
        insert_entity(s, x) == s.insert(k, x),
    decreases s.len(),
{
    if s.len() == 0 {
        assert(s.insert(0, x) =~= seq![x]);
    } else if loc_le(s.last().file@, s.last().line_start, x.file@, x.line_start) {
        assert(k == s.len());
        assert(s.insert(k, x) =~= s.push(x));
    } else {
        lemma_insert_entity(s.drop_last(), x, k);
        assert(s.insert(k, x) =~= s.drop_last().insert(k, x).push(s.last()));
    }
}

proof fn lemma_insert_reference(s: Seq<Reference>, x: Reference, k: int)
    requires
        0 <= k <= s.len(),
        forall|j: int| k <= j < s.len() ==> !loc_le(#[trigger] s[j].file@, s[j].line, x.file@, x.line),
        k == 0 || loc_le(s[k - 1].file@, s[k - 1].line, x.file@, x.line),
    ensures
        insert_reference(s, x) == s.insert(k, x),
    decreases s.len(),
{
    if s.len() == 0 {
        assert(s.insert(0, x) =~= seq![x]);
    } else if loc_le(s.last().file@, s.last().line, x.file@, x.line) {
        assert(k == s.len());
        assert(s.insert(k, x) =~= s.push(x));
    } else {
        lemma_insert_reference(s.drop_last(), x, k);
        assert(s.insert(k, x) =~= s.drop_last().insert(k, x).push(s.last()));
    }
}

/// Entities in index order: by file, then first line; equal locations
/// keep their order.
pub fn sort_entities(es: Vec<Entity>) -> (r: Vec<Entity>)
    ensures
        r@ == sort_entities_spec(es@),
{
    let ghost all = es@;
    let total = es.len();
    let mut rest = es;
    let mut sorted: Vec<Entity> = Vec::new();
    let mut i: usize = 0;
    while rest.len() > 0
        invariant
            i <= all.len(),
            rest@ == all.skip(i as int),
            rest@.len() == all.len() - i,
            all.len() == total,
            sorted@ == sort_entities_spec(all.take(i as int)),
        decreases rest@.len(),
    {
        assert(all.skip(i as int)[0] == all[i as int]);
        let x = rest.remove(0);
        assert(rest@ =~= all.skip(i + 1));
        assert(all.take(i + 1).drop_last() == all.take(i as int));
        let mut k = sorted.len();
        while k > 0 && !loc_le_exec(&sorted[k - 1].file, sorted[k - 1].line_start, &x.file, x.line_start)
            invariant
                k <= sorted@.len(),
                forall|j: int| k <= j < sorted@.len() ==> !loc_le(#[trigger] sorted@[j].file@, sorted@[j].line_start, x.file@, x.line_start),
            decreases k,
        {
            k -= 1;
        }
        proof {
            lemma_insert_entity(sorted@, x, k as int);
        }
        sorted.insert(k, x);
        i += 1;
    }
    assert(all.take(i as int) == all);
    sorted
}

/// References in index order: by file, then line; equal locations keep
/// their order.
pub fn sort_references(rs: Vec<Reference>) -> (r: Vec<Reference>)
    ensures
        r@ == sort_references_spec(rs@),
{
    let ghost all = rs@;
    let total = rs.len();
    let mut rest = rs;
    let mut sorted: Vec<Reference> = Vec::new();
    let mut i: usize = 0;
    while rest.len() > 0
        invariant
            i <= all.len(),
            rest@ == all.skip(i as int),
            rest@.len() == all.len() - i,
            all.len() == total,
            sorted@ == sort_references_spec(all.take(i as int)),
        decreases rest@.len(),
    {
        assert(all.skip(i as int)[0] == all[i as int]);
        let x = rest.remove(0);
        assert(rest@ =~= all.skip(i + 1));
        assert(all.take(i + 1).drop_last() == all.take(i as int));
        let mut k = sorted.len();
        while k > 0 && !loc_le_exec(&sorted[k - 1].file, sorted[k - 1].line, &x.file, x.line)
            invariant
                k <= sorted@.len(),
                forall|j: int| k <= j < sorted@.len() ==> !loc_le(#[trigger] sorted@[j].file@, sorted@[j].line, x.file@, x.line),
            decreases k,
        {
            k -= 1;
        }
        proof {
            lemma_insert_reference(sorted@, x, k as int);
        }
        sorted.insert(k, x);
        i += 1;
    }
    assert(all.take(i as int) == all);
    sorted
}

// ---------------------------------------------------------------------
// Indexing a set of files
// ---------------------------------------------------------------------

/// A reference row (see `reference_row`).
pub type RefRow = (Seq<char>, Option<Seq<char>>, Seq<char>, Seq<char>, u32);

/// `std::str::from_utf8`: the text `bytes` encode, `None` when they are
/// not valid UTF-8. Claimed: `Some` exactly for valid UTF-8, whose text
/// encodes back to the same bytes.
#[verifier::external_body]
pub(crate) fn utf8_text(bytes: &[u8]) -> (r: Option<String>)
    ensures
        r is Some <==> vstd::utf8::valid_utf8(bytes@),
        r matches Some(s) ==> vstd::utf8::encode_utf8(s@) == bytes@,
{
    match std::str::from_utf8(bytes) {
        Ok(s) => Some(s.to_string()),
        Err(_) => None,
    }
}

/// The extension of a path as `Path::extension` reads it: the part of the
/// file name after its last `.`, empty when the name has no `.` past its
/// first character.
pub open spec fn file_extension(path: Seq<char>) -> Seq<char> {
    let name = after_last(path, '/');
    let e = after_last(name, '.');
    if e.len() + 1 < name.len() {
        e
    } else {
        Seq::empty()
    }
}

/// The extension of `path` (see `file_extension`).
pub fn extension_of(path: &str) -> (r: String)
    ensures
        r@ == file_extension(path@),
{
    let name = crate::text::tail_after_last(&chars_vec(path), '/');
    let e = crate::text::tail_after_last(&name, '.');
    if e.len() < name.len() && name.len() - e.len() > 1 {
        string_from(&e)
    } else {
        String::new()
    }
}

/// The reference rows a freshly parsed file gives (its entities are
/// `fresh_entities`): none for Markdown; `None` (skipped) for JSON, YAML
/// and TOML, whose indexers this library does not hold; else the parser's
/// references (when references are indexed), `None` when the parser
/// fails.
pub open spec fn fresh_rows(bytes: Seq<u8>, path: Seq<char>, lang: Seq<char>, include_refs: bool) -> Option<Seq<RefRow>> {
    if lang == "markdown"@ {
        Some(Seq::empty())
    } else if lang == "json"@ || lang == "yaml"@ || lang == "toml"@ {
        None
    } else {
        match parsed_file(bytes, lang, path) {
            Some(t) => Some(if include_refs { reference_rows(path, t.2) } else { Seq::empty() }),
            None => None,
        }
    }
}

/// The entities of a freshly parsed file: those of its Markdown blocks
/// for Markdown (see `md_entities`); for another language, one per symbol
/// the parser finds (see `symbol_entity`), none when it fails.
pub open spec fn fresh_entities(bytes: Seq<u8>, path: Seq<char>, lang: Seq<char>) -> Seq<Entity> {
    if lang == "markdown"@ {
        choose|es: Seq<Entity>| crate::markdown_index::md_entities(es, vstd::utf8::decode_utf8(bytes), path)
    } else {
        match parsed_file(bytes, lang, path) {
            Some(t) => choose|es: Seq<Entity>| symbol_entities(es, vstd::utf8::decode_utf8(bytes), path, t.0),
            None => Seq::empty(),
        }
    }
}

/// What indexing one file gives: its previous rows when the previous
/// cache holds its content hash; else, for a supported extension and
/// UTF-8 contents, the rows of parsing it; `None` when it is skipped.
pub open spec fn file_outcome(
    prev_cache: Option<Cache>,
    prev_entities: Seq<Entity>,
    prev_refs: Seq<Reference>,
    include_refs: bool,
    path: Seq<char>,
    bytes: Seq<u8>,
) -> Option<(Seq<Entity>, Seq<RefRow>)> {
    if prev_cache matches Some(c) && c.lookup(path) == Some(blake3_hex(bytes)) {
        Some((
            entities_in(prev_entities, path),
            (if include_refs { references_in(prev_refs, path) } else { Seq::empty() }).map_values(
                |r: Reference| reference_row(r),
            ),
        ))
    } else {
        match index_language_of(file_extension(path)) {
            Some(lang) => if vstd::utf8::valid_utf8(bytes) {
                match fresh_rows(bytes, path, lang, include_refs) {
                    Some(rs) => Some((fresh_entities(bytes, path, lang), rs)),
                    None => None,
                }
            } else {
                None
            },
            None => None,
        }
    }
}

/// The outcome of the `k`-th file.
pub open spec fn outcome_at(
    files: Seq<(String, Vec<u8>)>,
    k: int,
    prev_cache: Option<Cache>,
    prev_entities: Seq<Entity>,
    prev_refs: Seq<Reference>,
    include_refs: bool,
) -> Option<(Seq<Entity>, Seq<RefRow>)> {
    file_outcome(prev_cache, prev_entities, prev_refs, include_refs, files[k].0@, files[k].1@)
}

/// The rows of the first `n` files, in file order, before sorting.
pub open spec fn collected_rows(
    files: Seq<(String, Vec<u8>)>,
    n: int,
    prev_cache: Option<Cache>,
    prev_entities: Seq<Entity>,
    prev_refs: Seq<Reference>,
    include_refs: bool,
) -> (Seq<Entity>, Seq<RefRow>)
    decreases n,
{
    if n <= 0 {
        (Seq::empty(), Seq::empty())
    } else {
        let acc = collected_rows(files, n - 1, prev_cache, prev_entities, prev_refs, include_refs);
        match outcome_at(files, n - 1, prev_cache, prev_entities, prev_refs, include_refs) {
            Some(o) => (acc.0 + o.0, acc.1 + o.1),
            None => acc,
        }
    }
}

/// The hash the new cache records for `path` after the first `n` files:
/// that of the last of them at `path` that was indexed (reused or parsed).
pub open spec fn cached_after(
    files: Seq<(String, Vec<u8>)>,
    n: int,
    prev_cache: Option<Cache>,
    prev_entities: Seq<Entity>,
    prev_refs: Seq<Reference>,
    include_refs: bool,
    path: Seq<char>,
) -> Option<Seq<char>>
    decreases n,
{
    if n <= 0 {
        None
    } else if files[n - 1].0@ == path && outcome_at(files, n - 1, prev_cache, prev_entities, prev_refs, include_refs) is Some {
        Some(blake3_hex(files[n - 1].1@))
    } else {
        cached_after(files, n - 1, prev_cache, prev_entities, prev_refs, include_refs, path)
    }
}

/// `x` inserted after the last row not after it.
pub open spec fn insert_ref_row(s: Seq<RefRow>, x: RefRow) -> Seq<RefRow>
    decreases s.len(),
{
    if s.len() == 0 {
        seq![x]
    } else if loc_le(s.last().0, s.last().4, x.0, x.4) {
        s.push(x)
    } else {
        insert_ref_row(s.drop_last(), x).push(s.last())
    }
}

/// Stable sort of reference rows by file, then line.
pub open spec fn sort_ref_rows(s: Seq<RefRow>) -> Seq<RefRow>
    decreases s.len(),
{
    if s.len() == 0 {
        s
    } else {
        insert_ref_row(sort_ref_rows(s.drop_last()), s.last())
    }
}

proof fn lemma_insert_rows(s: Seq<Reference>, x: Reference)
    ensures
        insert_reference(s, x).map_values(|r: Reference| reference_row(r)) == insert_ref_row(
            s.map_values(|r: Reference| reference_row(r)),
            reference_row(x),
        ),
    decreases s.len(),
{
    let rows = s.map_values(|r: Reference| reference_row(r));
    if s.len() > 0 {
        assert(rows.drop_last() == s.drop_last().map_values(|r: Reference| reference_row(r)));
        assert(rows.last() == reference_row(s.last()));
        lemma_insert_rows(s.drop_last(), x);
        if loc_le(s.last().file@, s.last().line, x.file@, x.line) {
            assert(s.push(x).map_values(|r: Reference| reference_row(r)) == rows.push(reference_row(x)));
        } else {
            let t = insert_reference(s.drop_last(), x);
            assert(t.push(s.last()).map_values(|r: Reference| reference_row(r)) == t.map_values(
                |r: Reference| reference_row(r),
            ).push(reference_row(s.last())));
        }
    } else {
        assert(seq![x].map_values(|r: Reference| reference_row(r)) == seq![reference_row(x)]);
    }
}

/// Sorting references and taking their rows is sorting their rows.
pub proof fn lemma_sort_rows(s: Seq<Reference>)
    ensures
        sort_references_spec(s).map_values(|r: Reference| reference_row(r)) == sort_ref_rows(
            s.map_values(|r: Reference| reference_row(r)),
        ),
    decreases s.len(),
{
    let rows = s.map_values(|r: Reference| reference_row(r));
    if s.len() > 0 {
        assert(rows.drop_last() == s.drop_last().map_values(|r: Reference| reference_row(r)));
        assert(rows.last() == reference_row(s.last()));
        lemma_sort_rows(s.drop_last());
        lemma_insert_rows(sort_references_spec(s.drop_last()), s.last());
    } else {
        assert(rows =~= Seq::<RefRow>::empty());
    }
}

proof fn lemma_copies_concat(a1: Seq<Entity>, b1: Seq<Entity>, a2: Seq<Entity>, b2: Seq<Entity>)
    requires
        copies_of(a1, b1),
        copies_of(a2, b2),
    ensures
        copies_of(a1 + a2, b1 + b2),
{
    assert forall|k: int| 0 <= k < (b1 + b2).len() implies same_entity(#[trigger] (a1 + a2)[k], (b1 + b2)[k]) by {
        if k < b1.len() {
            assert(same_entity(a1[k], b1[k]));
        } else {
            assert(same_entity(a2[k - b1.len()], b2[k - b1.len()]));
        }
    }
}

proof fn lemma_insert_entity_copies(s1: Seq<Entity>, s2: Seq<Entity>, x1: Entity, x2: Entity)
    requires
        copies_of(s1, s2),
        same_entity(x1, x2),
    ensures
        copies_of(insert_entity(s1, x1), insert_entity(s2, x2)),
    decreases s1.len(),
{
    if s1.len() > 0 {
        assert(same_entity(s1[s1.len() - 1], s2[s2.len() - 1]));
        assert(copies_of(s1.drop_last(), s2.drop_last())) by {
            assert forall|k: int| 0 <= k < s2.drop_last().len() implies same_entity(
                #[trigger] s1.drop_last()[k],
                s2.drop_last()[k],
            ) by {
                assert(same_entity(s1[k], s2[k]));
            }
        }
        lemma_insert_entity_copies(s1.drop_last(), s2.drop_last(), x1, x2);
        if loc_le(s1.last().file@, s1.last().line_start, x1.file@, x1.line_start) {
            lemma_copies_concat(s1, s2, seq![x1], seq![x2]);
            assert(s1 + seq![x1] == s1.push(x1));
            assert(s2 + seq![x2] == s2.push(x2));
        } else {
            let t1 = insert_entity(s1.drop_last(), x1);
            let t2 = insert_entity(s2.drop_last(), x2);
            lemma_copies_concat(t1, t2, seq![s1.last()], seq![s2.last()]);
            assert(t1 + seq![s1.last()] == t1.push(s1.last()));
            assert(t2 + seq![s2.last()] == t2.push(s2.last()));
        }
    } else {
        assert(same_entity(seq![x1][0], seq![x2][0]));
    }
}

/// Sorting copies gives copies of the sorted entities.
pub proof fn lemma_sort_entities_copies(s1: Seq<Entity>, s2: Seq<Entity>)
    requires
        copies_of(s1, s2),
    ensures
        copies_of(sort_entities_spec(s1), sort_entities_spec(s2)),
    decreases s1.len(),
{
    if s1.len() > 0 {
        assert(copies_of(s1.drop_last(), s2.drop_last())) by {
            assert forall|k: int| 0 <= k < s2.drop_last().len() implies same_entity(
                #[trigger] s1.drop_last()[k],
                s2.drop_last()[k],
            ) by {
                assert(same_entity(s1[k], s2[k]));
            }
        }
        assert(same_entity(s1[s1.len() - 1], s2[s2.len() - 1]));
        lemma_sort_entities_copies(s1.drop_last(), s2.drop_last());
        lemma_insert_entity_copies(
            sort_entities_spec(s1.drop_last()),
            sort_entities_spec(s2.drop_last()),
            s1.last(),
            s2.last(),
        );
    }
}

/// What indexing one file gives, as values (see `file_outcome`).
fn index_one(
    prev_cache: &Option<Cache>,
    prev_entities: &[Entity],
    prev_refs: &[Reference],
    include_refs: bool,
    path: &str,
    bytes: &[u8],
    hash: &str,
) -> (r: Option<(Vec<Entity>, Vec<Reference>)>)
    requires
        hash@ == blake3_hex(bytes@),
        bytes@.len() < 0xFFFF_FFFE,
    ensures
        match file_outcome(*prev_cache, prev_entities@, prev_refs@, include_refs, path@, bytes@) {
            Some(o) => r matches Some(p) && copies_of(p.0@, o.0) && p.1@.map_values(
                |x: Reference| reference_row(x),
            ) == o.1,
            None => r is None,
        },
{
    if let Some((es, rs)) = reuse_unchanged(prev_cache, prev_entities, prev_refs, include_refs, path, hash) {
        return Some((es, rs));
    }
    let ext = extension_of(path);
    let lang = match index_language(ext.as_str()) {
        Some(l) => l,
        None => return None,
    };
    let text = match utf8_text(bytes) {
        Some(t) => t,
        None => return None,
    };
    let ts: &str = text.as_str();
    proof {
        reveal_strlit("markdown");
        reveal_strlit("json");
        reveal_strlit("yaml");
        reveal_strlit("toml");
        assert(ts.spec_bytes() == bytes@);
        crate::markdown_index::lemma_encode_len(ts@);
    }
    if str_eq(lang, "markdown") {
        match crate::markdown_index::parse_markdown_file(ts, path) {
            Ok((es, rs)) => {
                proof {
                    vstd::utf8::encode_utf8_decode_utf8(ts@);
                    let src = vstd::utf8::decode_utf8(bytes@);
                    assert(crate::markdown_index::md_entities(es@, src, path@));
                    let chosen = fresh_entities(bytes@, path@, lang@);
                    assert(crate::markdown_index::md_entities(chosen, src, path@));
                    crate::markdown_index::lemma_md_entities_unique(es@, chosen, src, path@);
                }
                assert(rs@.map_values(|x: Reference| reference_row(x)) =~= Seq::<RefRow>::empty());
                Some((es, rs))
            },
            Err(_) => None,
        }
    } else if str_eq(lang, "json") || str_eq(lang, "yaml") || str_eq(lang, "toml") {
        None
    } else {
        assert(!is_data_language(lang@));
        match parse_single_file(ts, path, lang) {
            Ok((es, rows)) => {
                proof {
                    vstd::utf8::encode_utf8_decode_utf8(ts@);
                    let src = vstd::utf8::decode_utf8(bytes@);
                    let t = parsed_file(bytes@, lang@, path@).unwrap();
                    assert(symbol_entities(es@, src, path@, t.0));
                    let chosen = fresh_entities(bytes@, path@, lang@);
                    assert(symbol_entities(chosen, src, path@, t.0));
                    lemma_symbol_entities_unique(es@, chosen, src, path@, t.0);
                }
                if include_refs {
                    Some((es, rows))
                } else {
                    let none: Vec<Reference> = Vec::new();
                    assert(none@.map_values(|x: Reference| reference_row(x)) =~= Seq::<RefRow>::empty());
                    Some((es, none))
                }
            },
            Err(_) => None,
        }
    }
}

proof fn lemma_loc_le_trans(f1: Seq<char>, l1: u32, f2: Seq<char>, l2: u32, f3: Seq<char>, l3: u32)
    requires
        loc_le(f1, l1, f2, l2),
        loc_le(f2, l2, f3, l3),
    ensures
        loc_le(f1, l1, f3, l3),
{
    if seq_lt(f1, f2) && seq_lt(f2, f3) {
        crate::text::lemma_seq_lt_transitive(f1, f2, f3);
    }
}

proof fn lemma_loc_le_flip(f1: Seq<char>, l1: u32, f2: Seq<char>, l2: u32)
    requires
        !loc_le(f1, l1, f2, l2),
    ensures
        loc_le(f2, l2, f1, l1),
{
    crate::text::lemma_seq_lt_total(f1, f2);
}

/// Entities in index order: by file, then first line.
pub open spec fn entities_ordered(s: Seq<Entity>) -> bool {
    forall|i: int, j: int|
        0 <= i < j < s.len() ==> loc_le(#[trigger] s[i].file@, s[i].line_start, #[trigger] s[j].file@, s[j].line_start)
}

/// Reference rows in index order: by file, then line.
pub open spec fn rows_ordered(s: Seq<RefRow>) -> bool {
    forall|i: int, j: int| 0 <= i < j < s.len() ==> loc_le(#[trigger] s[i].0, s[i].4, #[trigger] s[j].0, s[j].4)
}

proof fn lemma_insert_entity_bounded(s: Seq<Entity>, x: Entity, f: Seq<char>, l: u32)
    requires
        forall|k: int| 0 <= k < s.len() ==> loc_le(#[trigger] s[k].file@, s[k].line_start, f, l),
        loc_le(x.file@, x.line_start, f, l),
    ensures
        forall|k: int|
            0 <= k < insert_entity(s, x).len() ==> loc_le(#[trigger] insert_entity(s, x)[k].file@, insert_entity(s, x)[k].line_start, f, l),
    decreases s.len(),
{
    if s.len() > 0 && !loc_le(s.last().file@, s.last().line_start, x.file@, x.line_start) {
        lemma_insert_entity_bounded(s.drop_last(), x, f, l);
        let t = insert_entity(s.drop_last(), x);
        assert(insert_entity(s, x) == t.push(s.last()));
        assert forall|k: int| 0 <= k < t.push(s.last()).len() implies loc_le(
            #[trigger] t.push(s.last())[k].file@,
            t.push(s.last())[k].line_start,
            f,
            l,
        ) by {
            if k < t.len() {
                assert(t.push(s.last())[k] == t[k]);
            }
        }
    } else if s.len() > 0 {
        assert forall|k: int| 0 <= k < s.push(x).len() implies loc_le(#[trigger] s.push(x)[k].file@, s.push(x)[k].line_start, f, l) by {
            if k < s.len() {
                assert(s.push(x)[k] == s[k]);
            }
        }
    }
}

proof fn lemma_insert_entity_ordered(s: Seq<Entity>, x: Entity)
    requires
        entities_ordered(s),
    ensures
        entities_ordered(insert_entity(s, x)),
    decreases s.len(),
{
    if s.len() > 0 {
        let last = s.last();
        if loc_le(last.file@, last.line_start, x.file@, x.line_start) {
            let r = s.push(x);
            assert forall|i: int, j: int| 0 <= i < j < r.len() implies loc_le(
                #[trigger] r[i].file@,
                r[i].line_start,
                #[trigger] r[j].file@,
                r[j].line_start,
            ) by {
                if j == s.len() as int {
                    if i < s.len() - 1 {
                        lemma_loc_le_trans(
                            s[i].file@, s[i].line_start, last.file@, last.line_start, x.file@, x.line_start,
                        );
                    }
                    assert(r[i] == s[i]);
                } else {
                    assert(r[i] == s[i]);
                    assert(r[j] == s[j]);
                }
            }
        } else {
            let d = s.drop_last();
            assert(entities_ordered(d)) by {
                assert forall|i: int, j: int| 0 <= i < j < d.len() implies loc_le(
                    #[trigger] d[i].file@,
                    d[i].line_start,
                    #[trigger] d[j].file@,
                    d[j].line_start,
                ) by {
                    assert(d[i] == s[i] && d[j] == s[j]);
                }
            }
            lemma_insert_entity_ordered(d, x);
            lemma_loc_le_flip(last.file@, last.line_start, x.file@, x.line_start);
            assert forall|k: int| 0 <= k < d.len() implies loc_le(#[trigger] d[k].file@, d[k].line_start, last.file@, last.line_start) by {
                assert(d[k] == s[k]);
                assert(s[s.len() - 1] == last);
            }
            lemma_insert_entity_bounded(d, x, last.file@, last.line_start);
            let t = insert_entity(d, x);
            let r = t.push(last);
            assert forall|i: int, j: int| 0 <= i < j < r.len() implies loc_le(
                #[trigger] r[i].file@,
                r[i].line_start,
                #[trigger] r[j].file@,
                r[j].line_start,
            ) by {
                assert(r[i] == t[i]);
                if j < t.len() {
                    assert(r[j] == t[j]);
                }
            }
        }
    }
}

/// Sorting entities puts them in index order.
pub proof fn lemma_sort_entities_ordered(s: Seq<Entity>)
    ensures
        entities_ordered(sort_entities_spec(s)),
    decreases s.len(),
{
    if s.len() > 0 {
        lemma_sort_entities_ordered(s.drop_last());
        lemma_insert_entity_ordered(sort_entities_spec(s.drop_last()), s.last());
    }
}

proof fn lemma_insert_row_bounded(s: Seq<RefRow>, x: RefRow, f: Seq<char>, l: u32)
    requires
        forall|k: int| 0 <= k < s.len() ==> loc_le(#[trigger] s[k].0, s[k].4, f, l),
        loc_le(x.0, x.4, f, l),
    ensures
        forall|k: int| 0 <= k < insert_ref_row(s, x).len() ==> loc_le(#[trigger] insert_ref_row(s, x)[k].0, insert_ref_row(s, x)[k].4, f, l),
    decreases s.len(),
{
    if s.len() > 0 && !loc_le(s.last().0, s.last().4, x.0, x.4) {
        lemma_insert_row_bounded(s.drop_last(), x, f, l);
        let t = insert_ref_row(s.drop_last(), x);
        assert(insert_ref_row(s, x) == t.push(s.last()));
        assert forall|k: int| 0 <= k < t.push(s.last()).len() implies loc_le(
            #[trigger] t.push(s.last())[k].0,
            t.push(s.last())[k].4,
            f,
            l,
        ) by {
            if k < t.len() {
                assert(t.push(s.last())[k] == t[k]);
            }
        }
    } else if s.len() > 0 {
        assert forall|k: int| 0 <= k < s.push(x).len() implies loc_le(#[trigger] s.push(x)[k].0, s.push(x)[k].4, f, l) by {
            if k < s.len() {
                assert(s.push(x)[k] == s[k]);
            }
        }
    }
}

proof fn lemma_insert_row_ordered(s: Seq<RefRow>, x: RefRow)
    requires
        rows_ordered(s),
    ensures
        rows_ordered(insert_ref_row(s, x)),
    decreases s.len(),
{
    if s.len() > 0 {
        let last = s.last();
        if loc_le(last.0, last.4, x.0, x.4) {
            let r = s.push(x);
            assert forall|i: int, j: int| 0 <= i < j < r.len() implies loc_le(#[trigger] r[i].0, r[i].4, #[trigger] r[j].0, r[j].4) by {
                if j == s.len() as int {
                    if i < s.len() - 1 {
                        lemma_loc_le_trans(s[i].0, s[i].4, last.0, last.4, x.0, x.4);
                    }
                    assert(r[i] == s[i]);
                } else {
                    assert(r[i] == s[i]);
                    assert(r[j] == s[j]);
                }
            }
        } else {
            let d = s.drop_last();
            assert(rows_ordered(d)) by {
                assert forall|i: int, j: int| 0 <= i < j < d.len() implies loc_le(#[trigger] d[i].0, d[i].4, #[trigger] d[j].0, d[j].4) by {
                    assert(d[i] == s[i] && d[j] == s[j]);
                }
            }
            lemma_insert_row_ordered(d, x);
            lemma_loc_le_flip(last.0, last.4, x.0, x.4);
            assert forall|k: int| 0 <= k < d.len() implies loc_le(#[trigger] d[k].0, d[k].4, last.0, last.4) by {
                assert(d[k] == s[k]);
                assert(s[s.len() - 1] == last);
            }
            lemma_insert_row_bounded(d, x, last.0, last.4);
            let t = insert_ref_row(d, x);
            let r = t.push(last);
            assert forall|i: int, j: int| 0 <= i < j < r.len() implies loc_le(#[trigger] r[i].0, r[i].4, #[trigger] r[j].0, r[j].4) by {
                assert(r[i] == t[i]);
                if j < t.len() {
                    assert(r[j] == t[j]);
                }
            }
        }
    }
}

/// Sorting reference rows puts them in index order.
pub proof fn lemma_sort_rows_ordered(s: Seq<RefRow>)
    ensures
        rows_ordered(sort_ref_rows(s)),
    decreases s.len(),
{
    if s.len() > 0 {
        lemma_sort_rows_ordered(s.drop_last());
        lemma_insert_row_ordered(sort_ref_rows(s.drop_last()), s.last());
    }
}

/// Without references asked for, no file contributes a reference row.
pub proof fn lemma_no_rows_without_refs(
    files: Seq<(String, Vec<u8>)>,
    n: int,
    prev_cache: Option<Cache>,
    prev_entities: Seq<Entity>,
    prev_refs: Seq<Reference>,
)
    ensures
        collected_rows(files, n, prev_cache, prev_entities, prev_refs, false).1.len() == 0,
    decreases n,
{
    if n > 0 {
        lemma_no_rows_without_refs(files, n - 1, prev_cache, prev_entities, prev_refs);
        let acc = collected_rows(files, n - 1, prev_cache, prev_entities, prev_refs, false);
        match outcome_at(files, n - 1, prev_cache, prev_entities, prev_refs, false) {
            Some(o) => {
                assert(Seq::<Reference>::empty().map_values(|r: Reference| reference_row(r)).len() == 0);
                assert(o.1.len() == 0);
                assert((acc.1 + o.1).len() == 0);
            },
            None => {},
        }
    }
}

/// Index a set of files `(relative path, contents)` incrementally: a file
/// whose content hash the previous cache holds keeps its previous rows; any
/// other file of a supported extension with UTF-8 contents is parsed (see
/// `file_outcome`); the rest are skipped. The entities and references come
/// out in index order (by file, then line; see `collected_rows`), without
/// references when none are asked for, and the new cache records the
/// content hash of each file indexed.
pub fn index_files(
    files: &[(String, Vec<u8>)],
    prev_cache: &Option<Cache>,
    prev_entities: &[Entity],
    prev_refs: &[Reference],
    include_refs: bool,
) -> (r: (Vec<Entity>, Vec<Reference>, Cache))
    requires
        prev_cache matches Some(c) ==> c.wf(),
        forall|k: int| 0 <= k < files@.len() ==> (#[trigger] files@[k]).1@.len() < 0xFFFF_FFFE,
    ensures
        r.2.wf(),
        r.2.version@ == "1"@,
        forall|p: Seq<char>| #[trigger] r.2.lookup(p) == cached_after(
            files@, files@.len() as int, *prev_cache, prev_entities@, prev_refs@, include_refs, p,
        ),
        copies_of(
            r.0@,
            sort_entities_spec(
                collected_rows(files@, files@.len() as int, *prev_cache, prev_entities@, prev_refs@, include_refs).0,
            ),
        ),
        r.1@.map_values(|x: Reference| reference_row(x)) == sort_ref_rows(
            collected_rows(files@, files@.len() as int, *prev_cache, prev_entities@, prev_refs@, include_refs).1,
        ),
        forall|i: int, j: int|
            0 <= i < j < r.0@.len() ==> loc_le(
                #[trigger] r.0@[i].file@,
                r.0@[i].line_start,
                #[trigger] r.0@[j].file@,
                r.0@[j].line_start,
            ),
        forall|i: int, j: int|
            0 <= i < j < r.1@.len() ==> loc_le(#[trigger] r.1@[i].file@, r.1@[i].line, #[trigger] r.1@[j].file@, r.1@[j].line),
        !include_refs ==> r.1@.len() == 0,
{
    let ghost pc = *prev_cache;
    let ghost pe = prev_entities@;
    let ghost pr = prev_refs@;
    let mut all_entities: Vec<Entity> = Vec::new();
    let mut all_refs: Vec<Reference> = Vec::new();
    let mut cache = Cache::new();
    let mut i: usize = 0;
    while i < files.len()
        invariant
            i <= files@.len(),
            pc == *prev_cache,
            pe == prev_entities@,
            pr == prev_refs@,
            forall|k: int| 0 <= k < files@.len() ==> (#[trigger] files@[k]).1@.len() < 0xFFFF_FFFE,
            cache.wf(),
            cache.version@ == "1"@,
            forall|p: Seq<char>| #[trigger] cache.lookup(p) == cached_after(files@, i as int, pc, pe, pr, include_refs, p),
            copies_of(all_entities@, collected_rows(files@, i as int, pc, pe, pr, include_refs).0),
            all_refs@.map_values(|x: Reference| reference_row(x)) == collected_rows(files@, i as int, pc, pe, pr, include_refs).1,
        decreases files@.len() - i,
    {
        let path = &files[i].0;
        let bytes = files[i].1.as_slice();
        assert(files@[i as int].1@.len() < 0xFFFF_FFFE);
        let hash = hash_file_contents(bytes);
        let ghost acc = collected_rows(files@, i as int, pc, pe, pr, include_refs);
        let ghost before_es = all_entities@;
        let ghost before_rs = all_refs@;
        let ghost before_cache = cache;
        match index_one(prev_cache, prev_entities, prev_refs, include_refs, path.as_str(), bytes, hash.as_str()) {
            Some((es, rs)) => {
                let ghost o = outcome_at(files@, i as int, pc, pe, pr, include_refs).unwrap();
                let mut es = es;
                let mut rs = rs;
                let ghost es0 = es@;
                let ghost rs0 = rs@;
                all_entities.append(&mut es);
                all_refs.append(&mut rs);
                proof {
                    lemma_copies_concat(before_es, acc.0, es0, o.0);
                    assert(all_refs@.map_values(|x: Reference| reference_row(x)) =~= before_rs.map_values(
                        |x: Reference| reference_row(x),
                    ) + rs0.map_values(|x: Reference| reference_row(x)));
                }
                cache.insert(path.clone(), hash);
            },
            None => {},
        }
        i += 1;
    }
    let ghost ae = all_entities@;
    let ghost ar = all_refs@;
    let sorted_entities = sort_entities(all_entities);
    let sorted_refs = sort_references(all_refs);
    proof {
        let c = collected_rows(files@, files@.len() as int, pc, pe, pr, include_refs);
        lemma_sort_entities_copies(ae, c.0);
        lemma_sort_rows(ar);
        let se = sort_entities_spec(c.0);
        lemma_sort_entities_ordered(c.0);
        assert forall|i: int, j: int| 0 <= i < j < sorted_entities@.len() implies loc_le(
            #[trigger] sorted_entities@[i].file@,
            sorted_entities@[i].line_start,
            #[trigger] sorted_entities@[j].file@,
            sorted_entities@[j].line_start,
        ) by {
            assert(same_entity(sorted_entities@[i], se[i]));
            assert(same_entity(sorted_entities@[j], se[j]));
        }
        let rows = sorted_refs@.map_values(|x: Reference| reference_row(x));
        lemma_sort_rows_ordered(c.1);
        assert(rows == sort_ref_rows(c.1));
        assert forall|i: int, j: int| 0 <= i < j < sorted_refs@.len() implies loc_le(
            #[trigger] sorted_refs@[i].file@,
            sorted_refs@[i].line,
            #[trigger] sorted_refs@[j].file@,
            sorted_refs@[j].line,
        ) by {
            assert(rows[i] == reference_row(sorted_refs@[i]));
            assert(rows[j] == reference_row(sorted_refs@[j]));
            assert(loc_le(rows[i].0, rows[i].4, rows[j].0, rows[j].4));
        }
        if !include_refs {
            lemma_no_rows_without_refs(files@, files@.len() as int, pc, pe, pr);
            assert(rows.len() == 0);
        }
    }
    (sorted_entities, sorted_refs, cache)
}

} // verus!
