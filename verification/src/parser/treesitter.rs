//! Symbols, text blocks and references of one source file, as codeix's
//! tree-sitter parsers extract them, held as plain values.

use vstd::prelude::*;

verus! {

/// The error type of the parser and of codeix's database.
#[verifier::external_type_specification]
#[verifier::external_body]
pub struct ExAnyhowError(anyhow::Error);

/// A symbol the parser found: where it is, what it is called, its kind,
/// its enclosing symbol and its visibility.
#[derive(Debug)]
pub struct SymbolEntry {
    pub file: String,
    pub name: String,
    pub kind: String,
    pub line: [u32; 2],
    pub parent: Option<String>,
    pub visibility: Option<String>,
}

/// A text block (comment, docstring, string) the parser found.
#[derive(Debug)]
pub struct TextEntry {
    pub file: String,
    pub kind: String,
    pub line: [u32; 2],
    pub text: String,
    pub parent: Option<String>,
}

/// A reference to a symbol (call, import, type use ...).
#[derive(Debug)]
pub struct ReferenceEntry {
    pub file: String,
    pub name: String,
    pub kind: String,
    pub line: [u32; 2],
    pub caller: Option<String>,
}

pub type OptText = Option<Seq<char>>;

/// `(file, name, kind, first line, last line, parent, visibility)`.
pub type SymbolView = (Seq<char>, Seq<char>, Seq<char>, u32, u32, OptText, OptText);

/// `(file, kind, first line, last line, text, parent)`.
pub type TextView = (Seq<char>, Seq<char>, u32, u32, Seq<char>, OptText);

/// `(file, name, kind, first line, last line, caller)`.
pub type ReferenceView = (Seq<char>, Seq<char>, Seq<char>, u32, u32, OptText);

pub open spec fn opt_view(o: Option<String>) -> OptText {
    match o {
        Some(s) => Some(s@),
        None => None,
    }
}

pub open spec fn symbol_view(e: SymbolEntry) -> SymbolView {
    (e.file@, e.name@, e.kind@, e.line[0], e.line[1], opt_view(e.parent), opt_view(e.visibility))
}

pub open spec fn text_view(e: TextEntry) -> TextView {
    (e.file@, e.kind@, e.line[0], e.line[1], e.text@, opt_view(e.parent))
}

pub open spec fn reference_view(e: ReferenceEntry) -> ReferenceView {
    (e.file@, e.name@, e.kind@, e.line[0], e.line[1], opt_view(e.caller))
}

/// What `codeix::parser::treesitter::parse_file` gives for a source, a
/// language and a path: the symbols, text blocks and references, or
/// `None` when it fails (unknown language, tree-sitter failure).
pub uninterp spec fn parsed_file(source: Seq<u8>, language: Seq<char>, file_path: Seq<char>) -> Option<
    (Seq<SymbolView>, Seq<TextView>, Seq<ReferenceView>),
>;

/// `codeix::parser::treesitter::parse_file`, its entries converted one
/// for one into this library's entry types. Its result is named, not
/// spelled out: it is whatever the parser of the language extracts, the
/// same for the same arguments. Outside their tests the extractors hold
/// no `unwrap` or `panic!`, recursion stops at `MAX_DEPTH`, and an
/// unknown language or failed parse is an `Err`; the one arithmetic that
/// could overflow is the `u32` line numbers shifted by a block's offset,
/// which the bound on the source's size rules out.
#[verifier::external_body]
pub fn parse_file(source: &[u8], language: &str, file_path: &str) -> (r: Result<
    (Vec<SymbolEntry>, Vec<TextEntry>, Vec<ReferenceEntry>),
    anyhow::Error,
>)
    requires
        source@.len() < 0xFFFF_FFFF,
    ensures
        match r {
            Ok(t) => parsed_file(source@, language@, file_path@) == Some(
                (
                    t.0@.map_values(|e: SymbolEntry| symbol_view(e)),
                    t.1@.map_values(|e: TextEntry| text_view(e)),
                    t.2@.map_values(|e: ReferenceEntry| reference_view(e)),
                ),
            ),
            Err(_) => parsed_file(source@, language@, file_path@) is None,
        },
{
    let (s, t, r) = codeix::parser::treesitter::parse_file(source, language, file_path)?;
    Ok((
        s.into_iter().map(|e| SymbolEntry { file: e.file, name: e.name, kind: e.kind, line: e.line, parent: e.parent, visibility: e.visibility }).collect(),
        t.into_iter().map(|e| TextEntry { file: e.file, kind: e.kind, line: e.line, text: e.text, parent: e.parent }).collect(),
        r.into_iter().map(|e| ReferenceEntry { file: e.file, name: e.name, kind: e.kind, line: e.line, caller: e.caller }).collect(),
    ))
}

} // verus!
