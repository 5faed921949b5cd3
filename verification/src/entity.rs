//! Entities (named code items) and references between them.

use vstd::prelude::*;
use crate::text::{
    after_last, chars_vec, contains, contains_sub, ends_with, is_prefix, is_suffix, replace_char,
    replaced, starts_with, tail_after_last,
};

verus! {

/// Downstream impact summary for one entity: how many reference rows
/// target it, how many distinct files those rows live in, and how many
/// callers a breadth-first walk of the reverse-call graph reaches.
#[derive(Debug, Clone, Copy, PartialEq, Eq)]
pub struct BlastRadius {
    pub direct_callers: u32,
    pub direct_files: u32,
    pub transitive_callers: u32,
}

impl Default for BlastRadius {
    /// No callers, no files.
    fn default() -> (r: BlastRadius)
        ensures
            r.direct_callers == 0,
            r.direct_files == 0,
            r.transitive_callers == 0,
    {
        BlastRadius { direct_callers: 0, direct_files: 0, transitive_callers: 0 }
    }
}

/// One named code item (function, struct, class, heading ...) with its
/// location and the three hashes used to classify changes.
///
/// The floating-point PageRank score that the on-disk form may carry is
/// held by the application layer; nothing in this library reads it.
#[derive(Debug, Clone)]
pub struct Entity {
    pub file: String,
    pub name: String,
    pub kind: String,
    pub line_start: u32,
    pub line_end: u32,
    pub parent: Option<String>,
    pub sig: Option<String>,
    pub meta: Option<Vec<String>>,
    pub body_hash: Option<String>,
    pub sig_hash: Option<String>,
    pub struct_hash: String,
    pub visibility: Option<String>,
    pub blast_radius: Option<BlastRadius>,
}

/// One reference row: `caller` (if any) refers to `name` at `file:line`.
#[derive(Debug, Clone)]
pub struct Reference {
    pub file: String,
    pub caller: Option<String>,
    pub name: String,
    pub ref_kind: String,
    pub line: u32,
}

/// Directory conventions that mark test code.
pub open spec fn test_dir_signal(f: Seq<char>) -> bool {
    ||| is_prefix("tests/"@, f)
    ||| is_prefix("test/"@, f)
    ||| contains_sub(f, "/tests/"@)
    ||| contains_sub(f, "/test/"@)
    ||| contains_sub(f, "/__tests__/"@)
    ||| contains_sub(f, "/src/test/"@)
}

/// File-name suffixes that mark test code.
pub open spec fn test_suffix_signal(n: Seq<char>) -> bool {
    ||| is_suffix("_test.rs"@, n)
    ||| is_suffix("_test.go"@, n)
    ||| is_suffix("_test.py"@, n)
    ||| is_suffix("_test.ts"@, n)
    ||| is_suffix("_test.js"@, n)
    ||| is_suffix(".test.ts"@, n)
    ||| is_suffix(".test.tsx"@, n)
    ||| is_suffix(".test.js"@, n)
    ||| is_suffix(".test.jsx"@, n)
    ||| is_suffix(".spec.ts"@, n)
    ||| is_suffix(".spec.tsx"@, n)
    ||| is_suffix(".spec.js"@, n)
    ||| is_suffix(".spec.jsx"@, n)
    ||| is_suffix("Test.java"@, n)
    ||| is_suffix("Tests.java"@, n)
    ||| is_suffix("_spec.rb"@, n)
}

/// File-name prefixes that mark test code (pytest, JUnit).
pub open spec fn test_prefix_signal(n: Seq<char>) -> bool {
    ||| is_prefix("test_"@, n) && (is_suffix(".py"@, n) || is_suffix(".rs"@, n))
    ||| is_prefix("Test"@, n) && is_suffix(".java"@, n)
}

/// Path-based test-code heuristic over the path with `\` read as `/`.
pub open spec fn spec_is_test_path(file: Seq<char>) -> bool {
    let f = replace_char(file, '\\', '/');
    let n = after_last(f, '/');
    test_dir_signal(f) || test_suffix_signal(n) || test_prefix_signal(n)
}

fn has_test_dir_signal(f: &[char]) -> (r: bool)
    ensures
        r == test_dir_signal(f@),
{
    starts_with(f, "tests/") || starts_with(f, "test/") || contains(f, "/tests/")
        || contains(f, "/test/") || contains(f, "/__tests__/") || contains(f, "/src/test/")
}

fn has_test_suffix_signal(n: &[char]) -> (r: bool)
    ensures
        r == test_suffix_signal(n@),
{
    ends_with(n, "_test.rs") || ends_with(n, "_test.go") || ends_with(n, "_test.py")
        || ends_with(n, "_test.ts") || ends_with(n, "_test.js") || ends_with(n, ".test.ts")
        || ends_with(n, ".test.tsx") || ends_with(n, ".test.js") || ends_with(n, ".test.jsx")
        || ends_with(n, ".spec.ts") || ends_with(n, ".spec.tsx") || ends_with(n, ".spec.js")
        || ends_with(n, ".spec.jsx") || ends_with(n, "Test.java") || ends_with(n, "Tests.java")
        || ends_with(n, "_spec.rb")
}

/// Path-based heuristic for "is this entity part of test code?": Rust
/// `tests/` and `*_test.rs`, Python `test_*.py` / `*_test.py`, JS/TS
/// `*.test.*`, `*.spec.*`, `__tests__/`, Go `*_test.go`, Java `*Test.java`
/// and `src/test/`. Backslashes count as path separators.
pub fn is_test_path(file: &str) -> (r: bool)
    ensures
        r == spec_is_test_path(file@),
{
    let raw = chars_vec(file);
    let f = replaced(&raw, '\\', '/');
    if has_test_dir_signal(&f) {
        return true;
    }
    let n = tail_after_last(&f, '/');
    if has_test_suffix_signal(&n) {
        return true;
    }
    (starts_with(&n, "test_") && (ends_with(&n, ".py") || ends_with(&n, ".rs")))
        || (starts_with(&n, "Test") && ends_with(&n, ".java"))
}


/// A copy of `v` with the same strings.
pub fn copy_strings(v: &Vec<String>) -> (r: Vec<String>)
    ensures
        r@ == v@,
{
    let mut r: Vec<String> = Vec::new();
    let mut i: usize = 0;
    while i < v.len()
        invariant
            i <= v@.len(),
            r@ == v@.take(i as int),
        decreases v@.len() - i,
    {
        r.push(v[i].clone());
        assert(v@.take(i + 1) == v@.take(i as int).push(v@[i as int]));
        i += 1;
    }
    assert(v@.take(v@.len() as int) == v@);
    r
}

/// A copy of an optional string.
pub fn copy_opt(o: &Option<String>) -> (r: Option<String>)
    ensures
        r == *o,
{
    match o {
        Some(s) => Some(s.clone()),
        None => None,
    }
}

/// Whether two optional strings hold the same text (both absent counts).
pub fn opt_str_eq(a: &Option<String>, b: &Option<String>) -> (r: bool)
    ensures
        r == (opt_view(*a) == opt_view(*b)),
{
    match (a, b) {
        (Some(x), Some(y)) => *x == *y,
        (None, None) => true,
        _ => false,
    }
}

/// The text of an optional string.
pub open spec fn opt_view(o: Option<String>) -> Option<Seq<char>> {
    match o {
        Some(s) => Some(s@),
        None => None,
    }
}

/// The markers of an entity, by value.
pub open spec fn meta_view(m: Option<Vec<String>>) -> Option<Seq<Seq<char>>> {
    match m {
        Some(v) => Some(v@.map_values(|s: String| s@)),
        None => None,
    }
}

/// Two entities agree in every field, compared by value.
pub open spec fn same_entity(a: Entity, b: Entity) -> bool {
    &&& a.file@ == b.file@
    &&& a.name@ == b.name@
    &&& a.kind@ == b.kind@
    &&& a.line_start == b.line_start
    &&& a.line_end == b.line_end
    &&& opt_view(a.parent) == opt_view(b.parent)
    &&& opt_view(a.sig) == opt_view(b.sig)
    &&& meta_view(a.meta) == meta_view(b.meta)
    &&& opt_view(a.body_hash) == opt_view(b.body_hash)
    &&& opt_view(a.sig_hash) == opt_view(b.sig_hash)
    &&& a.struct_hash@ == b.struct_hash@
    &&& opt_view(a.visibility) == opt_view(b.visibility)
    &&& a.blast_radius == b.blast_radius
}

impl Entity {
    /// A field-for-field copy.
    pub fn duplicate(&self) -> (r: Entity)
        ensures
            same_entity(r, *self),
    {
        Entity {
            file: self.file.clone(),
            name: self.name.clone(),
            kind: self.kind.clone(),
            line_start: self.line_start,
            line_end: self.line_end,
            parent: copy_opt(&self.parent),
            sig: copy_opt(&self.sig),
            meta: match &self.meta {
                Some(m) => Some(copy_strings(m)),
                None => None,
            },
            body_hash: copy_opt(&self.body_hash),
            sig_hash: copy_opt(&self.sig_hash),
            struct_hash: self.struct_hash.clone(),
            visibility: copy_opt(&self.visibility),
            blast_radius: self.blast_radius,
        }
    }
}

impl Reference {
    /// A field-for-field copy.
    pub fn duplicate(&self) -> (r: Reference)
        ensures
            r == *self,
    {
        Reference {
            file: self.file.clone(),
            caller: copy_opt(&self.caller),
            name: self.name.clone(),
            ref_kind: self.ref_kind.clone(),
            line: self.line,
        }
    }
}

} // verus!
