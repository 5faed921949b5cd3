//! The deterministic parts of `sigil benchmark`: options, output format,
//! token counting with a proxy fallback, the choice of the sample symbol
//! for the context query, and the files each control query reads.

use vstd::prelude::*;
use crate::entity::{Entity, Reference};
use crate::query::index::Index;
use crate::text::{insert_sorted, sorted_distinct, str_eq, string_views, strictly_sorted};
use crate::tokens::{proxy_count, proxy_estimate, token_count, CountError, Tokenizer};

verus! {

broadcast use vstd::string::group_string_axioms;

/// Output format of the benchmark report.
#[derive(Debug, Clone, Copy, PartialEq, Eq, Structural)]
pub enum BenchmarkFormat {
    Markdown,
    Json,
}

impl BenchmarkFormat {
    /// `markdown` / `md` or `json`; anything else is unknown.
    pub fn parse(s: &str) -> (r: Option<BenchmarkFormat>)
        ensures
            r == (if s@ == "markdown"@ || s@ == "md"@ {
                Some(BenchmarkFormat::Markdown)
            } else if s@ == "json"@ {
                Some(BenchmarkFormat::Json)
            } else {
                None
            }),
    {
        if str_eq(s, "markdown") || str_eq(s, "md") {
            Some(BenchmarkFormat::Markdown)
        } else if str_eq(s, "json") {
            Some(BenchmarkFormat::Json)
        } else {
            None
        }
    }
}

/// What to benchmark and how to report it.
#[derive(Debug, Clone)]
pub struct BenchmarkOptions {
    /// Ref spec used for the diff-shaped query.
    pub refspec: String,
    /// Sample symbol for the context query; the highest-blast entity of
    /// the index when absent.
    pub symbol: Option<String>,
    pub format: BenchmarkFormat,
    /// Counter used for both the control and the treatment.
    pub tokenizer: Tokenizer,
}

impl Default for BenchmarkOptions {
    fn default() -> (r: Self)
        ensures
            r.refspec@ == "HEAD~1..HEAD"@,
            r.symbol is None,
            r.format == BenchmarkFormat::Markdown,
            r.tokenizer == Tokenizer::Proxy,
    {
        BenchmarkOptions {
            refspec: String::from_str("HEAD~1..HEAD"),
            symbol: None,
            format: BenchmarkFormat::Markdown,
            tokenizer: Tokenizer::default(),
        }
    }
}

/// The count to report given what the tokenizer returned: the count
/// itself, or the proxy estimate when the tokenizer failed.
pub fn counted_or_proxy(counted: Result<usize, CountError>, s: &str) -> (r: usize)
    ensures
        r == (match counted {
            Ok(n) => n as nat,
            Err(_) => proxy_estimate(s.len() as nat),
        }),
{
    match counted {
        Ok(n) => n,
        Err(_) => proxy_count(s),
    }
}

/// Count with `tok`, falling back to the proxy if the tokenizer fails at
/// run time, so a benchmark never stops half-way.
pub fn count_or_proxy(tok: &Tokenizer, s: &str) -> (r: usize)
    ensures
        r == (match token_count(*tok, s) {
            Some(n) => n,
            None => proxy_estimate(s.len() as nat),
        }),
{
    counted_or_proxy(tok.count(s), s)
}

/// Direct files of an entity's blast radius (0 when it has none).
pub open spec fn blast_files(e: Entity) -> nat {
    match e.blast_radius {
        Some(b) => b.direct_files as nat,
        None => 0,
    }
}

/// Position of the non-import entity with the most direct files among the
/// first `n`; the last one on a tie.
pub open spec fn top_blast_upto(es: Seq<Entity>, n: int) -> Option<int>
    decreases n,
{
    if n <= 0 {
        None
    } else {
        let prev = top_blast_upto(es, n - 1);
        if es[n - 1].kind@ == "import"@ {
            prev
        } else {
            match prev {
                None => Some(n - 1),
                Some(j) => if blast_files(es[n - 1]) >= blast_files(es[j]) {
                    Some(n - 1)
                } else {
                    prev
                },
            }
        }
    }
}

proof fn lemma_top_blast_in_range(es: Seq<Entity>, n: int)
    ensures
        top_blast_upto(es, n) matches Some(j) ==> 0 <= j < n,
    decreases n,
{
    if n > 0 {
        lemma_top_blast_in_range(es, n - 1);
    }
}

/// Name of the non-import entity whose blast radius reaches the most
/// files (the last such entity on a tie); `None` when every entity is an
/// import.
pub fn pick_high_blast_symbol(idx: &Index) -> (r: Option<String>)
    ensures
        r == (match top_blast_upto(idx.entities@, idx.entities@.len() as int) {
            Some(j) => Some(idx.entities@[j].name),
            None => None::<String>,
        }),
{
    let es = &idx.entities;
    let mut best: Option<usize> = None;
    let mut best_files: u32 = 0;
    let mut i: usize = 0;
    while i < es.len()
        invariant
            i <= es@.len(),
            best == (match top_blast_upto(es@, i as int) {
                Some(j) => Some(j as usize),
                None => None::<usize>,
            }),
            best matches Some(j) ==> j < i && best_files == blast_files(es@[j as int]),
        decreases es@.len() - i,
    {
        proof {
            lemma_top_blast_in_range(es@, i as int);
        }
        let e = &es[i];
        if !str_eq(e.kind.as_str(), "import") {
            let files: u32 = match e.blast_radius {
                Some(b) => b.direct_files,
                None => 0,
            };
            match best {
                None => {
                    best = Some(i);
                    best_files = files;
                },
                Some(_) => {
                    if files >= best_files {
                        best = Some(i);
                        best_files = files;
                    }
                },
            }
        }
        i += 1;
    }
    proof {
        lemma_top_blast_in_range(es@, es@.len() as int);
    }
    match best {
        Some(j) => Some(es[j].name.clone()),
        None => None,
    }
}

/// The files of the references to `symbol`, in order.
pub open spec fn ref_files_named(rs: Seq<Reference>, symbol: Seq<char>) -> Seq<Seq<char>>
    decreases rs.len(),
{
    if rs.len() == 0 {
        Seq::empty()
    } else if rs.last().name@ == symbol {
        ref_files_named(rs.drop_last(), symbol).push(rs.last().file@)
    } else {
        ref_files_named(rs.drop_last(), symbol)
    }
}

/// The files of the entities named `symbol`, in order.
pub open spec fn entity_files_named(es: Seq<Entity>, symbol: Seq<char>) -> Seq<Seq<char>>
    decreases es.len(),
{
    if es.len() == 0 {
        Seq::empty()
    } else if es.last().name@ == symbol {
        entity_files_named(es.drop_last(), symbol).push(es.last().file@)
    } else {
        entity_files_named(es.drop_last(), symbol)
    }
}

/// The files of all entities, in order.
pub open spec fn entity_files(es: Seq<Entity>) -> Seq<Seq<char>> {
    es.map_values(|e: Entity| e.file@)
}

/// At most the first `cap` of `s`.
pub open spec fn at_most(s: Seq<Seq<char>>, cap: nat) -> Seq<Seq<char>> {
    if s.len() <= cap {
        s
    } else {
        s.take(cap as int)
    }
}

/// The files the context query's control reads: those referring to or
/// defining `symbol`, distinct, in `str` order, at most `cap`.
pub open spec fn files_touching_spec(idx: Index, symbol: Seq<char>, cap: nat) -> Seq<Seq<char>> {
    at_most(
        sorted_distinct(ref_files_named(idx.references@, symbol) + entity_files_named(idx.entities@, symbol)),
        cap,
    )
}

/// `s` distinct and sorted, as strings.
fn distinct_sorted(s: &Vec<String>) -> (r: Vec<String>)
    ensures
        string_views(r@) == sorted_distinct(string_views(s@)),
{
    let ghost sv = string_views(s@);
    let mut r: Vec<String> = Vec::new();
    let mut i: usize = 0;
    while i < s.len()
        invariant
            i <= s@.len(),
            sv == string_views(s@),
            strictly_sorted(string_views(r@)),
            string_views(r@) == sorted_distinct(sv.take(i as int)),
        decreases s@.len() - i,
    {
        assert(sv.take(i + 1).drop_last() == sv.take(i as int));
        insert_sorted(&mut r, s[i].clone());
        i += 1;
    }
    assert(sv.take(i as int) == sv);
    r
}

fn truncated(v: Vec<String>, cap: usize) -> (r: Vec<String>)
    ensures
        string_views(r@) == at_most(string_views(v@), cap as nat),
{
    let mut v = v;
    if v.len() > cap {
        let ghost before = v@;
        v.truncate(cap);
        assert(string_views(v@) == string_views(before).take(cap as int));
    }
    v
}

/// The files the context query's control reads: those that refer to or
/// define `symbol`, distinct, in `str` order, at most `cap` of them.
pub fn files_touching_symbol(idx: &Index, symbol: &str, cap: usize) -> (r: Vec<String>)
    ensures
        string_views(r@) == files_touching_spec(*idx, symbol@, cap as nat),
{
    let mut all: Vec<String> = Vec::new();
    let mut i: usize = 0;
    while i < idx.references.len()
        invariant
            i <= idx.references@.len(),
            string_views(all@) == ref_files_named(idx.references@.take(i as int), symbol@),
        decreases idx.references@.len() - i,
    {
        assert(idx.references@.take(i + 1).drop_last() == idx.references@.take(i as int));
        if str_eq(idx.references[i].name.as_str(), symbol) {
            let ghost before = all@;
            all.push(idx.references[i].file.clone());
            assert(string_views(all@) == string_views(before).push(idx.references@[i as int].file@));
        }
        i += 1;
    }
    assert(idx.references@.take(i as int) == idx.references@);
    let ghost refs_part = string_views(all@);
    let mut j: usize = 0;
    while j < idx.entities.len()
        invariant
            j <= idx.entities@.len(),
            refs_part == ref_files_named(idx.references@, symbol@),
            string_views(all@) == refs_part + entity_files_named(idx.entities@.take(j as int), symbol@),
        decreases idx.entities@.len() - j,
    {
        assert(idx.entities@.take(j + 1).drop_last() == idx.entities@.take(j as int));
        if str_eq(idx.entities[j].name.as_str(), symbol) {
            let ghost before = all@;
            all.push(idx.entities[j].file.clone());
            assert(string_views(all@) == string_views(before).push(idx.entities@[j as int].file@));
        }
        j += 1;
    }
    assert(idx.entities@.take(j as int) == idx.entities@);
    let d = distinct_sorted(&all);
    truncated(d, cap)
}

/// The files the orientation query's control reads: the distinct files
/// of the index, in `str` order, at most `cap` of them.
pub fn top_files(idx: &Index, cap: usize) -> (r: Vec<String>)
    ensures
        string_views(r@) == at_most(sorted_distinct(entity_files(idx.entities@)), cap as nat),
{
    let mut all: Vec<String> = Vec::new();
    let mut i: usize = 0;
    while i < idx.entities.len()
        invariant
            i <= idx.entities@.len(),
            string_views(all@) == entity_files(idx.entities@.take(i as int)),
        decreases idx.entities@.len() - i,
    {
        let ghost before = all@;
        all.push(idx.entities[i].file.clone());
        assert(string_views(all@) == string_views(before).push(idx.entities@[i as int].file@));
        assert(entity_files(idx.entities@.take(i + 1)) == entity_files(idx.entities@.take(i as int)).push(idx.entities@[i as int].file@));
        i += 1;
    }
    assert(idx.entities@.take(i as int) == idx.entities@);
    let d = distinct_sorted(&all);
    truncated(d, cap)
}

} // verus!
