//! `sigil where <symbol>`: locate the definitions of a name.
//!
//! An entity matches when the last `::`- or `.`-separated segment of its
//! name equals the symbol and its kind is a definition kind (class,
//! struct, enum, trait, interface, function, fn, method, type alias,
//! module). Entities that share file, parent and kind collapse into one
//! definition (overloads), which keeps the first one's line and signature.

use vstd::prelude::*;
use crate::entity::{Entity, is_test_path, opt_str_eq, opt_view, copy_opt, spec_is_test_path};
use crate::query::index::{lemma_positions_bounded, lemma_positions_contains, positions, Index};
use crate::text::{after_last_sep, chars_vec, seq_eq, str_eq, string_from, tail_after_sep};
use crate::fmt::{decimal, push_num, push_str};

verus! {

/// One definition found by `sigil where`.
#[derive(Debug)]
pub struct Definition {
    pub name: String,
    pub file: String,
    pub line: u32,
    pub line_end: Option<u32>,
    pub kind: String,
    pub parent: Option<String>,
    pub sig: Option<String>,
    pub overloads: u32,
    pub in_test: bool,
}

/// The symbol asked for and each matching definition.
#[derive(Debug)]
pub struct WhereReport {
    pub symbol: String,
    pub definitions: Vec<Definition>,
}

pub open spec fn is_definition_kind(k: Seq<char>) -> bool {
    ||| k == "class"@
    ||| k == "struct"@
    ||| k == "enum"@
    ||| k == "trait"@
    ||| k == "interface"@
    ||| k == "function"@
    ||| k == "fn"@
    ||| k == "method"@
    ||| k == "type_alias"@
    ||| k == "module"@
}

/// Whether an entity is a candidate definition of `symbol`.
pub open spec fn candidate(e: Entity, symbol: Seq<char>, include_tests: bool) -> bool {
    &&& after_last_sep(e.name@) == symbol
    &&& is_definition_kind(e.kind@)
    &&& (include_tests || !spec_is_test_path(e.file@))
}

pub open spec fn candidate_at(es: Seq<Entity>, symbol: Seq<char>, include_tests: bool) -> spec_fn(int) -> bool {
    |j: int| candidate(es[j], symbol, include_tests)
}

/// Two entities collapse into one definition.
pub open spec fn same_group(a: Entity, b: Entity) -> bool {
    a.file@ == b.file@ && opt_view(a.parent) == opt_view(b.parent) && a.kind@ == b.kind@
}

/// The candidates, in index order.
pub open spec fn candidates(es: Seq<Entity>, symbol: Seq<char>, include_tests: bool) -> Seq<Entity> {
    positions(es.len() as int, candidate_at(es, symbol, include_tests)).map_values(|j: usize| es[j as int])
}

/// Number of entries among the first `n` of `ms` in the group of `e`.
pub open spec fn count_in_group(ms: Seq<Entity>, e: Entity, n: int) -> nat
    decreases n,
{
    if n <= 0 {
        0
    } else {
        count_in_group(ms, e, n - 1) + if same_group(ms[n - 1], e) { 1nat } else { 0nat }
    }
}

/// Number of entries of `ms` in the group of `e`.
pub open spec fn group_size(ms: Seq<Entity>, e: Entity) -> nat {
    count_in_group(ms, e, ms.len() as int)
}

/// Whether `ms[j]` is the first entry of its group.
pub open spec fn first_of_group(ms: Seq<Entity>) -> spec_fn(int) -> bool {
    |j: int| forall|i: int| 0 <= i < j ==> !same_group(#[trigger] ms[i], ms[j])
}

/// `d` is the definition record for the group whose first entry is `e`.
pub open spec fn describes(d: Definition, e: Entity, overloads: nat) -> bool {
    &&& d.name@ == after_last_sep(e.name@)
    &&& d.file@ == e.file@
    &&& d.line == e.line_start
    &&& d.line_end == (if e.line_end != e.line_start { Some(e.line_end) } else { None })
    &&& d.kind@ == e.kind@
    &&& opt_view(d.parent) == opt_view(e.parent)
    &&& opt_view(d.sig) == opt_view(e.sig)
    &&& d.overloads == overloads
    &&& d.in_test == spec_is_test_path(e.file@)
}

fn is_definition_kind_exec(k: &str) -> (r: bool)
    ensures
        r == is_definition_kind(k@),
{
    str_eq(k, "class") || str_eq(k, "struct") || str_eq(k, "enum") || str_eq(k, "trait")
        || str_eq(k, "interface") || str_eq(k, "function") || str_eq(k, "fn") || str_eq(k, "method")
        || str_eq(k, "type_alias") || str_eq(k, "module")
}

fn tail_segment(name: &str) -> (r: Vec<char>)
    ensures
        r@ == after_last_sep(name@),
{
    let v = chars_vec(name);
    tail_after_sep(&v)
}

fn is_candidate(e: &Entity, symbol: &[char], include_tests: bool) -> (r: bool)
    ensures
        r == candidate(*e, symbol@, include_tests),
{
    let t = tail_segment(e.name.as_str());
    seq_eq(&t, symbol) && is_definition_kind_exec(e.kind.as_str())
        && (include_tests || !is_test_path(e.file.as_str()))
}

fn in_same_group(a: &Entity, b: &Entity) -> (r: bool)
    ensures
        r == same_group(*a, *b),
{
    a.file == b.file && opt_str_eq(&a.parent, &b.parent) && a.kind == b.kind
}

/// Finds the definitions of `symbol` in the index, test files included
/// only on request. Definitions come in index order of their first entry.
pub fn find_definitions(idx: &Index, symbol: &str, include_tests: bool) -> (r: WhereReport)
    requires
        idx.entities@.len() <= u32::MAX,
    ensures
        r.symbol@ == symbol@,
        ({
            let ms = candidates(idx.entities@, symbol@, include_tests);
            let reps = positions(ms.len() as int, first_of_group(ms));
            &&& r.definitions@.len() == reps.len()
            &&& forall|k: int| 0 <= k < reps.len() ==>
                describes(#[trigger] r.definitions@[k], ms[reps[k] as int], group_size(ms, ms[reps[k] as int]))
        }),
{
    let sym = chars_vec(symbol);
    let es = &idx.entities;
    // The candidate entities, by position.
    let mut pos: Vec<usize> = Vec::new();
    let mut i: usize = 0;
    while i < es.len()
        invariant
            i <= es@.len(),
            sym@ == symbol@,
            pos@ == positions(i as int, candidate_at(es@, symbol@, include_tests)),
        decreases es@.len() - i,
    {
        if is_candidate(&es[i], &sym, include_tests) {
            pos.push(i);
        }
        i += 1;
    }
    let ghost ms = pos@.map_values(|j: usize| es@[j as int]);
    assert(ms == candidates(es@, symbol@, include_tests));
    proof { lemma_positions_bounded(es@.len() as int, candidate_at(es@, symbol@, include_tests)); }

    let mut defs: Vec<Definition> = Vec::new();
    let ghost reps_full = positions(ms.len() as int, first_of_group(ms));
    let mut k: usize = 0;
    while k < pos.len()
        invariant
            k <= pos@.len(),
            ms.len() == pos@.len(),
            pos@.len() <= u32::MAX,
            forall|j: int| 0 <= j < pos@.len() ==> (#[trigger] pos@[j] as int) < es@.len(),
            forall|j: int| 0 <= j < pos@.len() ==> #[trigger] ms[j] == es@[pos@[j] as int],
            reps_full == positions(ms.len() as int, first_of_group(ms)),
            defs@.len() == positions(k as int, first_of_group(ms)).len(),
            forall|d: int| 0 <= d < defs@.len() ==> describes(#[trigger] defs@[d],
                ms[positions(k as int, first_of_group(ms))[d] as int],
                group_size(ms, ms[positions(k as int, first_of_group(ms))[d] as int])),
        decreases pos@.len() - k,
    {
        let e = &es[pos[k]];
        // First entry of its group?
        let mut first = true;
        let mut j: usize = 0;
        while j < k
            invariant
                j <= k < pos@.len(),
                ms.len() == pos@.len(),
                forall|x: int| 0 <= x < pos@.len() ==> (#[trigger] pos@[x] as int) < es@.len(),
                forall|x: int| 0 <= x < pos@.len() ==> #[trigger] ms[x] == es@[pos@[x] as int],
                *e == ms[k as int],
                first == forall|i: int| 0 <= i < j ==> !same_group(#[trigger] ms[i], ms[k as int]),
            decreases k - j,
        {
            assert(ms[j as int] == es@[pos@[j as int] as int]);
            if in_same_group(&es[pos[j]], e) {
                first = false;
            }
            j += 1;
        }
        if first {
            // Size of its group.
            let mut count: u32 = 0;
            let mut j: usize = 0;
            while j < pos.len()
                invariant
                    j <= pos@.len(),
                    k < pos@.len(),
                    ms.len() == pos@.len(),
                    pos@.len() <= u32::MAX,
                    forall|x: int| 0 <= x < pos@.len() ==> (#[trigger] pos@[x] as int) < es@.len(),
                    forall|x: int| 0 <= x < pos@.len() ==> #[trigger] ms[x] == es@[pos@[x] as int],
                    *e == ms[k as int],
                    count == count_in_group(ms, ms[k as int], j as int),
                    count <= j,
                decreases pos@.len() - j,
            {
                assert(ms[j as int] == es@[pos@[j as int] as int]);
                if in_same_group(&es[pos[j]], e) {
                    count += 1;
                }
                j += 1;
            }
            let line_end = if e.line_end != e.line_start { Some(e.line_end) } else { None };
            let name = tail_segment(e.name.as_str());
            defs.push(Definition {
                name: string_from(&name),
                file: e.file.clone(),
                line: e.line_start,
                line_end,
                kind: e.kind.clone(),
                parent: copy_opt(&e.parent),
                sig: copy_opt(&e.sig),
                overloads: count,
                in_test: is_test_path(e.file.as_str()),
            });
        }
        k += 1;
    }
    WhereReport { symbol: String::from_str(symbol), definitions: defs }
}

pub open spec fn def_class(d: Definition) -> Seq<char> {
    match d.parent {
        Some(p) => p@,
        None => "<top-level>"@,
    }
}

pub open spec fn def_range(d: Definition) -> Seq<char> {
    match d.line_end {
        Some(e) => d.file@ + ":"@ + decimal(d.line as nat) + "-"@ + decimal(e as nat),
        None => d.file@ + ":"@ + decimal(d.line as nat),
    }
}

pub open spec fn def_notes(d: Definition) -> Seq<char> {
    let overload_note = if d.overloads > 1 {
        ", "@ + decimal(d.overloads as nat) + " overloads"@
    } else {
        Seq::empty()
    };
    let test_note = if d.in_test { ", test"@ } else { Seq::empty() };
    overload_note + test_note
}

pub open spec fn def_sig(d: Definition) -> Seq<char> {
    match d.sig {
        Some(s) => "    "@ + s@ + "\n"@,
        None => Seq::empty(),
    }
}

/// The lines `render_markdown` writes for one definition.
pub open spec fn definition_text(d: Definition) -> Seq<char> {
    "  "@ + def_class(d) + "."@ + d.name@ + "  "@ + def_range(d) + "  ("@ + d.kind@ + def_notes(d)
        + ")\n"@ + def_sig(d)
}

fn push_range(out: &mut Vec<char>, d: &Definition)
    ensures
        final(out)@ == old(out)@ + def_range(*d),
{
    push_str(out, d.file.as_str());
    push_str(out, ":");
    push_num(out, d.line as u64);
    match d.line_end {
        Some(e) => {
            push_str(out, "-");
            push_num(out, e as u64);
        },
        None => {},
    }
}

fn push_notes(out: &mut Vec<char>, d: &Definition)
    ensures
        final(out)@ == old(out)@ + def_notes(*d),
{
    if d.overloads > 1 {
        push_str(out, ", ");
        push_num(out, d.overloads as u64);
        push_str(out, " overloads");
    }
    if d.in_test {
        push_str(out, ", test");
    }
}

fn push_sig(out: &mut Vec<char>, d: &Definition)
    ensures
        final(out)@ == old(out)@ + def_sig(*d),
{
    match &d.sig {
        Some(s) => {
            push_str(out, "    ");
            push_str(out, s.as_str());
            push_str(out, "\n");
        },
        None => {},
    }
}

fn push_class(out: &mut Vec<char>, d: &Definition)
    ensures
        final(out)@ == old(out)@ + def_class(*d),
{
    match &d.parent {
        Some(p) => push_str(out, p.as_str()),
        None => push_str(out, "<top-level>"),
    }
}

pub open spec fn definitions_text(ds: Seq<Definition>) -> Seq<char>
    decreases ds.len(),
{
    if ds.len() == 0 {
        Seq::empty()
    } else {
        definitions_text(ds.drop_last()) + definition_text(ds.last())
    }
}

fn push_definition(out: &mut Vec<char>, d: &Definition)
    ensures
        final(out)@ == old(out)@ + definition_text(*d),
{
    push_str(out, "  ");
    push_class(out, d);
    push_str(out, ".");
    push_str(out, d.name.as_str());
    push_str(out, "  ");
    push_range(out, d);
    push_str(out, "  (");
    push_str(out, d.kind.as_str());
    push_notes(out, d);
    push_str(out, ")\n");
    push_sig(out, d);
}

/// Plain-text rendering of a report: the symbol, then one block per
/// definition; a single "No definition" line when there is none.
pub fn render_markdown(report: &WhereReport) -> (r: String)
    ensures
        r@ == if report.definitions@.len() == 0 {
            "No definition of `"@ + report.symbol@ + "` found.\n"@
        } else {
            report.symbol@ + "\n"@ + definitions_text(report.definitions@)
        },
{
    let mut out: Vec<char> = Vec::new();
    if report.definitions.len() == 0 {
        push_str(&mut out, "No definition of `");
        push_str(&mut out, report.symbol.as_str());
        push_str(&mut out, "` found.\n");
        return string_from(&out);
    }
    push_str(&mut out, report.symbol.as_str());
    push_str(&mut out, "\n");
    let ghost head = out@;
    let ds = &report.definitions;
    let mut i: usize = 0;
    while i < ds.len()
        invariant
            i <= ds@.len(),
            out@ == head + definitions_text(ds@.take(i as int)),
        decreases ds@.len() - i,
    {
        push_definition(&mut out, &ds[i]);
        assert(ds@.take(i + 1).drop_last() == ds@.take(i as int));
        i += 1;
    }
    assert(ds@.take(ds@.len() as int) == ds@);
    string_from(&out)
}

/// `true` for one: the serialised form omits an overload count of one.
pub fn is_one(n: &u32) -> (r: bool)
    ensures
        r == (*n == 1),
{
    *n == 1
}

proof fn lemma_first_in_group(ms: Seq<Entity>, j: int) -> (i: int)
    requires
        0 <= j < ms.len(),
    ensures
        0 <= i <= j,
        same_group(ms[i], ms[j]),
        first_of_group(ms)(i),
    decreases j,
{
    if first_of_group(ms)(j) {
        j
    } else {
        let i0 = choose|i: int| 0 <= i < j && same_group(#[trigger] ms[i], ms[j]);
        lemma_first_in_group(ms, i0)
    }
}

/// Law of the `where` report: the definitions it lists stand for distinct
/// groups (no two share file, parent and kind), and every candidate
/// definition of the symbol falls in the group of one of them.
pub proof fn law_definitions_cover_candidates_once(es: Seq<Entity>, symbol: Seq<char>, include_tests: bool)
    requires
        es.len() <= usize::MAX,
    ensures
        ({
            let ms = candidates(es, symbol, include_tests);
            let reps = positions(ms.len() as int, first_of_group(ms));
            &&& forall|a: int, b: int| 0 <= a < b < reps.len() ==> !same_group(
                ms[#[trigger] reps[a] as int],
                ms[#[trigger] reps[b] as int],
            )
            &&& forall|j: int| #![trigger ms[j]] 0 <= j < ms.len() ==> exists|k: int| 0 <= k < reps.len() && same_group(
                ms[#[trigger] reps[k] as int],
                ms[j],
            )
        }),
{
    let ms = candidates(es, symbol, include_tests);
    let p = first_of_group(ms);
    lemma_positions_bounded(es.len() as int, candidate_at(es, symbol, include_tests));
    lemma_positions_bounded(ms.len() as int, p);
    let reps = positions(ms.len() as int, p);
    assert forall|a: int, b: int| 0 <= a < b < reps.len() implies !same_group(
        ms[#[trigger] reps[a] as int],
        ms[#[trigger] reps[b] as int],
    ) by {
        assert(reps[a] < reps[b]);
        assert(p(reps[b] as int));
    }
    assert forall|j: int| #![trigger ms[j]] 0 <= j < ms.len() implies exists|k: int| 0 <= k < reps.len() && same_group(
        ms[#[trigger] reps[k] as int],
        ms[j],
    ) by {
        let i = lemma_first_in_group(ms, j);
        crate::query::index::lemma_positions_contains(ms.len() as int, p, i);
        let k = choose|k: int| 0 <= k < reps.len() && reps[k] == i as usize;
        assert(same_group(ms[reps[k] as int], ms[j]));
    }
}

/// The number of groups among the representatives `reps[0..r]` that
/// `ms[j]` belongs to.
pub open spec fn rep_hits(ms: Seq<Entity>, reps: Seq<usize>, r: int, j: int) -> nat
    decreases r,
{
    if r <= 0 {
        0
    } else {
        rep_hits(ms, reps, r - 1, j) + if same_group(ms[j], ms[reps[r - 1] as int]) { 1nat } else { 0nat }
    }
}

/// The sizes, counted over `ms[0..n]`, of the groups of `reps[0..r]`.
pub open spec fn rep_counts(ms: Seq<Entity>, reps: Seq<usize>, r: int, n: int) -> nat
    decreases r,
{
    if r <= 0 {
        0
    } else {
        rep_counts(ms, reps, r - 1, n) + count_in_group(ms, ms[reps[r - 1] as int], n)
    }
}

/// The overload counts of the representatives `reps[0..r]`.
pub open spec fn total_overloads(ms: Seq<Entity>, reps: Seq<usize>, r: int) -> nat {
    rep_counts(ms, reps, r, ms.len() as int)
}

proof fn lemma_rep_counts_step(ms: Seq<Entity>, reps: Seq<usize>, r: int, n: int)
    requires
        0 <= n,
    ensures
        rep_counts(ms, reps, r, n + 1) == rep_counts(ms, reps, r, n) + rep_hits(ms, reps, r, n),
    decreases r,
{
    if r > 0 {
        lemma_rep_counts_step(ms, reps, r - 1, n);
    }
}

proof fn lemma_rep_hits_one(ms: Seq<Entity>, reps: Seq<usize>, r: int, j: int, w: int)
    requires
        0 <= w < r <= reps.len(),
        same_group(ms[j], ms[reps[w] as int]),
        forall|a: int, b: int| 0 <= a < b < reps.len() ==> !same_group(
            ms[#[trigger] reps[a] as int],
            ms[#[trigger] reps[b] as int],
        ),
    ensures
        rep_hits(ms, reps, r, j) == 1,
    decreases r,
{
    if w < r - 1 {
        lemma_rep_hits_one(ms, reps, r - 1, j, w);
        assert(!same_group(ms[reps[w] as int], ms[reps[r - 1] as int]));
    } else {
        lemma_rep_hits_zero(ms, reps, r - 1, j, w);
    }
}

proof fn lemma_rep_hits_zero(ms: Seq<Entity>, reps: Seq<usize>, r: int, j: int, w: int)
    requires
        0 <= r <= w < reps.len(),
        same_group(ms[j], ms[reps[w] as int]),
        forall|a: int, b: int| 0 <= a < b < reps.len() ==> !same_group(
            ms[#[trigger] reps[a] as int],
            ms[#[trigger] reps[b] as int],
        ),
    ensures
        rep_hits(ms, reps, r, j) == 0,
    decreases r,
{
    if r > 0 {
        lemma_rep_hits_zero(ms, reps, r - 1, j, w);
        assert(!same_group(ms[reps[r - 1] as int], ms[reps[w] as int]));
    }
}

/// Law of the `where` report: the overload counts of the listed
/// definitions add up to the number of candidate definitions.
pub proof fn law_overloads_add_up(es: Seq<Entity>, symbol: Seq<char>, include_tests: bool)
    requires
        es.len() <= usize::MAX,
    ensures
        ({
            let ms = candidates(es, symbol, include_tests);
            let reps = positions(ms.len() as int, first_of_group(ms));
            total_overloads(ms, reps, reps.len() as int) == ms.len()
        }),
{
    law_definitions_cover_candidates_once(es, symbol, include_tests);
    let ms = candidates(es, symbol, include_tests);
    let reps = positions(ms.len() as int, first_of_group(ms));
    lemma_rep_counts_upto(ms, reps, ms.len() as int);
}

/// No two representatives are in one group.
pub open spec fn distinct_reps(ms: Seq<Entity>, reps: Seq<usize>) -> bool {
    forall|a: int, b: int| 0 <= a < b < reps.len() ==> !same_group(
        ms[#[trigger] reps[a] as int],
        ms[#[trigger] reps[b] as int],
    )
}

/// Every entry is in the group of some representative.
pub open spec fn covering_reps(ms: Seq<Entity>, reps: Seq<usize>) -> bool {
    forall|j: int| #![trigger ms[j]] 0 <= j < ms.len() ==> exists|k: int| 0 <= k < reps.len() && same_group(
        ms[#[trigger] reps[k] as int],
        ms[j],
    )
}

proof fn lemma_rep_counts_upto(ms: Seq<Entity>, reps: Seq<usize>, n: int)
    requires
        0 <= n <= ms.len(),
        distinct_reps(ms, reps),
        covering_reps(ms, reps),
    ensures
        rep_counts(ms, reps, reps.len() as int, n) == n,
    decreases n,
{
    let r = reps.len() as int;
    if n == 0 {
        lemma_rep_counts_zero(ms, reps, r);
    } else {
        lemma_rep_counts_upto(ms, reps, n - 1);
        lemma_rep_counts_step(ms, reps, r, n - 1);
        assert(ms[n - 1] == ms[n - 1]);
        let w = choose|k: int| 0 <= k < reps.len() && same_group(ms[#[trigger] reps[k] as int], ms[n - 1]);
        lemma_rep_hits_one(ms, reps, r, n - 1, w);
    }
}

proof fn lemma_rep_counts_zero(ms: Seq<Entity>, reps: Seq<usize>, r: int)
    ensures
        rep_counts(ms, reps, r, 0) == 0,
    decreases r,
{
    if r > 0 {
        lemma_rep_counts_zero(ms, reps, r - 1);
    }
}

/// Definition kinds are exactly the listed ones: an entity of a listed
/// kind (class, struct, enum, trait, interface, function, fn, method,
/// type alias, module) whose last name segment is the symbol, outside
/// tests unless they are included, gives a definition with its file,
/// parent and kind; and every entity behind a definition has a listed
/// kind.
pub proof fn law_listed_kinds_are_found(es: Seq<Entity>, symbol: Seq<char>, include_tests: bool, j: int)
    requires
        es.len() <= usize::MAX,
        0 <= j < es.len(),
        after_last_sep(es[j].name@) == symbol,
        (es[j].kind@ == "class"@ || es[j].kind@ == "struct"@ || es[j].kind@ == "enum"@ || es[j].kind@ == "trait"@ || es[j].kind@ == "interface"@
            || es[j].kind@ == "function"@ || es[j].kind@ == "fn"@ || es[j].kind@ == "method"@ || es[j].kind@ == "type_alias"@ || es[j].kind@ == "module"@),
        include_tests || !spec_is_test_path(es[j].file@),
    ensures
        ({
            let ms = candidates(es, symbol, include_tests);
            let reps = positions(ms.len() as int, first_of_group(ms));
            &&& exists|k: int|
                0 <= k < reps.len() && (#[trigger] ms[reps[k] as int]).file@ == es[j].file@ && ms[reps[k] as int].kind@
                    == es[j].kind@ && opt_view(ms[reps[k] as int].parent) == opt_view(es[j].parent)
            &&& forall|t: int| #![trigger ms[t]] 0 <= t < ms.len() ==> (ms[t].kind@ == "class"@ || ms[t].kind@ == "struct"@ || ms[t].kind@ == "enum"@ || ms[t].kind@ == "trait"@ || ms[t].kind@ == "interface"@
            || ms[t].kind@ == "function"@ || ms[t].kind@ == "fn"@ || ms[t].kind@ == "method"@ || ms[t].kind@ == "type_alias"@ || ms[t].kind@ == "module"@)
        }),
{
    reveal_strlit("class");
    reveal_strlit("struct");
    reveal_strlit("enum");
    reveal_strlit("trait");
    reveal_strlit("interface");
    reveal_strlit("function");
    reveal_strlit("fn");
    reveal_strlit("method");
    reveal_strlit("type_alias");
    reveal_strlit("module");
    let p = candidate_at(es, symbol, include_tests);
    assert(is_definition_kind(es[j].kind@));
    assert(candidate(es[j], symbol, include_tests));
    assert(p(j));
    lemma_positions_contains(es.len() as int, p, j);
    lemma_positions_bounded(es.len() as int, p);
    let ps = positions(es.len() as int, p);
    let ms = candidates(es, symbol, include_tests);
    let w = choose|w: int| 0 <= w < ps.len() && ps[w] == j as usize;
    assert(ms[w] == es[j]);
    law_definitions_cover_candidates_once(es, symbol, include_tests);
    let reps = positions(ms.len() as int, first_of_group(ms));
    assert(exists|k: int| 0 <= k < reps.len() && same_group(ms[#[trigger] reps[k] as int], ms[w]));
    assert forall|t: int| #![trigger ms[t]] 0 <= t < ms.len() implies (ms[t].kind@ == "class"@ || ms[t].kind@ == "struct"@ || ms[t].kind@ == "enum"@ || ms[t].kind@ == "trait"@ || ms[t].kind@ == "interface"@
            || ms[t].kind@ == "function"@ || ms[t].kind@ == "fn"@ || ms[t].kind@ == "method"@ || ms[t].kind@ == "type_alias"@ || ms[t].kind@ == "module"@) by {
        assert(ms[t] == es[ps[t] as int]);
        assert(p(ps[t] as int));
    }
}

} // verus!
