//! In-memory query index over entities and references.
//!
//! Lookups return the matching entities or references, in list order.

use vstd::prelude::*;
use crate::entity::{Entity, Reference};

verus! {

/// The positions `j < n` (in increasing order) that satisfy `p`.
pub open spec fn positions(n: int, p: spec_fn(int) -> bool) -> Seq<usize>
    decreases n,
{
    if n <= 0 {
        Seq::empty()
    } else if p(n - 1) {
        positions(n - 1, p).push((n - 1) as usize)
    } else {
        positions(n - 1, p)
    }
}

/// `r` holds exactly the items of `items` at the positions `ps`, in order.
pub open spec fn picked<T>(r: Seq<&T>, items: Seq<T>, ps: Seq<usize>) -> bool {
    &&& r.len() == ps.len()
    &&& forall|k: int| 0 <= k < ps.len() ==> *r[k] == items[ps[k] as int]
}

/// Every position is below `n`, satisfies `p`, and the positions are
/// strictly increasing.
pub proof fn lemma_positions_bounded(n: int, p: spec_fn(int) -> bool)
    requires
        n <= usize::MAX,
    ensures
        forall|j: int|
            0 <= j < positions(n, p).len() ==> (#[trigger] positions(n, p)[j] as int) < n && 0
                <= positions(n, p)[j] && p(positions(n, p)[j] as int),
        forall|i: int, j: int|
            0 <= i < j < positions(n, p).len() ==> (#[trigger] positions(n, p)[i]) < (
            #[trigger] positions(n, p)[j]),
        positions(n, p).len() <= if n > 0 {
            n
        } else {
            0
        },
    decreases n,
{
    if n > 0 {
        lemma_positions_bounded(n - 1, p);
        let q = positions(n - 1, p);
        if p(n - 1) {
            assert forall|j: int| 0 <= j < positions(n, p).len() implies (#[trigger] positions(
                n,
                p,
            )[j] as int) < n && 0 <= positions(n, p)[j] && p(positions(n, p)[j] as int) by {
                if j < q.len() {
                    assert(positions(n, p)[j] == q[j]);
                }
            }
            assert forall|i: int, j: int|
                0 <= i < j < positions(n, p).len() implies (#[trigger] positions(n, p)[i]) < (
            #[trigger] positions(n, p)[j]) by {
                assert(positions(n, p)[i] == q[i]);
                if j < q.len() {
                    assert(positions(n, p)[j] == q[j]);
                }
            }
        }
    }
}

/// A position below `n` that satisfies `p` is among the positions.
pub proof fn lemma_positions_contains(n: int, p: spec_fn(int) -> bool, k: int)
    requires
        0 <= k < n <= usize::MAX,
        p(k),
    ensures
        positions(n, p).contains(k as usize),
    decreases n,
{
    if k < n - 1 {
        lemma_positions_contains(n - 1, p, k);
        let q = positions(n - 1, p);
        let w = choose|w: int| 0 <= w < q.len() && q[w] == k as usize;
        if p(n - 1) {
            assert(positions(n, p)[w] == k as usize);
        }
    } else {
        assert(positions(n, p).last() == k as usize);
    }
}

pub open spec fn entity_named(es: Seq<Entity>, name: Seq<char>) -> spec_fn(int) -> bool {
    |j: int| es[j].name@ == name
}

pub open spec fn entity_in_file(es: Seq<Entity>, file: Seq<char>) -> spec_fn(int) -> bool {
    |j: int| es[j].file@ == file
}

pub open spec fn ref_to(rs: Seq<Reference>, name: Seq<char>) -> spec_fn(int) -> bool {
    |j: int| rs[j].name@ == name
}

pub open spec fn ref_from(rs: Seq<Reference>, caller: Seq<char>) -> spec_fn(int) -> bool {
    |j: int| rs[j].caller matches Some(c) && c@ == caller
}

pub open spec fn ref_in_file(rs: Seq<Reference>, file: Seq<char>) -> spec_fn(int) -> bool {
    |j: int| rs[j].file@ == file
}

/// A file-level search hit.
#[derive(Debug)]
pub struct FileHit {
    pub path: String,
    pub lang: Option<String>,
    pub entity_count: usize,
}

/// One search hit: an entity, or a file.
pub enum SearchHit<'a> {
    Symbol(&'a Entity),
    File(FileHit),
}

/// In-memory index over entities and references.
pub struct Index {
    pub entities: Vec<Entity>,
    pub references: Vec<Reference>,
}

impl Index {
    /// An index over the given entities and references.
    pub fn build(entities: Vec<Entity>, references: Vec<Reference>) -> (r: Index)
        ensures
            r.entities@ == entities@,
            r.references@ == references@,
    {
        Index { entities, references }
    }

    /// `(entities, references)` counts.
    pub fn len(&self) -> (r: (usize, usize))
        ensures
            r.0 == self.entities@.len(),
            r.1 == self.references@.len(),
    {
        (self.entities.len(), self.references.len())
    }

    /// No entities and no references.
    pub fn is_empty(&self) -> (r: bool)
        ensures
            r == (self.entities@.len() == 0 && self.references@.len() == 0),
    {
        self.entities.len() == 0 && self.references.len() == 0
    }

    /// The entities named exactly `name`.
    pub fn entities_by_name<'a>(&'a self, name: &str) -> (r: Vec<&'a Entity>)
        ensures
            picked(r@, self.entities@, positions(self.entities@.len() as int, entity_named(self.entities@, name@))),
    {
        let mut r: Vec<&'a Entity> = Vec::new();
        let mut i: usize = 0;
        while i < self.entities.len()
            invariant
                i <= self.entities@.len(),
                picked(r@, self.entities@, positions(i as int, entity_named(self.entities@, name@))),
            decreases self.entities@.len() - i,
        {
            if crate::text::str_eq(self.entities[i].name.as_str(), name) {
                r.push(&self.entities[i]);
            }
            i += 1;
        }
        r
    }

    /// The entities of `file`.
    pub fn entities_by_file<'a>(&'a self, file: &str) -> (r: Vec<&'a Entity>)
        ensures
            picked(r@, self.entities@, positions(self.entities@.len() as int, entity_in_file(self.entities@, file@))),
    {
        let mut r: Vec<&'a Entity> = Vec::new();
        let mut i: usize = 0;
        while i < self.entities.len()
            invariant
                i <= self.entities@.len(),
                picked(r@, self.entities@, positions(i as int, entity_in_file(self.entities@, file@))),
            decreases self.entities@.len() - i,
        {
            if crate::text::str_eq(self.entities[i].file.as_str(), file) {
                r.push(&self.entities[i]);
            }
            i += 1;
        }
        r
    }

    /// The references whose target is `name` (its callers).
    pub fn refs_to<'a>(&'a self, name: &str) -> (r: Vec<&'a Reference>)
        ensures
            picked(r@, self.references@, positions(self.references@.len() as int, ref_to(self.references@, name@))),
    {
        let mut r: Vec<&'a Reference> = Vec::new();
        let mut i: usize = 0;
        while i < self.references.len()
            invariant
                i <= self.references@.len(),
                picked(r@, self.references@, positions(i as int, ref_to(self.references@, name@))),
            decreases self.references@.len() - i,
        {
            if crate::text::str_eq(self.references[i].name.as_str(), name) {
                r.push(&self.references[i]);
            }
            i += 1;
        }
        r
    }

    /// The references made from inside `caller` (its callees).
    /// Top-level references (no caller) never match.
    pub fn refs_from<'a>(&'a self, caller: &str) -> (r: Vec<&'a Reference>)
        ensures
            picked(r@, self.references@, positions(self.references@.len() as int, ref_from(self.references@, caller@))),
    {
        let mut r: Vec<&'a Reference> = Vec::new();
        let mut i: usize = 0;
        while i < self.references.len()
            invariant
                i <= self.references@.len(),
                picked(r@, self.references@, positions(i as int, ref_from(self.references@, caller@))),
            decreases self.references@.len() - i,
        {
            let hit = match &self.references[i].caller {
                Some(c) => crate::text::str_eq(c.as_str(), caller),
                None => false,
            };
            if hit {
                r.push(&self.references[i]);
            }
            i += 1;
        }
        r
    }

    /// The references that occur in `file`.
    pub fn refs_in_file<'a>(&'a self, file: &str) -> (r: Vec<&'a Reference>)
        ensures
            picked(r@, self.references@, positions(self.references@.len() as int, ref_in_file(self.references@, file@))),
    {
        let mut r: Vec<&'a Reference> = Vec::new();
        let mut i: usize = 0;
        while i < self.references.len()
            invariant
                i <= self.references@.len(),
                picked(r@, self.references@, positions(i as int, ref_in_file(self.references@, file@))),
            decreases self.references@.len() - i,
        {
            if crate::text::str_eq(self.references[i].file.as_str(), file) {
                r.push(&self.references[i]);
            }
            i += 1;
        }
        r
    }
}

/// `r` kept when no kind is asked for, or when it is of that kind.
pub open spec fn kind_matches(r: Reference, kind: Option<Seq<char>>) -> bool {
    match kind {
        Some(k) => r.ref_kind@ == k,
        None => true,
    }
}

/// An optional kind as a value.
pub open spec fn kind_view(kind: Option<&str>) -> Option<Seq<char>> {
    match kind {
        Some(k) => Some(k@),
        None => None,
    }
}

/// The references of `refs` of kind `kind` (all of them when `None`), in
/// order.
pub fn of_kind<'a>(refs: Vec<&'a Reference>, kind: Option<&str>) -> (r: Vec<&'a Reference>)
    ensures
        r@ == refs@.filter(|x: &'a Reference| kind_matches(*x, kind_view(kind))),
{
    let mut out: Vec<&'a Reference> = Vec::new();
    let mut i: usize = 0;
    while i < refs.len()
        invariant
            i <= refs@.len(),
            out@ == refs@.take(i as int).filter(|x: &'a Reference| kind_matches(*x, kind_view(kind))),
        decreases refs@.len() - i,
    {
        proof {
            reveal(Seq::filter);
            assert(refs@.take(i + 1).drop_last() == refs@.take(i as int));
        }
        let keep = match kind {
            Some(k) => crate::text::str_eq(refs[i].ref_kind.as_str(), k),
            None => true,
        };
        if keep {
            out.push(refs[i]);
        }
        i += 1;
    }
    assert(refs@.take(refs@.len() as int) == refs@);
    out
}

} // verus!
