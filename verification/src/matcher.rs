//! Pairing the entities of two versions of a code base.
//!
//! Layered greedy strategy:
//! 1. same file and name: an exact match (dropped when the raw text hash is
//!    unchanged);
//! 2. same name in another file: a move;
//! 3. same normalised body hash under another name: a rename (imports and
//!    entities without a body hash take no part);
//! 4. whatever is left over in the old version was removed, in the new one
//!    added.
//!
//! Where several old entities share the lookup key of a pass, the one that
//! comes last in the old list is the candidate, and the first new entity
//! that asks for it takes it.

use vstd::prelude::*;
use crate::entity::{Entity, same_entity};

verus! {

/// How an old and a new entity were paired.
#[derive(Debug, Clone, Copy, PartialEq, Eq, Structural)]
pub enum MatchKind {
    ExactMatch,
    Moved,
    Renamed,
    Added,
    Removed,
}

/// One pairing, by position in the old and new entity lists.
#[derive(Debug, Clone, Copy)]
pub struct IndexMatch {
    pub old: Option<usize>,
    pub new: Option<usize>,
    pub kind: MatchKind,
}

/// One pairing, with the entities themselves.
#[derive(Debug)]
pub struct EntityMatch {
    pub old: Option<Entity>,
    pub new: Option<Entity>,
    pub match_kind: MatchKind,
}

/// The progress of the greedy matcher: which old and new positions are
/// taken, and the pairings recorded so far.
pub struct MatchState {
    pub used_old: Seq<bool>,
    pub used_new: Seq<bool>,
    pub out: Seq<IndexMatch>,
}

pub open spec fn same_key(a: Entity, b: Entity) -> bool {
    a.file@ == b.file@ && a.name@ == b.name@
}

pub open spec fn is_import(e: Entity) -> bool {
    e.kind@ == "import"@
}

/// Last position below `n` whose old entity has the file and name of `e`
/// (-1 when there is none).
pub open spec fn last_same_key(old: Seq<Entity>, e: Entity, n: int) -> int
    decreases n,
{
    if n <= 0 {
        -1
    } else if same_key(old[n - 1], e) {
        n - 1
    } else {
        last_same_key(old, e, n - 1)
    }
}

/// Last position below `n` not taken in `used` whose old entity is named
/// like `e` (-1 when there is none).
pub open spec fn last_free_same_name(old: Seq<Entity>, used: Seq<bool>, e: Entity, n: int) -> int
    decreases n,
{
    if n <= 0 {
        -1
    } else if !used[n - 1] && old[n - 1].name@ == e.name@ {
        n - 1
    } else {
        last_free_same_name(old, used, e, n - 1)
    }
}

/// An old entity can be the source of a rename when it is free, is no
/// import, and has a body hash.
pub open spec fn rename_source(o: Entity, free: bool) -> bool {
    free && !is_import(o) && o.body_hash is Some
}

/// Last position below `n` that can be a rename source and whose body hash
/// equals that of `e` (-1 when there is none).
pub open spec fn last_same_body(old: Seq<Entity>, used: Seq<bool>, e: Entity, n: int) -> int
    decreases n,
{
    if n <= 0 {
        -1
    } else if rename_source(old[n - 1], !used[n - 1]) && opt_text(old[n - 1].body_hash)
        == opt_text(e.body_hash) {
        n - 1
    } else {
        last_same_body(old, used, e, n - 1)
    }
}

pub open spec fn opt_text(o: Option<String>) -> Option<Seq<char>> {
    match o {
        Some(s) => Some(s@),
        None => None,
    }
}

pub open spec fn initial_state(n_old: nat, n_new: nat) -> MatchState {
    MatchState {
        used_old: Seq::new(n_old, |i: int| false),
        used_new: Seq::new(n_new, |i: int| false),
        out: Seq::empty(),
    }
}

/// Pairs `oi` with `ni`, optionally recording the pairing.
pub open spec fn take_pair(s: MatchState, oi: int, ni: int, record: bool, kind: MatchKind) -> MatchState {
    MatchState {
        used_old: s.used_old.update(oi, true),
        used_new: s.used_new.update(ni, true),
        out: if record {
            s.out.push(IndexMatch { old: Some(oi as usize), new: Some(ni as usize), kind })
        } else {
            s.out
        },
    }
}

/// Pass 1 applied to new positions `0..n`.
pub open spec fn pass_exact(old: Seq<Entity>, new: Seq<Entity>, n: int) -> MatchState
    decreases n,
{
    if n <= 0 {
        initial_state(old.len(), new.len())
    } else {
        let s = pass_exact(old, new, n - 1);
        let ni = n - 1;
        let oi = last_same_key(old, new[ni], old.len() as int);
        if oi >= 0 && !s.used_old[oi] {
            take_pair(s, oi, ni, old[oi].struct_hash@ != new[ni].struct_hash@, MatchKind::ExactMatch)
        } else {
            s
        }
    }
}

/// Pass 2 applied to new positions `0..n`, over the old positions left
/// free by pass 1.
pub open spec fn pass_moved(old: Seq<Entity>, new: Seq<Entity>, n: int) -> MatchState
    decreases n,
{
    let base = pass_exact(old, new, new.len() as int);
    if n <= 0 {
        base
    } else {
        let s = pass_moved(old, new, n - 1);
        let ni = n - 1;
        let oi = last_free_same_name(old, base.used_old, new[ni], old.len() as int);
        if !s.used_new[ni] && oi >= 0 && !s.used_old[oi] {
            take_pair(s, oi, ni, true, MatchKind::Moved)
        } else {
            s
        }
    }
}

/// Pass 3 applied to new positions `0..n`, over the old positions left
/// free by passes 1 and 2.
pub open spec fn pass_renamed(old: Seq<Entity>, new: Seq<Entity>, n: int) -> MatchState
    decreases n,
{
    let base = pass_moved(old, new, new.len() as int);
    if n <= 0 {
        base
    } else {
        let s = pass_renamed(old, new, n - 1);
        let ni = n - 1;
        let oi = last_same_body(old, base.used_old, new[ni], old.len() as int);
        if !s.used_new[ni] && !is_import(new[ni]) && new[ni].body_hash is Some && oi >= 0
            && !s.used_old[oi] {
            take_pair(s, oi, ni, true, MatchKind::Renamed)
        } else {
            s
        }
    }
}

/// Removals for the free old positions in `0..n`, in order.
pub open spec fn removals(used: Seq<bool>, n: int) -> Seq<IndexMatch>
    decreases n,
{
    if n <= 0 {
        Seq::empty()
    } else if !used[n - 1] {
        removals(used, n - 1).push(
            IndexMatch { old: Some((n - 1) as usize), new: None, kind: MatchKind::Removed },
        )
    } else {
        removals(used, n - 1)
    }
}

/// Additions for the free new positions in `0..n`, in order.
pub open spec fn additions(used: Seq<bool>, n: int) -> Seq<IndexMatch>
    decreases n,
{
    if n <= 0 {
        Seq::empty()
    } else if !used[n - 1] {
        additions(used, n - 1).push(
            IndexMatch { old: None, new: Some((n - 1) as usize), kind: MatchKind::Added },
        )
    } else {
        additions(used, n - 1)
    }
}

/// The full result of matching `old` against `new`.
pub open spec fn spec_match(old: Seq<Entity>, new: Seq<Entity>) -> Seq<IndexMatch> {
    let s = pass_renamed(old, new, new.len() as int);
    s.out + removals(s.used_old, old.len() as int) + additions(s.used_new, new.len() as int)
}


fn falses(n: usize) -> (r: Vec<bool>)
    ensures
        r@ == Seq::new(n as nat, |i: int| false),
{
    let mut r: Vec<bool> = Vec::new();
    let mut i: usize = 0;
    while i < n
        invariant
            i <= n,
            r@ == Seq::new(i as nat, |k: int| false),
        decreases n - i,
    {
        r.push(false);
        assert(r@ =~= Seq::new((i + 1) as nat, |k: int| false));
        i += 1;
    }
    r
}

fn copy_bools(v: &Vec<bool>) -> (r: Vec<bool>)
    ensures
        r@ == v@,
{
    let mut r: Vec<bool> = Vec::new();
    let mut i: usize = 0;
    while i < v.len()
        invariant
            i <= v@.len(),
            r@ == v@.take(i as int),
        decreases v@.len() - i,
    {
        r.push(v[i]);
        assert(v@.take(i + 1) == v@.take(i as int).push(v@[i as int]));
        i += 1;
    }
    assert(v@.take(v@.len() as int) == v@);
    r
}

fn find_last_same_key(old: &[Entity], e: &Entity) -> (r: Option<usize>)
    ensures
        match r {
            Some(i) => i < old@.len() && last_same_key(old@, *e, old@.len() as int) == i,
            None => last_same_key(old@, *e, old@.len() as int) == -1,
        },
{
    let mut r: Option<usize> = None;
    let mut i: usize = 0;
    while i < old.len()
        invariant
            i <= old@.len(),
            match r {
                Some(k) => k < i && last_same_key(old@, *e, i as int) == k,
                None => last_same_key(old@, *e, i as int) == -1,
            },
        decreases old@.len() - i,
    {
        if old[i].file == e.file && old[i].name == e.name {
            r = Some(i);
        }
        i += 1;
    }
    r
}

fn find_last_free_same_name(old: &[Entity], used: &Vec<bool>, e: &Entity) -> (r: Option<usize>)
    requires
        used@.len() == old@.len(),
    ensures
        match r {
            Some(i) => i < old@.len() && last_free_same_name(old@, used@, *e, old@.len() as int) == i,
            None => last_free_same_name(old@, used@, *e, old@.len() as int) == -1,
        },
{
    let mut r: Option<usize> = None;
    let mut i: usize = 0;
    while i < old.len()
        invariant
            i <= old@.len(),
            used@.len() == old@.len(),
            match r {
                Some(k) => k < i && last_free_same_name(old@, used@, *e, i as int) == k,
                None => last_free_same_name(old@, used@, *e, i as int) == -1,
            },
        decreases old@.len() - i,
    {
        if !used[i] && old[i].name == e.name {
            r = Some(i);
        }
        i += 1;
    }
    r
}

fn find_last_same_body(old: &[Entity], used: &Vec<bool>, e: &Entity) -> (r: Option<usize>)
    requires
        used@.len() == old@.len(),
    ensures
        match r {
            Some(i) => i < old@.len() && last_same_body(old@, used@, *e, old@.len() as int) == i,
            None => last_same_body(old@, used@, *e, old@.len() as int) == -1,
        },
{
    let mut r: Option<usize> = None;
    let mut i: usize = 0;
    while i < old.len()
        invariant
            i <= old@.len(),
            used@.len() == old@.len(),
            match r {
                Some(k) => k < i && last_same_body(old@, used@, *e, i as int) == k,
                None => last_same_body(old@, used@, *e, i as int) == -1,
            },
        decreases old@.len() - i,
    {
        let o = &old[i];
        let source = !used[i] && !is_import_kind(&o.kind) && o.body_hash.is_some();
        if source && crate::entity::opt_str_eq(&o.body_hash, &e.body_hash) {
            r = Some(i);
        }
        i += 1;
    }
    r
}

fn is_import_kind(k: &String) -> (r: bool)
    ensures
        r == (k@ == "import"@),
{
    crate::text::str_eq(k.as_str(), "import")
}

/// Pairs the entities of `old` with those of `new` (see the module
/// documentation), by position.
pub fn match_entity_indices(old: &[Entity], new: &[Entity]) -> (r: Vec<IndexMatch>)
    ensures
        r@ == spec_match(old@, new@),
{
    let mut used_old = falses(old.len());
    let mut used_new = falses(new.len());
    let mut out: Vec<IndexMatch> = Vec::new();

    // Pass 1: same file and name.
    let mut ni: usize = 0;
    while ni < new.len()
        invariant
            ni <= new@.len(),
            used_old@ == pass_exact(old@, new@, ni as int).used_old,
            used_new@ == pass_exact(old@, new@, ni as int).used_new,
            out@ == pass_exact(old@, new@, ni as int).out,
            used_old@.len() == old@.len(),
            used_new@.len() == new@.len(),
        decreases new@.len() - ni,
    {
        if let Some(oi) = find_last_same_key(old, &new[ni]) {
            if !used_old[oi] {
                used_old.set(oi, true);
                used_new.set(ni, true);
                if old[oi].struct_hash != new[ni].struct_hash {
                    out.push(IndexMatch { old: Some(oi), new: Some(ni), kind: MatchKind::ExactMatch });
                }
            }
        }
        ni += 1;
    }

    // Pass 2: same name in another file, among the old entities left free.
    let free_after_exact = copy_bools(&used_old);
    let mut ni: usize = 0;
    while ni < new.len()
        invariant
            ni <= new@.len(),
            free_after_exact@ == pass_exact(old@, new@, new@.len() as int).used_old,
            used_old@ == pass_moved(old@, new@, ni as int).used_old,
            used_new@ == pass_moved(old@, new@, ni as int).used_new,
            out@ == pass_moved(old@, new@, ni as int).out,
            used_old@.len() == old@.len(),
            used_new@.len() == new@.len(),
            free_after_exact@.len() == old@.len(),
        decreases new@.len() - ni,
    {
        if !used_new[ni] {
            if let Some(oi) = find_last_free_same_name(old, &free_after_exact, &new[ni]) {
                if !used_old[oi] {
                    used_old.set(oi, true);
                    used_new.set(ni, true);
                    out.push(IndexMatch { old: Some(oi), new: Some(ni), kind: MatchKind::Moved });
                }
            }
        }
        ni += 1;
    }

    // Pass 3: same body hash under another name.
    let free_after_moved = copy_bools(&used_old);
    let mut ni: usize = 0;
    while ni < new.len()
        invariant
            ni <= new@.len(),
            free_after_moved@ == pass_moved(old@, new@, new@.len() as int).used_old,
            used_old@ == pass_renamed(old@, new@, ni as int).used_old,
            used_new@ == pass_renamed(old@, new@, ni as int).used_new,
            out@ == pass_renamed(old@, new@, ni as int).out,
            used_old@.len() == old@.len(),
            used_new@.len() == new@.len(),
            free_after_moved@.len() == old@.len(),
        decreases new@.len() - ni,
    {
        let e = &new[ni];
        if !used_new[ni] && !is_import_kind(&e.kind) && e.body_hash.is_some() {
            if let Some(oi) = find_last_same_body(old, &free_after_moved, e) {
                if !used_old[oi] {
                    used_old.set(oi, true);
                    used_new.set(ni, true);
                    out.push(IndexMatch { old: Some(oi), new: Some(ni), kind: MatchKind::Renamed });
                }
            }
        }
        ni += 1;
    }

    // Pass 4: whatever is left.
    let ghost paired = out@;
    let mut oi: usize = 0;
    while oi < old.len()
        invariant
            oi <= old@.len(),
            used_old@.len() == old@.len(),
            out@ == paired + removals(used_old@, oi as int),
        decreases old@.len() - oi,
    {
        if !used_old[oi] {
            out.push(IndexMatch { old: Some(oi), new: None, kind: MatchKind::Removed });
        }
        oi += 1;
    }
    let ghost with_removals = out@;
    let mut ni: usize = 0;
    while ni < new.len()
        invariant
            ni <= new@.len(),
            used_new@.len() == new@.len(),
            out@ == with_removals + additions(used_new@, ni as int),
        decreases new@.len() - ni,
    {
        if !used_new[ni] {
            out.push(IndexMatch { old: None, new: Some(ni), kind: MatchKind::Added });
        }
        ni += 1;
    }
    out
}


/// An old and a new entity with the same file, name and raw text hash:
/// unchanged, so pass 1 pairs them without recording anything.
pub open spec fn unchanged_pair(o: Entity, n: Entity) -> bool {
    same_key(o, n) && o.struct_hash@ == n.struct_hash@
}

pub open spec fn mentions_old(r: Seq<IndexMatch>, oi: int) -> bool {
    exists|k: int| 0 <= k < r.len() && #[trigger] r[k].old == Some(oi as usize)
}

pub open spec fn mentions_new(r: Seq<IndexMatch>, ni: int) -> bool {
    exists|k: int| 0 <= k < r.len() && #[trigger] r[k].new == Some(ni as usize)
}

/// No old and no new position occurs in two pairings.
pub open spec fn each_at_most_once(r: Seq<IndexMatch>) -> bool {
    forall|a: int, b: int|
        0 <= a < r.len() && 0 <= b < r.len() && a != b ==> {
            &&& (r[a].old is Some ==> r[a].old != r[b].old)
            &&& (r[a].new is Some ==> r[a].new != r[b].new)
        }
}

pub open spec fn state_wf(old: Seq<Entity>, new: Seq<Entity>, s: MatchState) -> bool {
    &&& s.used_old.len() == old.len()
    &&& s.used_new.len() == new.len()
    &&& forall|k: int| 0 <= k < s.out.len() ==> {
        &&& (#[trigger] s.out[k]).old is Some
        &&& s.out[k].new is Some
        &&& (s.out[k].old->0 as int) < old.len()
        &&& (s.out[k].new->0 as int) < new.len()
        &&& s.used_old[s.out[k].old->0 as int]
        &&& s.used_new[s.out[k].new->0 as int]
    }
    &&& each_at_most_once(s.out)
    &&& forall|oi: int| 0 <= oi < old.len() && #[trigger] s.used_old[oi] ==>
        mentions_old(s.out, oi) || exists|ni: int| 0 <= ni < new.len() && unchanged_pair(old[oi], #[trigger] new[ni])
    &&& forall|ni: int| 0 <= ni < new.len() && #[trigger] s.used_new[ni] ==>
        mentions_new(s.out, ni) || exists|oi: int| 0 <= oi < old.len() && unchanged_pair(#[trigger] old[oi], new[ni])
}

proof fn lemma_take_pair_wf(old: Seq<Entity>, new: Seq<Entity>, s: MatchState, oi: int, ni: int, record: bool, kind: MatchKind)
    requires
        state_wf(old, new, s),
        old.len() <= usize::MAX,
        new.len() <= usize::MAX,
        0 <= oi < old.len(),
        0 <= ni < new.len(),
        !s.used_old[oi],
        !s.used_new[ni],
        !record ==> unchanged_pair(old[oi], new[ni]),
    ensures
        state_wf(old, new, take_pair(s, oi, ni, record, kind)),
{
    let t = take_pair(s, oi, ni, record, kind);
    assert forall|k: int| 0 <= k < t.out.len() implies {
        &&& (#[trigger] t.out[k]).old is Some
        &&& t.out[k].new is Some
        &&& (t.out[k].old->0 as int) < old.len()
        &&& (t.out[k].new->0 as int) < new.len()
        &&& t.used_old[t.out[k].old->0 as int]
        &&& t.used_new[t.out[k].new->0 as int]
    } by {
        if k < s.out.len() {
            assert(t.out[k] == s.out[k]);
        }
    }
    assert forall|a: int, b: int|
        0 <= a < t.out.len() && 0 <= b < t.out.len() && a != b implies {
            &&& (t.out[a].old is Some ==> t.out[a].old != t.out[b].old)
            &&& (t.out[a].new is Some ==> t.out[a].new != t.out[b].new)
        } by {
        if a < s.out.len() && b < s.out.len() {
            assert(t.out[a] == s.out[a] && t.out[b] == s.out[b]);
        } else if a < s.out.len() {
            assert(t.out[a] == s.out[a]);
            assert(s.used_old[s.out[a].old->0 as int]);
        } else if b < s.out.len() {
            assert(t.out[b] == s.out[b]);
            assert(s.used_old[s.out[b].old->0 as int]);
            assert(s.used_new[s.out[b].new->0 as int]);
        }
    }
    assert forall|o: int| 0 <= o < old.len() && #[trigger] t.used_old[o] implies
        mentions_old(t.out, o) || exists|n: int| 0 <= n < new.len() && unchanged_pair(old[o], #[trigger] new[n]) by {
        if o == oi {
            if record {
                assert(t.out[t.out.len() - 1].old == Some(oi as usize));
            } else {
                assert(unchanged_pair(old[oi], new[ni]));
            }
        } else {
            assert(s.used_old[o]);
            if mentions_old(s.out, o) {
                let k = choose|k: int| 0 <= k < s.out.len() && #[trigger] s.out[k].old == Some(o as usize);
                assert(t.out[k] == s.out[k]);
            }
        }
    }
    assert forall|n: int| 0 <= n < new.len() && #[trigger] t.used_new[n] implies
        mentions_new(t.out, n) || exists|o: int| 0 <= o < old.len() && unchanged_pair(#[trigger] old[o], new[n]) by {
        if n == ni {
            if record {
                assert(t.out[t.out.len() - 1].new == Some(ni as usize));
            } else {
                assert(unchanged_pair(old[oi], new[ni]));
            }
        } else {
            assert(s.used_new[n]);
            if mentions_new(s.out, n) {
                let k = choose|k: int| 0 <= k < s.out.len() && #[trigger] s.out[k].new == Some(n as usize);
                assert(t.out[k] == s.out[k]);
            }
        }
    }
}

proof fn lemma_last_same_key_range(old: Seq<Entity>, e: Entity, n: int)
    requires
        0 <= n <= old.len(),
    ensures
        -1 <= last_same_key(old, e, n) < n,
        last_same_key(old, e, n) >= 0 ==> same_key(old[last_same_key(old, e, n)], e),
    decreases n,
{
    if n > 0 {
        lemma_last_same_key_range(old, e, n - 1);
    }
}

proof fn lemma_last_free_same_name_range(old: Seq<Entity>, used: Seq<bool>, e: Entity, n: int)
    requires
        0 <= n <= old.len(),
    ensures
        -1 <= last_free_same_name(old, used, e, n) < n,
        last_free_same_name(old, used, e, n) >= 0 ==> old[last_free_same_name(old, used, e, n)].name@ == e.name@,
    decreases n,
{
    if n > 0 {
        lemma_last_free_same_name_range(old, used, e, n - 1);
    }
}

proof fn lemma_last_same_body_range(old: Seq<Entity>, used: Seq<bool>, e: Entity, n: int)
    requires
        0 <= n <= old.len(),
    ensures
        -1 <= last_same_body(old, used, e, n) < n,
        last_same_body(old, used, e, n) >= 0 ==> {
            let o = old[last_same_body(old, used, e, n)];
            &&& !is_import(o)
            &&& o.body_hash is Some
            &&& opt_text(o.body_hash) == opt_text(e.body_hash)
        },
    decreases n,
{
    if n > 0 {
        lemma_last_same_body_range(old, used, e, n - 1);
    }
}

proof fn lemma_pass_exact_wf(old: Seq<Entity>, new: Seq<Entity>, n: int)
    requires
        0 <= n <= new.len(),
        old.len() <= usize::MAX,
        new.len() <= usize::MAX,
    ensures
        state_wf(old, new, pass_exact(old, new, n)),
        forall|j: int| n <= j < new.len() ==> !#[trigger] pass_exact(old, new, n).used_new[j],
    decreases n,
{
    if n <= 0 {
        let s = initial_state(old.len(), new.len());
        assert(s.out.len() == 0);
    } else {
        lemma_pass_exact_wf(old, new, n - 1);
        let s = pass_exact(old, new, n - 1);
        let ni = n - 1;
        let oi = last_same_key(old, new[ni], old.len() as int);
        lemma_last_same_key_range(old, new[ni], old.len() as int);
        if oi >= 0 && !s.used_old[oi] {
            lemma_take_pair_wf(old, new, s, oi, ni, old[oi].struct_hash@ != new[ni].struct_hash@, MatchKind::ExactMatch);
        }
    }
}

proof fn lemma_pass_moved_wf(old: Seq<Entity>, new: Seq<Entity>, n: int)
    requires
        0 <= n <= new.len(),
        old.len() <= usize::MAX,
        new.len() <= usize::MAX,
    ensures
        state_wf(old, new, pass_moved(old, new, n)),
    decreases n,
{
    if n <= 0 {
        lemma_pass_exact_wf(old, new, new.len() as int);
    } else {
        lemma_pass_moved_wf(old, new, n - 1);
        let base = pass_exact(old, new, new.len() as int);
        let s = pass_moved(old, new, n - 1);
        let ni = n - 1;
        let oi = last_free_same_name(old, base.used_old, new[ni], old.len() as int);
        lemma_last_free_same_name_range(old, base.used_old, new[ni], old.len() as int);
        if !s.used_new[ni] && oi >= 0 && !s.used_old[oi] {
            lemma_take_pair_wf(old, new, s, oi, ni, true, MatchKind::Moved);
        }
    }
}

proof fn lemma_pass_renamed_wf(old: Seq<Entity>, new: Seq<Entity>, n: int)
    requires
        0 <= n <= new.len(),
        old.len() <= usize::MAX,
        new.len() <= usize::MAX,
    ensures
        state_wf(old, new, pass_renamed(old, new, n)),
    decreases n,
{
    if n <= 0 {
        lemma_pass_moved_wf(old, new, new.len() as int);
    } else {
        lemma_pass_renamed_wf(old, new, n - 1);
        let base = pass_moved(old, new, new.len() as int);
        let s = pass_renamed(old, new, n - 1);
        let ni = n - 1;
        let oi = last_same_body(old, base.used_old, new[ni], old.len() as int);
        lemma_last_same_body_range(old, base.used_old, new[ni], old.len() as int);
        if !s.used_new[ni] && !is_import(new[ni]) && new[ni].body_hash is Some && oi >= 0
            && !s.used_old[oi] {
            lemma_take_pair_wf(old, new, s, oi, ni, true, MatchKind::Renamed);
        }
    }
}


proof fn lemma_removals(used: Seq<bool>, n: int)
    requires
        0 <= n <= used.len(),
        used.len() <= usize::MAX,
    ensures
        forall|k: int| 0 <= k < removals(used, n).len() ==> {
            &&& (#[trigger] removals(used, n)[k]).new is None
            &&& removals(used, n)[k].old is Some
            &&& (removals(used, n)[k].old->0 as int) < n
            &&& !used[removals(used, n)[k].old->0 as int]
        },
        each_at_most_once(removals(used, n)),
        forall|j: int| 0 <= j < n && !used[j] ==> mentions_old(removals(used, n), j),
    decreases n,
{
    if n > 0 {
        lemma_removals(used, n - 1);
        let p = removals(used, n - 1);
        let r = removals(used, n);
        if !used[n - 1] {
            assert forall|j: int| 0 <= j < n && !used[j] implies mentions_old(r, j) by {
                if j == n - 1 {
                    assert(r[r.len() - 1].old == Some(j as usize));
                } else {
                    let k = choose|k: int| 0 <= k < p.len() && #[trigger] p[k].old == Some(j as usize);
                    assert(r[k] == p[k]);
                }
            }
            assert forall|a: int, b: int| 0 <= a < r.len() && 0 <= b < r.len() && a != b implies {
                &&& (r[a].old is Some ==> r[a].old != r[b].old)
                &&& (r[a].new is Some ==> r[a].new != r[b].new)
            } by {
                if a < p.len() && b < p.len() {
                    assert(r[a] == p[a] && r[b] == p[b]);
                } else if a < p.len() {
                    assert(r[a] == p[a]);
                } else {
                    assert(r[b] == p[b]);
                }
            }
        }
    }
}

proof fn lemma_additions(used: Seq<bool>, n: int)
    requires
        0 <= n <= used.len(),
        used.len() <= usize::MAX,
    ensures
        forall|k: int| 0 <= k < additions(used, n).len() ==> {
            &&& (#[trigger] additions(used, n)[k]).old is None
            &&& additions(used, n)[k].new is Some
            &&& (additions(used, n)[k].new->0 as int) < n
            &&& !used[additions(used, n)[k].new->0 as int]
        },
        each_at_most_once(additions(used, n)),
        forall|j: int| 0 <= j < n && !used[j] ==> mentions_new(additions(used, n), j),
    decreases n,
{
    if n > 0 {
        lemma_additions(used, n - 1);
        let p = additions(used, n - 1);
        let r = additions(used, n);
        if !used[n - 1] {
            assert forall|j: int| 0 <= j < n && !used[j] implies mentions_new(r, j) by {
                if j == n - 1 {
                    assert(r[r.len() - 1].new == Some(j as usize));
                } else {
                    let k = choose|k: int| 0 <= k < p.len() && #[trigger] p[k].new == Some(j as usize);
                    assert(r[k] == p[k]);
                }
            }
            assert forall|a: int, b: int| 0 <= a < r.len() && 0 <= b < r.len() && a != b implies {
                &&& (r[a].old is Some ==> r[a].old != r[b].old)
                &&& (r[a].new is Some ==> r[a].new != r[b].new)
            } by {
                if a < p.len() && b < p.len() {
                    assert(r[a] == p[a] && r[b] == p[b]);
                } else if a < p.len() {
                    assert(r[a] == p[a]);
                } else {
                    assert(r[b] == p[b]);
                }
            }
        }
    }
}

/// What a pairing of each kind has in common: exact matches share file
/// and name and differ in raw text hash; moves share the name; renames
/// share a body hash and involve no import; additions have no old side,
/// removals no new side, and the three pairings have both.
pub open spec fn kind_agrees(old: Seq<Entity>, new: Seq<Entity>, m: IndexMatch) -> bool {
    match m.kind {
        MatchKind::ExactMatch => m.old matches Some(o) && m.new matches Some(n) && same_key(
            old[o as int],
            new[n as int],
        ) && old[o as int].struct_hash@ != new[n as int].struct_hash@,
        MatchKind::Moved => m.old matches Some(o) && m.new matches Some(n) && old[o as int].name@
            == new[n as int].name@,
        MatchKind::Renamed => m.old matches Some(o) && m.new matches Some(n) && !is_import(old[o as int])
            && !is_import(new[n as int]) && old[o as int].body_hash is Some && opt_text(old[o as int].body_hash)
            == opt_text(new[n as int].body_hash),
        MatchKind::Added => m.old is None && m.new is Some,
        MatchKind::Removed => m.old is Some && m.new is None,
    }
}

pub open spec fn all_agree(old: Seq<Entity>, new: Seq<Entity>, r: Seq<IndexMatch>) -> bool {
    forall|k: int| 0 <= k < r.len() ==> kind_agrees(old, new, #[trigger] r[k])
}

proof fn lemma_pass_exact_agree(old: Seq<Entity>, new: Seq<Entity>, n: int)
    requires
        0 <= n <= new.len(),
        old.len() <= usize::MAX,
        new.len() <= usize::MAX,
    ensures
        all_agree(old, new, pass_exact(old, new, n).out),
    decreases n,
{
    if n > 0 {
        lemma_pass_exact_agree(old, new, n - 1);
        lemma_pass_exact_wf(old, new, n - 1);
        let s = pass_exact(old, new, n - 1);
        let ni = n - 1;
        let oi = last_same_key(old, new[ni], old.len() as int);
        lemma_last_same_key_range(old, new[ni], old.len() as int);
        if oi >= 0 && !s.used_old[oi] {
            let t = pass_exact(old, new, n);
            assert forall|k: int| 0 <= k < t.out.len() implies kind_agrees(old, new, #[trigger] t.out[k]) by {
                if k < s.out.len() {
                    assert(t.out[k] == s.out[k]);
                }
            }
        }
    }
}

proof fn lemma_pass_moved_agree(old: Seq<Entity>, new: Seq<Entity>, n: int)
    requires
        0 <= n <= new.len(),
        old.len() <= usize::MAX,
        new.len() <= usize::MAX,
    ensures
        all_agree(old, new, pass_moved(old, new, n).out),
    decreases n,
{
    if n <= 0 {
        lemma_pass_exact_agree(old, new, new.len() as int);
    } else {
        lemma_pass_moved_agree(old, new, n - 1);
        lemma_pass_moved_wf(old, new, n - 1);
        let base = pass_exact(old, new, new.len() as int);
        let s = pass_moved(old, new, n - 1);
        let ni = n - 1;
        let oi = last_free_same_name(old, base.used_old, new[ni], old.len() as int);
        lemma_last_free_same_name_range(old, base.used_old, new[ni], old.len() as int);
        if !s.used_new[ni] && oi >= 0 && !s.used_old[oi] {
            let t = pass_moved(old, new, n);
            assert forall|k: int| 0 <= k < t.out.len() implies kind_agrees(old, new, #[trigger] t.out[k]) by {
                if k < s.out.len() {
                    assert(t.out[k] == s.out[k]);
                }
            }
        }
    }
}

proof fn lemma_pass_renamed_agree(old: Seq<Entity>, new: Seq<Entity>, n: int)
    requires
        0 <= n <= new.len(),
        old.len() <= usize::MAX,
        new.len() <= usize::MAX,
    ensures
        all_agree(old, new, pass_renamed(old, new, n).out),
    decreases n,
{
    if n <= 0 {
        lemma_pass_moved_agree(old, new, new.len() as int);
    } else {
        lemma_pass_renamed_agree(old, new, n - 1);
        lemma_pass_renamed_wf(old, new, n - 1);
        let base = pass_moved(old, new, new.len() as int);
        let s = pass_renamed(old, new, n - 1);
        let ni = n - 1;
        let oi = last_same_body(old, base.used_old, new[ni], old.len() as int);
        lemma_last_same_body_range(old, base.used_old, new[ni], old.len() as int);
        if !s.used_new[ni] && !is_import(new[ni]) && new[ni].body_hash is Some && oi >= 0
            && !s.used_old[oi] {
            let t = pass_renamed(old, new, n);
            assert forall|k: int| 0 <= k < t.out.len() implies kind_agrees(old, new, #[trigger] t.out[k]) by {
                if k < s.out.len() {
                    assert(t.out[k] == s.out[k]);
                }
            }
        }
    }
}

proof fn lemma_removals_agree(old: Seq<Entity>, new: Seq<Entity>, used: Seq<bool>, n: int)
    ensures
        all_agree(old, new, removals(used, n)),
    decreases n,
{
    if n > 0 {
        lemma_removals_agree(old, new, used, n - 1);
        let r = removals(used, n);
        let p = removals(used, n - 1);
        if !used[n - 1] {
            assert forall|k: int| 0 <= k < r.len() implies kind_agrees(old, new, #[trigger] r[k]) by {
                if k < p.len() {
                    assert(r[k] == p[k]);
                }
            }
        }
    }
}

proof fn lemma_additions_agree(old: Seq<Entity>, new: Seq<Entity>, used: Seq<bool>, n: int)
    ensures
        all_agree(old, new, additions(used, n)),
    decreases n,
{
    if n > 0 {
        lemma_additions_agree(old, new, used, n - 1);
        let r = additions(used, n);
        let p = additions(used, n - 1);
        if !used[n - 1] {
            assert forall|k: int| 0 <= k < r.len() implies kind_agrees(old, new, #[trigger] r[k]) by {
                if k < p.len() {
                    assert(r[k] == p[k]);
                }
            }
        }
    }
}

/// Law of the matcher: every pairing agrees with its kind. Exact matches
/// share file and name and differ in raw text hash; moves share the name;
/// renames share a body hash and involve no import; a match is an
/// addition exactly when it has no old side, and a removal exactly when
/// it has no new side.
pub proof fn law_match_kinds_agree(old: Seq<Entity>, new: Seq<Entity>)
    requires
        old.len() <= usize::MAX,
        new.len() <= usize::MAX,
    ensures
        all_agree(old, new, spec_match(old, new)),
        forall|k: int| 0 <= k < spec_match(old, new).len() ==> {
            &&& ((#[trigger] spec_match(old, new)[k]).kind == MatchKind::Added <==> spec_match(old, new)[k].old is None)
            &&& (spec_match(old, new)[k].kind == MatchKind::Removed <==> spec_match(old, new)[k].new is None)
        },
{
    let s = pass_renamed(old, new, new.len() as int);
    lemma_pass_renamed_agree(old, new, new.len() as int);
    let rm = removals(s.used_old, old.len() as int);
    let ad = additions(s.used_new, new.len() as int);
    lemma_removals_agree(old, new, s.used_old, old.len() as int);
    lemma_additions_agree(old, new, s.used_new, new.len() as int);
    let r = spec_match(old, new);
    assert(r == s.out + rm + ad);
    assert forall|k: int| 0 <= k < r.len() implies kind_agrees(old, new, #[trigger] r[k]) by {
        if k < s.out.len() {
            assert(r[k] == s.out[k]);
        } else if k < s.out.len() + rm.len() {
            assert(r[k] == rm[k - s.out.len()]);
        } else {
            assert(r[k] == ad[k - s.out.len() - rm.len()]);
        }
    }
}

/// Number of `true` among the first `n` flags.
pub open spec fn trues(u: Seq<bool>, n: int) -> nat
    decreases n,
{
    if n <= 0 {
        0
    } else {
        trues(u, n - 1) + if u[n - 1] { 1nat } else { 0nat }
    }
}

/// Number of unchanged pairs (same file, name and raw text hash) that
/// pass 1 set aside among the first `n` new entities.
pub open spec fn set_aside(old: Seq<Entity>, new: Seq<Entity>, n: int) -> nat
    decreases n,
{
    if n <= 0 {
        0
    } else {
        let s = pass_exact(old, new, n - 1);
        let oi = last_same_key(old, new[n - 1], old.len() as int);
        set_aside(old, new, n - 1) + if oi >= 0 && !s.used_old[oi] && old[oi].struct_hash@ == new[n
            - 1].struct_hash@ {
            1nat
        } else {
            0nat
        }
    }
}

/// Number of matches with an old side, and with a new side.
pub open spec fn with_old(r: Seq<IndexMatch>) -> nat
    decreases r.len(),
{
    if r.len() == 0 {
        0
    } else {
        with_old(r.drop_last()) + if r.last().old is Some { 1nat } else { 0nat }
    }
}

pub open spec fn with_new(r: Seq<IndexMatch>) -> nat
    decreases r.len(),
{
    if r.len() == 0 {
        0
    } else {
        with_new(r.drop_last()) + if r.last().new is Some { 1nat } else { 0nat }
    }
}

proof fn lemma_trues_update(u: Seq<bool>, i: int, n: int)
    requires
        0 <= i < n <= u.len(),
        !u[i],
    ensures
        trues(u.update(i, true), n) == trues(u, n) + 1,
    decreases n,
{
    if n - 1 > i {
        lemma_trues_update(u, i, n - 1);
    } else {
        lemma_trues_same(u.update(i, true), u, n - 1);
    }
}

proof fn lemma_trues_same(a: Seq<bool>, b: Seq<bool>, n: int)
    requires
        n <= a.len(),
        n <= b.len(),
        forall|k: int| 0 <= k < n ==> a[k] == b[k],
    ensures
        trues(a, n) == trues(b, n),
    decreases n,
{
    if n > 0 {
        lemma_trues_same(a, b, n - 1);
    }
}

proof fn lemma_trues_none(n: nat, m: int)
    requires
        m <= n,
    ensures
        trues(Seq::new(n, |i: int| false), m) == 0,
    decreases m,
{
    if m > 0 {
        lemma_trues_none(n, m - 1);
    }
}

proof fn lemma_take_pair_counts(s: MatchState, oi: int, ni: int, record: bool, kind: MatchKind, no: int, nn: int)
    requires
        s.used_old.len() == no,
        s.used_new.len() == nn,
        0 <= oi < no,
        0 <= ni < nn,
        !s.used_old[oi],
        !s.used_new[ni],
    ensures
        trues(take_pair(s, oi, ni, record, kind).used_old, no) == trues(s.used_old, no) + 1,
        trues(take_pair(s, oi, ni, record, kind).used_new, nn) == trues(s.used_new, nn) + 1,
        take_pair(s, oi, ni, record, kind).out.len() == s.out.len() + if record { 1nat } else { 0nat },
{
    lemma_trues_update(s.used_old, oi, no);
    lemma_trues_update(s.used_new, ni, nn);
}

proof fn lemma_pass_exact_counts(old: Seq<Entity>, new: Seq<Entity>, n: int)
    requires
        0 <= n <= new.len(),
        old.len() <= usize::MAX,
        new.len() <= usize::MAX,
    ensures
        trues(pass_exact(old, new, n).used_old, old.len() as int) == pass_exact(old, new, n).out.len()
            + set_aside(old, new, n),
        trues(pass_exact(old, new, n).used_new, new.len() as int) == pass_exact(old, new, n).out.len()
            + set_aside(old, new, n),
    decreases n,
{
    if n <= 0 {
        lemma_trues_none(old.len(), old.len() as int);
        lemma_trues_none(new.len(), new.len() as int);
    } else {
        lemma_pass_exact_counts(old, new, n - 1);
        lemma_pass_exact_wf(old, new, n - 1);
        let s = pass_exact(old, new, n - 1);
        let ni = n - 1;
        let oi = last_same_key(old, new[ni], old.len() as int);
        lemma_last_same_key_range(old, new[ni], old.len() as int);
        if oi >= 0 && !s.used_old[oi] {
            lemma_take_pair_counts(s, oi, ni, old[oi].struct_hash@ != new[ni].struct_hash@, MatchKind::ExactMatch, old.len() as int, new.len() as int);
        }
    }
}

proof fn lemma_pass_moved_counts(old: Seq<Entity>, new: Seq<Entity>, n: int)
    requires
        0 <= n <= new.len(),
        old.len() <= usize::MAX,
        new.len() <= usize::MAX,
    ensures
        trues(pass_moved(old, new, n).used_old, old.len() as int) == pass_moved(old, new, n).out.len()
            + set_aside(old, new, new.len() as int),
        trues(pass_moved(old, new, n).used_new, new.len() as int) == pass_moved(old, new, n).out.len()
            + set_aside(old, new, new.len() as int),
    decreases n,
{
    if n <= 0 {
        lemma_pass_exact_counts(old, new, new.len() as int);
    } else {
        lemma_pass_moved_counts(old, new, n - 1);
        lemma_pass_moved_wf(old, new, n - 1);
        let base = pass_exact(old, new, new.len() as int);
        let s = pass_moved(old, new, n - 1);
        let ni = n - 1;
        let oi = last_free_same_name(old, base.used_old, new[ni], old.len() as int);
        lemma_last_free_same_name_range(old, base.used_old, new[ni], old.len() as int);
        if !s.used_new[ni] && oi >= 0 && !s.used_old[oi] {
            lemma_take_pair_counts(s, oi, ni, true, MatchKind::Moved, old.len() as int, new.len() as int);
        }
    }
}

proof fn lemma_pass_renamed_counts(old: Seq<Entity>, new: Seq<Entity>, n: int)
    requires
        0 <= n <= new.len(),
        old.len() <= usize::MAX,
        new.len() <= usize::MAX,
    ensures
        trues(pass_renamed(old, new, n).used_old, old.len() as int) == pass_renamed(old, new, n).out.len()
            + set_aside(old, new, new.len() as int),
        trues(pass_renamed(old, new, n).used_new, new.len() as int) == pass_renamed(old, new, n).out.len()
            + set_aside(old, new, new.len() as int),
    decreases n,
{
    if n <= 0 {
        lemma_pass_moved_counts(old, new, new.len() as int);
    } else {
        lemma_pass_renamed_counts(old, new, n - 1);
        lemma_pass_renamed_wf(old, new, n - 1);
        let base = pass_moved(old, new, new.len() as int);
        let s = pass_renamed(old, new, n - 1);
        let ni = n - 1;
        let oi = last_same_body(old, base.used_old, new[ni], old.len() as int);
        lemma_last_same_body_range(old, base.used_old, new[ni], old.len() as int);
        if !s.used_new[ni] && !is_import(new[ni]) && new[ni].body_hash is Some && oi >= 0
            && !s.used_old[oi] {
            lemma_take_pair_counts(s, oi, ni, true, MatchKind::Renamed, old.len() as int, new.len() as int);
        }
    }
}

proof fn lemma_removals_count(used: Seq<bool>, n: int)
    requires
        0 <= n,
    ensures
        removals(used, n).len() + trues(used, n) == n,
        with_old(removals(used, n)) == removals(used, n).len(),
        with_new(removals(used, n)) == 0,
    decreases n,
{
    if n > 0 {
        lemma_removals_count(used, n - 1);
        let r = removals(used, n);
        if !used[n - 1] {
            assert(r.drop_last() == removals(used, n - 1));
        }
    }
}

proof fn lemma_additions_count(used: Seq<bool>, n: int)
    requires
        0 <= n,
    ensures
        additions(used, n).len() + trues(used, n) == n,
        with_old(additions(used, n)) == 0,
        with_new(additions(used, n)) == additions(used, n).len(),
    decreases n,
{
    if n > 0 {
        lemma_additions_count(used, n - 1);
        let r = additions(used, n);
        if !used[n - 1] {
            assert(r.drop_last() == additions(used, n - 1));
        }
    }
}

proof fn lemma_with_concat(a: Seq<IndexMatch>, b: Seq<IndexMatch>)
    ensures
        with_old(a + b) == with_old(a) + with_old(b),
        with_new(a + b) == with_new(a) + with_new(b),
    decreases b.len(),
{
    if b.len() > 0 {
        lemma_with_concat(a, b.drop_last());
        assert((a + b).drop_last() =~= a + b.drop_last());
    } else {
        assert(a + b =~= a);
    }
}

proof fn lemma_with_all(r: Seq<IndexMatch>)
    requires
        forall|k: int| 0 <= k < r.len() ==> (#[trigger] r[k]).old is Some && r[k].new is Some,
    ensures
        with_old(r) == r.len(),
        with_new(r) == r.len(),
    decreases r.len(),
{
    if r.len() > 0 {
        assert forall|k: int| 0 <= k < r.drop_last().len() implies (#[trigger] r.drop_last()[k]).old is Some
            && r.drop_last()[k].new is Some by {
            assert(r.drop_last()[k] == r[k]);
        }
        lemma_with_all(r.drop_last());
        assert(r.last() == r[r.len() - 1]);
    }
}

/// Law of the matcher's counts: the unchanged pairs that pass 1 sets
/// aside leave both sides alike. With `K` of them, exactly
/// `old.len() - K` matches have an old side and exactly `new.len() - K`
/// a new side.
pub proof fn law_match_counts(old: Seq<Entity>, new: Seq<Entity>)
    requires
        old.len() <= usize::MAX,
        new.len() <= usize::MAX,
    ensures
        with_old(spec_match(old, new)) + set_aside(old, new, new.len() as int) == old.len(),
        with_new(spec_match(old, new)) + set_aside(old, new, new.len() as int) == new.len(),
{
    let s = pass_renamed(old, new, new.len() as int);
    lemma_pass_renamed_wf(old, new, new.len() as int);
    lemma_pass_renamed_counts(old, new, new.len() as int);
    let rm = removals(s.used_old, old.len() as int);
    let ad = additions(s.used_new, new.len() as int);
    lemma_removals_count(s.used_old, old.len() as int);
    lemma_additions_count(s.used_new, new.len() as int);
    lemma_with_all(s.out);
    lemma_with_concat(s.out, rm);
    lemma_with_concat(s.out + rm, ad);
    assert(spec_match(old, new) == s.out + rm + ad);
}

/// No two entities share file and name.
pub open spec fn unique_keys(es: Seq<Entity>) -> bool {
    forall|i: int, j: int| 0 <= i < j < es.len() ==> !same_key(#[trigger] es[i], #[trigger] es[j])
}

/// `new[k]` has an old entity of the same file, name and raw text hash.
pub open spec fn has_unchanged_twin(old: Seq<Entity>, n: Entity) -> bool {
    exists|o: int| 0 <= o < old.len() && same_key(#[trigger] old[o], n) && old[o].struct_hash@ == n.struct_hash@
}

/// Number of the first `n` new entities with an unchanged old twin.
pub open spec fn unchanged_count(old: Seq<Entity>, new: Seq<Entity>, n: int) -> nat
    decreases n,
{
    if n <= 0 {
        0
    } else {
        unchanged_count(old, new, n - 1) + if has_unchanged_twin(old, new[n - 1]) { 1nat } else { 0nat }
    }
}

proof fn lemma_last_same_key_found(old: Seq<Entity>, e: Entity, n: int, o: int)
    requires
        0 <= o < n <= old.len(),
        same_key(old[o], e),
    ensures
        last_same_key(old, e, n) >= o,
    decreases n,
{
    if n - 1 > o && !same_key(old[n - 1], e) {
        lemma_last_same_key_found(old, e, n - 1, o);
    }
}

proof fn lemma_pass_exact_used(old: Seq<Entity>, new: Seq<Entity>, n: int)
    requires
        0 <= n <= new.len(),
        old.len() <= usize::MAX,
        new.len() <= usize::MAX,
    ensures
        forall|i: int| 0 <= i < old.len() && #[trigger] pass_exact(old, new, n).used_old[i] ==> exists|k: int|
            0 <= k < n && same_key(old[i], #[trigger] new[k]),
    decreases n,
{
    if n > 0 {
        lemma_pass_exact_used(old, new, n - 1);
        lemma_pass_exact_wf(old, new, n - 1);
        let s = pass_exact(old, new, n - 1);
        let ni = n - 1;
        let oi = last_same_key(old, new[ni], old.len() as int);
        lemma_last_same_key_range(old, new[ni], old.len() as int);
        let t = pass_exact(old, new, n);
        assert forall|i: int| 0 <= i < old.len() && #[trigger] t.used_old[i] implies exists|k: int|
            0 <= k < n && same_key(old[i], #[trigger] new[k]) by {
            if oi >= 0 && !s.used_old[oi] && i == oi {
                assert(same_key(old[i], new[ni]));
            } else {
                assert(s.used_old[i]);
                let k = choose|k: int| 0 <= k < n - 1 && same_key(old[i], #[trigger] new[k]);
                assert(same_key(old[i], new[k]));
            }
        }
    }
}

proof fn lemma_set_aside_is_unchanged(old: Seq<Entity>, new: Seq<Entity>, n: int)
    requires
        0 <= n <= new.len(),
        old.len() <= usize::MAX,
        new.len() <= usize::MAX,
        unique_keys(old),
        unique_keys(new),
    ensures
        set_aside(old, new, n) == unchanged_count(old, new, n),
    decreases n,
{
    if n > 0 {
        lemma_set_aside_is_unchanged(old, new, n - 1);
        lemma_pass_exact_used(old, new, n - 1);
        let s = pass_exact(old, new, n - 1);
        let ni = n - 1;
        let oi = last_same_key(old, new[ni], old.len() as int);
        lemma_last_same_key_range(old, new[ni], old.len() as int);
        if has_unchanged_twin(old, new[ni]) {
            let o = choose|o: int| 0 <= o < old.len() && same_key(#[trigger] old[o], new[ni]) && old[o].struct_hash@
                == new[ni].struct_hash@;
            lemma_last_same_key_found(old, new[ni], old.len() as int, o);
            if oi != o {
                assert(same_key(old[o], old[oi]));
                if o < oi {
                    assert(!same_key(old[o], old[oi]));
                }
            }
            if s.used_old[oi] {
                let k = choose|k: int| 0 <= k < n - 1 && same_key(old[oi], #[trigger] new[k]);
                assert(same_key(new[k], new[ni]));
                assert(!same_key(new[k], new[ni]));
            }
        } else if oi >= 0 && !s.used_old[oi] {
            assert(old[oi].struct_hash@ != new[ni].struct_hash@);
        }
    }
}

/// With file and name unique on each side, the pairs set aside as
/// unchanged are exactly the new entities that have an old twin of the
/// same file, name and raw text hash; so `old.len() - U` matches have an
/// old side and `new.len() - U` a new side, for `U` such entities.
pub proof fn law_match_counts_unique_keys(old: Seq<Entity>, new: Seq<Entity>)
    requires
        old.len() <= usize::MAX,
        new.len() <= usize::MAX,
        unique_keys(old),
        unique_keys(new),
    ensures
        with_old(spec_match(old, new)) + unchanged_count(old, new, new.len() as int) == old.len(),
        with_new(spec_match(old, new)) + unchanged_count(old, new, new.len() as int) == new.len(),
{
    law_match_counts(old, new);
    lemma_set_aside_is_unchanged(old, new, new.len() as int);
}

/// Law of the matcher: no old and no new entity takes part in two
/// pairings, every pairing points into the two lists, and every entity of
/// either list is accounted for: it takes part in a pairing, or it is an
/// unchanged entity (same file, name and raw text hash as one on the
/// other side) that pass 1 set aside.
pub proof fn lemma_match_is_a_partial_pairing(old: Seq<Entity>, new: Seq<Entity>)
    requires
        old.len() <= usize::MAX,
        new.len() <= usize::MAX,
    ensures
        each_at_most_once(spec_match(old, new)),
        forall|k: int| 0 <= k < spec_match(old, new).len() ==> {
            &&& ((#[trigger] spec_match(old, new)[k]).old matches Some(o) ==> o < old.len())
            &&& (spec_match(old, new)[k].new matches Some(n) ==> n < new.len())
        },
        forall|oi: int| 0 <= oi < old.len() ==> mentions_old(spec_match(old, new), oi) || exists|ni: int|
            0 <= ni < new.len() && unchanged_pair(old[oi], #[trigger] new[ni]),
        forall|ni: int| 0 <= ni < new.len() ==> mentions_new(spec_match(old, new), ni) || exists|oi: int|
            0 <= oi < old.len() && unchanged_pair(#[trigger] old[oi], new[ni]),
{
    let s = pass_renamed(old, new, new.len() as int);
    lemma_pass_renamed_wf(old, new, new.len() as int);
    let rm = removals(s.used_old, old.len() as int);
    let ad = additions(s.used_new, new.len() as int);
    lemma_removals(s.used_old, old.len() as int);
    lemma_additions(s.used_new, new.len() as int);
    let r = spec_match(old, new);
    assert(r == s.out + rm + ad);
    let a1 = s.out.len();
    let a2 = s.out.len() + rm.len();
    assert forall|k: int| 0 <= k < r.len() implies {
        &&& ((#[trigger] r[k]).old matches Some(o) ==> o < old.len())
        &&& (r[k].new matches Some(n) ==> n < new.len())
    } by {
        if k < a1 {
            assert(r[k] == s.out[k]);
        } else if k < a2 {
            assert(r[k] == rm[k - a1]);
        } else {
            assert(r[k] == ad[k - a2]);
        }
    }
    assert forall|a: int, b: int| 0 <= a < r.len() && 0 <= b < r.len() && a != b implies {
        &&& (r[a].old is Some ==> r[a].old != r[b].old)
        &&& (r[a].new is Some ==> r[a].new != r[b].new)
    } by {
        if a < a1 {
            assert(r[a] == s.out[a]);
        } else if a < a2 {
            assert(r[a] == rm[a - a1]);
        } else {
            assert(r[a] == ad[a - a2]);
        }
        if b < a1 {
            assert(r[b] == s.out[b]);
        } else if b < a2 {
            assert(r[b] == rm[b - a1]);
        } else {
            assert(r[b] == ad[b - a2]);
        }
    }
    assert forall|oi: int| 0 <= oi < old.len() implies mentions_old(r, oi) || exists|ni: int|
        0 <= ni < new.len() && unchanged_pair(old[oi], #[trigger] new[ni]) by {
        if s.used_old[oi] {
            if mentions_old(s.out, oi) {
                let k = choose|k: int| 0 <= k < s.out.len() && #[trigger] s.out[k].old == Some(oi as usize);
                assert(r[k] == s.out[k]);
            }
        } else {
            let k = choose|k: int| 0 <= k < rm.len() && #[trigger] rm[k].old == Some(oi as usize);
            assert(r[k + a1] == rm[k]);
        }
    }
    assert forall|ni: int| 0 <= ni < new.len() implies mentions_new(r, ni) || exists|oi: int|
        0 <= oi < old.len() && unchanged_pair(#[trigger] old[oi], new[ni]) by {
        if s.used_new[ni] {
            if mentions_new(s.out, ni) {
                let k = choose|k: int| 0 <= k < s.out.len() && #[trigger] s.out[k].new == Some(ni as usize);
                assert(r[k] == s.out[k]);
            }
        } else {
            let k = choose|k: int| 0 <= k < ad.len() && #[trigger] ad[k].new == Some(ni as usize);
            assert(r[k + a2] == ad[k]);
        }
    }
}


/// The entity at an optional position, by value.
pub open spec fn carries(e: Option<Entity>, pos: Option<usize>, list: Seq<Entity>) -> bool {
    match pos {
        Some(i) => e matches Some(x) && same_entity(x, list[i as int]),
        None => e is None,
    }
}

fn entity_at(list: &[Entity], pos: Option<usize>) -> (r: Option<Entity>)
    requires
        pos matches Some(i) ==> i < list@.len(),
    ensures
        carries(r, pos, list@),
{
    match pos {
        Some(i) => Some(list[i].duplicate()),
        None => None,
    }
}

/// Matches entities across two versions (see the module documentation):
/// the pairings of `match_entity_indices`, carrying copies of the
/// entities themselves.
pub fn match_entities(old: &[Entity], new: &[Entity]) -> (r: Vec<EntityMatch>)
    ensures
        r@.len() == spec_match(old@, new@).len(),
        forall|k: int| 0 <= k < r@.len() ==> {
            &&& (#[trigger] r@[k]).match_kind == spec_match(old@, new@)[k].kind
            &&& carries(r@[k].old, spec_match(old@, new@)[k].old, old@)
            &&& carries(r@[k].new, spec_match(old@, new@)[k].new, new@)
        },
{
    let idx = match_entity_indices(old, new);
    let n_old = old.len();
    let n_new = new.len();
    proof {
        lemma_match_is_a_partial_pairing(old@, new@);
    }
    let mut r: Vec<EntityMatch> = Vec::new();
    let mut k: usize = 0;
    while k < idx.len()
        invariant
            k <= idx@.len(),
            idx@ == spec_match(old@, new@),
            r@.len() == k,
            forall|k: int| 0 <= k < idx@.len() ==> {
                &&& ((#[trigger] idx@[k]).old matches Some(o) ==> o < old@.len())
                &&& (idx@[k].new matches Some(n) ==> n < new@.len())
            },
            forall|j: int| 0 <= j < k ==> {
                &&& (#[trigger] r@[j]).match_kind == idx@[j].kind
                &&& carries(r@[j].old, idx@[j].old, old@)
                &&& carries(r@[j].new, idx@[j].new, new@)
            },
        decreases idx@.len() - k,
    {
        let m = idx[k];
        let o = entity_at(old, m.old);
        let n = entity_at(new, m.new);
        r.push(EntityMatch { old: o, new: n, match_kind: m.kind });
        k += 1;
    }
    r
}

} // verus!
