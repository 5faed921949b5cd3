//! Grouping the changed entities of a diff for display.
//!
//! Entities named by a cross-file pattern are grouped per pattern id;
//! the remaining entities (formatting-only changes left out) are grouped
//! per file. Groups come largest first; among groups of equal size,
//! pattern groups precede file groups, each in order of first appearance.

use vstd::prelude::*;
use crate::fmt::{decimal, join, push_chars, push_joined, push_num, push_str, views};
use crate::output::{DiffOutput, OutputEntity};
use crate::text::{chars_vec, seq_eq, str_eq, string_from};

verus! {

/// One entity within a group.
#[derive(Debug)]
pub struct GroupedEntity {
    pub change: String,
    pub name: String,
    pub kind: String,
    pub file: String,
    pub line: u32,
}

/// A labelled group of changed entities.
#[derive(Debug)]
pub struct ChangeGroup {
    pub label: String,
    pub file_count: usize,
    pub entities: Vec<GroupedEntity>,
}

/// A grouped entity, by value.
pub struct GeView {
    pub change: Seq<char>,
    pub name: Seq<char>,
    pub kind: Seq<char>,
    pub file: Seq<char>,
    pub line: u32,
}

/// A group, by value.
pub struct GroupView {
    pub label: Seq<char>,
    pub file_count: nat,
    pub entities: Seq<GeView>,
}

pub open spec fn ge_view(g: GroupedEntity) -> GeView {
    GeView { change: g.change@, name: g.name@, kind: g.kind@, file: g.file@, line: g.line }
}

pub open spec fn group_view(g: ChangeGroup) -> GroupView {
    GroupView {
        label: g.label@,
        file_count: g.file_count as nat,
        entities: g.entities@.map_values(|e: GroupedEntity| ge_view(e)),
    }
}

/// Every (section, entity) position of the first `k` sections, in order.
pub open spec fn flat_upto(o: DiffOutput, k: int) -> Seq<(int, int)>
    decreases k,
{
    if k <= 0 {
        Seq::empty()
    } else {
        flat_upto(o, k - 1) + Seq::new(o.files@[k - 1].entities@.len(), |j: int| (k - 1, j))
    }
}

pub open spec fn flat(o: DiffOutput) -> Seq<(int, int)> {
    flat_upto(o, o.files@.len() as int)
}

pub open spec fn ent(o: DiffOutput, p: (int, int)) -> OutputEntity {
    o.files@[p.0].entities@[p.1]
}

pub open spec fn file_of(o: DiffOutput, p: (int, int)) -> Seq<char> {
    o.files@[p.0].file@
}

pub open spec fn gev(o: DiffOutput, p: (int, int)) -> GeView {
    let e = ent(o, p);
    GeView { change: e.change@, name: e.name@, kind: e.kind@, file: file_of(o, p), line: e.line }
}

pub open spec fn contains_name(v: Seq<String>, n: Seq<char>) -> bool {
    exists|i: int| 0 <= i < v.len() && (#[trigger] v[i])@ == n
}

/// The name is listed by some pattern.
pub open spec fn named_by_pattern(o: DiffOutput, n: Seq<char>) -> bool {
    exists|i: int| 0 <= i < o.patterns@.len() && contains_name((#[trigger] o.patterns@[i]).entities@, n)
}

/// `file:name`, the key under which entities are set aside for patterns.
pub open spec fn key_of(o: DiffOutput, p: (int, int)) -> Seq<char> {
    file_of(o, p) + ":"@ + ent(o, p).name@
}

/// Some position whose name a pattern lists has this key.
pub open spec fn key_in_pattern(o: DiffOutput, k: Seq<char>) -> bool {
    exists|j: int| 0 <= j < flat(o).len() && named_by_pattern(o, ent(o, #[trigger] flat(o)[j]).name@)
        && key_of(o, flat(o)[j]) == k
}

/// Positions among the first `m` of `flat(o)` whose name pattern `pi` lists.
pub open spec fn pattern_hits(o: DiffOutput, pi: int, m: int) -> Seq<GeView>
    decreases m,
{
    if m <= 0 {
        Seq::empty()
    } else {
        let p = flat(o)[m - 1];
        let rest = pattern_hits(o, pi, m - 1);
        if contains_name(o.patterns@[pi].entities@, ent(o, p).name@) {
            rest.push(gev(o, p))
        } else {
            rest
        }
    }
}

/// The members of the group of pattern id `id`, over patterns `0..n`.
pub open spec fn pattern_members(o: DiffOutput, id: Seq<char>, n: int) -> Seq<GeView>
    decreases n,
{
    if n <= 0 {
        Seq::empty()
    } else if o.patterns@[n - 1].id@ == id {
        pattern_members(o, id, n - 1) + pattern_hits(o, n - 1, flat(o).len() as int)
    } else {
        pattern_members(o, id, n - 1)
    }
}

/// The members of the group of `file`, over the first `m` positions.
pub open spec fn file_members(o: DiffOutput, file: Seq<char>, m: int) -> Seq<GeView>
    decreases m,
{
    if m <= 0 {
        Seq::empty()
    } else {
        let p = flat(o)[m - 1];
        let rest = file_members(o, file, m - 1);
        if file_of(o, p) == file && !key_in_pattern(o, key_of(o, p))
            && ent(o, p).change@ != "formatting_only"@ {
            rest.push(gev(o, p))
        } else {
            rest
        }
    }
}

/// Number of distinct files among the first `n` members.
pub open spec fn distinct_files(ms: Seq<GeView>, n: int) -> nat
    decreases n,
{
    if n <= 0 {
        0
    } else if exists|i: int| 0 <= i < n - 1 && (#[trigger] ms[i]).file == ms[n - 1].file {
        distinct_files(ms, n - 1)
    } else {
        distinct_files(ms, n - 1) + 1
    }
}

/// The entity name of the first pattern with id `id`, if it has one.
pub open spec fn first_pattern_name(o: DiffOutput, id: Seq<char>, n: int) -> Option<Option<Seq<char>>>
    decreases n,
{
    if n <= 0 {
        None
    } else {
        match first_pattern_name(o, id, n - 1) {
            Some(x) => Some(x),
            None => if o.patterns@[n - 1].id@ == id {
                Some(match o.patterns@[n - 1].entity_name {
                    Some(s) => Some(s@),
                    None => None,
                })
            } else {
                None
            },
        }
    }
}

pub open spec fn pattern_group(o: DiffOutput, id: Seq<char>) -> GroupView {
    let ms = pattern_members(o, id, o.patterns@.len() as int);
    let nf = distinct_files(ms, ms.len() as int);
    let label = match first_pattern_name(o, id, o.patterns@.len() as int) {
        Some(Some(n)) => n,
        _ => ms[0].name,
    };
    GroupView { label: label + " (pattern across "@ + decimal(nf) + " files)"@, file_count: nf, entities: ms }
}

pub open spec fn file_group_label(ms: Seq<GeView>, file: Seq<char>) -> Seq<char> {
    if ms.len() == 1 {
        ms[0].name + " in "@ + file
    } else {
        let names = ms.take(if ms.len() < 3 { ms.len() as int } else { 3 }).map_values(|g: GeView| g.name);
        let suffix = if ms.len() > 3 { " +"@ + decimal((ms.len() - 3) as nat) + " more"@ } else { Seq::empty() };
        join(names, ", "@) + suffix + " in "@ + file
    }
}

pub open spec fn file_group(o: DiffOutput, file: Seq<char>) -> GroupView {
    let ms = file_members(o, file, flat(o).len() as int);
    GroupView { label: file_group_label(ms, file), file_count: 1, entities: ms }
}

/// Pattern groups for patterns `0..n`, each id at its first pattern,
/// empty groups left out.
pub open spec fn pattern_groups(o: DiffOutput, n: int) -> Seq<GroupView>
    decreases n,
{
    if n <= 0 {
        Seq::empty()
    } else {
        let id = o.patterns@[n - 1].id@;
        let first = forall|i: int| 0 <= i < n - 1 ==> (#[trigger] o.patterns@[i]).id@ != id;
        if first && pattern_members(o, id, o.patterns@.len() as int).len() > 0 {
            pattern_groups(o, n - 1).push(pattern_group(o, id))
        } else {
            pattern_groups(o, n - 1)
        }
    }
}

/// File groups over the first `m` positions, each file at its first
/// position, empty groups left out.
pub open spec fn file_groups(o: DiffOutput, m: int) -> Seq<GroupView>
    decreases m,
{
    if m <= 0 {
        Seq::empty()
    } else {
        let f = file_of(o, flat(o)[m - 1]);
        let first = forall|i: int| 0 <= i < m - 1 ==> file_of(o, #[trigger] flat(o)[i]) != f;
        if first && file_members(o, f, flat(o).len() as int).len() > 0 {
            file_groups(o, m - 1).push(file_group(o, f))
        } else {
            file_groups(o, m - 1)
        }
    }
}

/// Inserts `x` after the last element at least as large.
pub open spec fn insert_by_size(s: Seq<GroupView>, x: GroupView) -> Seq<GroupView>
    decreases s.len(),
{
    if s.len() == 0 {
        seq![x]
    } else if s.last().entities.len() >= x.entities.len() {
        s.push(x)
    } else {
        insert_by_size(s.drop_last(), x).push(s.last())
    }
}

/// Stable sort by number of entities, largest first.
pub open spec fn sort_by_size(s: Seq<GroupView>) -> Seq<GroupView>
    decreases s.len(),
{
    if s.len() == 0 {
        s
    } else {
        insert_by_size(sort_by_size(s.drop_last()), s.last())
    }
}

pub open spec fn spec_groups(o: DiffOutput) -> Seq<GroupView> {
    sort_by_size(pattern_groups(o, o.patterns@.len() as int) + file_groups(o, flat(o).len() as int))
}


/// A group has entities, and its file count is the number of distinct
/// files among them (at least one).
pub open spec fn group_ok(g: GroupView) -> bool {
    g.entities.len() > 0 && g.file_count >= 1 && g.file_count == distinct_files(g.entities, g.entities.len() as int)
}

proof fn lemma_distinct_files_one(ms: Seq<GeView>, n: int, f: Seq<char>)
    requires
        1 <= n <= ms.len(),
        forall|i: int| 0 <= i < ms.len() ==> (#[trigger] ms[i]).file == f,
    ensures
        distinct_files(ms, n) == 1,
    decreases n,
{
    if n > 1 {
        lemma_distinct_files_one(ms, n - 1, f);
        assert(ms[0].file == f && ms[n - 1].file == f);
        assert(exists|i: int| 0 <= i < n - 1 && (#[trigger] ms[i]).file == ms[n - 1].file);
        assert(distinct_files(ms, n) == distinct_files(ms, n - 1));
    } else {
        assert(distinct_files(ms, 0) == 0);
        assert(!(exists|i: int| 0 <= i < 0 && (#[trigger] ms[i]).file == ms[0].file));
        assert(distinct_files(ms, 1) == distinct_files(ms, 0) + 1);
    }
}

proof fn lemma_file_members_file(o: DiffOutput, f: Seq<char>, m: int)
    ensures
        forall|i: int| 0 <= i < file_members(o, f, m).len() ==> (#[trigger] file_members(o, f, m)[i]).file == f,
    decreases m,
{
    if m > 0 {
        lemma_file_members_file(o, f, m - 1);
        let prev = file_members(o, f, m - 1);
        assert forall|i: int| 0 <= i < file_members(o, f, m).len() implies (#[trigger] file_members(o, f, m)[i]).file == f by {
            if i < prev.len() {
                assert(file_members(o, f, m)[i] == prev[i]);
            }
        }
    }
}

/// Groups come largest first.
pub open spec fn by_size(s: Seq<GroupView>) -> bool {
    forall|i: int, j: int| 0 <= i < j < s.len() ==> (#[trigger] s[i]).entities.len() >= (#[trigger] s[j]).entities.len()
}

proof fn lemma_insert_sorted(s: Seq<GroupView>, x: GroupView, b: nat)
    requires
        by_size(s),
    ensures
        by_size(insert_by_size(s, x)),
        insert_by_size(s, x).len() == s.len() + 1,
        (forall|i: int| 0 <= i < s.len() ==> (#[trigger] s[i]).entities.len() >= b) && x.entities.len() >= b
            ==> forall|k: int| 0 <= k < s.len() + 1 ==> (#[trigger] insert_by_size(s, x)[k]).entities.len() >= b,
        (forall|i: int| 0 <= i < s.len() ==> group_ok(#[trigger] s[i])) && group_ok(x)
            ==> forall|k: int| 0 <= k < s.len() + 1 ==> group_ok(#[trigger] insert_by_size(s, x)[k]),
    decreases s.len(),
{
    if s.len() == 0 {
    } else if s.last().entities.len() >= x.entities.len() {
        let t = s.push(x);
        assert forall|i: int, j: int| 0 <= i < j < t.len() implies (#[trigger] t[i]).entities.len() >= (#[trigger] t[j]).entities.len() by {
            if j == s.len() {
                if i < s.len() - 1 {
                    assert(s[i].entities.len() >= s[s.len() - 1].entities.len());
                }
            }
        }
    } else {
        let d = s.drop_last();
        assert(by_size(d)) by {
            assert forall|i: int, j: int| 0 <= i < j < d.len() implies (#[trigger] d[i]).entities.len() >= (#[trigger] d[j]).entities.len() by {
                assert(d[i] == s[i] && d[j] == s[j]);
            }
        }
        let l = s.last();
        assert forall|i: int| 0 <= i < d.len() implies (#[trigger] d[i]).entities.len() >= l.entities.len() by {
            assert(d[i] == s[i]);
            assert(s[i].entities.len() >= s[s.len() - 1].entities.len());
        }
        lemma_insert_sorted(d, x, l.entities.len());
        lemma_insert_sorted(d, x, b);
        let m = insert_by_size(d, x);
        let t = m.push(l);
        assert forall|i: int, j: int| 0 <= i < j < t.len() implies (#[trigger] t[i]).entities.len() >= (#[trigger] t[j]).entities.len() by {
            if j == m.len() {
                assert(t[i] == m[i]);
            } else {
                assert(t[i] == m[i] && t[j] == m[j]);
            }
        }
        if (forall|i: int| 0 <= i < s.len() ==> (#[trigger] s[i]).entities.len() >= b) && x.entities.len() >= b {
            assert forall|i: int| 0 <= i < d.len() implies (#[trigger] d[i]).entities.len() >= b by {
                assert(d[i] == s[i]);
            }
            assert forall|k: int| 0 <= k < t.len() implies (#[trigger] t[k]).entities.len() >= b by {
                if k < m.len() {
                    assert(t[k] == m[k]);
                } else {
                    assert(s[s.len() - 1] == l);
                }
            }
        }
        if (forall|i: int| 0 <= i < s.len() ==> group_ok(#[trigger] s[i])) && group_ok(x) {
            assert forall|i: int| 0 <= i < d.len() implies group_ok(#[trigger] d[i]) by {
                assert(d[i] == s[i]);
            }
            assert forall|k: int| 0 <= k < t.len() implies group_ok(#[trigger] t[k]) by {
                if k < m.len() {
                    assert(t[k] == m[k]);
                } else {
                    assert(s[s.len() - 1] == l);
                }
            }
        }
    }
}

proof fn lemma_sort_by_size(s: Seq<GroupView>)
    ensures
        by_size(sort_by_size(s)),
        sort_by_size(s).len() == s.len(),
        (forall|i: int| 0 <= i < s.len() ==> group_ok(#[trigger] s[i])) ==> forall|k: int|
            0 <= k < s.len() ==> group_ok(#[trigger] sort_by_size(s)[k]),
    decreases s.len(),
{
    if s.len() > 0 {
        let d = s.drop_last();
        lemma_sort_by_size(d);
        lemma_insert_sorted(sort_by_size(d), s.last(), 0);
        if forall|i: int| 0 <= i < s.len() ==> group_ok(#[trigger] s[i]) {
            assert forall|i: int| 0 <= i < d.len() implies group_ok(#[trigger] d[i]) by {
                assert(d[i] == s[i]);
            }
            assert(group_ok(s[s.len() - 1]));
        }
    }
}

proof fn lemma_distinct_files_pos(ms: Seq<GeView>, n: int)
    requires
        n >= 1,
    ensures
        distinct_files(ms, n) >= 1,
    decreases n,
{
    if n > 1 {
        lemma_distinct_files_pos(ms, n - 1);
    }
}

proof fn lemma_pattern_groups_ok(o: DiffOutput, n: int)
    ensures
        forall|k: int| 0 <= k < pattern_groups(o, n).len() ==> group_ok(#[trigger] pattern_groups(o, n)[k]),
    decreases n,
{
    if n > 0 {
        lemma_pattern_groups_ok(o, n - 1);
        let prev = pattern_groups(o, n - 1);
        let id = o.patterns@[n - 1].id@;
        let ms = pattern_members(o, id, o.patterns@.len() as int);
        if ms.len() > 0 {
            lemma_distinct_files_pos(ms, ms.len() as int);
        }
        assert forall|k: int| 0 <= k < pattern_groups(o, n).len() implies group_ok(#[trigger] pattern_groups(o, n)[k]) by {
            if k < prev.len() {
                assert(pattern_groups(o, n)[k] == prev[k]);
            }
        }
    }
}

proof fn lemma_file_groups_ok(o: DiffOutput, m: int)
    ensures
        forall|k: int| 0 <= k < file_groups(o, m).len() ==> group_ok(#[trigger] file_groups(o, m)[k]),
    decreases m,
{
    if m > 0 {
        lemma_file_groups_ok(o, m - 1);
        let prev = file_groups(o, m - 1);
        let f = file_of(o, flat(o)[m - 1]);
        let ms = file_members(o, f, flat(o).len() as int);
        lemma_file_members_file(o, f, flat(o).len() as int);
        if ms.len() > 0 {
            lemma_distinct_files_one(ms, ms.len() as int, f);
        }
        assert forall|k: int| 0 <= k < file_groups(o, m).len() implies group_ok(#[trigger] file_groups(o, m)[k]) by {
            if k < prev.len() {
                assert(file_groups(o, m)[k] == prev[k]);
            }
        }
    }
}

proof fn lemma_no_pattern_members(o: DiffOutput, id: Seq<char>, n: int)
    requires
        flat(o).len() == 0,
    ensures
        pattern_members(o, id, n).len() == 0,
    decreases n,
{
    if n > 0 {
        lemma_no_pattern_members(o, id, n - 1);
    }
}

proof fn lemma_no_pattern_groups(o: DiffOutput, n: int)
    requires
        flat(o).len() == 0,
    ensures
        pattern_groups(o, n).len() == 0,
    decreases n,
{
    if n > 0 {
        lemma_no_pattern_groups(o, n - 1);
        lemma_no_pattern_members(o, o.patterns@[n - 1].id@, o.patterns@.len() as int);
    }
}

/// Law of grouping: the groups come largest first; each has entities,
/// and its file count is the number of distinct files among them (at
/// least one); a diff without file sections has no groups.
pub proof fn law_groups_sorted_and_non_empty(o: DiffOutput)
    ensures
        by_size(spec_groups(o)),
        forall|k: int| 0 <= k < spec_groups(o).len() ==> group_ok(#[trigger] spec_groups(o)[k]),
        o.files@.len() == 0 ==> spec_groups(o).len() == 0,
{
    let pg = pattern_groups(o, o.patterns@.len() as int);
    let fg = file_groups(o, flat(o).len() as int);
    lemma_pattern_groups_ok(o, o.patterns@.len() as int);
    lemma_file_groups_ok(o, flat(o).len() as int);
    let all = pg + fg;
    assert forall|i: int| 0 <= i < all.len() implies group_ok(#[trigger] all[i]) by {
        if i < pg.len() {
            assert(all[i] == pg[i]);
        } else {
            assert(all[i] == fg[i - pg.len()]);
        }
    }
    lemma_sort_by_size(all);
    if o.files@.len() == 0 {
        assert(flat(o).len() == 0);
        lemma_no_pattern_groups(o, o.patterns@.len() as int);
        assert(all.len() == 0);
    }
}

pub open spec fn flat_matches(v: Seq<(usize, usize)>, f: Seq<(int, int)>) -> bool {
    v.len() == f.len() && forall|j: int| 0 <= j < v.len() ==> (#[trigger] v[j]).0 as int == f[j].0
        && v[j].1 as int == f[j].1
}

proof fn lemma_flat_upto_bounds(o: DiffOutput, k: int)
    requires
        0 <= k <= o.files@.len(),
    ensures
        forall|j: int| 0 <= j < flat_upto(o, k).len() ==> {
            &&& 0 <= (#[trigger] flat_upto(o, k)[j]).0 < k
            &&& 0 <= flat_upto(o, k)[j].1 < o.files@[flat_upto(o, k)[j].0].entities@.len()
        },
    decreases k,
{
    if k > 0 {
        lemma_flat_upto_bounds(o, k - 1);
        let a = flat_upto(o, k - 1);
        assert forall|j: int| 0 <= j < flat_upto(o, k).len() implies {
            &&& 0 <= (#[trigger] flat_upto(o, k)[j]).0 < k
            &&& 0 <= flat_upto(o, k)[j].1 < o.files@[flat_upto(o, k)[j].0].entities@.len()
        } by {
            if j < a.len() {
                assert(flat_upto(o, k)[j] == a[j]);
            }
        }
    }
}

/// Every (section, entity) position, in order.
fn flatten(o: &DiffOutput) -> (r: Vec<(usize, usize)>)
    ensures
        flat_matches(r@, flat(*o)),
        forall|j: int| 0 <= j < r@.len() ==> {
            &&& ((#[trigger] r@[j]).0 as int) < o.files@.len()
            &&& (r@[j].1 as int) < o.files@[r@[j].0 as int].entities@.len()
        },
{
    let mut r: Vec<(usize, usize)> = Vec::new();
    let mut si: usize = 0;
    while si < o.files.len()
        invariant
            si <= o.files@.len(),
            flat_matches(r@, flat_upto(*o, si as int)),
        decreases o.files@.len() - si,
    {
        let n = o.files[si].entities.len();
        let mut j: usize = 0;
        while j < n
            invariant
                si < o.files@.len(),
                n == o.files@[si as int].entities@.len(),
                j <= n,
                flat_matches(r@, flat_upto(*o, si as int) + Seq::new(j as nat, |x: int| (si as int, x))),
            decreases n - j,
        {
            r.push((si, j));
            assert(flat_upto(*o, si as int) + Seq::new((j + 1) as nat, |x: int| (si as int, x))
                =~= (flat_upto(*o, si as int) + Seq::new(j as nat, |x: int| (si as int, x))).push((si as int, j as int)));
            j += 1;
        }
        si += 1;
    }
    proof {
        lemma_flat_upto_bounds(*o, o.files@.len() as int);
    }
    r
}


fn vec_contains(v: &Vec<String>, n: &String) -> (r: bool)
    ensures
        r == contains_name(v@, n@),
{
    let mut i: usize = 0;
    while i < v.len()
        invariant
            i <= v@.len(),
            forall|k: int| 0 <= k < i ==> (#[trigger] v@[k])@ != n@,
        decreases v@.len() - i,
    {
        if v[i] == *n {
            return true;
        }
        i += 1;
    }
    false
}

fn is_named_by_pattern(o: &DiffOutput, n: &String) -> (r: bool)
    ensures
        r == named_by_pattern(*o, n@),
{
    let mut i: usize = 0;
    while i < o.patterns.len()
        invariant
            i <= o.patterns@.len(),
            forall|k: int| 0 <= k < i ==> !contains_name((#[trigger] o.patterns@[k]).entities@, n@),
        decreases o.patterns@.len() - i,
    {
        if vec_contains(&o.patterns[i].entities, n) {
            return true;
        }
        i += 1;
    }
    false
}

fn key_vec(o: &DiffOutput, si: usize, ei: usize) -> (r: Vec<char>)
    requires
        si < o.files@.len(),
        ei < o.files@[si as int].entities@.len(),
    ensures
        r@ == key_of(*o, (si as int, ei as int)),
{
    let mut v: Vec<char> = Vec::new();
    push_str(&mut v, o.files[si].file.as_str());
    push_str(&mut v, ":");
    push_str(&mut v, o.files[si].entities[ei].name.as_str());
    v
}

fn grouped_entity(o: &DiffOutput, si: usize, ei: usize) -> (r: GroupedEntity)
    requires
        si < o.files@.len(),
        ei < o.files@[si as int].entities@.len(),
    ensures
        ge_view(r) == gev(*o, (si as int, ei as int)),
{
    let e = &o.files[si].entities[ei];
    GroupedEntity {
        change: e.change.clone(),
        name: e.name.clone(),
        kind: e.kind.clone(),
        file: o.files[si].file.clone(),
        line: e.line,
    }
}

/// For each position: is its key set aside for a pattern?
fn pattern_flags(o: &DiffOutput, fl: &Vec<(usize, usize)>) -> (r: Vec<bool>)
    requires
        flat_matches(fl@, flat(*o)),
        forall|j: int| 0 <= j < fl@.len() ==> {
            &&& ((#[trigger] fl@[j]).0 as int) < o.files@.len()
            &&& (fl@[j].1 as int) < o.files@[fl@[j].0 as int].entities@.len()
        },
    ensures
        r@.len() == fl@.len(),
        forall|j: int| 0 <= j < r@.len() ==> #[trigger] r@[j] == key_in_pattern(*o, key_of(*o, flat(*o)[j])),
{
    let ghost f = flat(*o);
    // Names listed by a pattern, and keys, per position.
    let mut named: Vec<bool> = Vec::new();
    let mut keys: Vec<Vec<char>> = Vec::new();
    let mut j: usize = 0;
    while j < fl.len()
        invariant
            j <= fl@.len(),
            f == flat(*o),
            flat_matches(fl@, f),
            forall|x: int| 0 <= x < fl@.len() ==> {
                &&& ((#[trigger] fl@[x]).0 as int) < o.files@.len()
                &&& (fl@[x].1 as int) < o.files@[fl@[x].0 as int].entities@.len()
            },
            named@.len() == j,
            keys@.len() == j,
            forall|x: int| 0 <= x < j ==> #[trigger] named@[x] == named_by_pattern(*o, ent(*o, f[x]).name@),
            forall|x: int| 0 <= x < j ==> (#[trigger] keys@[x])@ == key_of(*o, f[x]),
        decreases fl@.len() - j,
    {
        let (si, ei) = fl[j];
        assert(f[j as int] == (si as int, ei as int));
        named.push(is_named_by_pattern(o, &o.files[si].entities[ei].name));
        keys.push(key_vec(o, si, ei));
        j += 1;
    }
    let mut r: Vec<bool> = Vec::new();
    let mut j: usize = 0;
    while j < fl.len()
        invariant
            j <= fl@.len(),
            f == flat(*o),
            fl@.len() == f.len(),
            named@.len() == fl@.len(),
            keys@.len() == fl@.len(),
            forall|x: int| 0 <= x < fl@.len() ==> #[trigger] named@[x] == named_by_pattern(*o, ent(*o, f[x]).name@),
            forall|x: int| 0 <= x < fl@.len() ==> (#[trigger] keys@[x])@ == key_of(*o, f[x]),
            r@.len() == j,
            forall|x: int| 0 <= x < j ==> #[trigger] r@[x] == key_in_pattern(*o, key_of(*o, f[x])),
        decreases fl@.len() - j,
    {
        let mut hit = false;
        let mut k: usize = 0;
        while k < fl.len()
            invariant
                j < fl@.len(),
                k <= fl@.len(),
                f == flat(*o),
                fl@.len() == f.len(),
                named@.len() == fl@.len(),
                keys@.len() == fl@.len(),
                forall|x: int| 0 <= x < fl@.len() ==> #[trigger] named@[x] == named_by_pattern(*o, ent(*o, f[x]).name@),
                forall|x: int| 0 <= x < fl@.len() ==> (#[trigger] keys@[x])@ == key_of(*o, f[x]),
                hit == exists|y: int| 0 <= y < k && named_by_pattern(*o, ent(*o, #[trigger] f[y]).name@)
                    && key_of(*o, f[y]) == key_of(*o, f[j as int]),
            decreases fl@.len() - k,
        {
            if named[k] && seq_eq(&keys[k], &keys[j]) {
                hit = true;
            }
            proof {
                assert(named@[k as int] == named_by_pattern(*o, ent(*o, f[k as int]).name@));
                assert(keys@[k as int]@ == key_of(*o, f[k as int]));
                assert(keys@[j as int]@ == key_of(*o, f[j as int]));
            }
            k += 1;
        }
        r.push(hit);
        j += 1;
    }
    r
}


pub open spec fn gviews(s: Seq<GroupedEntity>) -> Seq<GeView> {
    s.map_values(|g: GroupedEntity| ge_view(g))
}

proof fn lemma_gviews_push(s: Seq<GroupedEntity>, g: GroupedEntity)
    ensures
        gviews(s.push(g)) == gviews(s).push(ge_view(g)),
{
    assert(gviews(s.push(g)) =~= gviews(s).push(ge_view(g)));
}

/// The members of the group of pattern id `id`.
fn pattern_members_vec(o: &DiffOutput, fl: &Vec<(usize, usize)>, id: &String) -> (r: Vec<GroupedEntity>)
    requires
        flat_matches(fl@, flat(*o)),
        forall|j: int| 0 <= j < fl@.len() ==> {
            &&& ((#[trigger] fl@[j]).0 as int) < o.files@.len()
            &&& (fl@[j].1 as int) < o.files@[fl@[j].0 as int].entities@.len()
        },
    ensures
        gviews(r@) == pattern_members(*o, id@, o.patterns@.len() as int),
{
    let ghost f = flat(*o);
    let mut r: Vec<GroupedEntity> = Vec::new();
    let mut pi: usize = 0;
    while pi < o.patterns.len()
        invariant
            pi <= o.patterns@.len(),
            f == flat(*o),
            flat_matches(fl@, f),
            forall|j: int| 0 <= j < fl@.len() ==> {
                &&& ((#[trigger] fl@[j]).0 as int) < o.files@.len()
                &&& (fl@[j].1 as int) < o.files@[fl@[j].0 as int].entities@.len()
            },
            gviews(r@) == pattern_members(*o, id@, pi as int),
        decreases o.patterns@.len() - pi,
    {
        if o.patterns[pi].id == *id {
            let ghost base = gviews(r@);
            let mut k: usize = 0;
            while k < fl.len()
                invariant
                    pi < o.patterns@.len(),
                    k <= fl@.len(),
                    f == flat(*o),
                    flat_matches(fl@, f),
                    forall|j: int| 0 <= j < fl@.len() ==> {
                        &&& ((#[trigger] fl@[j]).0 as int) < o.files@.len()
                        &&& (fl@[j].1 as int) < o.files@[fl@[j].0 as int].entities@.len()
                    },
                    gviews(r@) == base + pattern_hits(*o, pi as int, k as int),
                decreases fl@.len() - k,
            {
                let (si, ei) = fl[k];
                assert(f[k as int] == (si as int, ei as int));
                if vec_contains(&o.patterns[pi].entities, &o.files[si].entities[ei].name) {
                    let g = grouped_entity(o, si, ei);
                    proof { lemma_gviews_push(r@, g); }
                    r.push(g);
                }
                k += 1;
            }
        }
        pi += 1;
    }
    r
}

/// The members of the group of `file`.
fn file_members_vec(o: &DiffOutput, fl: &Vec<(usize, usize)>, flags: &Vec<bool>, file: &String) -> (r: Vec<GroupedEntity>)
    requires
        flat_matches(fl@, flat(*o)),
        forall|j: int| 0 <= j < fl@.len() ==> {
            &&& ((#[trigger] fl@[j]).0 as int) < o.files@.len()
            &&& (fl@[j].1 as int) < o.files@[fl@[j].0 as int].entities@.len()
        },
        flags@.len() == fl@.len(),
        forall|j: int| 0 <= j < flags@.len() ==> #[trigger] flags@[j] == key_in_pattern(*o, key_of(*o, flat(*o)[j])),
    ensures
        gviews(r@) == file_members(*o, file@, flat(*o).len() as int),
{
    let ghost f = flat(*o);
    let mut r: Vec<GroupedEntity> = Vec::new();
    let mut k: usize = 0;
    while k < fl.len()
        invariant
            k <= fl@.len(),
            f == flat(*o),
            flat_matches(fl@, f),
            forall|j: int| 0 <= j < fl@.len() ==> {
                &&& ((#[trigger] fl@[j]).0 as int) < o.files@.len()
                &&& (fl@[j].1 as int) < o.files@[fl@[j].0 as int].entities@.len()
            },
            flags@.len() == fl@.len(),
            forall|j: int| 0 <= j < flags@.len() ==> #[trigger] flags@[j] == key_in_pattern(*o, key_of(*o, f[j])),
            gviews(r@) == file_members(*o, file@, k as int),
        decreases fl@.len() - k,
    {
        let (si, ei) = fl[k];
        assert(f[k as int] == (si as int, ei as int));
        assert(flags@[k as int] == key_in_pattern(*o, key_of(*o, f[k as int])));
        let e = &o.files[si].entities[ei];
        if o.files[si].file == *file && !flags[k] && !str_eq(e.change.as_str(), "formatting_only") {
            let g = grouped_entity(o, si, ei);
            proof { lemma_gviews_push(r@, g); }
            r.push(g);
        }
        k += 1;
    }
    r
}

fn count_distinct_files(ms: &Vec<GroupedEntity>) -> (r: usize)
    ensures
        r as nat == distinct_files(gviews(ms@), ms@.len() as int),
{
    let ghost v = gviews(ms@);
    let mut r: usize = 0;
    let mut i: usize = 0;
    while i < ms.len()
        invariant
            i <= ms@.len(),
            v == gviews(ms@),
            r as nat == distinct_files(v, i as int),
            r <= i,
        decreases ms@.len() - i,
    {
        let mut seen = false;
        let mut j: usize = 0;
        while j < i
            invariant
                j <= i < ms@.len(),
                v == gviews(ms@),
                seen == exists|x: int| 0 <= x < j && (#[trigger] v[x]).file == v[i as int].file,
            decreases i - j,
        {
            assert(v[j as int] == ge_view(ms@[j as int]));
            assert(v[i as int] == ge_view(ms@[i as int]));
            if ms[j].file == ms[i].file {
                seen = true;
            }
            j += 1;
        }
        if !seen {
            r += 1;
        }
        i += 1;
    }
    r
}


fn first_pattern_name_exec(o: &DiffOutput, id: &String) -> (r: Option<Option<String>>)
    ensures
        match r {
            Some(Some(s)) => first_pattern_name(*o, id@, o.patterns@.len() as int) == Some(Some(s@)),
            Some(None) => first_pattern_name(*o, id@, o.patterns@.len() as int) == Some(None::<Seq<char>>),
            None => first_pattern_name(*o, id@, o.patterns@.len() as int) == None::<Option<Seq<char>>>,
        },
{
    let mut i: usize = 0;
    while i < o.patterns.len()
        invariant
            i <= o.patterns@.len(),
            first_pattern_name(*o, id@, i as int) == None::<Option<Seq<char>>>,
        decreases o.patterns@.len() - i,
    {
        if o.patterns[i].id == *id {
            let r = match &o.patterns[i].entity_name {
                Some(n) => Some(n.clone()),
                None => None,
            };
            proof { lemma_first_pattern_name_stays(*o, id@, i as int + 1, o.patterns@.len() as int); }
            return Some(r);
        }
        i += 1;
    }
    None
}

proof fn lemma_first_pattern_name_stays(o: DiffOutput, id: Seq<char>, a: int, b: int)
    requires
        0 <= a <= b,
        first_pattern_name(o, id, a) is Some,
    ensures
        first_pattern_name(o, id, b) == first_pattern_name(o, id, a),
    decreases b - a,
{
    if b > a {
        lemma_first_pattern_name_stays(o, id, a, b - 1);
    }
}

fn make_pattern_group(o: &DiffOutput, fl: &Vec<(usize, usize)>, id: &String) -> (r: Option<ChangeGroup>)
    requires
        flat_matches(fl@, flat(*o)),
        forall|j: int| 0 <= j < fl@.len() ==> {
            &&& ((#[trigger] fl@[j]).0 as int) < o.files@.len()
            &&& (fl@[j].1 as int) < o.files@[fl@[j].0 as int].entities@.len()
        },
    ensures
        match r {
            Some(g) => pattern_members(*o, id@, o.patterns@.len() as int).len() > 0
                && group_view(g) == pattern_group(*o, id@),
            None => pattern_members(*o, id@, o.patterns@.len() as int).len() == 0,
        },
{
    let ms = pattern_members_vec(o, fl, id);
    if ms.len() == 0 {
        return None;
    }
    let nf = count_distinct_files(&ms);
    let mut label: Vec<char> = Vec::new();
    match first_pattern_name_exec(o, id) {
        Some(Some(n)) => push_str(&mut label, n.as_str()),
        _ => {
            assert(gviews(ms@)[0] == ge_view(ms@[0]));
            push_str(&mut label, ms[0].name.as_str());
        },
    }
    push_str(&mut label, " (pattern across ");
    push_num(&mut label, nf as u64);
    push_str(&mut label, " files)");
    let g = ChangeGroup { label: string_from(&label), file_count: nf, entities: ms };
    assert(group_view(g).entities == gviews(g.entities@));
    Some(g)
}

fn file_label(ms: &Vec<GroupedEntity>, file: &String) -> (r: Vec<char>)
    requires
        ms@.len() > 0,
    ensures
        r@ == file_group_label(gviews(ms@), file@),
{
    let ghost v = gviews(ms@);
    let mut out: Vec<char> = Vec::new();
    if ms.len() == 1 {
        assert(v[0] == ge_view(ms@[0]));
        push_str(&mut out, ms[0].name.as_str());
    } else {
        let n = if ms.len() < 3 { ms.len() } else { 3 };
        let mut names: Vec<Vec<char>> = Vec::new();
        let mut i: usize = 0;
        while i < n
            invariant
                i <= n <= ms@.len(),
                n == (if ms@.len() < 3 { ms@.len() } else { 3 }),
                v == gviews(ms@),
                names@.len() == i,
                views(names@) == v.take(i as int).map_values(|g: GeView| g.name),
            decreases n - i,
        {
            let c = chars_vec(ms[i].name.as_str());
            let ghost before = names@;
            names.push(c);
            assert(v[i as int] == ge_view(ms@[i as int]));
            assert forall|k: int| 0 <= k < i implies views(names@)[k]
                == v.take(i + 1).map_values(|g: GeView| g.name)[k] by {
                assert(names@[k] == before[k]);
                assert(views(before)[k] == v.take(i as int).map_values(|g: GeView| g.name)[k]);
            }
            assert(views(names@) =~= v.take(i + 1).map_values(|g: GeView| g.name));
            i += 1;
        }
        push_joined(&mut out, &names, ", ");
        if ms.len() > 3 {
            push_str(&mut out, " +");
            push_num(&mut out, (ms.len() - 3) as u64);
            push_str(&mut out, " more");
        }
    }
    push_str(&mut out, " in ");
    push_str(&mut out, file.as_str());
    out
}

fn make_file_group(o: &DiffOutput, fl: &Vec<(usize, usize)>, flags: &Vec<bool>, file: &String) -> (r: Option<ChangeGroup>)
    requires
        flat_matches(fl@, flat(*o)),
        forall|j: int| 0 <= j < fl@.len() ==> {
            &&& ((#[trigger] fl@[j]).0 as int) < o.files@.len()
            &&& (fl@[j].1 as int) < o.files@[fl@[j].0 as int].entities@.len()
        },
        flags@.len() == fl@.len(),
        forall|j: int| 0 <= j < flags@.len() ==> #[trigger] flags@[j] == key_in_pattern(*o, key_of(*o, flat(*o)[j])),
    ensures
        match r {
            Some(g) => file_members(*o, file@, flat(*o).len() as int).len() > 0
                && group_view(g) == file_group(*o, file@),
            None => file_members(*o, file@, flat(*o).len() as int).len() == 0,
        },
{
    let ms = file_members_vec(o, fl, flags, file);
    if ms.len() == 0 {
        return None;
    }
    let label = file_label(&ms, file);
    let g = ChangeGroup { label: string_from(&label), file_count: 1, entities: ms };
    assert(group_view(g).entities == gviews(g.entities@));
    Some(g)
}


pub open spec fn groups_view(s: Seq<ChangeGroup>) -> Seq<GroupView> {
    s.map_values(|g: ChangeGroup| group_view(g))
}

proof fn lemma_groups_view_push(s: Seq<ChangeGroup>, g: ChangeGroup)
    ensures
        groups_view(s.push(g)) == groups_view(s).push(group_view(g)),
{
    assert(groups_view(s.push(g)) =~= groups_view(s).push(group_view(g)));
}

fn pattern_group_list(o: &DiffOutput, fl: &Vec<(usize, usize)>) -> (r: Vec<ChangeGroup>)
    requires
        flat_matches(fl@, flat(*o)),
        forall|j: int| 0 <= j < fl@.len() ==> {
            &&& ((#[trigger] fl@[j]).0 as int) < o.files@.len()
            &&& (fl@[j].1 as int) < o.files@[fl@[j].0 as int].entities@.len()
        },
    ensures
        groups_view(r@) == pattern_groups(*o, o.patterns@.len() as int),
{
    let mut r: Vec<ChangeGroup> = Vec::new();
    let mut pi: usize = 0;
    while pi < o.patterns.len()
        invariant
            pi <= o.patterns@.len(),
            flat_matches(fl@, flat(*o)),
            forall|j: int| 0 <= j < fl@.len() ==> {
                &&& ((#[trigger] fl@[j]).0 as int) < o.files@.len()
                &&& (fl@[j].1 as int) < o.files@[fl@[j].0 as int].entities@.len()
            },
            groups_view(r@) == pattern_groups(*o, pi as int),
        decreases o.patterns@.len() - pi,
    {
        let id = &o.patterns[pi].id;
        let mut first = true;
        let mut j: usize = 0;
        while j < pi
            invariant
                j <= pi < o.patterns@.len(),
                *id == o.patterns@[pi as int].id,
                first == forall|i: int| 0 <= i < j ==> (#[trigger] o.patterns@[i]).id@ != id@,
            decreases pi - j,
        {
            if o.patterns[j].id == *id {
                first = false;
            }
            j += 1;
        }
        if first {
            match make_pattern_group(o, fl, id) {
                Some(g) => {
                    proof { lemma_groups_view_push(r@, g); }
                    r.push(g);
                },
                None => {},
            }
        }
        pi += 1;
    }
    r
}

fn file_group_list(o: &DiffOutput, fl: &Vec<(usize, usize)>, flags: &Vec<bool>) -> (r: Vec<ChangeGroup>)
    requires
        flat_matches(fl@, flat(*o)),
        forall|j: int| 0 <= j < fl@.len() ==> {
            &&& ((#[trigger] fl@[j]).0 as int) < o.files@.len()
            &&& (fl@[j].1 as int) < o.files@[fl@[j].0 as int].entities@.len()
        },
        flags@.len() == fl@.len(),
        forall|j: int| 0 <= j < flags@.len() ==> #[trigger] flags@[j] == key_in_pattern(*o, key_of(*o, flat(*o)[j])),
    ensures
        groups_view(r@) == file_groups(*o, flat(*o).len() as int),
{
    let ghost f = flat(*o);
    let mut r: Vec<ChangeGroup> = Vec::new();
    let mut k: usize = 0;
    while k < fl.len()
        invariant
            k <= fl@.len(),
            f == flat(*o),
            flat_matches(fl@, f),
            forall|j: int| 0 <= j < fl@.len() ==> {
                &&& ((#[trigger] fl@[j]).0 as int) < o.files@.len()
                &&& (fl@[j].1 as int) < o.files@[fl@[j].0 as int].entities@.len()
            },
            flags@.len() == fl@.len(),
            forall|j: int| 0 <= j < flags@.len() ==> #[trigger] flags@[j] == key_in_pattern(*o, key_of(*o, f[j])),
            groups_view(r@) == file_groups(*o, k as int),
        decreases fl@.len() - k,
    {
        let (si, ei) = fl[k];
        assert(f[k as int] == (si as int, ei as int));
        let file = &o.files[si].file;
        let mut first = true;
        let mut j: usize = 0;
        while j < k
            invariant
                j <= k < fl@.len(),
                f == flat(*o),
                flat_matches(fl@, f),
                forall|x: int| 0 <= x < fl@.len() ==> {
                    &&& ((#[trigger] fl@[x]).0 as int) < o.files@.len()
                    &&& (fl@[x].1 as int) < o.files@[fl@[x].0 as int].entities@.len()
                },
                file@ == file_of(*o, f[k as int]),
                first == forall|i: int| 0 <= i < j ==> file_of(*o, #[trigger] f[i]) != file@,
            decreases k - j,
        {
            let (sj, _) = fl[j];
            assert(f[j as int].0 == sj as int);
            if o.files[sj].file == *file {
                first = false;
            }
            j += 1;
        }
        if first {
            match make_file_group(o, fl, flags, file) {
                Some(g) => {
                    proof { lemma_groups_view_push(r@, g); }
                    r.push(g);
                },
                None => {},
            }
        }
        k += 1;
    }
    r
}

proof fn lemma_insert_by_size(s: Seq<GroupView>, x: GroupView, k: int)
    requires
        0 <= k <= s.len(),
        forall|j: int| k <= j < s.len() ==> (#[trigger] s[j]).entities.len() < x.entities.len(),
        k == 0 || s[k - 1].entities.len() >= x.entities.len(),
    ensures
        insert_by_size(s, x) == s.insert(k, x),
    decreases s.len(),
{
    if s.len() == 0 {
        assert(s.insert(0, x) =~= seq![x]);
    } else if s.last().entities.len() >= x.entities.len() {
        assert(k == s.len());
        assert(s.insert(k, x) =~= s.push(x));
    } else {
        lemma_insert_by_size(s.drop_last(), x, k);
        assert(s.insert(k, x) =~= s.drop_last().insert(k, x).push(s.last()));
    }
}

/// Stable sort of `gs` by number of entities, largest first.
fn sort_groups(gs: Vec<ChangeGroup>) -> (r: Vec<ChangeGroup>)
    ensures
        groups_view(r@) == sort_by_size(groups_view(gs@)),
{
    let ghost all = groups_view(gs@);
    let total = gs.len();
    let mut rest = gs;
    let mut sorted: Vec<ChangeGroup> = Vec::new();
    let mut i: usize = 0;
    while rest.len() > 0
        invariant
            i <= all.len(),
            all.len() == total,
            groups_view(rest@) == all.skip(i as int),
            groups_view(sorted@) == sort_by_size(all.take(i as int)),
        decreases rest@.len(),
    {
        let ghost before_rest = rest@;
        proof {
            assert(groups_view(before_rest).len() == before_rest.len());
            assert(all.skip(i as int).len() == before_rest.len());
            assert(groups_view(before_rest)[0] == group_view(before_rest[0]));
            assert(all.skip(i as int)[0] == all[i as int]);
        }
        let g = rest.remove(0);
        proof {
            assert(rest@ == before_rest.remove(0));
            assert forall|j: int| 0 <= j < rest@.len() implies groups_view(rest@)[j] == all.skip(i + 1)[j] by {
                assert(rest@[j] == before_rest[j + 1]);
                assert(groups_view(before_rest)[j + 1] == all.skip(i as int)[j + 1]);
            }
            assert(groups_view(rest@) =~= all.skip(i + 1));
            assert(group_view(g) == all[i as int]);
            assert(all.take(i + 1).drop_last() == all.take(i as int));
        }
        let n = g.entities.len();
        let mut k = sorted.len();
        while k > 0 && sorted[k - 1].entities.len() < n
            invariant
                k <= sorted@.len(),
                n == group_view(g).entities.len(),
                forall|j: int| k <= j < sorted@.len() ==> (#[trigger] groups_view(sorted@)[j]).entities.len() < n,
            decreases k,
        {
            assert(groups_view(sorted@)[k - 1] == group_view(sorted@[k - 1]));
            k -= 1;
        }
        proof {
            let sv = groups_view(sorted@);
            if k > 0 {
                assert(sv[k - 1] == group_view(sorted@[k - 1]));
            }
            lemma_insert_by_size(sv, group_view(g), k as int);
        }
        let ghost before = sorted@;
        sorted.insert(k, g);
        proof {
            assert(groups_view(sorted@) =~= groups_view(before).insert(k as int, group_view(g)));
        }
        i += 1;
    }
    proof {
        assert(all.take(i as int) == all);
    }
    sorted
}

/// Groups the changed entities of a diff by pattern membership and by file
/// (see the module documentation), largest group first.
pub fn compute_groups(output: &DiffOutput) -> (r: Vec<ChangeGroup>)
    ensures
        groups_view(r@) == spec_groups(*output),
{
    let fl = flatten(output);
    let flags = pattern_flags(output, &fl);
    let mut groups = pattern_group_list(output, &fl);
    let files = file_group_list(output, &fl, &flags);
    let ghost pg = groups_view(groups@);
    let mut files = files;
    let ghost fg = groups_view(files@);
    groups.append(&mut files);
    proof {
        assert(groups_view(groups@) =~= pg + fg);
    }
    sort_groups(groups)
}

// ---------------------------------------------------------------------
// Group sizes add up
// ---------------------------------------------------------------------

/// The number of entities over all groups.
pub open spec fn total_size(gs: Seq<GroupView>) -> int
    decreases gs.len(),
{
    if gs.len() == 0 {
        0
    } else {
        total_size(gs.drop_last()) + gs.last().entities.len()
    }
}

/// How many positions pattern `i` lists by name.
pub open spec fn hits_len(o: DiffOutput, i: int) -> int {
    pattern_hits(o, i, flat(o).len() as int).len() as int
}

/// The hits of patterns `0..n`, added up.
pub open spec fn hits_total(o: DiffOutput, n: int) -> int
    decreases n,
{
    if n <= 0 {
        0
    } else {
        hits_total(o, n - 1) + hits_len(o, n - 1)
    }
}

/// A position that goes to its file's group: no pattern took its key and
/// it is not formatting-only.
pub open spec fn loose(o: DiffOutput, p: (int, int)) -> bool {
    !key_in_pattern(o, key_of(o, p)) && ent(o, p).change@ != "formatting_only"@
}

pub open spec fn loose_at(o: DiffOutput, j: int) -> int {
    if loose(o, flat(o)[j]) {
        1
    } else {
        0
    }
}

/// How many of the first `m` positions go to file groups.
pub open spec fn loose_count(o: DiffOutput, m: int) -> int
    decreases m,
{
    if m <= 0 {
        0
    } else {
        loose_count(o, m - 1) + loose_at(o, m - 1)
    }
}

proof fn lemma_total_concat(a: Seq<GroupView>, b: Seq<GroupView>)
    ensures
        total_size(a + b) == total_size(a) + total_size(b),
    decreases b.len(),
{
    if b.len() > 0 {
        lemma_total_concat(a, b.drop_last());
        assert((a + b).drop_last() =~= a + b.drop_last());
    } else {
        assert(a + b =~= a);
    }
}

proof fn lemma_total_insert(s: Seq<GroupView>, x: GroupView)
    ensures
        total_size(insert_by_size(s, x)) == total_size(s) + x.entities.len(),
    decreases s.len(),
{
    if s.len() == 0 {
        assert(seq![x].drop_last() =~= Seq::<GroupView>::empty());
        assert(seq![x].last() == x);
        assert(insert_by_size(s, x) == seq![x]);
        assert(total_size(Seq::<GroupView>::empty()) == 0);
        assert(total_size(seq![x]) == x.entities.len());
    } else if s.last().entities.len() >= x.entities.len() {
        assert(s.push(x).drop_last() =~= s);
        assert(s.push(x).last() == x);
        assert(insert_by_size(s, x) == s.push(x));
        assert(total_size(s.push(x)) == total_size(s) + x.entities.len());
    } else {
        lemma_total_insert(s.drop_last(), x);
        let t = insert_by_size(s.drop_last(), x);
        assert(t.push(s.last()).drop_last() =~= t);
        assert(t.push(s.last()).last() == s.last());
        assert(insert_by_size(s, x) == t.push(s.last()));
        assert(total_size(t.push(s.last())) == total_size(t) + s.last().entities.len());
        assert(total_size(s) == total_size(s.drop_last()) + s.last().entities.len());
    }
}

proof fn lemma_total_sort(s: Seq<GroupView>)
    ensures
        total_size(sort_by_size(s)) == total_size(s),
    decreases s.len(),
{
    if s.len() > 0 {
        lemma_total_sort(s.drop_last());
        lemma_total_insert(sort_by_size(s.drop_last()), s.last());
    }
}

/// Some pattern among `0..n` has id `id`.
pub open spec fn id_seen(o: DiffOutput, id: Seq<char>, n: int) -> bool {
    exists|j: int| 0 <= j < n && j < o.patterns@.len() && (#[trigger] o.patterns@[j]).id@ == id
}

/// The hits of the patterns among `0..k` with id `id`.
pub open spec fn id_sum(o: DiffOutput, id: Seq<char>, k: int) -> int
    decreases k,
{
    if k <= 0 {
        0
    } else {
        id_sum(o, id, k - 1) + if o.patterns@[k - 1].id@ == id { hits_len(o, k - 1) } else { 0 }
    }
}

/// The hits of the patterns among `0..k` whose id occurs among `0..n`.
pub open spec fn seen_sum(o: DiffOutput, n: int, k: int) -> int
    decreases k,
{
    if k <= 0 {
        0
    } else {
        seen_sum(o, n, k - 1) + if id_seen(o, o.patterns@[k - 1].id@, n) { hits_len(o, k - 1) } else { 0 }
    }
}

proof fn lemma_members_len(o: DiffOutput, id: Seq<char>, k: int)
    ensures
        pattern_members(o, id, k).len() == id_sum(o, id, k),
    decreases k,
{
    if k > 0 {
        lemma_members_len(o, id, k - 1);
    }
}

proof fn lemma_seen_step(o: DiffOutput, n: int, k: int)
    requires
        1 <= n <= o.patterns@.len(),
        k <= o.patterns@.len(),
    ensures
        seen_sum(o, n, k) == seen_sum(o, n - 1, k) + if !id_seen(o, o.patterns@[n - 1].id@, n - 1) {
            id_sum(o, o.patterns@[n - 1].id@, k)
        } else {
            0
        },
    decreases k,
{
    let id = o.patterns@[n - 1].id@;
    if k > 0 {
        lemma_seen_step(o, n, k - 1);
        let idk = o.patterns@[k - 1].id@;
        if id_seen(o, idk, n - 1) {
            let j = choose|j: int| 0 <= j < n - 1 && j < o.patterns@.len() && (#[trigger] o.patterns@[j]).id@ == idk;
            assert(o.patterns@[j].id@ == idk);
            assert(id_seen(o, idk, n));
        } else if idk == id {
            assert(o.patterns@[n - 1].id@ == idk);
            assert(id_seen(o, idk, n));
        } else {
            assert(!id_seen(o, idk, n)) by {
                if id_seen(o, idk, n) {
                    let j = choose|j: int| 0 <= j < n && j < o.patterns@.len() && (#[trigger] o.patterns@[j]).id@ == idk;
                    if j < n - 1 {
                        assert(id_seen(o, idk, n - 1));
                    }
                }
            }
        }
    }
}

proof fn lemma_pattern_groups_total(o: DiffOutput, n: int)
    requires
        0 <= n <= o.patterns@.len(),
    ensures
        total_size(pattern_groups(o, n)) == seen_sum(o, n, o.patterns@.len() as int),
    decreases n,
{
    let pn = o.patterns@.len() as int;
    if n == 0 {
        lemma_seen_none(o, pn);
    } else {
        lemma_pattern_groups_total(o, n - 1);
        lemma_seen_step(o, n, pn);
        let id = o.patterns@[n - 1].id@;
        lemma_members_len(o, id, pn);
        let first = forall|i: int| 0 <= i < n - 1 ==> (#[trigger] o.patterns@[i]).id@ != id;
        assert(first == !id_seen(o, id, n - 1)) by {
            if id_seen(o, id, n - 1) {
                let j = choose|j: int| 0 <= j < n - 1 && j < o.patterns@.len() && (#[trigger] o.patterns@[j]).id@ == id;
                assert(o.patterns@[j].id@ == id);
            }
        }
        let prev = pattern_groups(o, n - 1);
        if first && pattern_members(o, id, pn).len() > 0 {
            assert(prev.push(pattern_group(o, id)).drop_last() =~= prev);
        }
    }
}

proof fn lemma_seen_none(o: DiffOutput, k: int)
    ensures
        seen_sum(o, 0, k) == 0,
    decreases k,
{
    if k > 0 {
        lemma_seen_none(o, k - 1);
    }
}

proof fn lemma_seen_all(o: DiffOutput, k: int)
    requires
        k <= o.patterns@.len(),
    ensures
        seen_sum(o, o.patterns@.len() as int, k) == hits_total(o, k),
    decreases k,
{
    if k > 0 {
        lemma_seen_all(o, k - 1);
        assert(o.patterns@[k - 1].id@ == o.patterns@[k - 1].id@);
        assert(id_seen(o, o.patterns@[k - 1].id@, o.patterns@.len() as int));
    }
}

/// Some position among the first `m` lies in file `f`.
pub open spec fn file_seen(o: DiffOutput, f: Seq<char>, m: int) -> bool {
    exists|j: int| 0 <= j < m && j < flat(o).len() && file_of(o, #[trigger] flat(o)[j]) == f
}

/// The file-group positions among the first `k` that lie in file `f`.
pub open spec fn file_sum(o: DiffOutput, f: Seq<char>, k: int) -> int
    decreases k,
{
    if k <= 0 {
        0
    } else {
        file_sum(o, f, k - 1) + if file_of(o, flat(o)[k - 1]) == f { loose_at(o, k - 1) } else { 0 }
    }
}

/// The file-group positions among the first `k` whose file occurs among
/// the first `m` positions.
pub open spec fn file_seen_sum(o: DiffOutput, m: int, k: int) -> int
    decreases k,
{
    if k <= 0 {
        0
    } else {
        file_seen_sum(o, m, k - 1) + if file_seen(o, file_of(o, flat(o)[k - 1]), m) {
            loose_at(o, k - 1)
        } else {
            0
        }
    }
}

proof fn lemma_file_members_len(o: DiffOutput, f: Seq<char>, k: int)
    ensures
        file_members(o, f, k).len() == file_sum(o, f, k),
    decreases k,
{
    if k > 0 {
        lemma_file_members_len(o, f, k - 1);
    }
}

proof fn lemma_file_seen_step(o: DiffOutput, m: int, k: int)
    requires
        1 <= m <= flat(o).len(),
        k <= flat(o).len(),
    ensures
        file_seen_sum(o, m, k) == file_seen_sum(o, m - 1, k) + if !file_seen(o, file_of(o, flat(o)[m - 1]), m - 1) {
            file_sum(o, file_of(o, flat(o)[m - 1]), k)
        } else {
            0
        },
    decreases k,
{
    let f = file_of(o, flat(o)[m - 1]);
    if k > 0 {
        lemma_file_seen_step(o, m, k - 1);
        let fk = file_of(o, flat(o)[k - 1]);
        if file_seen(o, fk, m - 1) {
            let j = choose|j: int| 0 <= j < m - 1 && j < flat(o).len() && file_of(o, #[trigger] flat(o)[j]) == fk;
            assert(file_of(o, flat(o)[j]) == fk);
            assert(file_seen(o, fk, m));
        } else if fk == f {
            assert(file_of(o, flat(o)[m - 1]) == fk);
            assert(file_seen(o, fk, m));
        } else {
            assert(!file_seen(o, fk, m)) by {
                if file_seen(o, fk, m) {
                    let j = choose|j: int| 0 <= j < m && j < flat(o).len() && file_of(o, #[trigger] flat(o)[j]) == fk;
                    if j < m - 1 {
                        assert(file_seen(o, fk, m - 1));
                    }
                }
            }
        }
    }
}

proof fn lemma_file_seen_none(o: DiffOutput, k: int)
    ensures
        file_seen_sum(o, 0, k) == 0,
    decreases k,
{
    if k > 0 {
        lemma_file_seen_none(o, k - 1);
    }
}

proof fn lemma_file_seen_all(o: DiffOutput, k: int)
    requires
        k <= flat(o).len(),
    ensures
        file_seen_sum(o, flat(o).len() as int, k) == loose_count(o, k),
    decreases k,
{
    if k > 0 {
        lemma_file_seen_all(o, k - 1);
        assert(file_of(o, flat(o)[k - 1]) == file_of(o, flat(o)[k - 1]));
        assert(file_seen(o, file_of(o, flat(o)[k - 1]), flat(o).len() as int));
    }
}

proof fn lemma_file_groups_total(o: DiffOutput, m: int)
    requires
        0 <= m <= flat(o).len(),
    ensures
        total_size(file_groups(o, m)) == file_seen_sum(o, m, flat(o).len() as int),
    decreases m,
{
    let n = flat(o).len() as int;
    if m == 0 {
        lemma_file_seen_none(o, n);
    } else {
        lemma_file_groups_total(o, m - 1);
        lemma_file_seen_step(o, m, n);
        let f = file_of(o, flat(o)[m - 1]);
        lemma_file_members_len(o, f, n);
        let first = forall|i: int| 0 <= i < m - 1 ==> file_of(o, #[trigger] flat(o)[i]) != f;
        assert(first == !file_seen(o, f, m - 1)) by {
            if file_seen(o, f, m - 1) {
                let j = choose|j: int| 0 <= j < m - 1 && j < flat(o).len() && file_of(o, #[trigger] flat(o)[j]) == f;
                assert(file_of(o, flat(o)[j]) == f);
            }
        }
        let prev = file_groups(o, m - 1);
        if first && file_members(o, f, n).len() > 0 {
            assert(prev.push(file_group(o, f)).drop_last() =~= prev);
        }
    }
}

/// The group sizes add up: the groups hold, between them, every position
/// that some pattern lists by name (once per listing pattern) and every
/// other position that is not formatting-only, once.
pub proof fn law_group_sizes_add_up(o: DiffOutput)
    ensures
        total_size(spec_groups(o)) == hits_total(o, o.patterns@.len() as int) + loose_count(o, flat(o).len() as int),
{
    let pg = pattern_groups(o, o.patterns@.len() as int);
    let fg = file_groups(o, flat(o).len() as int);
    lemma_total_sort(pg + fg);
    lemma_total_concat(pg, fg);
    lemma_pattern_groups_total(o, o.patterns@.len() as int);
    lemma_seen_all(o, o.patterns@.len() as int);
    lemma_file_groups_total(o, flat(o).len() as int);
    lemma_file_seen_all(o, flat(o).len() as int);
}

/// A group member is listed by a pattern, or is not formatting-only.
pub open spec fn member_ok(o: DiffOutput, g: GeView) -> bool {
    named_by_pattern(o, g.name) || g.change != "formatting_only"@
}

pub open spec fn members_ok(o: DiffOutput, ms: Seq<GeView>) -> bool {
    forall|i: int| 0 <= i < ms.len() ==> member_ok(o, #[trigger] ms[i])
}

proof fn lemma_hits_ok(o: DiffOutput, pi: int, m: int)
    requires
        0 <= pi < o.patterns@.len(),
        m <= flat(o).len(),
    ensures
        members_ok(o, pattern_hits(o, pi, m)),
    decreases m,
{
    if m > 0 {
        lemma_hits_ok(o, pi, m - 1);
        let p = flat(o)[m - 1];
        let rest = pattern_hits(o, pi, m - 1);
        if contains_name(o.patterns@[pi].entities@, ent(o, p).name@) {
            assert(named_by_pattern(o, gev(o, p).name)) by {
                assert(contains_name(o.patterns@[pi].entities@, gev(o, p).name));
            }
            assert forall|i: int| 0 <= i < rest.push(gev(o, p)).len() implies member_ok(o, #[trigger] rest.push(gev(o, p))[i]) by {
                if i < rest.len() {
                    assert(rest.push(gev(o, p))[i] == rest[i]);
                }
            }
        }
    }
}

proof fn lemma_members_ok_concat(o: DiffOutput, a: Seq<GeView>, b: Seq<GeView>)
    requires
        members_ok(o, a),
        members_ok(o, b),
    ensures
        members_ok(o, a + b),
{
    assert forall|i: int| 0 <= i < (a + b).len() implies member_ok(o, #[trigger] (a + b)[i]) by {
        if i < a.len() {
            assert((a + b)[i] == a[i]);
        } else {
            assert((a + b)[i] == b[i - a.len()]);
        }
    }
}

proof fn lemma_pattern_members_ok(o: DiffOutput, id: Seq<char>, n: int)
    requires
        n <= o.patterns@.len(),
    ensures
        members_ok(o, pattern_members(o, id, n)),
    decreases n,
{
    if n > 0 {
        lemma_pattern_members_ok(o, id, n - 1);
        if o.patterns@[n - 1].id@ == id {
            lemma_hits_ok(o, n - 1, flat(o).len() as int);
            lemma_members_ok_concat(o, pattern_members(o, id, n - 1), pattern_hits(o, n - 1, flat(o).len() as int));
        }
    }
}

proof fn lemma_file_members_ok(o: DiffOutput, f: Seq<char>, m: int)
    ensures
        members_ok(o, file_members(o, f, m)),
    decreases m,
{
    if m > 0 {
        lemma_file_members_ok(o, f, m - 1);
        let p = flat(o)[m - 1];
        let rest = file_members(o, f, m - 1);
        if file_of(o, p) == f && !key_in_pattern(o, key_of(o, p)) && ent(o, p).change@ != "formatting_only"@ {
            assert forall|i: int| 0 <= i < rest.push(gev(o, p)).len() implies member_ok(o, #[trigger] rest.push(gev(o, p))[i]) by {
                if i < rest.len() {
                    assert(rest.push(gev(o, p))[i] == rest[i]);
                }
            }
        }
    }
}

pub open spec fn groups_members_ok(o: DiffOutput, gs: Seq<GroupView>) -> bool {
    forall|k: int| 0 <= k < gs.len() ==> members_ok(o, #[trigger] gs[k].entities)
}

proof fn lemma_pattern_groups_members(o: DiffOutput, n: int)
    requires
        n <= o.patterns@.len(),
    ensures
        groups_members_ok(o, pattern_groups(o, n)),
    decreases n,
{
    if n > 0 {
        lemma_pattern_groups_members(o, n - 1);
        let prev = pattern_groups(o, n - 1);
        let id = o.patterns@[n - 1].id@;
        lemma_pattern_members_ok(o, id, o.patterns@.len() as int);
        let g = pattern_group(o, id);
        assert forall|k: int| 0 <= k < prev.push(g).len() implies members_ok(o, #[trigger] prev.push(g)[k].entities) by {
            if k < prev.len() {
                assert(prev.push(g)[k] == prev[k]);
            }
        }
    }
}

proof fn lemma_file_groups_members(o: DiffOutput, m: int)
    ensures
        groups_members_ok(o, file_groups(o, m)),
    decreases m,
{
    if m > 0 {
        lemma_file_groups_members(o, m - 1);
        let prev = file_groups(o, m - 1);
        let f = file_of(o, flat(o)[m - 1]);
        lemma_file_members_ok(o, f, flat(o).len() as int);
        let g = file_group(o, f);
        assert forall|k: int| 0 <= k < prev.push(g).len() implies members_ok(o, #[trigger] prev.push(g)[k].entities) by {
            if k < prev.len() {
                assert(prev.push(g)[k] == prev[k]);
            }
        }
    }
}

proof fn lemma_insert_members(o: DiffOutput, s: Seq<GroupView>, x: GroupView)
    requires
        groups_members_ok(o, s),
        members_ok(o, x.entities),
    ensures
        groups_members_ok(o, insert_by_size(s, x)),
    decreases s.len(),
{
    if s.len() == 0 {
        assert(seq![x][0] == x);
    } else if s.last().entities.len() >= x.entities.len() {
        assert forall|k: int| 0 <= k < s.push(x).len() implies members_ok(o, #[trigger] s.push(x)[k].entities) by {
            if k < s.len() {
                assert(s.push(x)[k] == s[k]);
            }
        }
    } else {
        let d = s.drop_last();
        assert forall|k: int| 0 <= k < d.len() implies members_ok(o, #[trigger] d[k].entities) by {
            assert(d[k] == s[k]);
        }
        lemma_insert_members(o, d, x);
        let t = insert_by_size(d, x);
        assert(members_ok(o, s[s.len() - 1].entities));
        assert forall|k: int| 0 <= k < t.push(s.last()).len() implies members_ok(o, #[trigger] t.push(s.last())[k].entities) by {
            if k < t.len() {
                assert(t.push(s.last())[k] == t[k]);
            }
        }
    }
}

proof fn lemma_sort_members(o: DiffOutput, s: Seq<GroupView>)
    requires
        groups_members_ok(o, s),
    ensures
        groups_members_ok(o, sort_by_size(s)),
    decreases s.len(),
{
    if s.len() > 0 {
        let d = s.drop_last();
        assert forall|k: int| 0 <= k < d.len() implies members_ok(o, #[trigger] d[k].entities) by {
            assert(d[k] == s[k]);
        }
        lemma_sort_members(o, d);
        assert(members_ok(o, s[s.len() - 1].entities));
        lemma_insert_members(o, sort_by_size(d), s.last());
    }
}

/// A formatting-only entity is grouped only through a pattern: every
/// member of every group is listed by some pattern or is not
/// formatting-only.
pub proof fn law_formatting_only_only_through_patterns(o: DiffOutput)
    ensures
        forall|k: int, i: int|
            0 <= k < spec_groups(o).len() && 0 <= i < spec_groups(o)[k].entities.len()
                && (#[trigger] spec_groups(o)[k].entities[i]).change == "formatting_only"@ ==> named_by_pattern(
                o,
                spec_groups(o)[k].entities[i].name,
            ),
{
    let pg = pattern_groups(o, o.patterns@.len() as int);
    let fg = file_groups(o, flat(o).len() as int);
    lemma_pattern_groups_members(o, o.patterns@.len() as int);
    lemma_file_groups_members(o, flat(o).len() as int);
    let all = pg + fg;
    assert forall|k: int| 0 <= k < all.len() implies members_ok(o, #[trigger] all[k].entities) by {
        if k < pg.len() {
            assert(all[k] == pg[k]);
        } else {
            assert(all[k] == fg[k - pg.len()]);
        }
    }
    lemma_sort_members(o, all);
    let sg = spec_groups(o);
    assert forall|k: int, i: int|
        0 <= k < sg.len() && 0 <= i < sg[k].entities.len() && (#[trigger] sg[k].entities[i]).change
            == "formatting_only"@ implies named_by_pattern(o, sg[k].entities[i].name) by {
        assert(members_ok(o, sg[k].entities));
        assert(member_ok(o, sg[k].entities[i]));
    }
}

} // verus!
