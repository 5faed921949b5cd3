//! The result of a structural diff: one record per changed entity, the
//! summary counts, and the cross-file patterns (the same change applied
//! to same-named entities in several files).

use vstd::prelude::*;
use crate::change_detail::ChangeDetail;
use crate::entity::Entity;
use crate::fmt::{decimal, push_chars, push_num, push_str};
use crate::inline_diff::DiffLine;
use crate::text::{
    after_last, chars_vec, insert_sorted, seq_eq, sorted_distinct, sorted_insert, string_from,
    string_views, strictly_sorted, tail_after_last,
};

verus! {

broadcast use vstd::string::group_string_axioms;

/// How an entity changed between two refs.
#[derive(Debug, Clone, Copy, PartialEq, Eq, Structural)]
pub enum ChangeKind {
    Added,
    Removed,
    Modified,
    Moved,
    Renamed,
    FormattingOnly,
}

/// One changed entity.
#[derive(Debug)]
pub struct EntityDiff {
    pub change: ChangeKind,
    pub name: String,
    pub kind: String,
    pub file: String,
    pub old_file: Option<String>,
    pub old_name: Option<String>,
    pub sig_changed: Option<bool>,
    pub body_changed: Option<bool>,
    pub breaking: bool,
    pub breaking_reason: Option<String>,
    pub old: Option<Entity>,
    pub new: Option<Entity>,
    pub inline_diff: Option<Vec<DiffLine>>,
    pub change_details: Option<Vec<ChangeDetail>>,
}

/// The same change applied to same-named entities in several files.
#[derive(Debug)]
pub struct CrossFilePattern {
    pub description: String,
    pub entity_names: Vec<String>,
    pub files: Vec<String>,
    pub change: ChangeKind,
}

/// Counts of changed entities per kind, and whether any change breaks
/// callers.
#[derive(Debug, Clone, Copy, PartialEq, Eq, Structural)]
pub struct DiffSummary {
    pub added: usize,
    pub removed: usize,
    pub modified: usize,
    pub moved: usize,
    pub renamed: usize,
    pub formatting_only: usize,
    pub has_breaking_change: bool,
}

/// A whole diff between two refs.
#[derive(Debug)]
pub struct DiffResult {
    pub base_ref: String,
    pub head_ref: String,
    pub entities: Vec<EntityDiff>,
    pub patterns: Vec<CrossFilePattern>,
    pub summary: DiffSummary,
}

/// Entities among the first `n` whose change is `k`.
pub open spec fn count_kind(es: Seq<EntityDiff>, k: ChangeKind, n: int) -> nat
    decreases n,
{
    if n <= 0 {
        0
    } else {
        count_kind(es, k, n - 1) + if es[n - 1].change == k {
            1nat
        } else {
            0nat
        }
    }
}

/// Whether one of the first `n` entities breaks callers.
pub open spec fn any_breaking(es: Seq<EntityDiff>, n: int) -> bool
    decreases n,
{
    if n <= 0 {
        false
    } else {
        any_breaking(es, n - 1) || es[n - 1].breaking
    }
}

/// The summary of the first `n` entities.
pub open spec fn summary_of(es: Seq<EntityDiff>, n: int) -> DiffSummary {
    DiffSummary {
        added: count_kind(es, ChangeKind::Added, n) as usize,
        removed: count_kind(es, ChangeKind::Removed, n) as usize,
        modified: count_kind(es, ChangeKind::Modified, n) as usize,
        moved: count_kind(es, ChangeKind::Moved, n) as usize,
        renamed: count_kind(es, ChangeKind::Renamed, n) as usize,
        formatting_only: count_kind(es, ChangeKind::FormattingOnly, n) as usize,
        has_breaking_change: any_breaking(es, n),
    }
}

/// Every entity is counted under exactly one kind: the per-kind counts of
/// the first `n` entities add up to `n`.
pub proof fn law_summary_counts_every_entity(es: Seq<EntityDiff>, n: int)
    requires
        0 <= n <= es.len(),
    ensures
        count_kind(es, ChangeKind::Added, n) + count_kind(es, ChangeKind::Removed, n) + count_kind(
            es,
            ChangeKind::Modified,
            n,
        ) + count_kind(es, ChangeKind::Moved, n) + count_kind(es, ChangeKind::Renamed, n)
            + count_kind(es, ChangeKind::FormattingOnly, n) == n,
    decreases n,
{
    if n > 0 {
        law_summary_counts_every_entity(es, n - 1);
    }
}

proof fn lemma_count_kind_le(es: Seq<EntityDiff>, k: ChangeKind, n: int)
    requires
        0 <= n,
    ensures
        count_kind(es, k, n) <= n,
    decreases n,
{
    if n > 0 {
        lemma_count_kind_le(es, k, n - 1);
    }
}

/// Lower-case name of a change kind, as in pattern descriptions.
pub open spec fn change_word(k: ChangeKind) -> Seq<char> {
    match k {
        ChangeKind::Added => "added"@,
        ChangeKind::Removed => "removed"@,
        ChangeKind::Modified => "modified"@,
        ChangeKind::Moved => "moved"@,
        ChangeKind::Renamed => "renamed"@,
        ChangeKind::FormattingOnly => "formattingonly"@,
    }
}

/// The part of a dotted name after its last `.` (all of it when there is
/// none): `Class.method` groups with `method`.
pub open spec fn base_name(name: Seq<char>) -> Seq<char> {
    after_last(name, '.')
}

/// The grouping key of an entity change.
pub open spec fn pattern_key(e: EntityDiff) -> (ChangeKind, Seq<char>) {
    (e.change, base_name(e.name@))
}

/// Distinct keys of the first `n` entities that are not formatting-only,
/// in order of first appearance.
pub open spec fn keys_upto(es: Seq<EntityDiff>, n: int) -> Seq<(ChangeKind, Seq<char>)>
    decreases n,
{
    if n <= 0 {
        Seq::empty()
    } else {
        let ks = keys_upto(es, n - 1);
        let e = es[n - 1];
        if e.change != ChangeKind::FormattingOnly && !ks.contains(pattern_key(e)) {
            ks.push(pattern_key(e))
        } else {
            ks
        }
    }
}

/// The entities among the first `n` with key `key` (never formatting-only
/// ones), in order.
pub open spec fn members(es: Seq<EntityDiff>, key: (ChangeKind, Seq<char>), n: int) -> Seq<EntityDiff>
    decreases n,
{
    if n <= 0 {
        Seq::empty()
    } else if es[n - 1].change != ChangeKind::FormattingOnly && pattern_key(es[n - 1]) == key {
        members(es, key, n - 1).push(es[n - 1])
    } else {
        members(es, key, n - 1)
    }
}

/// `(description, entity names, files, change)` of a pattern.
pub type PatternView = (Seq<char>, Seq<Seq<char>>, Seq<Seq<char>>, ChangeKind);

pub open spec fn pattern_view(p: CrossFilePattern) -> PatternView {
    (p.description@, string_views(p.entity_names@), string_views(p.files@), p.change)
}

pub open spec fn patterns_view(ps: Seq<CrossFilePattern>) -> Seq<PatternView> {
    ps.map_values(|p: CrossFilePattern| pattern_view(p))
}

/// The pattern a group of members forms: its sorted distinct files, if
/// there are at least two.
pub open spec fn group_pattern(key: (ChangeKind, Seq<char>), ms: Seq<EntityDiff>) -> Option<PatternView> {
    let files = sorted_distinct(ms.map_values(|e: EntityDiff| e.file@));
    if files.len() < 2 {
        None
    } else {
        Some(
            (
                "same "@ + change_word(key.0) + " applied to "@ + key.1 + " across "@ + decimal(
                    files.len(),
                ) + " files"@,
                ms.map_values(|e: EntityDiff| e.name@),
                files,
                key.0,
            ),
        )
    }
}

/// The patterns of the first `m` keys, in key order.
pub open spec fn candidate_patterns(es: Seq<EntityDiff>, keys: Seq<(ChangeKind, Seq<char>)>, m: int) -> Seq<
    PatternView,
>
    decreases m,
{
    if m <= 0 {
        Seq::empty()
    } else {
        let rest = candidate_patterns(es, keys, m - 1);
        match group_pattern(keys[m - 1], members(es, keys[m - 1], es.len() as int)) {
            Some(p) => rest.push(p),
            None => rest,
        }
    }
}

/// Inserts `x` after the last pattern that spans at least as many files.
pub open spec fn insert_by_files(s: Seq<PatternView>, x: PatternView) -> Seq<PatternView>
    decreases s.len(),
{
    if s.len() == 0 {
        seq![x]
    } else if s.last().2.len() >= x.2.len() {
        s.push(x)
    } else {
        insert_by_files(s.drop_last(), x).push(s.last())
    }
}

/// Stable sort by number of files, most first.
pub open spec fn sort_by_files(s: Seq<PatternView>) -> Seq<PatternView>
    decreases s.len(),
{
    if s.len() == 0 {
        s
    } else {
        insert_by_files(sort_by_files(s.drop_last()), s.last())
    }
}

/// The cross-file patterns of a diff: for each (change, base name) key in
/// order of first appearance, the group spanning two or more files;
/// widest first, ties in key order.
pub open spec fn spec_patterns(es: Seq<EntityDiff>) -> Seq<PatternView> {
    let keys = keys_upto(es, es.len() as int);
    sort_by_files(candidate_patterns(es, keys, keys.len() as int))
}

proof fn lemma_insert_by_files(s: Seq<PatternView>, x: PatternView, k: int)
    requires
        0 <= k <= s.len(),
        forall|j: int| k <= j < s.len() ==> (#[trigger] s[j]).2.len() < x.2.len(),
        k == 0 || s[k - 1].2.len() >= x.2.len(),
    ensures
        insert_by_files(s, x) == s.insert(k, x),
    decreases s.len(),
{
    if s.len() == 0 {
        assert(s.insert(0, x) =~= seq![x]);
    } else if s.last().2.len() >= x.2.len() {
        assert(k == s.len());
        assert(s.insert(k, x) =~= s.push(x));
    } else {
        lemma_insert_by_files(s.drop_last(), x, k);
        assert(s.insert(k, x) =~= s.drop_last().insert(k, x).push(s.last()));
    }
}

pub open spec fn key_views(ks: Seq<(ChangeKind, Vec<char>)>) -> Seq<(ChangeKind, Seq<char>)> {
    ks.map_values(|k: (ChangeKind, Vec<char>)| (k.0, k.1@))
}

impl DiffResult {
    /// Count the changed entities per kind and note whether any breaks
    /// callers.
    pub fn compute_summary(entities: &[EntityDiff]) -> (r: DiffSummary)
        ensures
            r == summary_of(entities@, entities@.len() as int),
    {
        let ghost es = entities@;
        let mut s = DiffSummary {
            added: 0,
            removed: 0,
            modified: 0,
            moved: 0,
            renamed: 0,
            formatting_only: 0,
            has_breaking_change: false,
        };
        let mut i: usize = 0;
        while i < entities.len()
            invariant
                i <= es.len(),
                es == entities@,
                s == summary_of(es, i as int),
            decreases es.len() - i,
        {
            proof {
                lemma_count_kind_le(es, ChangeKind::Added, i as int);
                lemma_count_kind_le(es, ChangeKind::Removed, i as int);
                lemma_count_kind_le(es, ChangeKind::Modified, i as int);
                lemma_count_kind_le(es, ChangeKind::Moved, i as int);
                lemma_count_kind_le(es, ChangeKind::Renamed, i as int);
                lemma_count_kind_le(es, ChangeKind::FormattingOnly, i as int);
            }
            match entities[i].change {
                ChangeKind::Added => s.added = s.added + 1,
                ChangeKind::Removed => s.removed = s.removed + 1,
                ChangeKind::Modified => s.modified = s.modified + 1,
                ChangeKind::Moved => s.moved = s.moved + 1,
                ChangeKind::Renamed => s.renamed = s.renamed + 1,
                ChangeKind::FormattingOnly => s.formatting_only = s.formatting_only + 1,
            }
            if entities[i].breaking {
                s.has_breaking_change = true;
            }
            i += 1;
        }
        s
    }

    /// Cross-file patterns: entities that are not formatting-only, grouped
    /// by change kind and base name (the part after the last `.`); each
    /// group touching two or more distinct files becomes a pattern with
    /// its sorted files. Groups come in order of first appearance, then
    /// stably sorted by file count, most first.
    pub fn detect_patterns(entities: &[EntityDiff]) -> (r: Vec<CrossFilePattern>)
        ensures
            patterns_view(r@) == spec_patterns(entities@),
    {
        let keys = pattern_keys(entities);
        let ghost kv = key_views(keys@);
        let mut cands: Vec<CrossFilePattern> = Vec::new();
        let mut m: usize = 0;
        while m < keys.len()
            invariant
                m <= keys@.len(),
                kv == key_views(keys@),
                kv == keys_upto(entities@, entities@.len() as int),
                patterns_view(cands@) == candidate_patterns(entities@, kv, m as int),
            decreases keys@.len() - m,
        {
            assert(kv[m as int] == (keys@[m as int].0, keys@[m as int].1@));
            let ghost before = cands@;
            match group_pattern_exec(entities, keys[m].0, &keys[m].1) {
                Some(p) => {
                    cands.push(p);
                    assert(patterns_view(cands@) == patterns_view(before).push(pattern_view(cands@.last())));
                },
                None => {},
            }
            m += 1;
        }
        sort_patterns(cands)
    }
}

fn pattern_keys(entities: &[EntityDiff]) -> (r: Vec<(ChangeKind, Vec<char>)>)
    ensures
        key_views(r@) == keys_upto(entities@, entities@.len() as int),
{
    let ghost es = entities@;
    let mut keys: Vec<(ChangeKind, Vec<char>)> = Vec::new();
    let mut i: usize = 0;
    while i < entities.len()
        invariant
            i <= es.len(),
            es == entities@,
            key_views(keys@) == keys_upto(es, i as int),
        decreases es.len() - i,
    {
        let e = &entities[i];
        if e.change != ChangeKind::FormattingOnly {
            let base = tail_after_last(&chars_vec(e.name.as_str()), '.');
            let mut found = false;
            let mut j: usize = 0;
            while j < keys.len()
                invariant
                    j <= keys@.len(),
                    base@ == base_name(es[i as int].name@),
                    found == exists|t: int| 0 <= t < j && #[trigger] key_views(keys@)[t] == (e.change, base@),
                decreases keys@.len() - j,
            {
                if keys[j].0 == e.change && seq_eq(&keys[j].1, &base) {
                    assert(key_views(keys@)[j as int] == (e.change, base@));
                    found = true;
                }
                j += 1;
            }
            let ghost kb = key_views(keys@);
            assert(found == kb.contains(pattern_key(es[i as int]))) by {
                if kb.contains(pattern_key(es[i as int])) {
                    let t = choose|t: int| 0 <= t < kb.len() && kb[t] == pattern_key(es[i as int]);
                    assert(key_views(keys@)[t] == (e.change, base@));
                }
            }
            if !found {
                keys.push((e.change, base));
                assert(key_views(keys@) == kb.push(pattern_key(es[i as int])));
            }
        }
        i += 1;
    }
    keys
}

fn group_pattern_exec(entities: &[EntityDiff], change: ChangeKind, base: &Vec<char>) -> (r: Option<
    CrossFilePattern,
>)
    ensures
        match r {
            Some(p) => group_pattern((change, base@), members(entities@, (change, base@), entities@.len() as int))
                == Some(pattern_view(p)),
            None => group_pattern((change, base@), members(entities@, (change, base@), entities@.len() as int)) is None,
        },
{
    let ghost es = entities@;
    let ghost key = (change, base@);
    let mut names: Vec<String> = Vec::new();
    let mut files: Vec<String> = Vec::new();
    let mut i: usize = 0;
    while i < entities.len()
        invariant
            i <= es.len(),
            es == entities@,
            key == (change, base@),
            string_views(names@) == members(es, key, i as int).map_values(|e: EntityDiff| e.name@),
            string_views(files@) == sorted_distinct(members(es, key, i as int).map_values(|e: EntityDiff| e.file@)),
            strictly_sorted(string_views(files@)),
        decreases es.len() - i,
    {
        let e = &entities[i];
        let ghost ms = members(es, key, i as int);
        if e.change != ChangeKind::FormattingOnly && e.change == change && seq_eq(
            &tail_after_last(&chars_vec(e.name.as_str()), '.'),
            base,
        ) {
            let ghost nb = names@;
            names.push(e.name.clone());
            assert(string_views(names@) == string_views(nb).push(e.name@));
            assert(members(es, key, i + 1) == ms.push(es[i as int]));
            assert(ms.push(es[i as int]).map_values(|e: EntityDiff| e.name@) == ms.map_values(
                |e: EntityDiff| e.name@,
            ).push(e.name@));
            let ghost fv = ms.push(es[i as int]).map_values(|e: EntityDiff| e.file@);
            assert(fv.drop_last() == ms.map_values(|e: EntityDiff| e.file@));
            assert(fv.last() == e.file@);
            insert_sorted(&mut files, e.file.clone());
        } else {
            assert(members(es, key, i + 1) == ms);
        }
        i += 1;
    }
    if files.len() < 2 {
        return None;
    }
    let mut d: Vec<char> = Vec::new();
    push_str(&mut d, "same ");
    match change {
        ChangeKind::Added => push_str(&mut d, "added"),
        ChangeKind::Removed => push_str(&mut d, "removed"),
        ChangeKind::Modified => push_str(&mut d, "modified"),
        ChangeKind::Moved => push_str(&mut d, "moved"),
        ChangeKind::Renamed => push_str(&mut d, "renamed"),
        ChangeKind::FormattingOnly => push_str(&mut d, "formattingonly"),
    }
    push_str(&mut d, " applied to ");
    push_chars(&mut d, base);
    push_str(&mut d, " across ");
    push_num(&mut d, files.len() as u64);
    push_str(&mut d, " files");
    let p = CrossFilePattern { description: string_from(&d), entity_names: names, files, change };
    Some(p)
}

fn sort_patterns(ps: Vec<CrossFilePattern>) -> (r: Vec<CrossFilePattern>)
    ensures
        patterns_view(r@) == sort_by_files(patterns_view(ps@)),
{
    let ghost all = patterns_view(ps@);
    let total = ps.len();
    let mut rest = ps;
    let mut sorted: Vec<CrossFilePattern> = Vec::new();
    let mut i: usize = 0;
    while rest.len() > 0
        invariant
            i <= all.len(),
            all.len() == total,
            patterns_view(rest@) == all.skip(i as int),
            patterns_view(sorted@) == sort_by_files(all.take(i as int)),
        decreases rest@.len(),
    {
        let ghost before_rest = rest@;
        proof {
            assert(patterns_view(before_rest).len() == before_rest.len());
            assert(all.skip(i as int).len() == before_rest.len());
            assert(patterns_view(before_rest)[0] == pattern_view(before_rest[0]));
            assert(all.skip(i as int)[0] == all[i as int]);
        }
        let p = rest.remove(0);
        proof {
            assert(rest@ == before_rest.remove(0));
            assert forall|j: int| 0 <= j < rest@.len() implies patterns_view(rest@)[j] == all.skip(i + 1)[j] by {
                assert(rest@[j] == before_rest[j + 1]);
                assert(patterns_view(before_rest)[j + 1] == all.skip(i as int)[j + 1]);
            }
            assert(patterns_view(rest@) =~= all.skip(i + 1));
            assert(pattern_view(p) == all[i as int]);
            assert(all.take(i + 1).drop_last() == all.take(i as int));
        }
        let n = p.files.len();
        let mut k = sorted.len();
        while k > 0 && sorted[k - 1].files.len() < n
            invariant
                k <= sorted@.len(),
                n == pattern_view(p).2.len(),
                forall|j: int| k <= j < sorted@.len() ==> (#[trigger] patterns_view(sorted@)[j]).2.len() < n,
            decreases k,
        {
            assert(patterns_view(sorted@)[k - 1] == pattern_view(sorted@[k - 1]));
            k -= 1;
        }
        proof {
            let sv = patterns_view(sorted@);
            if k > 0 {
                assert(sv[k - 1] == pattern_view(sorted@[k - 1]));
            }
            lemma_insert_by_files(sv, pattern_view(p), k as int);
        }
        let ghost before = sorted@;
        sorted.insert(k, p);
        proof {
            assert(patterns_view(sorted@) =~= patterns_view(before).insert(k as int, pattern_view(p)));
        }
        i += 1;
    }
    proof {
        assert(all.take(i as int) == all);
    }
    sorted
}

proof fn lemma_insert_by_files_wide(s: Seq<PatternView>, x: PatternView)
    requires
        forall|k: int| 0 <= k < s.len() ==> (#[trigger] s[k]).2.len() >= 2,
        x.2.len() >= 2,
    ensures
        forall|k: int| 0 <= k < insert_by_files(s, x).len() ==> (#[trigger] insert_by_files(s, x)[k]).2.len() >= 2,
    decreases s.len(),
{
    if s.len() > 0 {
        if s.last().2.len() >= x.2.len() {
            assert forall|k: int| 0 <= k < s.push(x).len() implies (#[trigger] s.push(x)[k]).2.len() >= 2 by {
                if k < s.len() {
                    assert(s.push(x)[k] == s[k]);
                }
            }
        } else {
            let d = s.drop_last();
            assert forall|k: int| 0 <= k < d.len() implies (#[trigger] d[k]).2.len() >= 2 by {
                assert(d[k] == s[k]);
            }
            lemma_insert_by_files_wide(d, x);
            let t = insert_by_files(d, x);
            assert forall|k: int| 0 <= k < t.push(s.last()).len() implies (#[trigger] t.push(s.last())[k]).2.len() >= 2 by {
                if k < t.len() {
                    assert(t.push(s.last())[k] == t[k]);
                }
            }
        }
    }
}

proof fn lemma_sort_by_files_wide(s: Seq<PatternView>)
    requires
        forall|k: int| 0 <= k < s.len() ==> (#[trigger] s[k]).2.len() >= 2,
    ensures
        forall|k: int| 0 <= k < sort_by_files(s).len() ==> (#[trigger] sort_by_files(s)[k]).2.len() >= 2,
    decreases s.len(),
{
    if s.len() > 0 {
        let d = s.drop_last();
        assert forall|k: int| 0 <= k < d.len() implies (#[trigger] d[k]).2.len() >= 2 by {
            assert(d[k] == s[k]);
        }
        lemma_sort_by_files_wide(d);
        lemma_insert_by_files_wide(sort_by_files(d), s.last());
    }
}

proof fn lemma_candidates_wide(es: Seq<EntityDiff>, keys: Seq<(ChangeKind, Seq<char>)>, m: int)
    ensures
        forall|k: int|
            0 <= k < candidate_patterns(es, keys, m).len() ==> (#[trigger] candidate_patterns(es, keys, m)[k]).2.len() >= 2,
    decreases m,
{
    if m > 0 {
        lemma_candidates_wide(es, keys, m - 1);
        let rest = candidate_patterns(es, keys, m - 1);
        match group_pattern(keys[m - 1], members(es, keys[m - 1], es.len() as int)) {
            Some(p) => {
                assert forall|k: int| 0 <= k < rest.push(p).len() implies (#[trigger] rest.push(p)[k]).2.len() >= 2 by {
                    if k < rest.len() {
                        assert(rest.push(p)[k] == rest[k]);
                    }
                }
            },
            None => {},
        }
    }
}

/// Every cross-file pattern of a diff spans at least two files.
pub proof fn law_patterns_span_two_files(es: Seq<EntityDiff>)
    ensures
        forall|k: int| 0 <= k < spec_patterns(es).len() ==> (#[trigger] spec_patterns(es)[k]).2.len() >= 2,
{
    let keys = keys_upto(es, es.len() as int);
    lemma_candidates_wide(es, keys, keys.len() as int);
    lemma_sort_by_files_wide(candidate_patterns(es, keys, keys.len() as int));
}

/// How many of `es` have change `k`, counted by filtering.
pub open spec fn entities_of_kind(es: Seq<EntityDiff>, k: ChangeKind) -> nat {
    es.filter(|e: EntityDiff| e.change == k).len()
}

proof fn lemma_count_kind_filter(es: Seq<EntityDiff>, k: ChangeKind, n: int)
    requires
        0 <= n <= es.len(),
    ensures
        count_kind(es, k, n) == entities_of_kind(es.take(n), k),
        count_kind(es, k, n) <= n,
    decreases n,
{
    reveal(Seq::filter);
    if n > 0 {
        lemma_count_kind_filter(es, k, n - 1);
        assert(es.take(n).drop_last() =~= es.take(n - 1));
        assert(es.take(n).last() == es[n - 1]);
    } else {
        assert(es.take(0) =~= Seq::<EntityDiff>::empty());
    }
}

proof fn lemma_any_breaking_exists(es: Seq<EntityDiff>, n: int)
    requires
        0 <= n <= es.len(),
    ensures
        any_breaking(es, n) <==> exists|i: int| 0 <= i < n && (#[trigger] es[i]).breaking,
    decreases n,
{
    if n > 0 {
        lemma_any_breaking_exists(es, n - 1);
        if any_breaking(es, n - 1) {
            let i = choose|i: int| 0 <= i < n - 1 && (#[trigger] es[i]).breaking;
            assert(0 <= i < n && es[i].breaking);
        }
    }
}

/// Each count of the summary is the number of entities of its own kind
/// (moved ones under `moved`, renamed ones under `renamed`, and so on),
/// and a breaking change is flagged exactly when some entity is breaking.
pub proof fn law_summary_counts_each_kind(es: Seq<EntityDiff>)
    requires
        es.len() <= usize::MAX,
    ensures
        summary_of(es, es.len() as int).added == entities_of_kind(es, ChangeKind::Added),
        summary_of(es, es.len() as int).removed == entities_of_kind(es, ChangeKind::Removed),
        summary_of(es, es.len() as int).modified == entities_of_kind(es, ChangeKind::Modified),
        summary_of(es, es.len() as int).moved == entities_of_kind(es, ChangeKind::Moved),
        summary_of(es, es.len() as int).renamed == entities_of_kind(es, ChangeKind::Renamed),
        summary_of(es, es.len() as int).formatting_only == entities_of_kind(es, ChangeKind::FormattingOnly),
        summary_of(es, es.len() as int).has_breaking_change <==> exists|i: int|
            0 <= i < es.len() && (#[trigger] es[i]).breaking,
{
    let n = es.len() as int;
    assert(es.take(n) =~= es);
    lemma_count_kind_filter(es, ChangeKind::Added, n);
    lemma_count_kind_filter(es, ChangeKind::Removed, n);
    lemma_count_kind_filter(es, ChangeKind::Modified, n);
    lemma_count_kind_filter(es, ChangeKind::Moved, n);
    lemma_count_kind_filter(es, ChangeKind::Renamed, n);
    lemma_count_kind_filter(es, ChangeKind::FormattingOnly, n);
    lemma_any_breaking_exists(es, n);
}

/// Adding one entity to a diff adds one to the count of its own kind and
/// leaves the other counts as they were.
pub proof fn law_summary_push(es: Seq<EntityDiff>, e: EntityDiff, k: ChangeKind)
    requires
        es.len() < usize::MAX,
    ensures
        count_kind(es.push(e), k, (es.len() + 1) as int) == count_kind(es, k, es.len() as int) + if e.change == k {
            1int
        } else {
            0int
        },
        summary_of(es.push(e), (es.len() + 1) as int).moved == summary_of(es, es.len() as int).moved + if e.change
            == ChangeKind::Moved {
            1int
        } else {
            0int
        },
        summary_of(es.push(e), (es.len() + 1) as int).renamed == summary_of(es, es.len() as int).renamed + if e.change
            == ChangeKind::Renamed {
            1int
        } else {
            0int
        },
{
    let t = es.push(e);
    let n = es.len() as int;
    law_summary_counts_each_kind(es);
    law_summary_counts_each_kind(t);
    lemma_count_kind_filter(t, k, n + 1);
    lemma_count_kind_filter(es, k, n);
    lemma_count_kind_filter(t, ChangeKind::Moved, n);
    lemma_count_kind_filter(t, ChangeKind::Renamed, n);
    lemma_count_kind_prefix(t, es, k, n);
    lemma_count_kind_prefix(t, es, ChangeKind::Moved, n);
    lemma_count_kind_prefix(t, es, ChangeKind::Renamed, n);
    lemma_count_kind_filter(es, ChangeKind::Moved, n);
    lemma_count_kind_filter(es, ChangeKind::Renamed, n);
}

proof fn lemma_count_kind_prefix(a: Seq<EntityDiff>, b: Seq<EntityDiff>, k: ChangeKind, n: int)
    requires
        0 <= n <= b.len(),
        n <= a.len(),
        forall|i: int| 0 <= i < n ==> a[i] == b[i],
    ensures
        count_kind(a, k, n) == count_kind(b, k, n),
    decreases n,
{
    if n > 0 {
        lemma_count_kind_prefix(a, b, k, n - 1);
    }
}

} // verus!
