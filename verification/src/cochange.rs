//! Co-change mining: which files tend to change together in history.
//!
//! The history comes from `git log --name-only --pretty=format:---%H`;
//! each commit becomes the sorted set of files it touched.

use vstd::prelude::*;
use crate::query::index::{lemma_positions_bounded, lemma_positions_contains, positions};
use crate::text::{
    chars_lt, chars_vec, insert_sorted, is_prefix, lemma_seq_lt_irreflexive, lemma_seq_lt_total,
    lemma_seq_lt_transitive, lines, lines_of, seq_lt, sorted_insert, starts_with, string_from,
    string_views, strictly_sorted, trim, trim_chars,
};

verus! {

broadcast use vstd::string::group_string_axioms;

/// Tunable knobs of the mining.
#[derive(Debug, Clone, Copy, PartialEq, Eq, Structural)]
pub struct CochangeConfig {
    /// Number of historical commits to walk.
    pub commits: u32,
    /// Drop pairs seen together fewer than this many times.
    pub min_support: u32,
    /// Skip commits that touch more files than this (mass refactors).
    pub max_files_per_commit: u32,
}

impl Default for CochangeConfig {
    fn default() -> (r: Self)
        ensures
            r == (CochangeConfig { commits: 500, min_support: 2, max_files_per_commit: 30 }),
    {
        CochangeConfig { commits: 500, min_support: 2, max_files_per_commit: 30 }
    }
}

/// Commits read so far, and the files of the commit being read.
pub type LogState = (Seq<Seq<Seq<char>>>, Option<Seq<Seq<char>>>);

/// `commits` with `current` appended when it is a non-empty commit of at
/// most `max_files` files (the count taken as a `u32`).
pub open spec fn close_commit(commits: Seq<Seq<Seq<char>>>, current: Option<Seq<Seq<char>>>, max_files: u32) -> Seq<Seq<Seq<char>>> {
    match current {
        Some(c) => if c.len() > 0 && (c.len() as u32) <= max_files {
            commits.push(c)
        } else {
            commits
        },
        None => commits,
    }
}

/// One line of the log: a `---` line (after trimming) closes the current
/// commit and opens a new one; another non-blank line is a file of the
/// open commit (ignored before the first `---`).
pub open spec fn log_step(st: LogState, line: Seq<char>, max_files: u32) -> LogState {
    let t = trim(line);
    if is_prefix("---"@, t) {
        (close_commit(st.0, st.1, max_files), Some(Seq::empty()))
    } else if t.len() > 0 && st.1 is Some {
        (st.0, Some(sorted_insert(st.1.unwrap(), t)))
    } else {
        st
    }
}

/// The state after the first `n` lines.
pub open spec fn log_state(ls: Seq<Seq<char>>, n: int, max_files: u32) -> LogState
    decreases n,
{
    if n <= 0 {
        (Seq::empty(), None)
    } else {
        log_step(log_state(ls, n - 1, max_files), ls[n - 1], max_files)
    }
}

/// The commits of a log, each as its sorted distinct files.
pub open spec fn parsed_log(text: Seq<char>, max_files: u32) -> Seq<Seq<Seq<char>>> {
    let ls = lines(text);
    let st = log_state(ls, ls.len() as int, max_files);
    close_commit(st.0, st.1, max_files)
}

pub open spec fn commits_view(cs: Seq<Vec<String>>) -> Seq<Seq<Seq<char>>> {
    cs.map_values(|c: Vec<String>| string_views(c@))
}

/// Every commit is a strictly sorted set of files.
pub open spec fn commits_sorted(cs: Seq<Seq<Seq<char>>>) -> bool {
    forall|k: int| 0 <= k < cs.len() ==> strictly_sorted(#[trigger] cs[k])
}

fn close_commit_exec(commits: &mut Vec<Vec<String>>, current: Option<Vec<String>>, max_files: u32)
    requires
        commits_sorted(commits_view(old(commits)@)),
        current matches Some(c) ==> strictly_sorted(string_views(c@)),
    ensures
        commits_sorted(commits_view(final(commits)@)),
        commits_view(final(commits)@) == close_commit(
            commits_view(old(commits)@),
            match current {
                Some(c) => Some(string_views(c@)),
                None => None,
            },
            max_files,
        ),
{
    if let Some(c) = current {
        if c.len() > 0 && (c.len() as u32) <= max_files {
            let ghost before = commits@;
            commits.push(c);
            assert(commits_view(commits@) == commits_view(before).push(string_views(commits@.last()@)));
            assert forall|k: int| 0 <= k < commits_view(commits@).len() implies strictly_sorted(
                #[trigger] commits_view(commits@)[k],
            ) by {
                if k < before.len() {
                    assert(commits_view(commits@)[k] == commits_view(before)[k]);
                }
            }
        }
    }
}

/// Split `git log --name-only --pretty=format:---%H` output into commits,
/// each the sorted set of files it touched; empty commits and commits of
/// more than `max_files` files are dropped.
pub fn parse_git_log(text: &str, max_files: u32) -> (r: Vec<Vec<String>>)
    ensures
        commits_view(r@) == parsed_log(text@, max_files),
        commits_sorted(commits_view(r@)),
{
    let chars = chars_vec(text);
    let ls = lines_of(&chars);
    let ghost all = lines(text@);
    let mut commits: Vec<Vec<String>> = Vec::new();
    let mut current: Option<Vec<String>> = None;
    let mut k: usize = 0;
    while k < ls.len()
        invariant
            k <= ls@.len(),
            ls@.len() == all.len(),
            forall|j: int| 0 <= j < ls@.len() ==> (#[trigger] ls@[j])@ == all[j],
            commits_view(commits@) == log_state(all, k as int, max_files).0,
            (match current {
                Some(c) => Some(string_views(c@)),
                None => None,
            }) == log_state(all, k as int, max_files).1,
            current matches Some(c) ==> strictly_sorted(string_views(c@)),
            commits_sorted(commits_view(commits@)),
        decreases ls@.len() - k,
    {
        let t = trim_chars(&ls[k]);
        assert(t@ == trim(all[k as int]));
        if starts_with(&t, "---") {
            let cur = current;
            close_commit_exec(&mut commits, cur, max_files);
            current = Some(Vec::new());
            assert(string_views(Seq::<String>::empty()) == Seq::<Seq<char>>::empty());
        } else if t.len() > 0 && current.is_some() {
            let mut c = current.unwrap();
            insert_sorted(&mut c, string_from(&t));
            current = Some(c);
        }
        k += 1;
    }
    close_commit_exec(&mut commits, current, max_files);
    commits
}

/// Every file of every commit, in order, with repetitions.
pub open spec fn all_files(cs: Seq<Seq<Seq<char>>>) -> Seq<Seq<char>>
    decreases cs.len(),
{
    if cs.len() == 0 {
        Seq::empty()
    } else {
        all_files(cs.drop_last()) + cs.last()
    }
}

/// Whether commit `k` touched `f`.
pub open spec fn touches(cs: Seq<Seq<Seq<char>>>, f: Seq<char>) -> spec_fn(int) -> bool {
    |k: int| cs[k].contains(f)
}

/// Whether commit `k` touched both `a` and `b`.
pub open spec fn touches_both(cs: Seq<Seq<Seq<char>>>, a: Seq<char>, b: Seq<char>) -> spec_fn(
    int,
) -> bool {
    |k: int| cs[k].contains(a) && cs[k].contains(b)
}

/// The commits (by position) that touched `f`.
pub open spec fn commits_with(cs: Seq<Seq<Seq<char>>>, f: Seq<char>) -> Seq<usize> {
    positions(cs.len() as int, touches(cs, f))
}

/// The commits (by position) that touched both `a` and `b`.
pub open spec fn commits_with_both(cs: Seq<Seq<Seq<char>>>, a: Seq<char>, b: Seq<char>) -> Seq<
    usize,
> {
    positions(cs.len() as int, touches_both(cs, a, b))
}

/// The distinct files of the commits, sorted.
fn distinct_files(commits: &[Vec<String>]) -> (r: Vec<String>)
    ensures
        strictly_sorted(string_views(r@)),
        string_views(r@).to_set() == all_files(commits_view(commits@)).to_set(),
{
    let ghost cs = commits_view(commits@);
    let mut files: Vec<String> = Vec::new();
    let mut k: usize = 0;
    while k < commits.len()
        invariant
            k <= commits@.len(),
            cs == commits_view(commits@),
            strictly_sorted(string_views(files@)),
            string_views(files@).to_set() == all_files(cs.take(k as int)).to_set(),
        decreases commits@.len() - k,
    {
        assert(cs.take(k + 1).drop_last() == cs.take(k as int));
        let mut i: usize = 0;
        while i < commits[k].len()
            invariant
                k < commits@.len(),
                i <= commits@[k as int]@.len(),
                cs == commits_view(commits@),
                strictly_sorted(string_views(files@)),
                string_views(files@).to_set() == (all_files(cs.take(k as int)) + cs[k as int].take(
                    i as int,
                )).to_set(),
            decreases commits@[k as int]@.len() - i,
        {
            let ghost before = all_files(cs.take(k as int)) + cs[k as int].take(i as int);
            insert_sorted(&mut files, commits[k][i].clone());
            assert(all_files(cs.take(k as int)) + cs[k as int].take(i + 1) == before.push(
                cs[k as int][i as int],
            ));
            proof {
                before.lemma_push_to_set_commute(cs[k as int][i as int]);
            }
            i += 1;
        }
        assert(cs[k as int].take(i as int) == cs[k as int]);
        assert(cs.take(k + 1).last() == cs[k as int]);
        k += 1;
    }
    assert(cs.take(k as int) == cs);
    files
}

/// The position of `f` in the strictly sorted `files`, which hold it.
fn position_of(files: &[String], f: &str) -> (r: usize)
    requires
        strictly_sorted(string_views(files@)),
        string_views(files@).contains(f@),
    ensures
        r < files@.len(),
        files@[r as int]@ == f@,
{
    let ghost sv = string_views(files@);
    let fc = chars_vec(f);
    let mut lo: usize = 0;
    let mut hi: usize = files.len();
    while lo < hi
        invariant
            lo <= hi <= files@.len(),
            sv == string_views(files@),
            strictly_sorted(sv),
            fc@ == f@,
            exists|t: int| lo <= t < hi && #[trigger] sv[t] == f@,
        decreases hi - lo,
    {
        let mid = lo + (hi - lo) / 2;
        let mc = chars_vec(files[mid].as_str());
        assert(mc@ == sv[mid as int]);
        let ghost t = choose|t: int| lo <= t < hi && #[trigger] sv[t] == f@;
        if chars_lt(&mc, &fc) {
            proof {
                if t <= mid {
                    lemma_seq_lt_irreflexive(f@);
                    if t < mid {
                        lemma_seq_lt_total(sv[t], sv[mid as int]);
                    }
                }
            }
            lo = mid + 1;
        } else if chars_lt(&fc, &mc) {
            proof {
                if t >= mid {
                    lemma_seq_lt_irreflexive(f@);
                    if t > mid {
                        lemma_seq_lt_total(sv[t], sv[mid as int]);
                    }
                }
            }
            hi = mid;
        } else {
            proof {
                lemma_seq_lt_total(sv[mid as int], f@);
            }
            return mid;
        }
    }
    0
}

/// For each of the sorted distinct `files`, the commits that touched it.
fn occurrences(commits: &[Vec<String>], files: &[String]) -> (r: Vec<Vec<usize>>)
    requires
        commits_sorted(commits_view(commits@)),
        strictly_sorted(string_views(files@)),
        string_views(files@).to_set() == all_files(commits_view(commits@)).to_set(),
    ensures
        r@.len() == files@.len(),
        forall|f: int|
            0 <= f < files@.len() ==> (#[trigger] r@[f])@ == commits_with(
                commits_view(commits@),
                files@[f]@,
            ),
{
    let ghost cs = commits_view(commits@);
    let ghost sv = string_views(files@);
    let mut occ: Vec<Vec<usize>> = Vec::new();
    let mut f: usize = 0;
    while f < files.len()
        invariant
            f <= files@.len(),
            occ@.len() == f,
            forall|g: int| 0 <= g < f ==> (#[trigger] occ@[g])@ == Seq::<usize>::empty(),
        decreases files@.len() - f,
    {
        occ.push(Vec::new());
        f += 1;
    }
    let mut k: usize = 0;
    while k < commits.len()
        invariant
            k <= commits@.len(),
            cs == commits_view(commits@),
            sv == string_views(files@),
            commits_sorted(cs),
            strictly_sorted(sv),
            sv.to_set() == all_files(cs).to_set(),
            occ@.len() == files@.len(),
            forall|g: int|
                0 <= g < files@.len() ==> (#[trigger] occ@[g])@ == positions(
                    k as int,
                    touches(cs, sv[g]),
                ),
        decreases commits@.len() - k,
    {
        proof {
            lemma_commit_in_all_files(cs, k as int);
        }
        let mut i: usize = 0;
        while i < commits[k].len()
            invariant
                k < commits@.len(),
                i <= commits@[k as int]@.len(),
                cs == commits_view(commits@),
                sv == string_views(files@),
                commits_sorted(cs),
                strictly_sorted(sv),
                sv.to_set() == all_files(cs).to_set(),
                forall|j: int| 0 <= j < cs[k as int].len() ==> all_files(cs).contains(#[trigger] cs[k as int][j]),
                occ@.len() == files@.len(),
                forall|g: int|
                    0 <= g < files@.len() ==> (#[trigger] occ@[g])@ == positions(
                        k as int,
                        touches(cs, sv[g]),
                    ) + if cs[k as int].take(i as int).contains(sv[g]) {
                        seq![k as usize]
                    } else {
                        Seq::empty()
                    },
            decreases commits@[k as int]@.len() - i,
        {
            let ghost x = cs[k as int][i as int];
            assert(sv.to_set().contains(x));
            let id = position_of(files, commits[k][i].as_str());
            let ghost before = occ@;
            occ[id].push(k);
            assert forall|g: int|
                0 <= g < files@.len() implies (#[trigger] occ@[g])@ == positions(
                    k as int,
                    touches(cs, sv[g]),
                ) + if cs[k as int].take(i + 1).contains(sv[g]) {
                    seq![k as usize]
                } else {
                    Seq::empty()
                } by {
                let t0 = cs[k as int].take(i as int);
                let t1 = cs[k as int].take(i + 1);
                assert(t1 == t0.push(x));
                if g == id as int {
                    assert(!t0.contains(x)) by {
                        if t0.contains(x) {
                            let w = choose|w: int| 0 <= w < t0.len() && t0[w] == x;
                            assert(t0[w] == cs[k as int][w]);
                            assert(seq_lt(cs[k as int][w], cs[k as int][i as int]));
                            lemma_seq_lt_irreflexive(x);
                        }
                    }
                    assert(t1.contains(x)) by {
                        assert(t1[i as int] == x);
                    }
                } else {
                    assert(sv[g] != x) by {
                        lemma_seq_lt_irreflexive(x);
                        if g < id as int {
                            assert(seq_lt(sv[g], sv[id as int]));
                        } else {
                            assert(seq_lt(sv[id as int], sv[g]));
                        }
                    }
                    assert(occ@[g] == before[g]);
                    assert(t1.contains(sv[g]) == t0.contains(sv[g])) by {
                        if t1.contains(sv[g]) {
                            let w = choose|w: int| 0 <= w < t1.len() && t1[w] == sv[g];
                            assert(t0[w] == sv[g]);
                        }
                        if t0.contains(sv[g]) {
                            let w = choose|w: int| 0 <= w < t0.len() && t0[w] == sv[g];
                            assert(t1[w] == sv[g]);
                        }
                    }
                }
            }
            i += 1;
        }
        assert(cs[k as int].take(i as int) == cs[k as int]);
        k += 1;
    }
    occ
}

/// Strictly increasing.
pub open spec fn increasing(x: Seq<usize>) -> bool {
    forall|i: int, j: int| 0 <= i < j < x.len() ==> #[trigger] x[i] < #[trigger] x[j]
}

/// Whether `v` occurs in `y`.
pub open spec fn member_of(y: Seq<usize>) -> spec_fn(usize) -> bool {
    |v: usize| y.contains(v)
}

/// The values of `x` that also occur in `y`, in order; both lists
/// strictly increasing.
fn intersect_sorted(x: &[usize], y: &[usize]) -> (r: Vec<usize>)
    requires
        increasing(x@),
        increasing(y@),
    ensures
        r@ == x@.filter(member_of(y@)),
{
    let mut r: Vec<usize> = Vec::new();
    let mut i: usize = 0;
    let mut j: usize = 0;
    while i < x.len() && j < y.len()
        invariant
            i <= x@.len(),
            j <= y@.len(),
            increasing(x@),
            increasing(y@),
            r@ == x@.take(i as int).filter(member_of(y@)),
            i < x@.len() ==> forall|jj: int| 0 <= jj < j ==> #[trigger] y@[jj] < x@[i as int],
        decreases x@.len() - i + y@.len() - j,
    {
        proof {
            reveal(Seq::filter);
            assert(x@.take(i + 1).drop_last() == x@.take(i as int));
        }
        if x[i] < y[j] {
            assert(!y@.contains(x@[i as int])) by {
                if y@.contains(x@[i as int]) {
                    let w = choose|w: int| 0 <= w < y@.len() && y@[w] == x@[i as int];
                    if w >= j {
                        if w > j {
                            assert(y@[j as int] < y@[w]);
                        }
                    }
                }
            }
            i += 1;
            proof {
                if i < x@.len() {
                    assert forall|jj: int| 0 <= jj < j implies #[trigger] y@[jj] < x@[i as int] by {
                        assert(x@[i - 1] < x@[i as int]);
                    }
                }
            }
        } else if y[j] < x[i] {
            j += 1;
        } else {
            assert(y@.contains(x@[i as int])) by {
                assert(y@[j as int] == x@[i as int]);
            }
            r.push(x[i]);
            i += 1;
            j += 1;
            proof {
                if i < x@.len() {
                    assert forall|jj: int| 0 <= jj < j implies #[trigger] y@[jj] < x@[i as int] by {
                        assert(x@[i - 1] < x@[i as int]);
                        if jj < j - 1 {
                            assert(y@[jj] < y@[j - 1]);
                        }
                    }
                }
            }
        }
    }
    proof {
        lemma_filter_rest_absent(x@, y@, i as int, j as int);
    }
    r
}

/// When `y` is used up, or `x` is, nothing after position `i` of `x`
/// adds to the filter.
proof fn lemma_filter_rest_absent(x: Seq<usize>, y: Seq<usize>, i: int, j: int)
    requires
        0 <= i <= x.len(),
        0 <= j <= y.len(),
        i == x.len() || j == y.len(),
        increasing(x),
        i < x.len() ==> forall|jj: int| 0 <= jj < j ==> #[trigger] y[jj] < x[i],
    ensures
        x.filter(member_of(y)) == x.take(i).filter(member_of(y)),
    decreases x.len() - i,
{
    if i < x.len() {
        reveal(Seq::filter);
        assert forall|m: int| i <= m < x.len() implies !y.contains(#[trigger] x[m]) by {
            if y.contains(x[m]) {
                let w = choose|w: int| 0 <= w < y.len() && y[w] == x[m];
                if m > i {
                    assert(x[i] < x[m]);
                }
            }
        }
        lemma_filter_drop_absent(x, y, i);
    } else {
        assert(x.take(i) == x);
    }
}

proof fn lemma_filter_drop_absent(x: Seq<usize>, y: Seq<usize>, i: int)
    requires
        0 <= i <= x.len(),
        forall|m: int| i <= m < x.len() ==> !y.contains(#[trigger] x[m]),
    ensures
        x.filter(member_of(y)) == x.take(i).filter(member_of(y)),
    decreases x.len() - i,
{
    reveal(Seq::filter);
    if i < x.len() {
        let x1 = x.drop_last();
        assert forall|m: int| i <= m < x1.len() implies !y.contains(#[trigger] x1[m]) by {
            assert(x1[m] == x[m]);
        }
        lemma_filter_drop_absent(x1, y, i);
        assert(x1.take(i) == x.take(i));
        assert(!y.contains(x.last()));
    } else {
        assert(x.take(i) == x);
    }
}

/// Filtering the commits of `a` by membership in the commits of `b`
/// gives the commits of both.
proof fn lemma_commits_with_both(cs: Seq<Seq<Seq<char>>>, a: Seq<char>, b: Seq<char>, m: int)
    requires
        0 <= m <= cs.len() <= usize::MAX,
    ensures
        positions(m, touches(cs, a)).filter(member_of(commits_with(cs, b))) == positions(
            m,
            touches_both(cs, a, b),
        ),
    decreases m,
{
    reveal(Seq::filter);
    if m > 0 {
        lemma_commits_with_both(cs, a, b, m - 1);
        let y = commits_with(cs, b);
        lemma_positions_bounded(cs.len() as int, touches(cs, b));
        if cs[m - 1].contains(b) {
            lemma_positions_contains(cs.len() as int, touches(cs, b), m - 1);
        } else {
            assert(!y.contains((m - 1) as usize)) by {
                if y.contains((m - 1) as usize) {
                    let w = choose|w: int| 0 <= w < y.len() && y[w] == (m - 1) as usize;
                }
            }
        }
        if cs[m - 1].contains(a) {
            assert(positions(m, touches(cs, a)).drop_last() == positions(m - 1, touches(cs, a)));
        }
    }
}

/// Two files that changed together (`a` before `b` in `str` order), how
/// many commits touched both, and how many touched each. The pair's
/// weight is `support / sqrt(count_a * count_b)`.
#[derive(Debug)]
pub struct Pair {
    pub a: String,
    pub b: String,
    pub support: u32,
    pub count_a: u32,
    pub count_b: u32,
}

/// A pair as plain values: `(a, b, support, count_a, count_b)`.
pub type PairKey = (Seq<char>, Seq<char>, u32, u32, u32);

pub open spec fn pair_key(p: Pair) -> PairKey {
    (p.a@, p.b@, p.support, p.count_a, p.count_b)
}

pub open spec fn pair_keys(ps: Seq<Pair>) -> Seq<PairKey> {
    ps.map_values(|p: Pair| pair_key(p))
}

/// `s² · count_a · count_b` of one pair against the counts of another: the
/// square of its weight with the denominators cleared.
pub open spec fn cross(x: PairKey, y: PairKey) -> int {
    (x.2 * x.2) * (y.3 * y.4)
}

/// `x` weighs more than `y` (`x.s/√(x.a·x.b) > y.s/√(y.a·y.b)`, compared
/// exactly).
pub open spec fn heavier(x: PairKey, y: PairKey) -> bool {
    cross(x, y) > cross(y, x)
}

/// Manifest order: heavier first, then by `a`, then by `b`.
pub open spec fn pair_before(x: PairKey, y: PairKey) -> bool {
    ||| heavier(x, y)
    ||| cross(x, y) == cross(y, x) && (seq_lt(x.0, y.0) || (x.0 == y.0 && seq_lt(x.1, y.1)))
}

/// Counts and support are positive.
pub open spec fn positive(x: PairKey) -> bool {
    x.2 >= 1 && x.3 >= 1 && x.4 >= 1
}

/// Strictly in manifest order.
pub open spec fn in_manifest_order(ks: Seq<PairKey>) -> bool {
    forall|i: int, j: int| 0 <= i < j < ks.len() ==> pair_before(#[trigger] ks[i], #[trigger] ks[j])
}

proof fn lemma_cross_transitive(x: PairKey, y: PairKey, z: PairKey)
    requires
        positive(x),
        positive(y),
        positive(z),
    ensures
        cross(x, y) > cross(y, x) && cross(y, z) >= cross(z, y) ==> cross(x, z) > cross(z, x),
        cross(x, y) >= cross(y, x) && cross(y, z) > cross(z, y) ==> cross(x, z) > cross(z, x),
        cross(x, y) == cross(y, x) && cross(y, z) == cross(z, y) ==> cross(x, z) == cross(z, x),
{
    let sx = x.2 * x.2;
    let sy = y.2 * y.2;
    let sz = z.2 * z.2;
    let dx = x.3 * x.4;
    let dy = y.3 * y.4;
    let dz = z.3 * z.4;
    assert(sy > 0 && dy > 0 && sx > 0 && sz > 0 && dx > 0 && dz > 0) by (nonlinear_arith)
        requires
            positive(x),
            positive(y),
            positive(z),
            sx == x.2 * x.2,
            sy == y.2 * y.2,
            sz == z.2 * z.2,
            dx == x.3 * x.4,
            dy == y.3 * y.4,
            dz == z.3 * z.4,
    ;
    assert(sx * dy > sy * dx && sy * dz >= sz * dy ==> sx * dz > sz * dx) by (nonlinear_arith)
        requires
            sy > 0,
            dy > 0,
            dx > 0,
            dz > 0,
    ;
    assert(sx * dy >= sy * dx && sy * dz > sz * dy ==> sx * dz > sz * dx) by (nonlinear_arith)
        requires
            sy > 0,
            dy > 0,
            dx > 0,
            dz > 0,
    ;
    assert(sx * dy == sy * dx && sy * dz == sz * dy ==> sx * dz == sz * dx) by (nonlinear_arith)
        requires
            sy > 0,
            dy > 0,
            dx > 0,
            dz > 0,
    ;
}

proof fn lemma_before_transitive(x: PairKey, y: PairKey, z: PairKey)
    requires
        positive(x),
        positive(y),
        positive(z),
        pair_before(x, y),
        pair_before(y, z),
    ensures
        pair_before(x, z),
{
    lemma_cross_transitive(x, y, z);
    if !heavier(x, y) && !heavier(y, z) {
        if seq_lt(x.0, y.0) && seq_lt(y.0, z.0) {
            lemma_seq_lt_transitive(x.0, y.0, z.0);
        }
        if x.0 == y.0 && y.0 == z.0 && seq_lt(x.1, y.1) && seq_lt(y.1, z.1) {
            lemma_seq_lt_transitive(x.1, y.1, z.1);
        }
    }
}

proof fn lemma_before_total(x: PairKey, y: PairKey)
    requires
        x.0 != y.0 || x.1 != y.1,
    ensures
        pair_before(x, y) || pair_before(y, x),
{
    lemma_seq_lt_total(x.0, y.0);
    lemma_seq_lt_total(x.1, y.1);
}

/// `s² · ca · cb` without overflow.
fn cross_exec(s: u32, ca: u32, cb: u32) -> (r: u128)
    ensures
        r == (s * s) * (ca * cb),
{
    assert((s as int) * (s as int) <= 0xFFFF_FFFE_0000_0001) by (nonlinear_arith)
        requires
            s <= 0xFFFF_FFFF,
    ;
    assert((ca as int) * (cb as int) <= 0xFFFF_FFFE_0000_0001) by (nonlinear_arith)
        requires
            ca <= 0xFFFF_FFFF,
            cb <= 0xFFFF_FFFF,
    ;
    let s2 = (s as u128) * (s as u128);
    let d = (ca as u128) * (cb as u128);
    assert(s2 * d <= 0xFFFF_FFFE_0000_0001 * 0xFFFF_FFFE_0000_0001) by (nonlinear_arith)
        requires
            s2 <= 0xFFFF_FFFE_0000_0001,
            d <= 0xFFFF_FFFE_0000_0001,
    ;
    s2 * d
}

/// `x` comes before `y` in manifest order.
fn before_exec(x: &Pair, y: &Pair) -> (r: bool)
    ensures
        r == pair_before(pair_key(*x), pair_key(*y)),
{
    let cx = cross_exec(x.support, y.count_a, y.count_b);
    let cy = cross_exec(y.support, x.count_a, x.count_b);
    if cx > cy {
        true
    } else if cx < cy {
        false
    } else {
        let xa = chars_vec(x.a.as_str());
        let ya = chars_vec(y.a.as_str());
        if chars_lt(&xa, &ya) {
            true
        } else if crate::text::seq_eq(&xa, &ya) {
            chars_lt(&chars_vec(x.b.as_str()), &chars_vec(y.b.as_str()))
        } else {
            false
        }
    }
}

/// Put `x` into the manifest-ordered `v`, unless a pair of the same two
/// files is there already (which then has the same counts).
fn insert_pair(v: &mut Vec<Pair>, x: Pair)
    requires
        in_manifest_order(pair_keys(old(v)@)),
        forall|k: int| 0 <= k < old(v)@.len() ==> positive(#[trigger] pair_keys(old(v)@)[k]),
        positive(pair_key(x)),
        forall|k: int|
            0 <= k < old(v)@.len() && (#[trigger] old(v)@[k]).a@ == x.a@ && old(v)@[k].b@ == x.b@
                ==> pair_key(old(v)@[k]) == pair_key(x),
    ensures
        in_manifest_order(pair_keys(final(v)@)),
        forall|k: int| 0 <= k < final(v)@.len() ==> positive(#[trigger] pair_keys(final(v)@)[k]),
        pair_keys(final(v)@).to_set() == pair_keys(old(v)@).to_set().insert(pair_key(x)),
{
    let ghost ks = pair_keys(v@);
    let ghost kx = pair_key(x);
    assert(forall|k: int| 0 <= k < ks.len() ==> positive(#[trigger] ks[k]));
    let mut p: usize = 0;
    while p < v.len() && before_exec(&v[p], &x)
        invariant
            p <= v@.len(),
            ks == pair_keys(v@),
            kx == pair_key(x),
            in_manifest_order(ks),
            forall|k: int| 0 <= k < ks.len() ==> positive(#[trigger] ks[k]),
            forall|k: int| 0 <= k < p ==> pair_before(#[trigger] ks[k], kx),
        decreases v@.len() - p,
    {
        assert(ks[p as int] == pair_key(v@[p as int]));
        p += 1;
    }
    if p < v.len() && crate::text::str_eq(v[p].a.as_str(), x.a.as_str())
        && crate::text::str_eq(v[p].b.as_str(), x.b.as_str()) {
        assert(ks[p as int] == kx);
        assert(ks.to_set().insert(kx) == ks.to_set()) by {
            assert(ks.to_set().contains(kx));
        }
        return;
    }
    proof {
        if p < ks.len() {
            lemma_before_total(ks[p as int], kx);
        }
    }
    v.insert(p, x);
    let ghost nk = pair_keys(v@);
    assert(nk == ks.insert(p as int, kx));
    assert forall|j: int| p < j < nk.len() implies pair_before(kx, #[trigger] nk[j]) by {
        if j > p + 1 {
            lemma_before_transitive(kx, ks[p as int], ks[j - 1]);
        }
    }
    assert forall|i: int, j: int| 0 <= i < j < nk.len() implies pair_before(#[trigger] nk[i], #[trigger] nk[j]) by {
        if i < p && j > p {
            lemma_before_transitive(nk[i], kx, nk[j]);
        } else if i > p {
            assert(nk[i] == ks[i - 1] && nk[j] == ks[j - 1]);
        }
    }
    assert(nk.to_set() == ks.to_set().insert(kx)) by {
        assert forall|y: PairKey| nk.to_set().contains(y) implies ks.to_set().insert(kx).contains(y) by {
            let w = choose|w: int| 0 <= w < nk.len() && nk[w] == y;
            if w < p {
                assert(ks[w] == y);
            } else if w > p {
                assert(ks[w - 1] == y);
            }
        }
        assert forall|y: PairKey| ks.to_set().insert(kx).contains(y) implies nk.to_set().contains(y) by {
            if y == kx {
                assert(nk[p as int] == y);
            } else {
                let w = choose|w: int| 0 <= w < ks.len() && ks[w] == y;
                if w < p {
                    assert(nk[w] == y);
                } else {
                    assert(nk[w + 1] == y);
                }
            }
        }
    }
}

/// The mined history as stored: pairs in manifest order.
#[derive(Debug)]
pub struct CochangeManifest {
    pub version: String,
    pub sigil_version: String,
    pub commits_scanned: u32,
    pub min_support: u32,
    pub file_count: usize,
    pub pairs: Vec<Pair>,
}

/// The first commit that touched both `a` and `b`.
pub open spec fn first_both(cs: Seq<Seq<Seq<char>>>, a: Seq<char>, b: Seq<char>) -> int {
    commits_with_both(cs, a, b)[0] as int
}

/// `a` sorts before `b`, and the two changed together in at least
/// `min_support` commits (and in one at least).
pub open spec fn qualifies(cs: Seq<Seq<Seq<char>>>, min_support: u32, a: Seq<char>, b: Seq<char>) -> bool {
    &&& seq_lt(a, b)
    &&& commits_with_both(cs, a, b).len() >= min_support
    &&& commits_with_both(cs, a, b).len() >= 1
}

/// The manifest entry of `(a, b)`: its support and the commit counts of
/// both files.
pub open spec fn pair_entry(cs: Seq<Seq<Seq<char>>>, a: Seq<char>, b: Seq<char>) -> PairKey {
    (
        a,
        b,
        commits_with_both(cs, a, b).len() as u32,
        commits_with(cs, a).len() as u32,
        commits_with(cs, b).len() as u32,
    )
}

/// The entries of the manifest: one per qualifying pair of files.
pub open spec fn manifest_entries(cs: Seq<Seq<Seq<char>>>, min_support: u32) -> Set<PairKey> {
    Set::new(|e: PairKey| qualifies(cs, min_support, e.0, e.1) && e == pair_entry(cs, e.0, e.1))
}

/// The entries found once the commits before `k`, and in commit `k` the
/// pairs of positions before `(i, j)`, have been looked at: each entry is
/// found at the first commit that touched both its files.
pub open spec fn found(cs: Seq<Seq<Seq<char>>>, ms: u32, k: int, i: int, j: int) -> Set<PairKey> {
    Set::new(
        |e: PairKey|
            {
                &&& qualifies(cs, ms, e.0, e.1)
                &&& e == pair_entry(cs, e.0, e.1)
                &&& (first_both(cs, e.0, e.1) < k || (first_both(cs, e.0, e.1) == k && (
                cs[k].index_of(e.0) < i || (cs[k].index_of(e.0) == i && cs[k].index_of(e.1)
                    < j))))
            },
    )
}

proof fn lemma_index_of_sorted(c: Seq<Seq<char>>, i: int)
    requires
        strictly_sorted(c),
        0 <= i < c.len(),
    ensures
        c.index_of(c[i]) == i,
{
    let w = c.index_of(c[i]);
    assert(c[i] == c[i]);
    if w != i {
        lemma_seq_lt_irreflexive(c[i]);
        if w < i {
            assert(seq_lt(c[w], c[i]));
        } else {
            assert(seq_lt(c[i], c[w]));
        }
    }
}

proof fn lemma_both_within(cs: Seq<Seq<Seq<char>>>, a: Seq<char>, b: Seq<char>)
    requires
        cs.len() <= usize::MAX,
        commits_with_both(cs, a, b).len() >= 1,
    ensures
        0 <= first_both(cs, a, b) < cs.len(),
        cs[first_both(cs, a, b)].contains(a),
        cs[first_both(cs, a, b)].contains(b),
        commits_with_both(cs, a, b).len() <= commits_with(cs, a).len(),
        commits_with_both(cs, a, b).len() <= commits_with(cs, b).len(),
        commits_with(cs, a).len() <= cs.len(),
        commits_with(cs, b).len() <= cs.len(),
{
    lemma_positions_bounded(cs.len() as int, touches_both(cs, a, b));
    lemma_positions_bounded(cs.len() as int, touches(cs, a));
    lemma_positions_bounded(cs.len() as int, touches(cs, b));
    lemma_both_le(cs, a, b, cs.len() as int);
}

proof fn lemma_both_le(cs: Seq<Seq<Seq<char>>>, a: Seq<char>, b: Seq<char>, m: int)
    ensures
        positions(m, touches_both(cs, a, b)).len() <= positions(m, touches(cs, a)).len(),
        positions(m, touches_both(cs, a, b)).len() <= positions(m, touches(cs, b)).len(),
    decreases m,
{
    if m > 0 {
        lemma_both_le(cs, a, b, m - 1);
    }
}

proof fn lemma_found_empty(cs: Seq<Seq<Seq<char>>>, ms: u32)
    requires
        cs.len() <= usize::MAX,
    ensures
        found(cs, ms, 0, 0, 0) == Set::<PairKey>::empty(),
{
    assert forall|e: PairKey| !found(cs, ms, 0, 0, 0).contains(e) by {
        if qualifies(cs, ms, e.0, e.1) {
            lemma_both_within(cs, e.0, e.1);
        }
    }
    assert(found(cs, ms, 0, 0, 0) =~= Set::<PairKey>::empty());
}

proof fn lemma_found_inner_start(cs: Seq<Seq<Seq<char>>>, ms: u32, k: int, i: int)
    requires
        commits_sorted(cs),
        0 <= k < cs.len() <= usize::MAX,
        0 <= i < cs[k].len(),
    ensures
        found(cs, ms, k, i, i + 1) == found(cs, ms, k, i, 0),
{
    let c = cs[k];
    assert forall|e: PairKey| #[trigger] found(cs, ms, k, i, i + 1).contains(e) implies found(cs, ms, k, i, 0).contains(e) by {
        if first_both(cs, e.0, e.1) == k && c.index_of(e.0) == i && c.index_of(e.1) < i + 1 {
            lemma_both_within(cs, e.0, e.1);
            let w = c.index_of(e.1);
            assert(c[w] == e.1);
            assert(c[i] == e.0);
            lemma_seq_lt_irreflexive(e.0);
            if w < i {
                assert(seq_lt(c[w], c[i]));
                lemma_seq_lt_total(e.0, e.1);
            }
        }
    }
    assert(found(cs, ms, k, i, i + 1) =~= found(cs, ms, k, i, 0));
}

/// The entry for positions `(i, j)` of commit `k` is found there exactly
/// when the pair qualifies and `k` is the first commit of both files.
pub open spec fn found_here(cs: Seq<Seq<Seq<char>>>, ms: u32, k: int, i: int, j: int) -> bool {
    let both = commits_with_both(cs, cs[k][i], cs[k][j]);
    both.len() >= 1 && both[0] as int == k && both.len() >= ms
}

proof fn lemma_found_inner_step(cs: Seq<Seq<Seq<char>>>, ms: u32, k: int, i: int, j: int)
    requires
        commits_sorted(cs),
        0 <= k < cs.len() <= usize::MAX,
        0 <= i < j < cs[k].len(),
    ensures
        found(cs, ms, k, i, j + 1) == if found_here(cs, ms, k, i, j) {
            found(cs, ms, k, i, j).insert(pair_entry(cs, cs[k][i], cs[k][j]))
        } else {
            found(cs, ms, k, i, j)
        },
{
    let c = cs[k];
    lemma_index_of_sorted(c, i);
    lemma_index_of_sorted(c, j);
    assert(seq_lt(c[i], c[j]));
    let x = pair_entry(cs, c[i], c[j]);
    let target = if found_here(cs, ms, k, i, j) {
        found(cs, ms, k, i, j).insert(x)
    } else {
        found(cs, ms, k, i, j)
    };
    assert forall|e: PairKey| #[trigger] found(cs, ms, k, i, j + 1).contains(e) implies target.contains(e) by {
        if first_both(cs, e.0, e.1) == k && c.index_of(e.0) == i && c.index_of(e.1) == j {
            lemma_both_within(cs, e.0, e.1);
            assert(c[c.index_of(e.0)] == e.0);
            assert(c[c.index_of(e.1)] == e.1);
        }
    }
    assert forall|e: PairKey| #[trigger] target.contains(e) implies found(cs, ms, k, i, j + 1).contains(e) by {
    }
    assert(found(cs, ms, k, i, j + 1) =~= target);
}

proof fn lemma_found_inner_end(cs: Seq<Seq<Seq<char>>>, ms: u32, k: int, i: int)
    requires
        commits_sorted(cs),
        0 <= k < cs.len() <= usize::MAX,
        0 <= i < cs[k].len(),
    ensures
        found(cs, ms, k, i, cs[k].len() as int) == found(cs, ms, k, i + 1, 0),
{
    let c = cs[k];
    assert forall|e: PairKey| #[trigger] found(cs, ms, k, i + 1, 0).contains(e) implies found(cs, ms, k, i, c.len() as int).contains(e) by {
        assert(qualifies(cs, ms, e.0, e.1));
        assert(e == pair_entry(cs, e.0, e.1));
        if first_both(cs, e.0, e.1) == k {
            lemma_both_within(cs, e.0, e.1);
            assert(c.contains(e.1));
            assert(0 <= c.index_of(e.1) < c.len());
            assert(c.index_of(e.0) < i || (c.index_of(e.0) == i && c.index_of(e.1) < c.len()));
        }
    }
    assert(found(cs, ms, k, i, c.len() as int) =~= found(cs, ms, k, i + 1, 0));
}

proof fn lemma_found_commit_end(cs: Seq<Seq<Seq<char>>>, ms: u32, k: int)
    requires
        0 <= k < cs.len() <= usize::MAX,
    ensures
        found(cs, ms, k, cs[k].len() as int, 0) == found(cs, ms, k + 1, 0, 0),
{
    let c = cs[k];
    assert forall|e: PairKey| #[trigger] found(cs, ms, k + 1, 0, 0).contains(e) implies found(cs, ms, k, c.len() as int, 0).contains(e) by {
        lemma_both_within(cs, e.0, e.1);
        let f = first_both(cs, e.0, e.1);
        if f == k + 1 {
            assert(cs[f].contains(e.0));
            assert(0 <= cs[f].index_of(e.0));
        }
        if f == k {
            assert(c.contains(e.0));
            assert(0 <= c.index_of(e.0) < c.len());
        }
    }
    assert(found(cs, ms, k, c.len() as int, 0) =~= found(cs, ms, k + 1, 0, 0));
}

proof fn lemma_found_all(cs: Seq<Seq<Seq<char>>>, ms: u32)
    requires
        cs.len() <= usize::MAX,
    ensures
        found(cs, ms, cs.len() as int, 0, 0) == manifest_entries(cs, ms),
{
    assert forall|e: PairKey| #[trigger] manifest_entries(cs, ms).contains(e) implies found(cs, ms, cs.len() as int, 0, 0).contains(e) by {
        lemma_both_within(cs, e.0, e.1);
    }
    assert(found(cs, ms, cs.len() as int, 0, 0) =~= manifest_entries(cs, ms));
}

/// The positions in `files` of the files of one commit.
fn commit_positions(files: &[String], commit: &[String]) -> (r: Vec<usize>)
    requires
        strictly_sorted(string_views(files@)),
        forall|i: int| 0 <= i < commit@.len() ==> string_views(files@).contains(#[trigger] commit@[i]@),
    ensures
        r@.len() == commit@.len(),
        forall|i: int| 0 <= i < commit@.len() ==> (#[trigger] r@[i]) < files@.len() && files@[r@[i] as int]@ == commit@[i]@,
{
    let mut r: Vec<usize> = Vec::new();
    let mut i: usize = 0;
    while i < commit.len()
        invariant
            i <= commit@.len(),
            r@.len() == i,
            strictly_sorted(string_views(files@)),
            forall|m: int| 0 <= m < commit@.len() ==> string_views(files@).contains(#[trigger] commit@[m]@),
            forall|m: int| 0 <= m < i ==> (#[trigger] r@[m]) < files@.len() && files@[r@[m] as int]@ == commit@[m]@,
        decreases commit@.len() - i,
    {
        let id = position_of(files, commit[i].as_str());
        r.push(id);
        i += 1;
    }
    r
}

/// Mine the commits (each a sorted set of files): every pair of files
/// that changed together in at least `cfg.min_support` commits, with its
/// support and the commit count of each file, heaviest first (weight
/// `support / sqrt(count_a * count_b)`, compared exactly), then by the
/// two file names.
pub fn compute_manifest(commits: &[Vec<String>], cfg: &CochangeConfig, sigil_version: &str) -> (r: CochangeManifest)
    requires
        commits_sorted(commits_view(commits@)),
        commits@.len() <= u32::MAX,
    ensures
        r.version@ == "1"@,
        r.sigil_version@ == sigil_version@,
        r.commits_scanned == commits@.len(),
        r.min_support == cfg.min_support,
        r.file_count == all_files(commits_view(commits@)).to_set().len(),
        in_manifest_order(pair_keys(r.pairs@)),
        pair_keys(r.pairs@).to_set() == manifest_entries(commits_view(commits@), cfg.min_support),
{
    let ghost cs = commits_view(commits@);
    let ghost ms = cfg.min_support;
    let files = distinct_files(commits);
    let occ = occurrences(commits, files.as_slice());
    let mut pairs: Vec<Pair> = Vec::new();
    proof {
        lemma_found_empty(cs, ms);
        assert(pair_keys(pairs@).to_set() =~= Set::<PairKey>::empty());
    }
    let mut k: usize = 0;
    while k < commits.len()
        invariant
            k <= commits@.len(),
            commits@.len() <= u32::MAX,
            cs == commits_view(commits@),
            ms == cfg.min_support,
            commits_sorted(cs),
            strictly_sorted(string_views(files@)),
            string_views(files@).to_set() == all_files(cs).to_set(),
            occ@.len() == files@.len(),
            forall|f: int| 0 <= f < files@.len() ==> (#[trigger] occ@[f])@ == commits_with(cs, files@[f]@),
            in_manifest_order(pair_keys(pairs@)),
            forall|m: int| 0 <= m < pairs@.len() ==> positive(#[trigger] pair_keys(pairs@)[m]),
            pair_keys(pairs@).to_set() == found(cs, ms, k as int, 0, 0),
        decreases commits@.len() - k,
    {
        proof {
            lemma_commit_in_all_files(cs, k as int);
        }
        let ghost c = cs[k as int];
        assert forall|m: int| 0 <= m < commits@[k as int]@.len() implies string_views(files@).contains(
            #[trigger] commits@[k as int]@[m]@,
        ) by {
            assert(c[m] == commits@[k as int]@[m]@);
            assert(all_files(cs).contains(c[m]));
            assert(all_files(cs).to_set().contains(c[m]));
            assert(string_views(files@).to_set().contains(c[m]));
        }
        let ids = commit_positions(files.as_slice(), commits[k].as_slice());
        let n = commits[k].len();
        let mut i: usize = 0;
        while i < n
            invariant
                k < commits@.len(),
                commits@.len() <= u32::MAX,
                cs == commits_view(commits@),
                c == cs[k as int],
                n == c.len(),
                ms == cfg.min_support,
                commits_sorted(cs),
                i <= n,
                ids@.len() == n,
                forall|m: int| 0 <= m < n ==> (#[trigger] ids@[m]) < files@.len() && files@[ids@[m] as int]@ == c[m],
                occ@.len() == files@.len(),
                forall|f: int| 0 <= f < files@.len() ==> (#[trigger] occ@[f])@ == commits_with(cs, files@[f]@),
                in_manifest_order(pair_keys(pairs@)),
                forall|m: int| 0 <= m < pairs@.len() ==> positive(#[trigger] pair_keys(pairs@)[m]),
                pair_keys(pairs@).to_set() == found(cs, ms, k as int, i as int, 0),
            decreases n - i,
        {
            proof {
                lemma_found_inner_start(cs, ms, k as int, i as int);
            }
            let mut j: usize = i + 1;
            while j < n
                invariant
                    k < commits@.len(),
                    commits@.len() <= u32::MAX,
                    cs == commits_view(commits@),
                    c == cs[k as int],
                    n == c.len(),
                    ms == cfg.min_support,
                    commits_sorted(cs),
                    i < j <= n,
                    ids@.len() == n,
                    forall|m: int| 0 <= m < n ==> (#[trigger] ids@[m]) < files@.len() && files@[ids@[m] as int]@ == c[m],
                    occ@.len() == files@.len(),
                    forall|f: int| 0 <= f < files@.len() ==> (#[trigger] occ@[f])@ == commits_with(cs, files@[f]@),
                    in_manifest_order(pair_keys(pairs@)),
                    forall|m: int| 0 <= m < pairs@.len() ==> positive(#[trigger] pair_keys(pairs@)[m]),
                    pair_keys(pairs@).to_set() == found(cs, ms, k as int, i as int, j as int),
                decreases n - j,
            {
                let ghost a = c[i as int];
                let ghost b = c[j as int];
                let oa = &occ[ids[i]];
                let ob = &occ[ids[j]];
                proof {
                    lemma_positions_bounded(cs.len() as int, touches(cs, a));
                    lemma_positions_bounded(cs.len() as int, touches(cs, b));
                    lemma_commits_with_both(cs, a, b, cs.len() as int);
                    lemma_found_inner_step(cs, ms, k as int, i as int, j as int);
                }
                let both = intersect_sorted(oa.as_slice(), ob.as_slice());
                assert(both@ == commits_with_both(cs, a, b));
                if both.len() > 0 && both[0] == k && both.len() >= cfg.min_support as usize {
                    proof {
                        lemma_both_within(cs, a, b);
                        assert(seq_lt(a, b));
                    }
                    let x = Pair {
                        a: commits[k][i].clone(),
                        b: commits[k][j].clone(),
                        support: both.len() as u32,
                        count_a: oa.len() as u32,
                        count_b: ob.len() as u32,
                    };
                    assert(pair_key(x) == pair_entry(cs, a, b));
                    proof {
                        assert forall|m: int|
                            0 <= m < pairs@.len() && (#[trigger] pairs@[m]).a@ == x.a@ && pairs@[m].b@ == x.b@
                            implies pair_key(pairs@[m]) == pair_key(x) by {
                            let e = pair_keys(pairs@)[m];
                            assert(pair_keys(pairs@).to_set().contains(e));
                        }
                    }
                    insert_pair(&mut pairs, x);
                }
                j += 1;
            }
            proof {
                lemma_found_inner_end(cs, ms, k as int, i as int);
            }
            i += 1;
        }
        proof {
            lemma_found_commit_end(cs, ms, k as int);
        }
        k += 1;
    }
    proof {
        lemma_found_all(cs, ms);
        lemma_sorted_no_duplicates(string_views(files@));
        string_views(files@).unique_seq_to_set();
    }
    CochangeManifest {
        version: String::from_str("1"),
        sigil_version: String::from_str(sigil_version),
        commits_scanned: commits.len() as u32,
        min_support: cfg.min_support,
        file_count: files.len(),
        pairs,
    }
}

/// A file that changed together with the one asked about, with the
/// support and counts of their pair (its weight is
/// `support / sqrt(count_a * count_b)`).
#[derive(Debug)]
pub struct Partner<'a> {
    pub file: &'a str,
    pub support: u32,
    pub count_a: u32,
    pub count_b: u32,
}

/// A partner as plain values.
pub open spec fn partner_key(p: Partner) -> (Seq<char>, u32, u32, u32) {
    (p.file@, p.support, p.count_a, p.count_b)
}

/// The partners of `file` among the pairs, in pair order: the other file
/// of each pair that holds `file` on either side.
pub open spec fn partners_spec(ps: Seq<Pair>, file: Seq<char>) -> Seq<(Seq<char>, u32, u32, u32)>
    decreases ps.len(),
{
    if ps.len() == 0 {
        Seq::empty()
    } else {
        let p = ps.last();
        let rest = partners_spec(ps.drop_last(), file);
        if p.a@ == file {
            rest.push((p.b@, p.support, p.count_a, p.count_b))
        } else if p.b@ == file {
            rest.push((p.a@, p.support, p.count_a, p.count_b))
        } else {
            rest
        }
    }
}

/// Every partner of `file` in the manifest (pairs holding `file` on
/// either side), in manifest order, so heaviest first.
pub fn partners_of<'a>(manifest: &'a CochangeManifest, file: &str) -> (r: Vec<Partner<'a>>)
    ensures
        r@.map_values(|p: Partner| partner_key(p)) == partners_spec(manifest.pairs@, file@),
{
    let ps = &manifest.pairs;
    let mut r: Vec<Partner<'a>> = Vec::new();
    let mut i: usize = 0;
    while i < ps.len()
        invariant
            i <= ps@.len(),
            ps == &manifest.pairs,
            r@.map_values(|p: Partner| partner_key(p)) == partners_spec(ps@.take(i as int), file@),
        decreases ps@.len() - i,
    {
        assert(ps@.take(i + 1).drop_last() == ps@.take(i as int));
        let p = &ps[i];
        let ghost before = r@;
        if crate::text::str_eq(p.a.as_str(), file) {
            r.push(Partner { file: p.b.as_str(), support: p.support, count_a: p.count_a, count_b: p.count_b });
            assert(r@.map_values(|p: Partner| partner_key(p)) == before.map_values(|p: Partner| partner_key(p)).push(partner_key(r@.last())));
        } else if crate::text::str_eq(p.b.as_str(), file) {
            r.push(Partner { file: p.a.as_str(), support: p.support, count_a: p.count_a, count_b: p.count_b });
            assert(r@.map_values(|p: Partner| partner_key(p)) == before.map_values(|p: Partner| partner_key(p)).push(partner_key(r@.last())));
        }
        i += 1;
    }
    assert(ps@.take(ps@.len() as int) == ps@);
    r
}

/// `x` weighs at least as much as `y` (partners as plain values).
pub open spec fn partner_not_lighter(x: (Seq<char>, u32, u32, u32), y: (Seq<char>, u32, u32, u32)) -> bool {
    (x.1 * x.1) * (y.2 * y.3) >= (y.1 * y.1) * (x.2 * x.3)
}

proof fn lemma_partner_from_pair(ps: Seq<Pair>, file: Seq<char>, k: int)
    requires
        0 <= k < partners_spec(ps, file).len(),
    ensures
        exists|m: int|
            0 <= m < ps.len() && (#[trigger] ps[m]).support == partners_spec(ps, file)[k].1
                && ps[m].count_a == partners_spec(ps, file)[k].2 && ps[m].count_b == partners_spec(
                ps,
                file,
            )[k].3,
    decreases ps.len(),
{
    let rest = partners_spec(ps.drop_last(), file);
    if k < rest.len() {
        lemma_partner_from_pair(ps.drop_last(), file, k);
        let m = choose|m: int|
            0 <= m < ps.drop_last().len() && (#[trigger] ps.drop_last()[m]).support == rest[k].1
                && ps.drop_last()[m].count_a == rest[k].2 && ps.drop_last()[m].count_b == rest[k].3;
        assert(ps[m] == ps.drop_last()[m]);
    } else {
        assert(ps[ps.len() - 1] == ps.last());
    }
}

/// Partners come heaviest first: in a manifest in manifest order (as
/// `compute_manifest` makes it), no partner of a file weighs more than
/// one listed before it.
pub proof fn law_partners_heaviest_first(ps: Seq<Pair>, file: Seq<char>)
    requires
        in_manifest_order(pair_keys(ps)),
    ensures
        forall|i: int, j: int|
            0 <= i < j < partners_spec(ps, file).len() ==> partner_not_lighter(
                #[trigger] partners_spec(ps, file)[i],
                #[trigger] partners_spec(ps, file)[j],
            ),
    decreases ps.len(),
{
    if ps.len() > 0 {
        let ps1 = ps.drop_last();
        assert forall|i: int, j: int| 0 <= i < j < pair_keys(ps1).len() implies pair_before(
            #[trigger] pair_keys(ps1)[i],
            #[trigger] pair_keys(ps1)[j],
        ) by {
            assert(pair_keys(ps1)[i] == pair_keys(ps)[i]);
            assert(pair_keys(ps1)[j] == pair_keys(ps)[j]);
        }
        law_partners_heaviest_first(ps1, file);
        let rest = partners_spec(ps1, file);
        let all = partners_spec(ps, file);
        assert forall|i: int, j: int| 0 <= i < j < all.len() implies partner_not_lighter(
            #[trigger] all[i],
            #[trigger] all[j],
        ) by {
            if j < rest.len() {
                assert(all[i] == rest[i] && all[j] == rest[j]);
            } else {
                lemma_partner_from_pair(ps1, file, i);
                let m = choose|m: int|
                    0 <= m < ps1.len() && (#[trigger] ps1[m]).support == rest[i].1
                        && ps1[m].count_a == rest[i].2 && ps1[m].count_b == rest[i].3;
                assert(all[i] == rest[i]);
                let n = ps.len() - 1;
                assert(pair_keys(ps)[m] == pair_key(ps[m]));
                assert(pair_keys(ps)[n] == pair_key(ps[n]));
                assert(pair_before(pair_keys(ps)[m], pair_keys(ps)[n]));
                assert(ps[m] == ps1[m]);
                assert(ps[n] == ps.last());
            }
        }
    }
}

/// `g` is listed among the partners of `file`.
pub open spec fn is_partner(ps: Seq<Pair>, file: Seq<char>, g: Seq<char>) -> bool {
    exists|k: int| 0 <= k < partners_spec(ps, file).len() && (#[trigger] partners_spec(ps, file)[k]).0 == g
}

/// Some pair holds `file` and `g`, on either side.
pub open spec fn paired_with(ps: Seq<Pair>, file: Seq<char>, g: Seq<char>) -> bool {
    exists|m: int|
        0 <= m < ps.len() && (((#[trigger] ps[m]).a@ == file && ps[m].b@ == g) || (ps[m].b@ == file
            && ps[m].a@ == g))
}

proof fn lemma_partner_iff_paired(ps: Seq<Pair>, file: Seq<char>, g: Seq<char>)
    requires
        forall|m: int| 0 <= m < ps.len() ==> (#[trigger] ps[m]).a@ != ps[m].b@,
    ensures
        is_partner(ps, file, g) <==> paired_with(ps, file, g),
    decreases ps.len(),
{
    if ps.len() > 0 {
        let ps1 = ps.drop_last();
        assert forall|m: int| 0 <= m < ps1.len() implies (#[trigger] ps1[m]).a@ != ps1[m].b@ by {
            assert(ps1[m] == ps[m]);
        }
        lemma_partner_iff_paired(ps1, file, g);
        let rest = partners_spec(ps1, file);
        let all = partners_spec(ps, file);
        let p = ps.last();
        let n = ps.len() - 1;
        assert(ps[n] == p);
        if is_partner(ps, file, g) {
            let k = choose|k: int| 0 <= k < all.len() && (#[trigger] all[k]).0 == g;
            if k < rest.len() {
                assert(all[k] == rest[k]);
                assert(is_partner(ps1, file, g));
                let m = choose|m: int|
                    0 <= m < ps1.len() && (((#[trigger] ps1[m]).a@ == file && ps1[m].b@ == g) || (
                    ps1[m].b@ == file && ps1[m].a@ == g));
                assert(ps[m] == ps1[m]);
            }
        }
        if paired_with(ps, file, g) {
            let m = choose|m: int|
                0 <= m < ps.len() && (((#[trigger] ps[m]).a@ == file && ps[m].b@ == g) || (ps[m].b@
                    == file && ps[m].a@ == g));
            if m < n {
                assert(ps1[m] == ps[m]);
                assert(paired_with(ps1, file, g));
                let k = choose|k: int| 0 <= k < rest.len() && (#[trigger] rest[k]).0 == g;
                assert(all[k] == rest[k]);
            } else {
                assert(all[rest.len() as int].0 == g);
            }
        }
    }
}

/// The partners a manifest lists for a file are exactly the files it
/// changed together with in at least `min_support` commits: for a
/// manifest holding exactly the entries `compute_manifest` promises, `g`
/// is a partner of `file` if and only if the pair of the two qualifies
/// (in either order).
pub proof fn law_partners_are_cochanged_files(
    cs: Seq<Seq<Seq<char>>>,
    min_support: u32,
    ps: Seq<Pair>,
    file: Seq<char>,
    g: Seq<char>,
)
    requires
        pair_keys(ps).to_set() == manifest_entries(cs, min_support),
    ensures
        is_partner(ps, file, g) <==> (qualifies(cs, min_support, file, g) || qualifies(
            cs,
            min_support,
            g,
            file,
        )),
{
    assert forall|m: int| 0 <= m < ps.len() implies (#[trigger] ps[m]).a@ != ps[m].b@ by {
        assert(pair_keys(ps)[m] == pair_key(ps[m]));
        assert(pair_keys(ps).to_set().contains(pair_keys(ps)[m]));
        lemma_seq_lt_irreflexive(ps[m].a@);
    }
    lemma_partner_iff_paired(ps, file, g);
    if paired_with(ps, file, g) {
        let m = choose|m: int|
            0 <= m < ps.len() && (((#[trigger] ps[m]).a@ == file && ps[m].b@ == g) || (ps[m].b@
                == file && ps[m].a@ == g));
        assert(pair_keys(ps)[m] == pair_key(ps[m]));
        assert(pair_keys(ps).to_set().contains(pair_keys(ps)[m]));
    }
    if qualifies(cs, min_support, file, g) {
        let e = pair_entry(cs, file, g);
        assert(manifest_entries(cs, min_support).contains(e));
        let m = choose|m: int| 0 <= m < pair_keys(ps).len() && pair_keys(ps)[m] == e;
        assert(pair_keys(ps)[m] == pair_key(ps[m]));
        assert(paired_with(ps, file, g));
    }
    if qualifies(cs, min_support, g, file) {
        let e = pair_entry(cs, g, file);
        assert(manifest_entries(cs, min_support).contains(e));
        let m = choose|m: int| 0 <= m < pair_keys(ps).len() && pair_keys(ps)[m] == e;
        assert(pair_keys(ps)[m] == pair_key(ps[m]));
        assert(paired_with(ps, file, g));
    }
}

proof fn lemma_sorted_no_duplicates(s: Seq<Seq<char>>)
    requires
        strictly_sorted(s),
    ensures
        s.no_duplicates(),
{
    assert forall|i: int, j: int| 0 <= i < s.len() && 0 <= j < s.len() && i != j implies s[i] != s[j] by {
        lemma_seq_lt_irreflexive(s[i]);
        if i < j {
            assert(seq_lt(s[i], s[j]));
        } else {
            assert(seq_lt(s[j], s[i]));
        }
    }
}

proof fn lemma_commit_in_all_files(cs: Seq<Seq<Seq<char>>>, k: int)
    requires
        0 <= k < cs.len(),
    ensures
        forall|j: int| 0 <= j < cs[k].len() ==> all_files(cs).contains(#[trigger] cs[k][j]),
    decreases cs.len(),
{
    if k < cs.len() - 1 {
        lemma_commit_in_all_files(cs.drop_last(), k);
        assert forall|j: int| 0 <= j < cs[k].len() implies all_files(cs).contains(#[trigger] cs[k][j]) by {
            assert(cs.drop_last()[k] == cs[k]);
            assert(all_files(cs.drop_last()).contains(cs.drop_last()[k][j]));
            let w = choose|w: int| 0 <= w < all_files(cs.drop_last()).len() && all_files(cs.drop_last())[w] == cs[k][j];
            assert(all_files(cs)[w] == cs[k][j]);
        }
    } else {
        assert forall|j: int| 0 <= j < cs[k].len() implies all_files(cs).contains(#[trigger] cs[k][j]) by {
            assert(all_files(cs)[all_files(cs.drop_last()).len() + j] == cs[k][j]);
        }
    }
}

} // verus!
