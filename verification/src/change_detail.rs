//! Structured change details ("8080 → 3000", "argument added") drawn from
//! the removed and added lines of an inline diff.
//!
//! Similarity scores are exact fractions `num / den`; they are compared by
//! cross-multiplication.

use vstd::prelude::*;
use crate::fmt::{push_chars, push_str};
use crate::text::{
    chars_vec, eq_lit, first_index_of, index_of_from, is_prefix, lemma_first_index_of, seq_eq,
    slice_range, starts_with, string_from, trim, trim_chars, words, words_of,
};
use crate::inline_diff::{changes_view, DiffLine, DiffLineKind, DiffTag};
use crate::tokens::{ascii_lowered, lower_chars};

verus! {

broadcast use vstd::string::group_string_axioms;

/// What kind of change a detail describes.
#[derive(Debug, Clone, Copy, PartialEq, Eq, Structural)]
pub enum DetailKind {
    ValueChanged,
    IdentifierChanged,
    ArgumentAdded,
    ArgumentRemoved,
    Comment,
    LineAdded,
    LineRemoved,
}

/// One human-readable change detail.
#[derive(Debug)]
pub struct ChangeDetail {
    pub kind: DetailKind,
    pub description: String,
}

pub open spec fn detail_view(d: ChangeDetail) -> (DetailKind, Seq<char>) {
    (d.kind, d.description@)
}

pub open spec fn details_view(ds: Seq<ChangeDetail>) -> Seq<(DetailKind, Seq<char>)> {
    ds.map_values(|d: ChangeDetail| detail_view(d))
}

pub open spec fn strs(v: Seq<String>) -> Seq<Seq<char>> {
    v.map_values(|s: String| s@)
}

pub open spec fn pairs_view(v: Seq<(String, String)>) -> Seq<(Seq<char>, Seq<char>)> {
    v.map_values(|p: (String, String)| (p.0@, p.1@))
}

// ---------------------------------------------------------------------
// Similarity
// ---------------------------------------------------------------------

/// Bytes of the UTF-8 encoding of `c` (`char::len_utf8`).
pub open spec fn utf8_width(c: char) -> nat {
    if (c as u32) < 0x80 {
        1
    } else if (c as u32) < 0x800 {
        2
    } else if (c as u32) < 0x10000 {
        3
    } else {
        4
    }
}

/// Bytes of the UTF-8 encoding of `s` (`str::len`).
pub open spec fn utf8_len(s: Seq<char>) -> nat
    decreases s.len(),
{
    if s.len() == 0 {
        0
    } else {
        utf8_len(s.drop_last()) + utf8_width(s.last())
    }
}

/// Positions `k < n` at which `a` and `b` hold the same character.
pub open spec fn same_position_count(a: Seq<char>, b: Seq<char>, n: int) -> nat
    decreases n,
{
    if n <= 0 {
        0
    } else {
        same_position_count(a, b, n - 1) + if a[n - 1] == b[n - 1] {
            1nat
        } else {
            0nat
        }
    }
}

pub open spec fn min_nat(a: nat, b: nat) -> nat {
    if a <= b { a } else { b }
}

pub open spec fn max_nat(a: nat, b: nat) -> nat {
    if a >= b { a } else { b }
}

/// Character overlap of two words: characters equal at the same
/// position, over the longer word's byte length; 0 when either is empty.
pub open spec fn char_similarity(a: Seq<char>, b: Seq<char>) -> (nat, nat) {
    if utf8_len(a) == 0 || utf8_len(b) == 0 {
        (0, 1)
    } else {
        (same_position_count(a, b, min_nat(a.len(), b.len()) as int), max_nat(utf8_len(a), utf8_len(b)))
    }
}

/// Words of `wa` (with repetition) that also occur in `wb`.
pub open spec fn shared_words(wa: Seq<Seq<char>>, wb: Seq<Seq<char>>) -> nat
    decreases wa.len(),
{
    if wa.len() == 0 {
        0
    } else {
        shared_words(wa.drop_last(), wb) + if wb.contains(wa.last()) {
            1nat
        } else {
            0nat
        }
    }
}

/// Word-overlap similarity of two lines as a fraction `(num, den)`:
/// shared words over the larger word count; 1 for two blank lines, 0 when
/// only one is blank; for two single-word lines with no word in common,
/// their character overlap.
pub open spec fn line_similarity(a: Seq<char>, b: Seq<char>) -> (nat, nat) {
    let wa = words(a);
    let wb = words(b);
    if wa.len() == 0 && wb.len() == 0 {
        (1, 1)
    } else if wa.len() == 0 || wb.len() == 0 {
        (0, 1)
    } else if wa.len() == 1 && wb.len() == 1 && shared_words(wa, wb) == 0 {
        char_similarity(wa[0], wb[0])
    } else {
        (shared_words(wa, wb), max_nat(wa.len(), wb.len()))
    }
}

/// `x > y` for fractions with positive denominators.
pub open spec fn frac_gt(x: (nat, nat), y: (nat, nat)) -> bool {
    x.0 * y.1 > y.0 * x.1
}

/// `x >= 1/2`.
pub open spec fn at_least_half(x: (nat, nat)) -> bool {
    2 * x.0 >= x.1
}

/// The unused added line (among the first `k`) most similar to `r`, if any
/// reaches 1/2; the first such line on a tie.
pub open spec fn best_partner(r: Seq<char>, added: Seq<Seq<char>>, used: Seq<bool>, k: int) -> Option<int>
    decreases k,
{
    if k <= 0 {
        None
    } else {
        let prev = best_partner(r, added, used, k - 1);
        let s = line_similarity(r, added[k - 1]);
        if used[k - 1] || !at_least_half(s) {
            prev
        } else {
            match prev {
                None => Some(k - 1),
                Some(j) => if frac_gt(s, line_similarity(r, added[j])) {
                    Some(k - 1)
                } else {
                    prev
                },
            }
        }
    }
}

/// Greedy pairing of the first `n` removed lines, each with its best
/// unused added line: the pairs so far and which added lines are taken.
pub open spec fn pairing(removed: Seq<Seq<char>>, added: Seq<Seq<char>>, n: int) -> (
    Seq<(Seq<char>, Seq<char>)>,
    Seq<bool>,
)
    decreases n,
{
    if n <= 0 {
        (Seq::empty(), Seq::new(added.len(), |i: int| false))
    } else {
        let (ps, used) = pairing(removed, added, n - 1);
        match best_partner(removed[n - 1], added, used, added.len() as int) {
            Some(a) => (ps.push((removed[n - 1], added[a])), used.update(a, true)),
            None => (ps, used),
        }
    }
}

/// The pairs of removed and added lines that `pair_similar_lines` forms.
pub open spec fn similar_pairs(removed: Seq<Seq<char>>, added: Seq<Seq<char>>) -> Seq<(Seq<char>, Seq<char>)> {
    pairing(removed, added, removed.len() as int).0
}

proof fn lemma_best_partner(r: Seq<char>, added: Seq<Seq<char>>, used: Seq<bool>, k: int)
    requires
        0 <= k <= added.len(),
        used.len() == added.len(),
    ensures
        best_partner(r, added, used, k) matches Some(j) ==> 0 <= j < k && !used[j] && at_least_half(
            line_similarity(r, added[j]),
        ),
    decreases k,
{
    if k > 0 {
        lemma_best_partner(r, added, used, k - 1);
    }
}

proof fn lemma_pairing_len(removed: Seq<Seq<char>>, added: Seq<Seq<char>>, n: int)
    requires
        0 <= n,
    ensures
        pairing(removed, added, n).1.len() == added.len(),
    decreases n,
{
    if n > 0 {
        lemma_pairing_len(removed, added, n - 1);
        let (ps, used) = pairing(removed, added, n - 1);
        lemma_best_partner(removed[n - 1], added, used, added.len() as int);
    }
}

/// `is` and `js` place the pairs `ps`: each pair is removed line `is[k]`
/// and added line `js[k]`, similar at least 1/2; the removed lines come in
/// their order and no added line is used twice.
pub open spec fn placed_pairs(
    removed: Seq<Seq<char>>,
    added: Seq<Seq<char>>,
    ps: Seq<(Seq<char>, Seq<char>)>,
    is: Seq<int>,
    js: Seq<int>,
) -> bool {
    &&& is.len() == ps.len()
    &&& js.len() == ps.len()
    &&& forall|k: int| 0 <= k < ps.len() ==> {
        &&& 0 <= #[trigger] is[k] < removed.len()
        &&& 0 <= js[k] < added.len()
        &&& ps[k] == (removed[is[k]], added[js[k]])
        &&& at_least_half(line_similarity(ps[k].0, ps[k].1))
    }
    &&& forall|a: int, b: int| 0 <= a < b < ps.len() ==> #[trigger] is[a] < #[trigger] is[b]
    &&& js.no_duplicates()
}

proof fn lemma_pairing_placed(removed: Seq<Seq<char>>, added: Seq<Seq<char>>, n: int) -> (r: (Seq<int>, Seq<int>))
    requires
        0 <= n <= removed.len(),
    ensures
        placed_pairs(removed, added, pairing(removed, added, n).0, r.0, r.1),
        forall|k: int| 0 <= k < r.0.len() ==> #[trigger] r.0[k] < n,
        forall|k: int| 0 <= k < r.1.len() ==> pairing(removed, added, n).1[#[trigger] r.1[k]],
        pairing(removed, added, n).0.len() <= n,
    decreases n,
{
    lemma_pairing_len(removed, added, n);
    if n <= 0 {
        (Seq::empty(), Seq::empty())
    } else {
        let (is, js) = lemma_pairing_placed(removed, added, n - 1);
        let (ps, used) = pairing(removed, added, n - 1);
        lemma_pairing_len(removed, added, n - 1);
        lemma_best_partner(removed[n - 1], added, used, added.len() as int);
        match best_partner(removed[n - 1], added, used, added.len() as int) {
            Some(a) => {
                let is2 = is.push(n - 1);
                let js2 = js.push(a);
                let ps2 = ps.push((removed[n - 1], added[a]));
                let used2 = used.update(a, true);
                assert forall|k: int| 0 <= k < ps2.len() implies {
                    &&& 0 <= #[trigger] is2[k] < removed.len()
                    &&& 0 <= js2[k] < added.len()
                    &&& ps2[k] == (removed[is2[k]], added[js2[k]])
                    &&& at_least_half(line_similarity(ps2[k].0, ps2[k].1))
                } by {
                    if k < ps.len() {
                        assert(is2[k] == is[k] && js2[k] == js[k] && ps2[k] == ps[k]);
                    }
                }
                assert forall|x: int, y: int| 0 <= x < y < ps2.len() implies #[trigger] is2[x] < #[trigger] is2[y] by {
                    if y < ps.len() {
                        assert(is2[x] == is[x] && is2[y] == is[y]);
                    } else {
                        assert(is2[x] == is[x]);
                    }
                }
                assert(js2.no_duplicates()) by {
                    assert forall|x: int, y: int| 0 <= x < js2.len() && 0 <= y < js2.len() && x != y implies js2[x] != js2[y] by {
                        if x < js.len() && y < js.len() {
                            assert(js2[x] == js[x] && js2[y] == js[y]);
                        } else if x < js.len() {
                            assert(js2[x] == js[x]);
                            assert(used[js[x]]);
                        } else {
                            assert(js2[y] == js[y]);
                            assert(used[js[y]]);
                        }
                    }
                }
                assert forall|k: int| 0 <= k < js2.len() implies used2[#[trigger] js2[k]] by {
                    if k < js.len() {
                        assert(js2[k] == js[k]);
                        assert(0 <= is[k] < removed.len());
                        assert(used[js[k]]);
                    }
                }
                assert forall|k: int| 0 <= k < is2.len() implies #[trigger] is2[k] < n by {
                    if k < is.len() {
                        assert(is2[k] == is[k]);
                    }
                }
                (is2, js2)
            },
            None => (is, js),
        }
    }
}

/// Law of line pairing: the pairs take removed lines in their order, and
/// added lines each at most once; every pair is at least half similar;
/// so there are at most as many pairs as removed lines, and as added lines.
pub proof fn law_similar_pairs_are_a_matching(removed: Seq<Seq<char>>, added: Seq<Seq<char>>)
    ensures
        exists|is: Seq<int>, js: Seq<int>| #[trigger] placed_pairs(removed, added, similar_pairs(removed, added), is, js),
        similar_pairs(removed, added).len() <= removed.len(),
        similar_pairs(removed, added).len() <= added.len(),
{
    let (is, js) = lemma_pairing_placed(removed, added, removed.len() as int);
    let ps = similar_pairs(removed, added);
    assert(placed_pairs(removed, added, ps, is, js));
    js.unique_seq_to_set();
    vstd::set_lib::lemma_int_range(0, added.len() as int);
    assert(js.to_set().subset_of(vstd::set_lib::set_int_range(0, added.len() as int))) by {
        assert forall|x: int| js.to_set().contains(x) implies vstd::set_lib::set_int_range(0, added.len() as int).contains(x) by {
            let k = choose|k: int| 0 <= k < js.len() && js[k] == x;
            assert(0 <= is[k] < removed.len());
            assert(0 <= js[k] < added.len());
        }
    }
    vstd::set_lib::lemma_len_subset(js.to_set(), vstd::set_lib::set_int_range(0, added.len() as int));
}

/// Exact comparison `a / b > c / d` without multiplying.
fn frac_greater(a: u128, b: u128, c: u128, d: u128) -> (r: bool)
    requires
        b > 0,
        d > 0,
    ensures
        r == (a * d > c * b),
    decreases b + d,
{
    let qa = a / b;
    let qc = c / d;
    let ra = a % b;
    let rc = c % d;
    proof {
        lemma_frac_parts(a as int, b as int, c as int, d as int);
    }
    if qa != qc {
        qa > qc
    } else if ra == 0 {
        proof {
            assert(0 * d == 0) by (nonlinear_arith);
            assert((c % d) * b >= 0) by (nonlinear_arith)
                requires
                    b > 0,
                    c % d >= 0,
            ;
        }
        false
    } else if rc == 0 {
        proof {
            assert(0 * b == 0) by (nonlinear_arith);
            assert((a % b) * d > 0) by (nonlinear_arith)
                requires
                    d > 0,
                    a % b > 0,
            ;
        }
        true
    } else {
        let r = frac_greater(d, rc, b, ra);
        proof {
            assert(d * ra == ra * d && b * rc == rc * b) by (nonlinear_arith);
        }
        r
    }
}

proof fn lemma_frac_parts(a: int, b: int, c: int, d: int)
    requires
        a >= 0,
        c >= 0,
        b > 0,
        d > 0,
    ensures
        a / b > c / d ==> a * d > c * b,
        a / b < c / d ==> !(a * d > c * b),
        a / b == c / d ==> ((a * d > c * b) == ((a % b) * d > (c % d) * b)),
        0 <= a % b < b,
        0 <= c % d < d,
{
    let qa = a / b;
    let qc = c / d;
    let ra = a % b;
    let rc = c % d;
    assert(a == qa * b + ra && 0 <= ra < b) by (nonlinear_arith)
        requires
            b > 0,
            qa == a / b,
            ra == a % b,
    ;
    assert(c == qc * d + rc && 0 <= rc < d) by (nonlinear_arith)
        requires
            d > 0,
            qc == c / d,
            rc == c % d,
    ;
    assert(a * d == qa * b * d + ra * d) by (nonlinear_arith)
        requires
            a == qa * b + ra,
    ;
    assert(c * b == qc * b * d + rc * b) by (nonlinear_arith)
        requires
            c == qc * d + rc,
    ;
    assert(qa > qc ==> qa * b * d >= qc * b * d + b * d) by (nonlinear_arith)
        requires
            b > 0,
            d > 0,
    ;
    assert(qa < qc ==> qc * b * d >= qa * b * d + b * d) by (nonlinear_arith)
        requires
            b > 0,
            d > 0,
    ;
    assert(rc * b < d * b && ra * d < b * d && ra * d >= 0 && rc * b >= 0) by (nonlinear_arith)
        requires
            0 <= rc < d,
            0 <= ra < b,
            b > 0,
            d > 0,
    ;
    assert(b * d == d * b) by (nonlinear_arith);
}

fn utf8_width_exec(c: char) -> (r: u128)
    ensures
        r == utf8_width(c),
{
    let v = c as u32;
    if v < 0x80 {
        1
    } else if v < 0x800 {
        2
    } else if v < 0x10000 {
        3
    } else {
        4
    }
}

proof fn lemma_utf8_len_bounds(s: Seq<char>)
    ensures
        s.len() <= utf8_len(s) <= 4 * s.len(),
    decreases s.len(),
{
    if s.len() > 0 {
        lemma_utf8_len_bounds(s.drop_last());
    }
}

/// UTF-8 byte length of `s`.
fn utf8_len_exec(s: &[char]) -> (r: u128)
    ensures
        r == utf8_len(s@),
{
    let mut n: u128 = 0;
    let mut i: usize = 0;
    while i < s.len()
        invariant
            i <= s@.len(),
            n == utf8_len(s@.take(i as int)),
        decreases s@.len() - i,
    {
        assert(s@.take(i + 1).drop_last() == s@.take(i as int));
        proof {
            lemma_utf8_len_bounds(s@.take(i as int));
        }
        let w = utf8_width_exec(s[i]);
        n = n + w;
        i += 1;
    }
    assert(s@.take(s@.len() as int) == s@);
    n
}

/// Character overlap of two words as `(num, den)`, `den > 0`.
fn char_similarity_exec(a: &[char], b: &[char]) -> (r: (u128, u128))
    ensures
        (r.0 as nat, r.1 as nat) == char_similarity(a@, b@),
        r.1 > 0,
{
    let x = utf8_len_exec(a);
    let y = utf8_len_exec(b);
    if x == 0 || y == 0 {
        return (0, 1);
    }
    let n = if a.len() <= b.len() { a.len() } else { b.len() };
    let mut m: u128 = 0;
    let mut i: usize = 0;
    while i < n
        invariant
            i <= n,
            n <= a@.len(),
            n <= b@.len(),
            m == same_position_count(a@, b@, i as int),
            m <= i,
        decreases n - i,
    {
        if a[i] == b[i] {
            m = m + 1;
        }
        i += 1;
    }
    (m, if x >= y { x } else { y })
}

proof fn lemma_shared_words_le(wa: Seq<Seq<char>>, wb: Seq<Seq<char>>)
    ensures
        shared_words(wa, wb) <= wa.len(),
    decreases wa.len(),
{
    if wa.len() > 0 {
        lemma_shared_words_le(wa.drop_last(), wb);
    }
}

pub open spec fn char_views(v: Seq<Vec<char>>) -> Seq<Seq<char>> {
    v.map_values(|x: Vec<char>| x@)
}

fn contains_word(ws: &Vec<Vec<char>>, w: &[char]) -> (r: bool)
    ensures
        r == char_views(ws@).contains(w@),
{
    let mut i: usize = 0;
    while i < ws.len()
        invariant
            i <= ws@.len(),
            forall|j: int| 0 <= j < i ==> ws@[j]@ != w@,
        decreases ws@.len() - i,
    {
        if seq_eq(&ws[i], w) {
            assert(char_views(ws@)[i as int] == w@);
            return true;
        }
        i += 1;
    }
    assert forall|j: int| 0 <= j < char_views(ws@).len() implies char_views(ws@)[j] != w@ by {
        assert(char_views(ws@)[j] == ws@[j]@);
    }
    false
}

fn words_vec(s: &[char]) -> (r: Vec<Vec<char>>)
    ensures
        char_views(r@) == words(s@),
{
    let r = words_of(s);
    assert(char_views(r@) == words(s@));
    r
}

/// Word-overlap similarity of two lines as `(num, den)`, `num <= den`.
fn line_similarity_exec(a: &[char], b: &[char]) -> (r: (u128, u128))
    ensures
        (r.0 as nat, r.1 as nat) == line_similarity(a@, b@),
        0 < r.1,
        r.0 <= r.1,
{
    let wa = words_vec(a);
    let wb = words_vec(b);
    if wa.len() == 0 && wb.len() == 0 {
        return (1, 1);
    }
    if wa.len() == 0 || wb.len() == 0 {
        return (0, 1);
    }
    let ghost va = char_views(wa@);
    let ghost vb = char_views(wb@);
    let mut shared: u128 = 0;
    let mut i: usize = 0;
    while i < wa.len()
        invariant
            i <= wa@.len(),
            va == char_views(wa@),
            vb == char_views(wb@),
            shared == shared_words(va.take(i as int), vb),
            shared <= i,
        decreases wa@.len() - i,
    {
        assert(va.take(i + 1).drop_last() == va.take(i as int));
        assert(va.take(i + 1).last() == wa@[i as int]@);
        if contains_word(&wb, &wa[i]) {
            shared = shared + 1;
        }
        i += 1;
    }
    assert(va.take(wa@.len() as int) == va);
    if wa.len() == 1 && wb.len() == 1 && shared == 0 {
        assert(va[0] == wa@[0]@ && vb[0] == wb@[0]@);
        let r = char_similarity_exec(&wa[0], &wb[0]);
        proof {
            lemma_utf8_len_bounds(wa@[0]@);
            lemma_utf8_len_bounds(wb@[0]@);
            lemma_same_position_le(wa@[0]@, wb@[0]@, min_nat(wa@[0]@.len(), wb@[0]@.len()) as int);
        }
        return r;
    }
    let total: u128 = if wa.len() >= wb.len() { wa.len() as u128 } else { wb.len() as u128 };
    (shared, total)
}

proof fn lemma_same_position_le(a: Seq<char>, b: Seq<char>, n: int)
    requires
        0 <= n,
    ensures
        same_position_count(a, b, n) <= n,
    decreases n,
{
    if n > 0 {
        lemma_same_position_le(a, b, n - 1);
    }
}

fn string_chars(v: &[String]) -> (r: Vec<Vec<char>>)
    ensures
        char_views(r@) == strs(v@),
        r@.len() == v@.len(),
{
    let mut r: Vec<Vec<char>> = Vec::new();
    let mut i: usize = 0;
    while i < v.len()
        invariant
            i <= v@.len(),
            char_views(r@) == strs(v@.take(i as int)),
            r@.len() == i,
        decreases v@.len() - i,
    {
        let ghost before = r@;
        r.push(chars_vec(v[i].as_str()));
        assert(char_views(r@) == char_views(before).push(v@[i as int]@));
        assert(strs(v@.take(i + 1)) == strs(v@.take(i as int)).push(v@[i as int]@));
        i += 1;
    }
    assert(v@.take(v@.len() as int) == v@);
    r
}

/// Pair each removed line, in order, with the most similar added line not
/// yet taken (the first one on a tie), provided their word overlap is at
/// least one half.
pub fn pair_similar_lines(removed: &[String], added: &[String]) -> (r: Vec<(String, String)>)
    ensures
        pairs_view(r@) == similar_pairs(strs(removed@), strs(added@)),
{
    let rv = string_chars(removed);
    let av = string_chars(added);
    let ghost rs = strs(removed@);
    let ghost ads = strs(added@);
    let mut used: Vec<bool> = Vec::new();
    let mut k: usize = 0;
    while k < added.len()
        invariant
            k <= added@.len(),
            used@ == Seq::new(k as nat, |i: int| false),
        decreases added@.len() - k,
    {
        used.push(false);
        k += 1;
    }
    let mut pairs: Vec<(String, String)> = Vec::new();
    let mut i: usize = 0;
    while i < removed.len()
        invariant
            i <= removed@.len(),
            rs == strs(removed@),
            ads == strs(added@),
            char_views(rv@) == rs,
            char_views(av@) == ads,
            av@.len() == added@.len(),
            rv@.len() == removed@.len(),
            pairs_view(pairs@) == pairing(rs, ads, i as int).0,
            used@ == pairing(rs, ads, i as int).1,
            used@.len() == added@.len(),
        decreases removed@.len() - i,
    {
        assert(rv@[i as int]@ == rs[i as int]);
        let mut best: Option<usize> = None;
        let mut best_score: (u128, u128) = (0, 1);
        let mut k: usize = 0;
        while k < added.len()
            invariant
                k <= added@.len(),
                i < removed@.len(),
                char_views(rv@) == rs,
                char_views(av@) == ads,
                av@.len() == added@.len(),
                rv@.len() == removed@.len(),
                used@.len() == added@.len(),
                rv@[i as int]@ == rs[i as int],
                best == (match best_partner(rs[i as int], ads, used@, k as int) {
                    Some(j) => Some(j as usize),
                    None => None::<usize>,
                }),
                best matches Some(j) ==> j < k && (best_score.0 as nat, best_score.1 as nat)
                    == line_similarity(rs[i as int], ads[j as int]),
                best_score.1 > 0,
            decreases added@.len() - k,
        {
            proof {
                lemma_best_partner(rs[i as int], ads, used@, k as int);
            }
            assert(av@[k as int]@ == ads[k as int]);
            if !used[k] {
                let s = line_similarity_exec(&rv[i], &av[k]);
                if s.0 >= s.1 - s.0 {
                    match best {
                        None => {
                            best = Some(k);
                            best_score = s;
                        },
                        Some(_) => {
                            if frac_greater(s.0, s.1, best_score.0, best_score.1) {
                                best = Some(k);
                                best_score = s;
                            }
                        },
                    }
                }
            }
            k += 1;
        }
        proof {
            lemma_best_partner(rs[i as int], ads, used@, added@.len() as int);
        }
        if let Some(j) = best {
            let ghost before = pairs@;
            pairs.push((removed[i].clone(), added[j].clone()));
            used.set(j, true);
            assert(pairs_view(pairs@) == pairs_view(before).push((rs[i as int], ads[j as int])));
        }
        i += 1;
    }
    pairs
}

// ---------------------------------------------------------------------
// Token classification
// ---------------------------------------------------------------------

/// A line that is only a comment: after trimming it starts with `//`,
/// `#`, `/*`, `*` or `*/`.
pub open spec fn is_comment_text(line: Seq<char>) -> bool {
    let t = trim(line);
    is_prefix("//"@, t) || is_prefix("#"@, t) || is_prefix("/*"@, t) || is_prefix("*"@, t)
        || is_prefix("*/"@, t)
}

/// Whether `line` is only a comment.
pub fn is_comment_line(line: &[char]) -> (r: bool)
    ensures
        r == is_comment_text(line@),
{
    let t = trim_chars(line);
    starts_with(&t, "//") || starts_with(&t, "#") || starts_with(&t, "/*") || starts_with(&t, "*")
        || starts_with(&t, "*/")
}

/// Quoted with `"`, `'` or a backtick at both ends.
pub open spec fn is_string_literal_text(s: Seq<char>) -> bool {
    s.len() > 0 && ((s[0] == '"' && s.last() == '"') || (s[0] == '\'' && s.last() == '\'') || (
    s[0] == '`' && s.last() == '`'))
}

pub fn is_string_literal(s: &[char]) -> (r: bool)
    ensures
        r == is_string_literal_text(s@),
{
    if s.len() == 0 {
        return false;
    }
    let a = s[0];
    let z = s[s.len() - 1];
    (a == '"' && z == '"') || (a == '\'' && z == '\'') || (a == '`' && z == '`')
}

pub open spec fn is_digit(c: char) -> bool {
    '0' <= c && c <= '9'
}

pub open spec fn all_digits(s: Seq<char>) -> bool {
    forall|i: int| 0 <= i < s.len() ==> is_digit(#[trigger] s[i])
}

/// `Digit+ | Digit+ '.' Digit* | Digit* '.' Digit+`.
pub open spec fn is_decimal_text(s: Seq<char>) -> bool {
    let d = first_index_of(s, '.');
    if d < 0 {
        s.len() > 0 && all_digits(s)
    } else {
        s.len() > 1 && all_digits(s.take(d)) && all_digits(s.skip(d + 1))
    }
}

/// `Sign? Digit+`, the part of an exponent after its `e`.
pub open spec fn is_exponent_text(s: Seq<char>) -> bool {
    if s.len() > 0 && (s[0] == '+' || s[0] == '-') {
        s.len() > 1 && all_digits(s.drop_first())
    } else {
        s.len() > 0 && all_digits(s)
    }
}

/// Position of the first `e` or `E` in `s` (-1 when there is none).
pub open spec fn first_exp_mark(s: Seq<char>) -> int
    decreases s.len(),
{
    if s.len() == 0 {
        -1
    } else if first_exp_mark(s.drop_last()) >= 0 {
        first_exp_mark(s.drop_last())
    } else if s.last() == 'e' || s.last() == 'E' {
        s.len() - 1
    } else {
        -1
    }
}

/// The float syntax `f64::from_str` accepts, once lower-cased:
/// `Sign? ('inf' | 'infinity' | 'nan' | Number)` with
/// `Number ::= Decimal ('e' Sign? Digit+)?`; no surrounding whitespace.
pub open spec fn is_number_text(s: Seq<char>) -> bool {
    let body = if s.len() > 0 && (s[0] == '+' || s[0] == '-') {
        s.drop_first()
    } else {
        s
    };
    let low = ascii_lowered(body);
    if low == "inf"@ || low == "infinity"@ || low == "nan"@ {
        true
    } else {
        let e = first_exp_mark(body);
        if e < 0 {
            is_decimal_text(body)
        } else {
            is_decimal_text(body.take(e)) && is_exponent_text(body.skip(e + 1))
        }
    }
}

fn all_digits_exec(s: &[char]) -> (r: bool)
    ensures
        r == all_digits(s@),
{
    let mut i: usize = 0;
    while i < s.len()
        invariant
            i <= s@.len(),
            forall|j: int| 0 <= j < i ==> is_digit(#[trigger] s@[j]),
        decreases s@.len() - i,
    {
        if !('0' <= s[i] && s[i] <= '9') {
            return false;
        }
        i += 1;
    }
    true
}

fn is_decimal(s: &[char]) -> (r: bool)
    ensures
        r == is_decimal_text(s@),
{
    let d = index_of_from(s, '.', 0);
    proof {
        lemma_first_index_of(s@, '.');
        lemma_first_index_of_pos(s@, '.', d as int);
    }
    if d == s.len() {
        s.len() > 0 && all_digits_exec(s)
    } else {
        let a = slice_range(s, 0, d);
        let b = slice_range(s, d + 1, s.len());
        assert(a@ == s@.take(d as int));
        assert(b@ == s@.skip(d + 1));
        s.len() > 1 && all_digits_exec(&a) && all_digits_exec(&b)
    }
}

proof fn lemma_first_index_of_pos(s: Seq<char>, c: char, d: int)
    requires
        0 <= d <= s.len(),
        d < s.len() ==> s[d] == c,
        forall|j: int| 0 <= j < d ==> s[j] != c,
    ensures
        first_index_of(s, c) == if d < s.len() { d } else { -1 },
    decreases s.len(),
{
    if s.len() > 0 && d > 0 {
        lemma_first_index_of_pos(s.drop_first(), c, d - 1);
    }
}

fn is_exponent(s: &[char]) -> (r: bool)
    ensures
        r == is_exponent_text(s@),
{
    if s.len() > 0 && (s[0] == '+' || s[0] == '-') {
        let rest = slice_range(s, 1, s.len());
        assert(rest@ == s@.drop_first());
        s.len() > 1 && all_digits_exec(&rest)
    } else {
        s.len() > 0 && all_digits_exec(s)
    }
}

proof fn lemma_first_exp_mark(s: Seq<char>, k: int)
    requires
        0 <= k <= s.len(),
        forall|j: int| 0 <= j < k ==> s[j] != 'e' && s[j] != 'E',
        k < s.len() ==> s[k] == 'e' || s[k] == 'E',
    ensures
        first_exp_mark(s) == if k < s.len() { k } else { -1 },
    decreases s.len(),
{
    if s.len() > 0 {
        if k < s.len() {
            if k < s.len() - 1 {
                lemma_first_exp_mark(s.drop_last(), k);
            } else {
                lemma_first_exp_mark(s.drop_last(), k);
            }
        } else {
            lemma_first_exp_mark(s.drop_last(), k - 1);
        }
    }
}

/// Whether `s` parses as an `f64` (`str::parse::<f64>().is_ok()`).
pub fn is_number(s: &[char]) -> (r: bool)
    ensures
        r == is_number_text(s@),
{
    let body = if s.len() > 0 && (s[0] == '+' || s[0] == '-') {
        slice_range(s, 1, s.len())
    } else {
        slice_range(s, 0, s.len())
    };
    assert(s@.subrange(0, s@.len() as int) == s@);
    assert(s@.subrange(1, s@.len() as int) == s@.drop_first());
    let low = lower_chars(&body);
    if eq_lit(&low, "inf") || eq_lit(&low, "infinity") || eq_lit(&low, "nan") {
        return true;
    }
    let mut e: usize = 0;
    while e < body.len() && body[e] != 'e' && body[e] != 'E'
        invariant
            e <= body@.len(),
            forall|j: int| 0 <= j < e ==> body@[j] != 'e' && body@[j] != 'E',
        decreases body@.len() - e,
    {
        e += 1;
    }
    proof {
        lemma_first_exp_mark(body@, e as int);
    }
    if e == body.len() {
        is_decimal(&body)
    } else {
        let m = slice_range(&body, 0, e);
        let x = slice_range(&body, e + 1, body.len());
        assert(m@ == body@.take(e as int));
        assert(x@ == body@.skip(e + 1));
        is_decimal(&m) && is_exponent(&x)
    }
}

/// Whether `char::is_alphanumeric` holds of `c` (Unicode `Alphabetic` or
/// `Numeric`).
pub uninterp spec fn unicode_alphanumeric(c: char) -> bool;

/// `char::is_alphanumeric`. Claimed: the result is
/// `unicode_alphanumeric(c)`, and for an ASCII character exactly the
/// letters and digits, as the Unicode tables give them.
#[verifier::external_body]
fn char_is_alphanumeric(c: char) -> (r: bool)
    ensures
        r == unicode_alphanumeric(c),
        (c as u32) < 0x80 ==> (r == (('a' <= c && c <= 'z') || ('A' <= c && c <= 'Z') || (
        '0' <= c && c <= '9'))),
{
    c.is_alphanumeric()
}

/// Non-empty, and every character alphanumeric, `_` or `.`.
pub open spec fn is_identifier_text(s: Seq<char>) -> bool {
    s.len() > 0 && forall|i: int|
        0 <= i < s.len() ==> (unicode_alphanumeric(#[trigger] s[i]) || s[i] == '_' || s[i] == '.')
}

pub fn is_identifier(s: &[char]) -> (r: bool)
    ensures
        r == is_identifier_text(s@),
{
    if s.len() == 0 {
        return false;
    }
    let mut i: usize = 0;
    while i < s.len()
        invariant
            i <= s@.len(),
            forall|j: int|
                0 <= j < i ==> (unicode_alphanumeric(#[trigger] s@[j]) || s@[j] == '_' || s@[j]
                    == '.'),
        decreases s@.len() - i,
    {
        let c = s[i];
        if !(char_is_alphanumeric(c) || c == '_' || c == '.') {
            return false;
        }
        i += 1;
    }
    true
}

/// Kind of a changed token pair: both string literals or both numbers
/// are value changes, both identifiers an identifier change, anything
/// else a value change.
pub open spec fn token_change_kind(old: Seq<char>, new: Seq<char>) -> DetailKind {
    if is_string_literal_text(old) && is_string_literal_text(new) {
        DetailKind::ValueChanged
    } else if is_number_text(old) && is_number_text(new) {
        DetailKind::ValueChanged
    } else if is_identifier_text(old) && is_identifier_text(new) {
        DetailKind::IdentifierChanged
    } else {
        DetailKind::ValueChanged
    }
}

pub fn classify_token_change(old: &[char], new: &[char]) -> (r: DetailKind)
    ensures
        r == token_change_kind(old@, new@),
{
    if is_string_literal(old) && is_string_literal(new) {
        DetailKind::ValueChanged
    } else if is_number(old) && is_number(new) {
        DetailKind::ValueChanged
    } else if is_identifier(old) && is_identifier(new) {
        DetailKind::IdentifierChanged
    } else {
        DetailKind::ValueChanged
    }
}

/// `s` cut to its first `max_len` characters plus `...` when it is longer.
pub open spec fn truncated(s: Seq<char>, max_len: nat) -> Seq<char> {
    if s.len() > max_len {
        s.take(max_len as int) + "..."@
    } else {
        s
    }
}

pub fn truncate_str(s: &[char], max_len: usize) -> (r: Vec<char>)
    ensures
        r@ == truncated(s@, max_len as nat),
{
    if s.len() > max_len {
        let mut r = slice_range(s, 0, max_len);
        push_str(&mut r, "...");
        r
    } else {
        slice_range(s, 0, s.len())
    }
}

/// `old → new`, each side cut to 80 characters.
pub open spec fn describe_change(old: Seq<char>, new: Seq<char>) -> Seq<char> {
    truncated(old, 80) + " \u{2192} "@ + truncated(new, 80)
}

fn describe(old: &[char], new: &[char]) -> (r: String)
    ensures
        r@ == describe_change(old@, new@),
{
    let mut out = truncate_str(old, 80);
    push_str(&mut out, " \u{2192} ");
    let t = truncate_str(new, 80);
    push_chars(&mut out, &t);
    string_from(&out)
}

// ---------------------------------------------------------------------
// Word-level diff of a line pair
// ---------------------------------------------------------------------

/// The changes `similar::TextDiff::from_words(old, new)` reports, in
/// order: words and whitespace runs, each with its tag.
pub uninterp spec fn word_changes(old: Seq<char>, new: Seq<char>) -> Seq<(DiffTag, Seq<char>)>;

/// `from_words(old, new).iter_all_changes()` of the `similar` crate, each
/// change as its tag and its text. Claimed: the result is
/// `word_changes(old, new)`, a function of the two texts alone; as the
/// changes cover both texts token by token, the equal and deleted pieces
/// put together are `old`, the equal and inserted ones `new`; and equal
/// texts give only equal changes (the default Myers diff first takes the
/// common prefix, here all of it).
#[verifier::external_body]
fn similar_word_changes(old: &str, new: &str) -> (r: Vec<(DiffTag, String)>)
    ensures
        changes_view(r@) == word_changes(old@, new@),
        old_side(changes_view(r@)) == old@,
        new_side(changes_view(r@)) == new@,
        old@ == new@ ==> forall|i: int| 0 <= i < r@.len() ==> (#[trigger] r@[i]).0 == DiffTag::Equal,
{
    similar::TextDiff::from_words(old, new).iter_all_changes().map(|c| {
        let tag = match c.tag() {
            similar::ChangeTag::Equal => DiffTag::Equal,
            similar::ChangeTag::Delete => DiffTag::Delete,
            similar::ChangeTag::Insert => DiffTag::Insert,
        };
        (tag, c.value().to_string())
    }).collect()
}

/// End of the run of non-equal changes that starts at `i`.
pub open spec fn region_end(ts: Seq<(DiffTag, Seq<char>)>, i: int) -> int
    decreases ts.len() - i,
{
    if i < 0 || i >= ts.len() || ts[i].0 == DiffTag::Equal {
        i
    } else {
        region_end(ts, i + 1)
    }
}

pub proof fn lemma_region_end(ts: Seq<(DiffTag, Seq<char>)>, i: int)
    requires
        0 <= i <= ts.len(),
    ensures
        i <= region_end(ts, i) <= ts.len(),
        i < ts.len() && ts[i].0 != DiffTag::Equal ==> region_end(ts, i) > i,
    decreases ts.len() - i,
{
    if i < ts.len() && ts[i].0 != DiffTag::Equal {
        lemma_region_end(ts, i + 1);
    }
}

/// The old text of a run of changes: its equal and deleted pieces.
pub open spec fn old_side(ts: Seq<(DiffTag, Seq<char>)>) -> Seq<char>
    decreases ts.len(),
{
    if ts.len() == 0 {
        Seq::empty()
    } else {
        old_side(ts.drop_last()) + if ts.last().0 != DiffTag::Insert {
            ts.last().1
        } else {
            Seq::empty()
        }
    }
}

/// The new text of a run of changes: its equal and inserted pieces.
pub open spec fn new_side(ts: Seq<(DiffTag, Seq<char>)>) -> Seq<char>
    decreases ts.len(),
{
    if ts.len() == 0 {
        Seq::empty()
    } else {
        new_side(ts.drop_last()) + if ts.last().0 != DiffTag::Delete {
            ts.last().1
        } else {
            Seq::empty()
        }
    }
}

/// Kind of a change whose two sides (trimmed) are `o` and `n`.
pub open spec fn region_kind(o: Seq<char>, n: Seq<char>) -> DetailKind {
    if o.len() == 0 {
        DetailKind::ArgumentAdded
    } else if n.len() == 0 {
        DetailKind::ArgumentRemoved
    } else {
        token_change_kind(o, n)
    }
}

/// The detail for the changed run `rs..re`, seen with up to 5 changes of
/// context on each side; none when both sides read the same.
pub open spec fn region_detail(ts: Seq<(DiffTag, Seq<char>)>, rs: int, re: int) -> Option<
    (DetailKind, Seq<char>),
> {
    let cs = if rs >= 5 { rs - 5 } else { 0 };
    let ce = if re + 5 <= ts.len() { re + 5 } else { ts.len() as int };
    let o = trim(old_side(ts.subrange(cs, ce)));
    let n = trim(new_side(ts.subrange(cs, ce)));
    if o == n {
        None
    } else {
        Some((region_kind(o, n), describe_change(o, n)))
    }
}

/// The details of every changed run from position `i` on.
pub open spec fn token_details(ts: Seq<(DiffTag, Seq<char>)>, i: int) -> Seq<(DetailKind, Seq<char>)>
    decreases ts.len() - i,
{
    if i < 0 || i >= ts.len() {
        Seq::empty()
    } else if ts[i].0 == DiffTag::Equal {
        token_details(ts, i + 1)
    } else {
        let re = region_end(ts, i);
        proof {
            lemma_region_end(ts, i);
        }
        (match region_detail(ts, i, re) {
            Some(d) => seq![d],
            None => Seq::empty(),
        }) + token_details(ts, re)
    }
}

pub open spec fn has_change(ts: Seq<(DiffTag, Seq<char>)>) -> bool {
    exists|i: int| 0 <= i < ts.len() && #[trigger] ts[i].0 != DiffTag::Equal
}

/// The details of a word diff whose trimmed lines are `old_t` and
/// `new_t`: none when nothing changed; else one per changed run, or a
/// single value change of the whole lines when no run yields one and the
/// lines differ.
pub open spec fn word_diff_details(
    ts: Seq<(DiffTag, Seq<char>)>,
    old_t: Seq<char>,
    new_t: Seq<char>,
) -> Seq<(DetailKind, Seq<char>)> {
    if !has_change(ts) {
        Seq::empty()
    } else {
        let d = token_details(ts, 0);
        if d.len() == 0 && old_t != new_t {
            seq![(DetailKind::ValueChanged, describe_change(old_t, new_t))]
        } else {
            d
        }
    }
}

fn sides(ts: &Vec<(DiffTag, String)>, a: usize, b: usize) -> (r: (Vec<char>, Vec<char>))
    requires
        a <= b <= ts@.len(),
    ensures
        r.0@ == old_side(changes_view(ts@).subrange(a as int, b as int)),
        r.1@ == new_side(changes_view(ts@).subrange(a as int, b as int)),
{
    let ghost tv = changes_view(ts@);
    let mut o: Vec<char> = Vec::new();
    let mut n: Vec<char> = Vec::new();
    let mut k = a;
    while k < b
        invariant
            a <= k <= b <= ts@.len(),
            tv == changes_view(ts@),
            o@ == old_side(tv.subrange(a as int, k as int)),
            n@ == new_side(tv.subrange(a as int, k as int)),
        decreases b - k,
    {
        let ghost sub = tv.subrange(a as int, k + 1);
        assert(sub.drop_last() == tv.subrange(a as int, k as int));
        assert(sub.last() == (ts@[k as int].0, ts@[k as int].1@));
        let piece = chars_vec(ts[k].1.as_str());
        match ts[k].0 {
            DiffTag::Equal => {
                push_chars(&mut o, &piece);
                push_chars(&mut n, &piece);
            },
            DiffTag::Delete => {
                push_chars(&mut o, &piece);
                assert(n@ == n@ + Seq::<char>::empty());
            },
            DiffTag::Insert => {
                push_chars(&mut n, &piece);
                assert(o@ == o@ + Seq::<char>::empty());
            },
        }
        k += 1;
    }
    (o, n)
}

/// The details a word diff yields (see `word_diff_details`), given the
/// changes it reported and the two trimmed lines it compared.
pub fn details_from_word_changes(ts: &Vec<(DiffTag, String)>, old_t: &[char], new_t: &[char]) -> (r:
    Vec<ChangeDetail>)
    ensures
        details_view(r@) == word_diff_details(changes_view(ts@), old_t@, new_t@),
{
    let ghost tv = changes_view(ts@);
    let mut any = false;
    let mut j: usize = 0;
    while j < ts.len()
        invariant
            j <= ts@.len(),
            tv == changes_view(ts@),
            any == exists|i: int| 0 <= i < j && #[trigger] tv[i].0 != DiffTag::Equal,
        decreases ts@.len() - j,
    {
        if ts[j].0 != DiffTag::Equal {
            assert(tv[j as int].0 != DiffTag::Equal);
            any = true;
        }
        j += 1;
    }
    if !any {
        return Vec::new();
    }
    let mut details: Vec<ChangeDetail> = Vec::new();
    let mut i: usize = 0;
    while i < ts.len()
        invariant
            i <= ts@.len(),
            tv == changes_view(ts@),
            details_view(details@) + token_details(tv, i as int) == token_details(tv, 0),
        decreases ts@.len() - i,
    {
        if ts[i].0 == DiffTag::Equal {
            i += 1;
            continue;
        }
        let rs = i;
        while i < ts.len() && ts[i].0 != DiffTag::Equal
            invariant
                rs <= i <= ts@.len(),
                tv == changes_view(ts@),
                region_end(tv, rs as int) == region_end(tv, i as int),
            decreases ts@.len() - i,
        {
            i += 1;
        }
        let re = i;
        proof {
            lemma_region_end(tv, rs as int);
        }
        let cs: usize = if rs >= 5 { rs - 5 } else { 0 };
        let ce: usize = if ts.len() >= 5 && re <= ts.len() - 5 { re + 5 } else { ts.len() };
        let (o_raw, n_raw) = sides(ts, cs, ce);
        let o = trim_chars(&o_raw);
        let n = trim_chars(&n_raw);
        let ghost before = details@;
        if !seq_eq(&o, &n) {
            let kind = if o.len() == 0 {
                DetailKind::ArgumentAdded
            } else if n.len() == 0 {
                DetailKind::ArgumentRemoved
            } else {
                classify_token_change(&o, &n)
            };
            details.push(ChangeDetail { kind, description: describe(&o, &n) });
            assert(details_view(details@) == details_view(before).push(detail_view(details@.last())));
        }
    }
    if details.len() == 0 && !seq_eq(old_t, new_t) {
        let mut fallback: Vec<ChangeDetail> = Vec::new();
        fallback.push(ChangeDetail { kind: DetailKind::ValueChanged, description: describe(old_t, new_t) });
        assert(details_view(fallback@) == seq![detail_view(fallback@[0])]);
        return fallback;
    }
    details
}

/// The details of one pair of lines: a comment update when both are
/// comments, else what the word diff of the trimmed lines yields.
pub open spec fn line_pair_details(old_line: Seq<char>, new_line: Seq<char>) -> Seq<(DetailKind, Seq<char>)> {
    if is_comment_text(old_line) && is_comment_text(new_line) {
        seq![(DetailKind::Comment, "comment updated"@)]
    } else {
        word_diff_details(word_changes(trim(old_line), trim(new_line)), trim(old_line), trim(new_line))
    }
}

/// The details of one removed line paired with one added line.
pub fn diff_line_pair(old_line: &[char], new_line: &[char]) -> (r: Vec<ChangeDetail>)
    ensures
        details_view(r@) == line_pair_details(old_line@, new_line@),
        r@.len() == 0 <==> (!(is_comment_text(old_line@) && is_comment_text(new_line@)) && trim(old_line@)
            == trim(new_line@)),
{
    if is_comment_line(old_line) && is_comment_line(new_line) {
        let mut r: Vec<ChangeDetail> = Vec::new();
        r.push(ChangeDetail { kind: DetailKind::Comment, description: String::from_str("comment updated") });
        assert(details_view(r@) == seq![detail_view(r@[0])]);
        return r;
    }
    let o = trim_chars(old_line);
    let n = trim_chars(new_line);
    let os = string_from(&o);
    let ns = string_from(&n);
    let changes = similar_word_changes(os.as_str(), ns.as_str());
    proof {
        let ts = changes_view(changes@);
        if o@ == n@ {
            assert forall|i: int| 0 <= i < ts.len() implies #[trigger] ts[i].0 == DiffTag::Equal by {
                assert(ts[i].0 == changes@[i].0);
            }
        } else if !has_change(ts) {
            lemma_all_equal_word_sides(ts);
        }
    }
    let r = details_from_word_changes(&changes, &o, &n);
    proof {
        let ts = changes_view(changes@);
        assert(details_view(r@).len() == r@.len());
        assert(details_view(r@) == word_diff_details(ts, o@, n@));
        if o@ == n@ {
            assert(!has_change(ts));
        } else {
            assert(has_change(ts));
            let d = token_details(ts, 0);
            if d.len() > 0 {
                assert(word_diff_details(ts, o@, n@) == d);
            } else {
                assert(word_diff_details(ts, o@, n@).len() == 1);
            }
        }
    }
    r
}

/// Changes that are all equal stand for the same old and new text.
proof fn lemma_all_equal_word_sides(ts: Seq<(DiffTag, Seq<char>)>)
    requires
        !has_change(ts),
    ensures
        old_side(ts) == new_side(ts),
    decreases ts.len(),
{
    if ts.len() > 0 {
        assert(!has_change(ts.drop_last())) by {
            if has_change(ts.drop_last()) {
                let i = choose|i: int| 0 <= i < ts.drop_last().len() && #[trigger] ts.drop_last()[i].0 != DiffTag::Equal;
                assert(ts[i] == ts.drop_last()[i]);
            }
        }
        assert(ts.last() == ts[ts.len() - 1]);
        lemma_all_equal_word_sides(ts.drop_last());
    }
}

// ---------------------------------------------------------------------
// Whole diff
// ---------------------------------------------------------------------

/// Texts of the lines of kind `k`, in order.
pub open spec fn texts_of_kind(ls: Seq<DiffLine>, k: DiffLineKind) -> Seq<Seq<char>>
    decreases ls.len(),
{
    if ls.len() == 0 {
        Seq::empty()
    } else if ls.last().kind == k {
        texts_of_kind(ls.drop_last(), k).push(ls.last().text@)
    } else {
        texts_of_kind(ls.drop_last(), k)
    }
}

/// The details of each pair, in order.
pub open spec fn pair_details(ps: Seq<(Seq<char>, Seq<char>)>) -> Seq<(DetailKind, Seq<char>)>
    decreases ps.len(),
{
    if ps.len() == 0 {
        Seq::empty()
    } else {
        pair_details(ps.drop_last()) + line_pair_details(ps.last().0, ps.last().1)
    }
}

/// One `kind` detail (`prefix` and the trimmed text) for each text that is
/// in no pair and is not a comment.
pub open spec fn unpaired_details(
    texts: Seq<Seq<char>>,
    paired: Seq<Seq<char>>,
    kind: DetailKind,
    prefix: Seq<char>,
) -> Seq<(DetailKind, Seq<char>)>
    decreases texts.len(),
{
    if texts.len() == 0 {
        Seq::empty()
    } else {
        let rest = unpaired_details(texts.drop_last(), paired, kind, prefix);
        let t = texts.last();
        if !paired.contains(t) && !is_comment_text(t) {
            rest.push((kind, prefix + trim(t)))
        } else {
            rest
        }
    }
}

/// The details of an inline diff: removed lines are paired with similar
/// added lines and each pair is described; removed and added lines left
/// unpaired are listed as such (comments aside).
pub open spec fn change_details(ls: Seq<DiffLine>) -> Seq<(DetailKind, Seq<char>)> {
    let rm = texts_of_kind(ls, DiffLineKind::Removed);
    let ad = texts_of_kind(ls, DiffLineKind::Added);
    let ps = similar_pairs(rm, ad);
    pair_details(ps) + unpaired_details(rm, ps.map_values(|p: (Seq<char>, Seq<char>)| p.0), DetailKind::LineRemoved, "- "@)
        + unpaired_details(ad, ps.map_values(|p: (Seq<char>, Seq<char>)| p.1), DetailKind::LineAdded, "+ "@)
}

proof fn lemma_no_texts_of_kind(ls: Seq<DiffLine>, k: DiffLineKind)
    requires
        forall|i: int| 0 <= i < ls.len() ==> (#[trigger] ls[i]).kind != k,
    ensures
        texts_of_kind(ls, k).len() == 0,
    decreases ls.len(),
{
    if ls.len() > 0 {
        assert(ls.last() == ls[ls.len() - 1]);
        lemma_no_texts_of_kind(ls.drop_last(), k);
    }
}

proof fn lemma_no_pairs_without_added(removed: Seq<Seq<char>>, added: Seq<Seq<char>>, n: int)
    requires
        added.len() == 0,
    ensures
        pairing(removed, added, n).0.len() == 0,
    decreases n,
{
    if n > 0 {
        lemma_no_pairs_without_added(removed, added, n - 1);
    }
}

/// Law of change details: where no line was added, the details are the
/// removed lines, comments aside, each as `- ` and its trimmed text, in
/// order; an empty diff has none.
pub proof fn law_details_without_added_lines(ls: Seq<DiffLine>)
    requires
        forall|i: int| 0 <= i < ls.len() ==> (#[trigger] ls[i]).kind != DiffLineKind::Added,
    ensures
        change_details(ls) == unpaired_details(
            texts_of_kind(ls, DiffLineKind::Removed),
            Seq::empty(),
            DetailKind::LineRemoved,
            "- "@,
        ),
        ls.len() == 0 ==> change_details(ls).len() == 0,
{
    let rm = texts_of_kind(ls, DiffLineKind::Removed);
    let ad = texts_of_kind(ls, DiffLineKind::Added);
    lemma_no_texts_of_kind(ls, DiffLineKind::Added);
    lemma_no_pairs_without_added(rm, ad, rm.len() as int);
    let ps = similar_pairs(rm, ad);
    assert(ps.map_values(|p: (Seq<char>, Seq<char>)| p.0) =~= Seq::<Seq<char>>::empty());
    assert(unpaired_details(ad, ps.map_values(|p: (Seq<char>, Seq<char>)| p.1), DetailKind::LineAdded, "+ "@).len() == 0);
    assert(pair_details(ps) =~= Seq::<(DetailKind, Seq<char>)>::empty());
    assert(change_details(ls) =~= unpaired_details(rm, Seq::empty(), DetailKind::LineRemoved, "- "@));
    if ls.len() == 0 {
        assert(rm.len() == 0);
    }
}

fn texts_of(lines: &[DiffLine], k: DiffLineKind) -> (r: Vec<String>)
    ensures
        strs(r@) == texts_of_kind(lines@, k),
{
    let mut r: Vec<String> = Vec::new();
    let mut i: usize = 0;
    while i < lines.len()
        invariant
            i <= lines@.len(),
            strs(r@) == texts_of_kind(lines@.take(i as int), k),
        decreases lines@.len() - i,
    {
        assert(lines@.take(i + 1).drop_last() == lines@.take(i as int));
        if lines[i].kind == k {
            let ghost before = r@;
            r.push(lines[i].text.clone());
            assert(strs(r@) == strs(before).push(lines@[i as int].text@));
        }
        i += 1;
    }
    assert(lines@.take(lines@.len() as int) == lines@);
    r
}

fn append_details(out: &mut Vec<ChangeDetail>, more: Vec<ChangeDetail>)
    ensures
        details_view(final(out)@) == details_view(old(out)@) + details_view(more@),
{
    let mut more = more;
    let ghost start = out@;
    let ghost m = more@;
    out.append(&mut more);
    assert(details_view(out@) == details_view(start) + details_view(m));
}

fn push_unpaired(
    out: &mut Vec<ChangeDetail>,
    texts: &Vec<String>,
    paired: &Vec<Vec<char>>,
    kind: DetailKind,
    prefix: &str,
)
    ensures
        details_view(final(out)@) == details_view(old(out)@) + unpaired_details(
            strs(texts@),
            char_views(paired@),
            kind,
            prefix@,
        ),
{
    let ghost start = details_view(out@);
    let mut i: usize = 0;
    while i < texts.len()
        invariant
            i <= texts@.len(),
            details_view(out@) == start + unpaired_details(strs(texts@.take(i as int)), char_views(paired@), kind, prefix@),
        decreases texts@.len() - i,
    {
        let ghost t = strs(texts@.take(i + 1));
        assert(t.drop_last() == strs(texts@.take(i as int)));
        assert(t.last() == texts@[i as int]@);
        let text = chars_vec(texts[i].as_str());
        if !contains_word(paired, &text) && !is_comment_line(&text) {
            let mut d: Vec<char> = Vec::new();
            push_str(&mut d, prefix);
            let tt = trim_chars(&text);
            push_chars(&mut d, &tt);
            let ghost before = out@;
            out.push(ChangeDetail { kind, description: string_from(&d) });
            assert(details_view(out@) == details_view(before).push(detail_view(out@.last())));
        }
        i += 1;
    }
    assert(texts@.take(texts@.len() as int) == texts@);
}

/// Structured change details of an inline diff (see `change_details`).
pub fn extract_change_details(lines: &[DiffLine]) -> (r: Vec<ChangeDetail>)
    ensures
        details_view(r@) == change_details(lines@),
{
    let removed = texts_of(lines, DiffLineKind::Removed);
    let added = texts_of(lines, DiffLineKind::Added);
    let pairs = pair_similar_lines(&removed, &added);
    let ghost ps = pairs_view(pairs@);
    let mut details: Vec<ChangeDetail> = Vec::new();
    let mut paired_removed: Vec<Vec<char>> = Vec::new();
    let mut paired_added: Vec<Vec<char>> = Vec::new();
    let mut i: usize = 0;
    while i < pairs.len()
        invariant
            i <= pairs@.len(),
            ps == pairs_view(pairs@),
            details_view(details@) == pair_details(ps.take(i as int)),
            char_views(paired_removed@) == ps.take(i as int).map_values(|p: (Seq<char>, Seq<char>)| p.0),
            char_views(paired_added@) == ps.take(i as int).map_values(|p: (Seq<char>, Seq<char>)| p.1),
        decreases pairs@.len() - i,
    {
        assert(ps.take(i + 1).drop_last() == ps.take(i as int));
        assert(ps.take(i + 1).last() == (pairs@[i as int].0@, pairs@[i as int].1@));
        let o = chars_vec(pairs[i].0.as_str());
        let n = chars_vec(pairs[i].1.as_str());
        let d = diff_line_pair(&o, &n);
        append_details(&mut details, d);
        let ghost pr = paired_removed@;
        let ghost pa = paired_added@;
        paired_removed.push(o);
        paired_added.push(n);
        assert(char_views(paired_removed@) == char_views(pr).push(pairs@[i as int].0@));
        assert(char_views(paired_added@) == char_views(pa).push(pairs@[i as int].1@));
        assert(ps.take(i + 1).map_values(|p: (Seq<char>, Seq<char>)| p.0) == ps.take(i as int).map_values(
            |p: (Seq<char>, Seq<char>)| p.0,
        ).push(pairs@[i as int].0@));
        assert(ps.take(i + 1).map_values(|p: (Seq<char>, Seq<char>)| p.1) == ps.take(i as int).map_values(
            |p: (Seq<char>, Seq<char>)| p.1,
        ).push(pairs@[i as int].1@));
        i += 1;
    }
    assert(ps.take(pairs@.len() as int) == ps);
    push_unpaired(&mut details, &removed, &paired_removed, DetailKind::LineRemoved, "- ");
    push_unpaired(&mut details, &added, &paired_added, DetailKind::LineAdded, "+ ");
    details
}

} // verus!
