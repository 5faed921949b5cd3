//! Character-level helpers shared by the parsers and renderers.

use vstd::prelude::*;

verus! {

broadcast use vstd::string::group_string_axioms;

/// The characters of `s`, in order.
pub fn chars_vec(s: &str) -> (v: Vec<char>)
    ensures
        v@ == s@,
{
    let mut v: Vec<char> = Vec::new();
    for c in it: s.chars()
        invariant
            v@ == it.seq().take(it.index() as int),
    {
        v.push(c);
    }
    v
}

/// Appends one character to `s`.
#[verifier::external_body]
pub(crate) fn push_char(s: &mut String, c: char)
    ensures
        final(s)@ == old(s)@.push(c),
{
    s.push(c);
}

/// A `String` holding exactly the characters of `v`.
pub fn string_from(v: &[char]) -> (s: String)
    ensures
        s@ == v@,
{
    let mut s = String::new();
    let mut i: usize = 0;
    while i < v.len()
        invariant
            i <= v@.len(),
            s@ == v@.take(i as int),
        decreases v@.len() - i,
    {
        push_char(&mut s, v[i]);
        assert(v@.take(i + 1) == v@.take(i as int).push(v@[i as int]));
        i += 1;
    }
    assert(v@.take(v@.len() as int) == v@);
    s
}


/// `p` occurs in `s` starting at position `i`.
pub open spec fn occurs_at(s: Seq<char>, p: Seq<char>, i: int) -> bool {
    0 <= i && i + p.len() <= s.len() && s.subrange(i, i + p.len()) == p
}

/// `s` begins with `p`.
pub open spec fn is_prefix(p: Seq<char>, s: Seq<char>) -> bool {
    occurs_at(s, p, 0)
}

/// `s` ends with `p`.
pub open spec fn is_suffix(p: Seq<char>, s: Seq<char>) -> bool {
    p.len() <= s.len() && occurs_at(s, p, s.len() - p.len())
}

/// `p` occurs somewhere in `s`.
pub open spec fn contains_sub(s: Seq<char>, p: Seq<char>) -> bool {
    exists|i: int| occurs_at(s, p, i)
}

/// Whether `p` occurs in `s` at position `i`.
pub fn matches_at(s: &[char], p: &[char], i: usize) -> (r: bool)
    ensures
        r == occurs_at(s@, p@, i as int),
{
    if i > s.len() || p.len() > s.len() - i {
        return false;
    }
    let n = s.len();
    let mut k: usize = 0;
    while k < p.len()
        invariant
            n == s@.len(),
            i + p@.len() <= s@.len(),
            k <= p@.len(),
            i <= s@.len(),
            forall|j: int| 0 <= j < k ==> s@[i + j] == p@[j],
        decreases p@.len() - k,
    {
        if s[i + k] != p[k] {
            assert(s@.subrange(i as int, i + p@.len())[k as int] != p@[k as int]);
            return false;
        }
        k += 1;
    }
    assert(s@.subrange(i as int, i + p@.len()) =~= p@);
    true
}

/// Whether `s` begins with the characters of `p`.
pub fn starts_with(s: &[char], p: &str) -> (r: bool)
    ensures
        r == is_prefix(p@, s@),
{
    let pv = chars_vec(p);
    matches_at(s, &pv, 0)
}

/// Whether `s` ends with the characters of `p`.
pub fn ends_with(s: &[char], p: &str) -> (r: bool)
    ensures
        r == is_suffix(p@, s@),
{
    let pv = chars_vec(p);
    if pv.len() > s.len() {
        false
    } else {
        matches_at(s, &pv, s.len() - pv.len())
    }
}

/// Position of the first occurrence of `p` in `s` at or after `from`.
pub fn find_from(s: &[char], p: &[char], from: usize) -> (r: Option<usize>)
    ensures
        match r {
            Some(i) => from <= i && occurs_at(s@, p@, i as int) && forall|j: int|
                from <= j < i ==> !occurs_at(s@, p@, j),
            None => forall|j: int| from <= j ==> !occurs_at(s@, p@, j),
        },
{
    let mut i = from;
    while i < s.len()
        invariant
            from <= i,
            forall|j: int| from <= j < i ==> !occurs_at(s@, p@, j),
        decreases s@.len() - i,
    {
        if matches_at(s, p, i) {
            return Some(i);
        }
        i += 1;
    }
    if matches_at(s, p, i) {
        return Some(i);
    }
    None
}

/// Position of the first occurrence of `p` in `s` at or after `from`.
pub open spec fn first_match(s: Seq<char>, p: Seq<char>, from: int) -> Option<int>
    decreases s.len() + 1 - from,
{
    if from < 0 || from > s.len() {
        None
    } else if occurs_at(s, p, from) {
        Some(from)
    } else {
        first_match(s, p, from + 1)
    }
}

/// `s` cut at the first occurrence of `p`, the occurrence itself left out
/// (as `str::split_once` does).
pub open spec fn split_once(s: Seq<char>, p: Seq<char>) -> Option<(Seq<char>, Seq<char>)> {
    match first_match(s, p, 0) {
        Some(i) => Some((s.take(i), s.skip(i + p.len()))),
        None => None,
    }
}

pub proof fn lemma_first_match(s: Seq<char>, p: Seq<char>, from: int, r: Option<int>)
    requires
        0 <= from,
        match r {
            Some(i) => from <= i && occurs_at(s, p, i) && forall|j: int|
                from <= j < i ==> !occurs_at(s, p, j),
            None => forall|j: int| from <= j ==> !occurs_at(s, p, j),
        },
    ensures
        first_match(s, p, from) == r,
    decreases s.len() + 1 - from,
{
    if from <= s.len() {
        if r != Some(from) {
            assert(!occurs_at(s, p, from));
            lemma_first_match(s, p, from + 1, r);
        }
    } else {
        if let Some(i) = r {
            assert(!occurs_at(s, p, i));
        }
    }
}

/// Searching the tail of `text` that starts at `from` finds what
/// searching `text` from `from` finds, shifted by `from`.
pub proof fn lemma_first_match_shift(text: Seq<char>, p: Seq<char>, from: int, j: int)
    requires
        0 <= from <= text.len(),
        0 <= j,
    ensures
        first_match(text, p, from + j) == match first_match(text.subrange(from, text.len() as int), p, j) {
            Some(x) => Some(x + from),
            None => None,
        },
    decreases text.len() + 1 - from - j,
{
    let rest = text.subrange(from, text.len() as int);
    if j <= rest.len() {
        assert(occurs_at(rest, p, j) == occurs_at(text, p, from + j)) by {
            if j + p.len() <= rest.len() {
                assert(rest.subrange(j, j + p.len()) == text.subrange(from + j, from + j + p.len()));
            }
        }
        if !occurs_at(rest, p, j) {
            lemma_first_match_shift(text, p, from, j + 1);
        }
    }
}

pub proof fn lemma_first_match_none(s: Seq<char>, p: Seq<char>, from: int)
    requires
        from >= 0,
        first_match(s, p, from) is None,
    ensures
        forall|j: int| from <= j ==> !occurs_at(s, p, j),
    decreases s.len() + 1 - from,
{
    if from <= s.len() {
        lemma_first_match_none(s, p, from + 1);
    }
}

/// No first occurrence means no occurrence at all.
pub proof fn lemma_no_first_match(s: Seq<char>, p: Seq<char>)
    requires
        first_match(s, p, 0) is None,
    ensures
        !contains_sub(s, p),
{
    lemma_first_match_none(s, p, 0);
}

/// Position of the first occurrence of `p` in `s`.
pub fn find_first(s: &[char], p: &[char]) -> (r: Option<usize>)
    ensures
        match r {
            Some(i) => first_match(s@, p@, 0) == Some(i as int) && occurs_at(s@, p@, i as int),
            None => first_match(s@, p@, 0) is None,
        },
{
    let r = find_from(s, p, 0);
    proof {
        lemma_first_match(s@, p@, 0, match r { Some(i) => Some(i as int), None => None });
    }
    r
}

/// Whether `p` occurs anywhere in `s`.
pub fn contains(s: &[char], p: &str) -> (r: bool)
    ensures
        r == contains_sub(s@, p@),
{
    let pv = chars_vec(p);
    match find_from(s, &pv, 0) {
        Some(_) => true,
        None => false,
    }
}


/// `s` with every occurrence of `from` replaced by `to`.
pub open spec fn replace_char(s: Seq<char>, from: char, to: char) -> Seq<char> {
    s.map_values(|c: char| if c == from { to } else { c })
}

/// The part of `s` after the last occurrence of `c` (all of `s` when `c`
/// does not occur).
pub open spec fn after_last(s: Seq<char>, c: char) -> Seq<char>
    decreases s.len(),
{
    if s.len() == 0 {
        s
    } else if s.last() == c {
        Seq::empty()
    } else {
        after_last(s.drop_last(), c).push(s.last())
    }
}

/// `s` with every `from` replaced by `to`.
pub fn replaced(s: &[char], from: char, to: char) -> (r: Vec<char>)
    ensures
        r@ == replace_char(s@, from, to),
{
    let mut r: Vec<char> = Vec::new();
    let mut i: usize = 0;
    while i < s.len()
        invariant
            i <= s@.len(),
            r@ == replace_char(s@.take(i as int), from, to),
        decreases s@.len() - i,
    {
        let c = if s[i] == from { to } else { s[i] };
        r.push(c);
        assert(s@.take(i + 1) == s@.take(i as int).push(s@[i as int]));
        i += 1;
    }
    assert(s@.take(s@.len() as int) == s@);
    r
}

/// Lemma: `after_last` is a suffix that holds no `c`, and follows a `c`
/// or starts the sequence.
pub proof fn lemma_after_last(s: Seq<char>, c: char)
    ensures
        after_last(s, c).len() <= s.len(),
        after_last(s, c) == s.skip(s.len() - after_last(s, c).len()),
        forall|i: int| 0 <= i < after_last(s, c).len() ==> after_last(s, c)[i] != c,
        after_last(s, c).len() < s.len() ==> s[s.len() - after_last(s, c).len() - 1] == c,
    decreases s.len(),
{
    if s.len() == 0 {
    } else if s.last() == c {
        assert(s.skip(s.len() as int) =~= Seq::<char>::empty());
    } else {
        lemma_after_last(s.drop_last(), c);
        let a = after_last(s.drop_last(), c);
        assert(a.push(s.last()) =~= s.skip(s.len() - a.len() - 1));
    }
}

/// The part of `s` after the last `c`.
pub fn tail_after_last(s: &[char], c: char) -> (r: Vec<char>)
    ensures
        r@ == after_last(s@, c),
{
    let mut k: usize = s.len();
    assert(s@.take(k as int) == s@);
    assert(s@.skip(k as int) =~= Seq::<char>::empty());
    while k > 0 && s[k - 1] != c
        invariant
            k <= s@.len(),
            after_last(s@, c) == after_last(s@.take(k as int), c) + s@.skip(k as int),
            forall|j: int| k <= j < s@.len() ==> s@[j] != c,
        decreases k,
    {
        proof {
            let t = s@.take(k as int);
            assert(t.drop_last() == s@.take(k - 1));
            assert(s@.skip(k - 1) == seq![s@[k - 1]] + s@.skip(k as int));
            assert(after_last(t, c) == after_last(t.drop_last(), c).push(t.last()));
            assert(after_last(t.drop_last(), c).push(t.last()) + s@.skip(k as int)
                == after_last(s@.take(k - 1), c) + s@.skip(k - 1));
        }
        k -= 1;
    }
    proof {
        if k > 0 {
            let t = s@.take(k as int);
            assert(t.last() == c);
            assert(after_last(t, c) == Seq::<char>::empty());
            assert(after_last(s@, c) == s@.skip(k as int));
        } else {
            assert(after_last(s@.take(0), c) == Seq::<char>::empty());
        }
    }
    slice_range(s, k, s.len())
}


/// The characters of `s` in positions `a..b`.
pub fn slice_range(s: &[char], a: usize, b: usize) -> (r: Vec<char>)
    requires
        a <= b <= s@.len(),
    ensures
        r@ == s@.subrange(a as int, b as int),
{
    let mut r: Vec<char> = Vec::new();
    let mut i = a;
    while i < b
        invariant
            a <= i <= b <= s@.len(),
            r@ == s@.subrange(a as int, i as int),
        decreases b - i,
    {
        r.push(s[i]);
        assert(s@.subrange(a as int, i + 1) == s@.subrange(a as int, i as int).push(s@[i as int]));
        i += 1;
    }
    r
}


/// Whether two character sequences are equal.
pub fn seq_eq(a: &[char], b: &[char]) -> (r: bool)
    ensures
        r == (a@ == b@),
{
    if a.len() != b.len() {
        return false;
    }
    let r = matches_at(a, b, 0);
    assert(a@.subrange(0, b@.len() as int) == a@);
    r
}

/// Whether the characters of `s` spell exactly `p`.
pub fn eq_lit(s: &[char], p: &str) -> (r: bool)
    ensures
        r == (s@ == p@),
{
    let pv = chars_vec(p);
    seq_eq(s, &pv)
}

/// Whether two strings hold the same text.
pub fn str_eq(a: &str, b: &str) -> (r: bool)
    ensures
        r == (a@ == b@),
{
    let av = chars_vec(a);
    let bv = chars_vec(b);
    seq_eq(&av, &bv)
}


/// The part of `s` after the last `:` or `.` (all of `s` when neither
/// occurs).
pub open spec fn after_last_sep(s: Seq<char>) -> Seq<char>
    decreases s.len(),
{
    if s.len() == 0 {
        s
    } else if s.last() == ':' || s.last() == '.' {
        Seq::empty()
    } else {
        after_last_sep(s.drop_last()).push(s.last())
    }
}

/// The part of `s` after the last `:` or `.`.
pub fn tail_after_sep(s: &[char]) -> (r: Vec<char>)
    ensures
        r@ == after_last_sep(s@),
{
    let mut k: usize = s.len();
    assert(s@.take(k as int) == s@);
    assert(s@.skip(k as int) =~= Seq::<char>::empty());
    while k > 0 && s[k - 1] != ':' && s[k - 1] != '.'
        invariant
            k <= s@.len(),
            after_last_sep(s@) == after_last_sep(s@.take(k as int)) + s@.skip(k as int),
        decreases k,
    {
        proof {
            let t = s@.take(k as int);
            assert(t.drop_last() == s@.take(k - 1));
            assert(s@.skip(k - 1) == seq![s@[k - 1]] + s@.skip(k as int));
            assert(after_last_sep(t) == after_last_sep(t.drop_last()).push(t.last()));
            assert(after_last_sep(t.drop_last()).push(t.last()) + s@.skip(k as int)
                == after_last_sep(s@.take(k - 1)) + s@.skip(k - 1));
        }
        k -= 1;
    }
    proof {
        if k > 0 {
            let t = s@.take(k as int);
            assert(t.last() == ':' || t.last() == '.');
            assert(after_last_sep(t) == Seq::<char>::empty());
            assert(after_last_sep(s@) == s@.skip(k as int));
        } else {
            assert(after_last_sep(s@.take(0)) == Seq::<char>::empty());
        }
    }
    slice_range(s, k, s.len())
}


/// Position of the first `c` in `s` (-1 when there is none).
pub open spec fn first_index_of(s: Seq<char>, c: char) -> int
    decreases s.len(),
{
    if s.len() == 0 {
        -1
    } else if s[0] == c {
        0
    } else if first_index_of(s.drop_first(), c) < 0 {
        -1
    } else {
        first_index_of(s.drop_first(), c) + 1
    }
}

/// `s` without one trailing carriage return.
pub open spec fn strip_cr(s: Seq<char>) -> Seq<char> {
    if s.len() > 0 && s.last() == '\r' {
        s.drop_last()
    } else {
        s
    }
}

/// The lines of `s` as `str::lines` yields them: split after each `\n`,
/// the `\n` (and a `\r` before it) removed; no final empty line.
pub open spec fn lines(s: Seq<char>) -> Seq<Seq<char>>
    decreases s.len(),
{
    if s.len() == 0 {
        Seq::empty()
    } else {
        let i = first_index_of(s, '\n');
        if i < 0 {
            seq![s]
        } else {
            proof {
                lemma_first_index_of(s, '\n');
            }
            seq![strip_cr(s.take(i))] + lines(s.skip(i + 1))
        }
    }
}

/// A text has no more lines than characters.
pub proof fn lemma_lines_len(s: Seq<char>)
    ensures
        lines(s).len() <= s.len(),
    decreases s.len(),
{
    if s.len() > 0 {
        lemma_first_index_of(s, '\n');
        let i = first_index_of(s, '\n');
        if i >= 0 {
            lemma_lines_len(s.skip(i + 1));
        }
    }
}

pub proof fn lemma_first_index_of(s: Seq<char>, c: char)
    ensures
        -1 <= first_index_of(s, c) < s.len(),
        first_index_of(s, c) >= 0 ==> s[first_index_of(s, c)] == c,
        forall|j: int| 0 <= j < s.len() && (first_index_of(s, c) < 0 || j < first_index_of(s, c))
            ==> s[j] != c,
    decreases s.len(),
{
    if s.len() > 0 {
        lemma_first_index_of(s.drop_first(), c);
        assert forall|j: int| 0 <= j < s.len() && (first_index_of(s, c) < 0 || j < first_index_of(s, c))
            implies s[j] != c by {
            if j > 0 {
                assert(s[j] == s.drop_first()[j - 1]);
            }
        }
    }
}

/// Position of the first `c` at or after `from` (the length when none).
pub fn index_of_from(s: &[char], c: char, from: usize) -> (r: usize)
    requires
        from <= s@.len(),
    ensures
        from <= r <= s@.len(),
        r < s@.len() ==> s@[r as int] == c,
        forall|j: int| from <= j < r ==> s@[j] != c,
{
    let mut i = from;
    while i < s.len() && s[i] != c
        invariant
            from <= i <= s@.len(),
            forall|j: int| from <= j < i ==> s@[j] != c,
        decreases s@.len() - i,
    {
        i += 1;
    }
    i
}

proof fn lemma_first_index_skip(s: Seq<char>, c: char, from: int, r: int)
    requires
        0 <= from <= r <= s.len(),
        r < s.len() ==> s[r] == c,
        forall|j: int| from <= j < r ==> s[j] != c,
    ensures
        first_index_of(s.skip(from), c) == if r < s.len() { r - from } else { -1 },
    decreases s.len() - from,
{
    let t = s.skip(from);
    if from == s.len() {
        assert(t.len() == 0);
    } else if from == r {
        assert(t[0] == c);
    } else {
        lemma_first_index_skip(s, c, from + 1, r);
        assert(t.drop_first() == s.skip(from + 1));
        assert(t[0] == s[from]);
    }
}

fn strip_cr_exec(v: Vec<char>) -> (r: Vec<char>)
    ensures
        r@ == strip_cr(v@),
{
    let mut v = v;
    if v.len() > 0 && v[v.len() - 1] == '\r' {
        v.pop();
    }
    v
}

/// The lines of `s`, as `str::lines` yields them.
pub fn lines_of(s: &[char]) -> (r: Vec<Vec<char>>)
    ensures
        r@.len() == lines(s@).len(),
        forall|k: int| 0 <= k < r@.len() ==> (#[trigger] r@[k])@ == lines(s@)[k],
{
    let mut r: Vec<Vec<char>> = Vec::new();
    let mut pos: usize = 0;
    assert(s@.skip(0) == s@);
    while pos < s.len()
        invariant
            pos <= s@.len(),
            r@.len() + lines(s@.skip(pos as int)).len() == lines(s@).len(),
            forall|k: int| 0 <= k < r@.len() ==> (#[trigger] r@[k])@ == lines(s@)[k],
            forall|k: int| 0 <= k < lines(s@.skip(pos as int)).len() ==>
                lines(s@)[r@.len() + k] == #[trigger] lines(s@.skip(pos as int))[k],
        decreases s@.len() - pos,
    {
        let e = index_of_from(s, '\n', pos);
        let ghost t = s@.skip(pos as int);
        proof {
            lemma_first_index_skip(s@, '\n', pos as int, e as int);
        }
        let line = slice_range(s, pos, e);
        assert(line@ == t.take(e - pos));
        if e < s.len() {
            let l = strip_cr_exec(line);
            let ghost rest = lines(t.skip(e - pos + 1));
            assert(t.skip(e - pos + 1) == s@.skip(e + 1));
            assert(lines(t) == seq![strip_cr(t.take(e - pos))] + rest);
            assert(lines(t)[0] == l@);
            assert forall|k: int| 0 <= k < rest.len() implies
                lines(s@)[r@.len() + 1 + k] == #[trigger] rest[k] by {
                assert(lines(t)[k + 1] == rest[k]);
            }
            r.push(l);
            pos = e + 1;
        } else {
            assert(lines(t) == seq![t]);
            assert(t.take(e - pos) == t);
            assert(lines(t)[0] == line@);
            r.push(line);
            pos = s.len();
            assert(s@.skip(pos as int).len() == 0);
        }
    }
    r
}


/// The characters with the Unicode `White_Space` property, the set that
/// `char::is_whitespace` (and so `str::trim` and `str::split_whitespace`)
/// tests against.
pub open spec fn is_ws(c: char) -> bool {
    ||| '\u{9}' <= c && c <= '\u{d}'
    ||| c == ' '
    ||| c == '\u{85}'
    ||| c == '\u{a0}'
    ||| c == '\u{1680}'
    ||| '\u{2000}' <= c && c <= '\u{200a}'
    ||| c == '\u{2028}'
    ||| c == '\u{2029}'
    ||| c == '\u{202f}'
    ||| c == '\u{205f}'
    ||| c == '\u{3000}'
}

/// Whether `c` is whitespace in the sense of `char::is_whitespace`.
pub fn is_whitespace(c: char) -> (r: bool)
    ensures
        r == is_ws(c),
{
    ('\u{9}' <= c && c <= '\u{d}') || c == ' ' || c == '\u{85}' || c == '\u{a0}'
        || c == '\u{1680}' || ('\u{2000}' <= c && c <= '\u{200a}') || c == '\u{2028}'
        || c == '\u{2029}' || c == '\u{202f}' || c == '\u{205f}' || c == '\u{3000}'
}

/// `s` without leading whitespace (`str::trim_start`).
pub open spec fn trim_start(s: Seq<char>) -> Seq<char>
    decreases s.len(),
{
    if s.len() > 0 && is_ws(s[0]) {
        trim_start(s.drop_first())
    } else {
        s
    }
}

/// `s` without trailing whitespace (`str::trim_end`).
pub open spec fn trim_end(s: Seq<char>) -> Seq<char>
    decreases s.len(),
{
    if s.len() > 0 && is_ws(s.last()) {
        trim_end(s.drop_last())
    } else {
        s
    }
}

/// `s` without leading and trailing whitespace (`str::trim`).
pub open spec fn trim(s: Seq<char>) -> Seq<char> {
    trim_start(trim_end(s))
}

proof fn lemma_trim_start_skip(s: Seq<char>, k: int)
    requires
        0 <= k <= s.len(),
        forall|j: int| 0 <= j < k ==> is_ws(s[j]),
        k < s.len() ==> !is_ws(s[k]),
    ensures
        trim_start(s) == s.skip(k),
    decreases k,
{
    if k > 0 {
        lemma_trim_start_skip(s.drop_first(), k - 1);
        assert(s.drop_first().skip(k - 1) == s.skip(k));
    } else {
        assert(s.skip(0) == s);
    }
}

proof fn lemma_trim_end_take(s: Seq<char>, k: int)
    requires
        0 <= k <= s.len(),
        forall|j: int| k <= j < s.len() ==> is_ws(s[j]),
        k > 0 ==> !is_ws(s[k - 1]),
    ensures
        trim_end(s) == s.take(k),
    decreases s.len() - k,
{
    if k < s.len() {
        lemma_trim_end_take(s.drop_last(), k);
        assert(s.drop_last().take(k) == s.take(k));
    } else {
        assert(s.take(k) == s);
    }
}

/// `s` without leading whitespace.
pub fn trim_start_chars(s: &[char]) -> (r: Vec<char>)
    ensures
        r@ == trim_start(s@),
{
    let mut k: usize = 0;
    while k < s.len() && is_whitespace(s[k])
        invariant
            k <= s@.len(),
            forall|j: int| 0 <= j < k ==> is_ws(s@[j]),
        decreases s@.len() - k,
    {
        k += 1;
    }
    proof {
        lemma_trim_start_skip(s@, k as int);
    }
    slice_range(s, k, s.len())
}

/// `s` without trailing whitespace.
pub fn trim_end_chars(s: &[char]) -> (r: Vec<char>)
    ensures
        r@ == trim_end(s@),
{
    let mut k: usize = s.len();
    while k > 0 && is_whitespace(s[k - 1])
        invariant
            k <= s@.len(),
            forall|j: int| k <= j < s@.len() ==> is_ws(s@[j]),
        decreases k,
    {
        k -= 1;
    }
    proof {
        lemma_trim_end_take(s@, k as int);
    }
    slice_range(s, 0, k)
}

/// `s` without leading and trailing whitespace.
pub fn trim_chars(s: &[char]) -> (r: Vec<char>)
    ensures
        r@ == trim(s@),
{
    let e = trim_end_chars(s);
    trim_start_chars(&e)
}

/// The maximal runs of non-whitespace characters of `s`, in order
/// (`str::split_whitespace`).
pub open spec fn words(s: Seq<char>) -> Seq<Seq<char>>
    decreases s.len(),
{
    if s.len() == 0 {
        Seq::empty()
    } else {
        let w = words(s.drop_last());
        let c = s.last();
        if is_ws(c) {
            w
        } else if s.len() >= 2 && !is_ws(s[s.len() - 2]) && w.len() > 0 {
            w.drop_last().push(w.last().push(c))
        } else {
            w.push(seq![c])
        }
    }
}

/// The whitespace-separated words of `s`.
pub fn words_of(s: &[char]) -> (r: Vec<Vec<char>>)
    ensures
        r@.len() == words(s@).len(),
        forall|k: int| 0 <= k < r@.len() ==> (#[trigger] r@[k])@ == words(s@)[k],
{
    let mut out: Vec<Vec<char>> = Vec::new();
    let mut cur: Vec<char> = Vec::new();
    let mut in_word = false;
    let mut i: usize = 0;
    while i < s.len()
        invariant
            i <= s@.len(),
            in_word == (i > 0 && !is_ws(s@[i - 1])),
            in_word ==> out@.len() + 1 == words(s@.take(i as int)).len()
                && cur@ == words(s@.take(i as int)).last(),
            !in_word ==> out@.len() == words(s@.take(i as int)).len(),
            forall|k: int| 0 <= k < out@.len() ==> (#[trigger] out@[k])@ == words(s@.take(i as int))[k],
        decreases s@.len() - i,
    {
        let c = s[i];
        let ghost t = s@.take(i + 1);
        assert(t.drop_last() == s@.take(i as int));
        assert(t.last() == c);
        if is_whitespace(c) {
            if in_word {
                out.push(cur);
                cur = Vec::new();
            }
            in_word = false;
        } else {
            if in_word {
                assert(t[t.len() - 2] == s@[i - 1]);
                cur.push(c);
            } else {
                if i > 0 {
                    assert(t[t.len() - 2] == s@[i - 1]);
                }
                cur = Vec::new();
                cur.push(c);
                assert(cur@ == seq![c]);
            }
            in_word = true;
        }
        i += 1;
    }
    assert(s@.take(s@.len() as int) == s@);
    if in_word {
        out.push(cur);
    }
    out
}


/// Lexicographic order of character sequences by code point, the order
/// `str`'s `Ord` gives (UTF-8 encoding preserves code-point order).
pub open spec fn seq_lt(a: Seq<char>, b: Seq<char>) -> bool
    decreases a.len(),
{
    if a.len() == 0 {
        b.len() > 0
    } else if b.len() == 0 {
        false
    } else if a[0] != b[0] {
        a[0] < b[0]
    } else {
        seq_lt(a.drop_first(), b.drop_first())
    }
}

pub proof fn lemma_seq_lt_irreflexive(a: Seq<char>)
    ensures
        !seq_lt(a, a),
    decreases a.len(),
{
    if a.len() > 0 {
        lemma_seq_lt_irreflexive(a.drop_first());
    }
}

pub proof fn lemma_seq_lt_total(a: Seq<char>, b: Seq<char>)
    ensures
        a != b ==> seq_lt(a, b) || seq_lt(b, a),
        !(seq_lt(a, b) && seq_lt(b, a)),
    decreases a.len(),
{
    if a.len() > 0 && b.len() > 0 {
        lemma_seq_lt_total(a.drop_first(), b.drop_first());
        if a[0] == b[0] && a != b {
            assert(a == seq![a[0]] + a.drop_first());
            assert(b == seq![b[0]] + b.drop_first());
        }
    } else if a.len() == 0 && b.len() == 0 {
        assert(a == b);
    }
}

pub proof fn lemma_seq_lt_transitive(a: Seq<char>, b: Seq<char>, c: Seq<char>)
    requires
        seq_lt(a, b),
        seq_lt(b, c),
    ensures
        seq_lt(a, c),
    decreases a.len(),
{
    if a.len() > 0 && b.len() > 0 && c.len() > 0 {
        if a[0] == b[0] && b[0] == c[0] {
            lemma_seq_lt_transitive(a.drop_first(), b.drop_first(), c.drop_first());
        }
    }
}

/// `a < b` in `str` order.
pub fn chars_lt(a: &[char], b: &[char]) -> (r: bool)
    ensures
        r == seq_lt(a@, b@),
{
    let mut i: usize = 0;
    assert(a@.skip(0) == a@);
    assert(b@.skip(0) == b@);
    while i < a.len() && i < b.len() && a[i] == b[i]
        invariant
            i <= a@.len(),
            i <= b@.len(),
            seq_lt(a@, b@) == seq_lt(a@.skip(i as int), b@.skip(i as int)),
        decreases a@.len() - i,
    {
        assert(a@.skip(i as int).drop_first() == a@.skip(i + 1));
        assert(b@.skip(i as int).drop_first() == b@.skip(i + 1));
        i += 1;
    }
    if i == a.len() {
        i < b.len()
    } else if i == b.len() {
        false
    } else {
        assert(a@.skip(i as int)[0] == a@[i as int]);
        assert(b@.skip(i as int)[0] == b@[i as int]);
        a[i] < b[i]
    }
}

/// Strictly increasing in `str` order (so without repetition).
pub open spec fn strictly_sorted(s: Seq<Seq<char>>) -> bool {
    forall|i: int, j: int| 0 <= i < j < s.len() ==> seq_lt(#[trigger] s[i], #[trigger] s[j])
}

pub open spec fn string_views(v: Seq<String>) -> Seq<Seq<char>> {
    v.map_values(|s: String| s@)
}

/// `x` put into the sorted list `s` before the first element not below
/// it, unless it is there already.
pub open spec fn sorted_insert(s: Seq<Seq<char>>, x: Seq<char>) -> Seq<Seq<char>>
    decreases s.len(),
{
    if s.len() == 0 {
        seq![x]
    } else if s[0] == x {
        s
    } else if seq_lt(x, s[0]) {
        seq![x] + s
    } else {
        seq![s[0]] + sorted_insert(s.drop_first(), x)
    }
}

/// The distinct elements of `s`, sorted.
pub open spec fn sorted_distinct(s: Seq<Seq<char>>) -> Seq<Seq<char>>
    decreases s.len(),
{
    if s.len() == 0 {
        Seq::empty()
    } else {
        sorted_insert(sorted_distinct(s.drop_last()), s.last())
    }
}

proof fn lemma_sorted_insert_at(s: Seq<Seq<char>>, x: Seq<char>, p: int)
    requires
        0 <= p <= s.len(),
        forall|k: int| 0 <= k < p ==> seq_lt(#[trigger] s[k], x),
        p < s.len() ==> !seq_lt(s[p], x),
    ensures
        sorted_insert(s, x) == if p < s.len() && s[p] == x {
            s
        } else {
            s.insert(p, x)
        },
    decreases p,
{
    if p == 0 {
        if s.len() > 0 {
            lemma_seq_lt_total(s[0], x);
        }
    } else {
        lemma_seq_lt_irreflexive(x);
        lemma_seq_lt_total(s[0], x);
        assert(s[0] != x);
        assert forall|k: int| 0 <= k < p - 1 implies seq_lt(#[trigger] s.drop_first()[k], x) by {
            assert(s.drop_first()[k] == s[k + 1]);
        }
        lemma_sorted_insert_at(s.drop_first(), x, p - 1);
        if p < s.len() && s[p] == x {
            assert(seq![s[0]] + s.drop_first() == s);
        } else {
            assert(seq![s[0]] + s.drop_first().insert(p - 1, x) == s.insert(p, x));
        }
    }
}

/// Add `x` to a strictly sorted list of strings unless it is there
/// already (what `BTreeSet::insert` does to the set's contents).
pub fn insert_sorted(v: &mut Vec<String>, x: String)
    requires
        strictly_sorted(string_views(old(v)@)),
    ensures
        string_views(final(v)@) == sorted_insert(string_views(old(v)@), x@),
        strictly_sorted(string_views(final(v)@)),
        string_views(final(v)@).to_set() == string_views(old(v)@).to_set().insert(x@),
{
    let ghost s0 = string_views(v@);
    let xc = chars_vec(x.as_str());
    let mut p: usize = 0;
    while p < v.len() && chars_lt(&chars_vec(v[p].as_str()), &xc)
        invariant
            p <= v@.len(),
            s0 == string_views(v@),
            strictly_sorted(s0),
            xc@ == x@,
            forall|k: int| 0 <= k < p ==> seq_lt(#[trigger] s0[k], x@),
        decreases v@.len() - p,
    {
        p += 1;
    }
    proof {
        lemma_sorted_insert_at(s0, x@, p as int);
    }
    if p < v.len() && str_eq(v[p].as_str(), x.as_str()) {
        assert(s0.to_set().insert(x@) == s0.to_set()) by {
            assert(s0[p as int] == x@);
            assert(s0.to_set().contains(x@));
        }
        return;
    }
    proof {
        if p < s0.len() {
            lemma_seq_lt_total(s0[p as int], x@);
        }
    }
    v.insert(p, x);
    let ghost s1 = string_views(v@);
    assert(s1 == s0.insert(p as int, x@));
    assert forall|i: int, j: int| 0 <= i < j < s1.len() implies seq_lt(#[trigger] s1[i], #[trigger] s1[j]) by {
        if j < p {
        } else if j == p {
        } else if i < p {
            assert(seq_lt(s0[i], x@));
            assert(seq_lt(x@, s0[p as int]));
            if j - 1 > p {
                lemma_seq_lt_transitive(x@, s0[p as int], s0[j - 1]);
            }
            lemma_seq_lt_transitive(s0[i], x@, s0[j - 1]);
        } else if i == p {
            if j - 1 > p {
                lemma_seq_lt_transitive(x@, s0[p as int], s0[j - 1]);
            }
        } else {
        }
    }
    assert(s1.to_set() == s0.to_set().insert(x@)) by {
        assert forall|e: Seq<char>| s1.to_set().contains(e) <==> s0.to_set().insert(x@).contains(e) by {
            if s1.to_set().contains(e) {
                let k = choose|k: int| 0 <= k < s1.len() && s1[k] == e;
                if k < p {
                    assert(s0[k] == e);
                } else if k > p {
                    assert(s0[k - 1] == e);
                }
            }
            if s0.to_set().contains(e) {
                let k = choose|k: int| 0 <= k < s0.len() && s0[k] == e;
                if k < p {
                    assert(s1[k] == e);
                } else {
                    assert(s1[k + 1] == e);
                }
            }
            if e == x@ {
                assert(s1[p as int] == e);
            }
        }
    }
}


/// Lines `start..=end` (1-based) of `ls`, as far as they exist: the first
/// `start - 1` are skipped (none when `start` is 0) and at most
/// `end - (start - 1)` are kept.
pub open spec fn line_window(ls: Seq<Seq<char>>, start: nat, end: nat) -> Seq<Seq<char>> {
    let skip: int = if start == 0 { 0 } else { start - 1 };
    let take: int = if end >= skip { end - skip } else { 0 };
    let a: int = if skip <= ls.len() { skip } else { ls.len() as int };
    let b: int = if a + take <= ls.len() { a + take } else { ls.len() as int };
    ls.subrange(a, b)
}

/// Lines `start..=end` (1-based) of `source` (see `line_window`).
pub fn lines_window(source: &str, start: usize, end: usize) -> (r: Vec<Vec<char>>)
    ensures
        r@.len() == line_window(lines(source@), start as nat, end as nat).len(),
        forall|k: int| 0 <= k < r@.len() ==> (#[trigger] r@[k])@ == line_window(lines(source@), start as nat, end as nat)[k],
{
    let text = chars_vec(source);
    let ls = lines_of(&text);
    let skip: usize = if start == 0 { 0 } else { start - 1 };
    let take: usize = if end >= skip { end - skip } else { 0 };
    let a: usize = if skip <= ls.len() { skip } else { ls.len() };
    let b: usize = if take <= ls.len() - a { a + take } else { ls.len() };
    let mut part: Vec<Vec<char>> = Vec::new();
    let mut i = a;
    while i < b
        invariant
            a <= i <= b <= ls@.len(),
            part@.len() == i - a,
            forall|k: int| 0 <= k < part@.len() ==> (#[trigger] part@[k])@ == ls@[a + k]@,
        decreases b - i,
    {
        part.push(ls[i].clone());
        i += 1;
    }
    part
}

} // verus!
