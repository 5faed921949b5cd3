//! The three entity hashes: `struct_hash` (raw text), `body_hash`
//! (normalised body) and `sig_hash` (normalised signature), each the
//! first 16 hex digits of a BLAKE3 digest.

use vstd::prelude::*;
use vstd::utf8::encode_utf8;
use crate::cache::{blake3_hex, hash_file_contents, is_lower_hex};
use crate::fmt::{join, push_joined, views};
use crate::text::{
    chars_vec, eq_lit, index_of_from, is_prefix, line_window, lines, lines_window, matches_at,
    occurs_at, slice_range, starts_with, string_from, trim, trim_chars, trim_start,
    trim_start_chars, words, words_of,
};

verus! {

broadcast use vstd::string::group_string_axioms;

/// The first 16 hex digits of the BLAKE3 digest of `bytes`.
pub open spec fn short_hash(bytes: Seq<u8>) -> Seq<char> {
    blake3_hex(bytes).take(16)
}

fn short_hash_of(bytes: &[u8]) -> (r: String)
    ensures
        r@ == short_hash(bytes@),
        r@.len() == 16,
        forall|i: int| 0 <= i < 16 ==> is_lower_hex(#[trigger] r@[i]),
{
    let full = hash_file_contents(bytes);
    let cs = chars_vec(full.as_str());
    let head = slice_range(&cs, 0, 16);
    assert(head@ == blake3_hex(bytes@).take(16));
    string_from(&head)
}

fn short_hash_of_text(text: &Vec<char>) -> (r: String)
    ensures
        r@ == short_hash(encode_utf8(text@)),
        r@.len() == 16,
{
    let s = string_from(text);
    let b = s.as_str().as_bytes();
    short_hash_of(b)
}

/// BLAKE3 of the raw entity text, first 16 hex digits.
pub fn struct_hash(raw_bytes: &[u8]) -> (r: String)
    ensures
        r@ == short_hash(raw_bytes@),
        r@.len() == 16,
        forall|i: int| 0 <= i < 16 ==> is_lower_hex(#[trigger] r@[i]),
{
    short_hash_of(raw_bytes)
}

/// Index of the first `\n` at or after `from` (`s.len()` when none).
pub open spec fn next_newline(s: Seq<char>, from: int) -> int
    decreases s.len() - from,
{
    if from < 0 || from >= s.len() {
        s.len() as int
    } else if s[from] == '\n' {
        from
    } else {
        next_newline(s, from + 1)
    }
}

proof fn lemma_next_newline(s: Seq<char>, from: int, r: int)
    requires
        0 <= from <= r <= s.len(),
        r < s.len() ==> s[r] == '\n',
        forall|j: int| from <= j < r ==> s[j] != '\n',
    ensures
        next_newline(s, from) == r,
    decreases r - from,
{
    if from < r {
        lemma_next_newline(s, from + 1, r);
    }
}

/// Walk the `\n`-separated pieces of `s` from the one at `pos` (piece
/// number `num`): the start of piece `line_start` (else `start`) and the
/// end of piece `line_end`, where the walk stops (else the end of `s`).
pub open spec fn raw_bounds(s: Seq<char>, line_start: int, line_end: int, pos: int, num: int, start: int) -> (int, int)
    decreases s.len() + 1 - pos,
{
    if pos < 0 || pos > s.len() {
        (start, s.len() as int)
    } else {
        let e = next_newline(s, pos);
        let start2 = if num == line_start { pos } else { start };
        if num == line_end {
            (start2, e)
        } else {
            proof {
                lemma_next_newline_bounds(s, pos);
            }
            raw_bounds(s, line_start, line_end, e + 1, num + 1, start2)
        }
    }
}

pub proof fn lemma_next_newline_bounds(s: Seq<char>, from: int)
    requires
        0 <= from <= s.len(),
    ensures
        from <= next_newline(s, from) <= s.len(),
    decreases s.len() - from,
{
    if from < s.len() && s[from] != '\n' {
        lemma_next_newline_bounds(s, from + 1);
    }
}

/// The raw text of lines `line_start..=line_end` (1-based) of `source`,
/// newlines between them included but not the one after the last; lines
/// count as the pieces between `\n`s.
pub open spec fn raw_text(source: Seq<char>, line_start: int, line_end: int) -> Seq<char> {
    let (a, b) = raw_bounds(source, line_start, line_end, 0, 1, 0);
    source.subrange(a, b)
}

proof fn lemma_raw_bounds_ordered(s: Seq<char>, line_start: int, line_end: int, pos: int, num: int, start: int)
    requires
        0 <= start <= pos,
        start <= s.len(),
        pos <= s.len() + 1,
    ensures
        0 <= raw_bounds(s, line_start, line_end, pos, num, start).0 <= raw_bounds(
            s,
            line_start,
            line_end,
            pos,
            num,
            start,
        ).1 <= s.len(),
    decreases s.len() + 1 - pos,
{
    if pos <= s.len() {
        lemma_next_newline_bounds(s, pos);
        let e = next_newline(s, pos);
        let start2 = if num == line_start { pos } else { start };
        if num != line_end {
            lemma_raw_bounds_ordered(s, line_start, line_end, e + 1, num + 1, start2);
        }
    }
}

/// The `\n`-separated pieces of `s` from `pos` on, `pos` starting a piece
/// (as `str::split('\n')` gives them).
pub open spec fn pieces_from(s: Seq<char>, pos: int) -> Seq<Seq<char>>
    decreases s.len() + 1 - pos,
{
    if pos < 0 || pos > s.len() {
        Seq::empty()
    } else {
        let e = next_newline(s, pos);
        proof {
            lemma_next_newline_bounds(s, pos);
        }
        if e >= s.len() {
            seq![s.subrange(pos, s.len() as int)]
        } else {
            seq![s.subrange(pos, e)] + pieces_from(s, e + 1)
        }
    }
}

/// The `\n`-separated pieces of `s`.
pub open spec fn pieces(s: Seq<char>) -> Seq<Seq<char>> {
    pieces_from(s, 0)
}

/// Start of the `k`-th piece from `pos`.
pub open spec fn piece_start(s: Seq<char>, pos: int, k: int) -> int
    decreases k,
{
    if k <= 0 {
        pos
    } else {
        piece_start(s, next_newline(s, pos) + 1, k - 1)
    }
}

/// End of the `k`-th piece from `pos`.
pub open spec fn piece_end(s: Seq<char>, pos: int, k: int) -> int
    decreases k,
{
    if k <= 0 {
        next_newline(s, pos)
    } else {
        piece_end(s, next_newline(s, pos) + 1, k - 1)
    }
}

proof fn lemma_raw_bounds_pieces(s: Seq<char>, ls: int, le: int, pos: int, num: int, start: int)
    requires
        0 <= pos <= s.len(),
        1 <= num <= le,
        ls <= le,
        le - num < pieces_from(s, pos).len(),
    ensures
        raw_bounds(s, ls, le, pos, num, start) == (
            if ls < num { start } else { piece_start(s, pos, ls - num) },
            piece_end(s, pos, le - num),
        ),
    decreases s.len() + 1 - pos,
{
    lemma_next_newline_bounds(s, pos);
    let e = next_newline(s, pos);
    let start2 = if num == ls { pos } else { start };
    if num != le {
        assert(e < s.len());
        lemma_raw_bounds_pieces(s, ls, le, e + 1, num + 1, start2);
    }
}

proof fn lemma_join_cons(a: Seq<char>, rest: Seq<Seq<char>>, sep: Seq<char>)
    requires
        rest.len() > 0,
    ensures
        join(seq![a] + rest, sep) == a + sep + join(rest, sep),
    decreases rest.len(),
{
    let all = seq![a] + rest;
    if rest.len() == 1 {
        assert(all.drop_last() =~= seq![a]);
        assert(join(seq![a], sep) == a);
        assert(join(rest, sep) == rest[0]);
        assert(all.last() == rest[0]);
        assert(join(all, sep) == join(all.drop_last(), sep) + sep + all.last());
    } else {
        lemma_join_cons(a, rest.drop_last(), sep);
        assert(all.drop_last() =~= seq![a] + rest.drop_last());
        assert(all.last() == rest.last());
        assert(join(all, sep) == join(all.drop_last(), sep) + sep + all.last());
        assert(join(rest, sep) == join(rest.drop_last(), sep) + sep + rest.last());
        assert(join(all, sep) =~= a + sep + join(rest, sep));
    }
}

proof fn lemma_piece_text(s: Seq<char>, pos: int, k1: int, k2: int)
    requires
        0 <= pos <= s.len(),
        0 <= k1 <= k2 < pieces_from(s, pos).len(),
    ensures
        pos <= piece_start(s, pos, k1) <= piece_end(s, pos, k2) <= s.len(),
        s.subrange(piece_start(s, pos, k1), piece_end(s, pos, k2)) == crate::fmt::join(
            pieces_from(s, pos).subrange(k1, k2 + 1),
            "\n"@,
        ),
    decreases s.len() + 1 - pos,
{
    lemma_next_newline_bounds(s, pos);
    let e = next_newline(s, pos);
    let ps = pieces_from(s, pos);
    if e >= s.len() {
        assert(ps.len() == 1);
        assert(ps.subrange(0, 1) =~= seq![s.subrange(pos, s.len() as int)]);
    } else {
        let rest = pieces_from(s, e + 1);
        assert(ps == seq![s.subrange(pos, e)] + rest);
        if k1 > 0 {
            lemma_piece_text(s, e + 1, k1 - 1, k2 - 1);
            assert(ps.subrange(k1, k2 + 1) =~= rest.subrange(k1 - 1, k2));
        } else if k2 == 0 {
            assert(ps.subrange(0, 1) =~= seq![s.subrange(pos, e)]);
        } else {
            lemma_piece_text(s, e + 1, 0, k2 - 1);
            let tail = rest.subrange(0, k2);
            assert(ps.subrange(0, k2 + 1) =~= seq![s.subrange(pos, e)] + tail);
            lemma_join_cons(s.subrange(pos, e), tail, "\n"@);
            reveal_strlit("\n");
            assert(s[e] == '\n') by {
                lemma_next_newline_at(s, pos);
            }
            assert(s.subrange(pos, piece_end(s, pos, k2)) =~= s.subrange(pos, e) + "\n"@ + s.subrange(
                e + 1,
                piece_end(s, e + 1, k2 - 1),
            ));
        }
    }
}

proof fn lemma_next_newline_at(s: Seq<char>, from: int)
    requires
        0 <= from <= s.len(),
        next_newline(s, from) < s.len(),
    ensures
        s[next_newline(s, from)] == '\n',
    decreases s.len() - from,
{
    if from < s.len() && s[from] != '\n' {
        lemma_next_newline_at(s, from + 1);
    }
}

/// Raw entity text is a contiguous piece of the source, for any line
/// numbers.
pub proof fn law_raw_text_is_a_slice(s: Seq<char>, line_start: int, line_end: int)
    ensures
        exists|a: int, b: int| 0 <= a <= b <= s.len() && raw_text(s, line_start, line_end) == s.subrange(a, b),
{
    lemma_raw_bounds_ordered(s, line_start, line_end, 0, 1, 0);
    let (a, b) = raw_bounds(s, line_start, line_end, 0, 1, 0);
    assert(raw_text(s, line_start, line_end) == s.subrange(a, b));
}

/// Law of raw entity text: lines `line_start..=line_end` of a source, when
/// the source has that many `\n`-separated pieces, are those pieces joined
/// with `\n`, exactly as `split('\n')` gives them.
pub proof fn law_raw_text_is_the_split_lines(s: Seq<char>, line_start: int, line_end: int)
    requires
        1 <= line_start <= line_end <= pieces(s).len(),
    ensures
        raw_text(s, line_start, line_end) == crate::fmt::join(
            pieces(s).subrange(line_start - 1, line_end),
            "\n"@,
        ),
{
    lemma_raw_bounds_pieces(s, line_start, line_end, 0, 1, 0);
    lemma_piece_text(s, 0, line_start - 1, line_end - 1);
}

/// `a` is a prefix of `b`.
pub open spec fn is_prefix_of_lines(a: Seq<Seq<char>>, b: Seq<Seq<char>>) -> bool {
    a.len() <= b.len() && forall|k: int| 0 <= k < a.len() ==> #[trigger] a[k] == b[k]
}

proof fn lemma_lines_prefix_of_pieces(s: Seq<char>, p: int)
    requires
        0 <= p <= s.len(),
        !s.contains('\r'),
    ensures
        is_prefix_of_lines(crate::text::lines(s.skip(p)), pieces_from(s, p)),
    decreases s.len() - p,
{
    let t = s.skip(p);
    if t.len() > 0 {
        crate::text::lemma_first_index_of(t, '\n');
        let i = crate::text::first_index_of(t, '\n');
        lemma_next_newline_bounds(s, p);
        if i < 0 {
            assert forall|j: int| p <= j < s.len() implies s[j] != '\n' by {
                assert(s[j] == t[j - p]);
            }
            lemma_next_newline(s, p, s.len() as int);
            assert(t =~= s.subrange(p, s.len() as int));
            assert(crate::text::lines(t) == seq![t]);
        } else {
            assert forall|j: int| p <= j < p + i implies s[j] != '\n' by {
                assert(s[j] == t[j - p]);
            }
            assert(s[p + i] == t[i]);
            lemma_next_newline(s, p, p + i);
            let head = t.take(i);
            assert(crate::text::strip_cr(head) == head) by {
                if head.len() > 0 && head.last() == '\r' {
                    assert(s[p + i - 1] == head.last());
                    assert(s.contains('\r'));
                }
            }
            assert(head =~= s.subrange(p, p + i));
            assert(t.skip(i + 1) =~= s.skip(p + i + 1));
            lemma_lines_prefix_of_pieces(s, p + i + 1);
            let l = crate::text::lines(t);
            let ps = pieces_from(s, p);
            let lr = crate::text::lines(s.skip(p + i + 1));
            let pr = pieces_from(s, p + i + 1);
            assert(l == seq![head] + lr);
            assert(ps == seq![head] + pr);
            assert forall|k: int| 0 <= k < l.len() implies #[trigger] l[k] == ps[k] by {
                if k > 0 {
                    assert(l[k] == lr[k - 1] && ps[k] == pr[k - 1]);
                }
            }
        }
    }
}

/// Law of entity text: in a source without carriage returns, lines
/// `line_start..=line_end` that exist read the same through
/// `extract_entity_text` (the source's lines joined) and
/// `extract_raw_bytes` (the raw span).
pub proof fn law_entity_text_is_raw_text(s: Seq<char>, line_start: int, line_end: int)
    requires
        !s.contains('\r'),
        1 <= line_start <= line_end <= crate::text::lines(s).len(),
    ensures
        crate::inline_diff::entity_text(s, line_start as nat, line_end as nat) == raw_text(s, line_start, line_end),
{
    lemma_lines_prefix_of_pieces(s, 0);
    assert(s.skip(0) =~= s);
    let ls = crate::text::lines(s);
    let ps = pieces(s);
    assert(crate::text::line_window(ls, line_start as nat, line_end as nat) =~= ps.subrange(line_start - 1, line_end));
    law_raw_text_is_the_split_lines(s, line_start, line_end);
}

/// The raw text of an entity: lines `line_start..=line_end` (1-based) of
/// `source` exactly as they stand, without the newline after the last.
pub fn extract_raw_bytes(source: &str, line_start: usize, line_end: usize) -> (r: String)
    requires
        source@.len() + 1 < usize::MAX,
    ensures
        r@ == raw_text(source@, line_start as int, line_end as int),
{
    let s = chars_vec(source);
    let mut pos: usize = 0;
    let mut num: usize = 1;
    let mut start: usize = 0;
    let mut end: usize = s.len();
    let mut done = false;
    proof {
        lemma_raw_bounds_ordered(s@, line_start as int, line_end as int, 0, 1, 0);
    }
    while !done && pos <= s.len()
        invariant
            s@ == source@,
            s@.len() + 1 < usize::MAX,
            start <= pos <= s@.len() + 1,
            start <= s@.len(),
            num <= pos + 1,
            done ==> raw_bounds(s@, line_start as int, line_end as int, 0, 1, 0) == (start as int, end as int),
            !done ==> raw_bounds(s@, line_start as int, line_end as int, 0, 1, 0) == raw_bounds(
                s@,
                line_start as int,
                line_end as int,
                pos as int,
                num as int,
                start as int,
            ),
        decreases s@.len() + 2 - pos - if done { 1int } else { 0int },
    {
        let e = index_of_from(&s, '\n', pos);
        proof {
            lemma_next_newline(s@, pos as int, e as int);
        }
        if num == line_start {
            start = pos;
        }
        if num == line_end {
            end = e;
            done = true;
        } else {
            pos = e + 1;
            num = num + 1;
        }
    }
    proof {
        lemma_raw_bounds_ordered(s@, line_start as int, line_end as int, 0, 1, 0);
    }
    if !done {
        end = s.len();
    }
    let r = slice_range(&s, start, end);
    string_from(&r)
}

/// A line that is only a comment or a docstring quote: after trimming it
/// starts with `//`, `#`, `/*`, `*` or `*/`, or is `"""` or `'''`.
pub open spec fn is_comment_only_text(line: Seq<char>) -> bool {
    let t = trim(line);
    is_prefix("//"@, t) || is_prefix("#"@, t) || is_prefix("/*"@, t) || is_prefix("*"@, t)
        || is_prefix("*/"@, t) || t == "\"\"\""@ || t == "'''"@
}

pub fn is_comment_only(line: &[char]) -> (r: bool)
    ensures
        r == is_comment_only_text(line@),
{
    let t = trim_chars(line);
    starts_with(&t, "//") || starts_with(&t, "#") || starts_with(&t, "/*") || starts_with(&t, "*")
        || starts_with(&t, "*/") || eq_lit(&t, "\"\"\"") || eq_lit(&t, "'''")
}

/// Non-overlapping occurrences of `p` in `s`, scanning left to right
/// (`str::matches(p).count()`), for a non-empty `p`.
pub open spec fn match_count(s: Seq<char>, p: Seq<char>) -> nat
    decreases s.len(),
{
    if s.len() == 0 || p.len() == 0 {
        0
    } else if occurs_at(s, p, 0) {
        1 + match_count(s.skip(p.len() as int), p)
    } else {
        match_count(s.drop_first(), p)
    }
}

fn count_matches(s: &[char], p: &[char]) -> (r: usize)
    requires
        p@.len() > 0,
    ensures
        r == match_count(s@, p@),
{
    let mut i: usize = 0;
    let mut n: usize = 0;
    assert(s@.skip(0) == s@);
    while i < s.len()
        invariant
            i <= s@.len(),
            p@.len() > 0,
            n <= i,
            n + match_count(s@.skip(i as int), p@) == match_count(s@, p@),
        decreases s@.len() - i,
    {
        let ghost rest = s@.skip(i as int);
        if matches_at(s, p, i) {
            assert(rest.subrange(0, p@.len() as int) == s@.subrange(i as int, i + p@.len()));
            assert(rest.skip(p@.len() as int) == s@.skip(i + p@.len()));
            n = n + 1;
            i = i + p.len();
        } else {
            assert(rest.subrange(0, p@.len() as int) == s@.subrange(i as int, i + p@.len())
                || i + p@.len() > s@.len());
            assert(rest.drop_first() == s@.skip(i + 1));
            i = i + 1;
        }
    }
    assert(s@.skip(i as int).len() == 0);
    n
}

/// A line's words joined by single spaces.
pub open spec fn collapsed(line: Seq<char>) -> Seq<char> {
    join(words(line), " "@)
}

fn collapse(line: &[char]) -> (r: Vec<char>)
    ensures
        r@ == collapsed(line@),
{
    let ws = words_of(line);
    assert(views(ws@) == words(line@));
    let mut out: Vec<char> = Vec::new();
    push_joined(&mut out, &ws, " ");
    out
}

/// Body normalisation state: inside a docstring, and the lines kept.
pub type NormState = (bool, Seq<Seq<char>>);

/// One line of a body: a line opening with `"""` or `'''` toggles the
/// docstring state when the quote occurs once in it, and is dropped;
/// lines inside a docstring, blank lines and comment-only lines are
/// dropped; other lines are kept with their whitespace collapsed.
pub open spec fn norm_step(st: NormState, raw: Seq<char>) -> NormState {
    let t = trim_start(raw);
    if is_prefix("\"\"\""@, t) || is_prefix("'''"@, t) {
        if match_count(t, t.take(3)) == 1 {
            (!st.0, st.1)
        } else {
            st
        }
    } else if st.0 || t.len() == 0 || is_comment_only_text(t) {
        st
    } else {
        (st.0, st.1.push(collapsed(t)))
    }
}

pub open spec fn norm_state(ls: Seq<Seq<char>>, n: int) -> NormState
    decreases n,
{
    if n <= 0 {
        (false, Seq::empty())
    } else {
        norm_step(norm_state(ls, n - 1), ls[n - 1])
    }
}

/// A body with docstrings, blank and comment-only lines removed and
/// whitespace collapsed, lines joined with `\n`.
pub open spec fn normalized_body(ls: Seq<Seq<char>>) -> Seq<char> {
    join(norm_state(ls, ls.len() as int).1, "\n"@)
}

/// Normalise body lines for hashing (see `normalized_body`).
pub fn normalize_body(lines: &Vec<Vec<char>>) -> (r: Vec<char>)
    ensures
        r@ == normalized_body(views(lines@)),
{
    let ghost ls = views(lines@);
    let mut in_doc = false;
    let mut kept: Vec<Vec<char>> = Vec::new();
    let mut i: usize = 0;
    while i < lines.len()
        invariant
            i <= lines@.len(),
            ls == views(lines@),
            (in_doc, views(kept@)) == norm_state(ls, i as int),
        decreases lines@.len() - i,
    {
        assert(ls[i as int] == lines@[i as int]@);
        let t = trim_start_chars(&lines[i]);
        proof {
            reveal_strlit("\"\"\"");
            reveal_strlit("'''");
        }
        if starts_with(&t, "\"\"\"") || starts_with(&t, "'''") {
            let q = slice_range(&t, 0, 3);
            assert(q@ == t@.take(3));
            if count_matches(&t, &q) == 1 {
                in_doc = !in_doc;
            }
        } else if !(in_doc || t.len() == 0 || is_comment_only(&t)) {
            let c = collapse(&t);
            let ghost before = kept@;
            kept.push(c);
            assert(views(kept@) == views(before).push(c@));
        }
        i += 1;
    }
    let mut out: Vec<char> = Vec::new();
    push_joined(&mut out, &kept, "\n");
    out
}

/// The body hash of lines `body_start_line..=line_end`: `None` when the
/// body starts past its end (single-line entities) or at 0, or when
/// nothing is left after normalisation.
pub open spec fn spec_body_hash(source: Seq<char>, body_start_line: nat, line_end: nat) -> Option<Seq<char>> {
    if body_start_line > line_end || body_start_line == 0 {
        None
    } else {
        let n = normalized_body(line_window(lines(source), body_start_line, line_end));
        if n.len() == 0 {
            None
        } else {
            Some(short_hash(encode_utf8(n)))
        }
    }
}

pub open spec fn opt_view(o: Option<String>) -> Option<Seq<char>> {
    match o {
        Some(s) => Some(s@),
        None => None,
    }
}

/// BLAKE3 of the normalised body, first 16 hex digits.
pub fn body_hash(source: &str, body_start_line: usize, line_end: usize) -> (r: Option<String>)
    ensures
        opt_view(r) == spec_body_hash(source@, body_start_line as nat, line_end as nat),
{
    if body_start_line > line_end || body_start_line == 0 {
        return None;
    }
    let ls = lines_window(source, body_start_line, line_end);
    assert(views(ls@) == line_window(lines(source@), body_start_line as nat, line_end as nat));
    let n = normalize_body(&ls);
    if n.len() == 0 {
        return None;
    }
    Some(short_hash_of_text(&n))
}

/// Lines trimmed, blank ones dropped, whitespace collapsed.
pub open spec fn collapsed_lines(ls: Seq<Seq<char>>) -> Seq<Seq<char>>
    decreases ls.len(),
{
    if ls.len() == 0 {
        Seq::empty()
    } else if trim(ls.last()).len() == 0 {
        collapsed_lines(ls.drop_last())
    } else {
        collapsed_lines(ls.drop_last()).push(collapsed(trim(ls.last())))
    }
}

/// The body hash of a config entity: like `spec_body_hash`, but only
/// indentation and blank lines are dropped (comments stay).
pub open spec fn spec_body_hash_raw(source: Seq<char>, line_start: nat, line_end: nat) -> Option<Seq<char>> {
    if line_start > line_end || line_start == 0 {
        None
    } else {
        let ls = collapsed_lines(line_window(lines(source), line_start, line_end));
        if ls.len() == 0 {
            None
        } else {
            Some(short_hash(encode_utf8(join(ls, "\n"@))))
        }
    }
}

/// BLAKE3 of the whitespace-normalised raw text of a config entity.
pub fn body_hash_raw(source: &str, line_start: usize, line_end: usize) -> (r: Option<String>)
    ensures
        opt_view(r) == spec_body_hash_raw(source@, line_start as nat, line_end as nat),
{
    if line_start > line_end || line_start == 0 {
        return None;
    }
    let ls = lines_window(source, line_start, line_end);
    let ghost lv = views(ls@);
    assert(lv == line_window(lines(source@), line_start as nat, line_end as nat));
    let mut kept: Vec<Vec<char>> = Vec::new();
    let mut i: usize = 0;
    while i < ls.len()
        invariant
            i <= ls@.len(),
            lv == views(ls@),
            views(kept@) == collapsed_lines(lv.take(i as int)),
        decreases ls@.len() - i,
    {
        assert(lv.take(i + 1).drop_last() == lv.take(i as int));
        assert(lv.take(i + 1).last() == ls@[i as int]@);
        let t = trim_chars(&ls[i]);
        if t.len() > 0 {
            let c = collapse(&t);
            let ghost before = kept@;
            kept.push(c);
            assert(views(kept@) == views(before).push(c@));
        }
        i += 1;
    }
    assert(lv.take(ls@.len() as int) == lv);
    if kept.len() == 0 {
        return None;
    }
    let mut out: Vec<char> = Vec::new();
    push_joined(&mut out, &kept, "\n");
    Some(short_hash_of_text(&out))
}

/// The signature hash: `None` without a signature, else BLAKE3 of its
/// words joined by single spaces.
pub fn sig_hash(sig: Option<&str>) -> (r: Option<String>)
    ensures
        match sig {
            None => r is None,
            Some(s) => opt_view(r) == Some(short_hash(encode_utf8(collapsed(trim(s@))))),
        },
{
    match sig {
        None => None,
        Some(s) => {
            let t = trim_chars(&chars_vec(s));
            let c = collapse(&t);
            Some(short_hash_of_text(&c))
        },
    }
}

proof fn lemma_words_non_empty(s: Seq<char>)
    ensures
        forall|k: int| 0 <= k < words(s).len() ==> (#[trigger] words(s)[k]).len() > 0,
        (exists|i: int| 0 <= i < s.len() && !crate::text::is_ws(#[trigger] s[i])) ==> words(s).len() > 0,
    decreases s.len(),
{
    if s.len() > 0 {
        let d = s.drop_last();
        lemma_words_non_empty(d);
        let w = words(d);
        let c = s.last();
        if crate::text::is_ws(c) {
            if exists|i: int| 0 <= i < s.len() && !crate::text::is_ws(#[trigger] s[i]) {
                let i = choose|i: int| 0 <= i < s.len() && !crate::text::is_ws(#[trigger] s[i]);
                assert(i < s.len() - 1);
                assert(d[i] == s[i]);
            }
        } else if s.len() >= 2 && !crate::text::is_ws(s[s.len() - 2]) && w.len() > 0 {
            let r = w.drop_last().push(w.last().push(c));
            assert forall|k: int| 0 <= k < r.len() implies (#[trigger] r[k]).len() > 0 by {
                if k < w.len() - 1 {
                    assert(r[k] == w[k]);
                }
            }
        } else {
            let r = w.push(seq![c]);
            assert forall|k: int| 0 <= k < r.len() implies (#[trigger] r[k]).len() > 0 by {
                if k < w.len() {
                    assert(r[k] == w[k]);
                }
            }
        }
    }
}

proof fn lemma_join_non_empty(parts: Seq<Seq<char>>, sep: Seq<char>)
    requires
        parts.len() > 0,
        parts[0].len() > 0,
    ensures
        join(parts, sep).len() > 0,
    decreases parts.len(),
{
    if parts.len() > 1 {
        lemma_join_non_empty(parts.drop_last(), sep);
    }
}

/// A line that starts with a non-blank character collapses to a
/// non-empty line.
proof fn lemma_collapsed_non_empty(t: Seq<char>)
    requires
        t.len() > 0,
        !crate::text::is_ws(t[0]),
    ensures
        collapsed(t).len() > 0,
{
    lemma_words_non_empty(t);
    assert(!crate::text::is_ws(t[0]));
    lemma_join_non_empty(words(t), " "@);
}

proof fn lemma_trim_start_no_ws(s: Seq<char>)
    ensures
        trim_start(s).len() > 0 ==> !crate::text::is_ws(trim_start(s)[0]),
        (forall|k: int| 0 <= k < s.len() ==> crate::text::is_ws(#[trigger] s[k])) ==> trim_start(s).len() == 0,
    decreases s.len(),
{
    if s.len() > 0 && crate::text::is_ws(s[0]) {
        lemma_trim_start_no_ws(s.drop_first());
        if forall|k: int| 0 <= k < s.len() ==> crate::text::is_ws(#[trigger] s[k]) {
            assert forall|k: int| 0 <= k < s.drop_first().len() implies crate::text::is_ws(
                #[trigger] s.drop_first()[k],
            ) by {
                assert(s.drop_first()[k] == s[k + 1]);
            }
        }
    } else if s.len() > 0 {
        assert(!crate::text::is_ws(s[0]));
    }
}

proof fn lemma_norm_state_lines_non_empty(ls: Seq<Seq<char>>, n: int)
    requires
        0 <= n <= ls.len(),
    ensures
        forall|k: int| 0 <= k < norm_state(ls, n).1.len() ==> (#[trigger] norm_state(ls, n).1[k]).len() > 0,
    decreases n,
{
    if n > 0 {
        lemma_norm_state_lines_non_empty(ls, n - 1);
        let st = norm_state(ls, n - 1);
        let t = trim_start(ls[n - 1]);
        lemma_trim_start_no_ws(ls[n - 1]);
        let r = norm_step(st, ls[n - 1]);
        if r.1.len() > st.1.len() {
            lemma_collapsed_non_empty(t);
            assert(r.1 == st.1.push(collapsed(t)));
            assert forall|k: int| 0 <= k < r.1.len() implies (#[trigger] r.1[k]).len() > 0 by {
                if k < st.1.len() {
                    assert(r.1[k] == st.1[k]);
                }
            }
        }
    }
}

/// Body normalisation keeps no empty line: every kept line has text.
pub proof fn law_normalized_lines_non_empty(ls: Seq<Seq<char>>)
    ensures
        forall|k: int|
            0 <= k < norm_state(ls, ls.len() as int).1.len() ==> (#[trigger] norm_state(ls, ls.len() as int).1[k]).len()
                > 0,
{
    lemma_norm_state_lines_non_empty(ls, ls.len() as int);
}

proof fn lemma_norm_state_prefix(a: Seq<Seq<char>>, b: Seq<Seq<char>>, n: int)
    requires
        0 <= n <= a.len(),
        n <= b.len(),
        forall|i: int| 0 <= i < n ==> a[i] == b[i],
    ensures
        norm_state(a, n) == norm_state(b, n),
    decreases n,
{
    if n > 0 {
        lemma_norm_state_prefix(a, b, n - 1);
    }
}

proof fn lemma_norm_state_insert(ls: Seq<Seq<char>>, i: int, w: Seq<char>, n: int)
    requires
        0 <= i <= n <= ls.len(),
        forall|k: int| 0 <= k < w.len() ==> crate::text::is_ws(#[trigger] w[k]),
    ensures
        norm_state(ls.insert(i, w), n + 1) == norm_state(ls, n),
    decreases n,
{
    let l2 = ls.insert(i, w);
    if n == i {
        lemma_norm_state_prefix(l2, ls, i);
        lemma_trim_start_no_ws(w);
        assert(l2[i] == w);
        reveal_strlit("\"\"\"");
        reveal_strlit("'''");
        assert(norm_step(norm_state(l2, i), w) == norm_state(l2, i));
    } else {
        lemma_norm_state_insert(ls, i, w, n - 1);
        assert(l2[n] == ls[n - 1]);
    }
}

/// Blank lines do not count: inserting a line of nothing but whitespace
/// anywhere in a body leaves its normalised form (and so its hash) as it
/// was.
pub proof fn law_blank_lines_do_not_change_body(ls: Seq<Seq<char>>, i: int, w: Seq<char>)
    requires
        0 <= i <= ls.len(),
        forall|k: int| 0 <= k < w.len() ==> crate::text::is_ws(#[trigger] w[k]),
    ensures
        normalized_body(ls.insert(i, w)) == normalized_body(ls),
{
    lemma_norm_state_insert(ls, i, w, ls.len() as int);
    assert(ls.insert(i, w).len() == ls.len() + 1);
}

} // verus!
