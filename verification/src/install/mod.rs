//! Agent installers: what each writes, decided from the current contents
//! of the files it touches. Reading and writing the files is the
//! caller's part.
//!
//! Markdown files get sigil's capability block between two marker lines,
//! so that reinstalling replaces it in place and uninstalling removes it
//! while the rest of the file stays as the user wrote it.

use vstd::prelude::*;
use crate::fmt::{push_chars, push_str};
use crate::text::{
    chars_vec, find_first, first_match, occurs_at, seq_eq, slice_range, string_from, trim,
    trim_chars, trim_end, trim_end_chars,
};

pub mod aider;
pub mod claude;
pub mod codex;
pub mod copilot;
pub mod cursor;
pub mod gemini;
pub mod githook;
pub mod json;
pub mod settings;

verus! {

broadcast use vstd::string::group_string_axioms;

/// What an install did to a file.
#[derive(Debug, Clone, Copy, PartialEq, Eq, Structural)]
pub enum UpsertResult {
    Created,
    Updated,
    Unchanged,
}

/// What to do with a file after an uninstall.
#[derive(Debug, PartialEq, Eq)]
pub enum FileAction {
    /// Leave it as it is.
    Keep,
    /// Replace its contents.
    Write(String),
    /// Delete it.
    Delete,
}

pub open spec fn action_view(a: FileAction) -> Option<Option<Seq<char>>> {
    match a {
        FileAction::Keep => None,
        FileAction::Write(s) => Some(Some(s@)),
        FileAction::Delete => Some(None),
    }
}

/// `s` with every `'` written as `'\''`, for use inside a single-quoted
/// shell word.
pub open spec fn shell_escaped(s: Seq<char>) -> Seq<char>
    decreases s.len(),
{
    if s.len() == 0 {
        Seq::empty()
    } else {
        shell_escaped(s.drop_last()) + if s.last() == '\'' {
            seq!['\'', '\\', '\'', '\'']
        } else {
            seq![s.last()]
        }
    }
}

/// Escape `s` for a single-quoted shell word: `it's` becomes `it'\''s`.
pub fn shell_escape_single_quoted(s: &str) -> (r: String)
    ensures
        r@ == shell_escaped(s@),
{
    let cs = chars_vec(s);
    let mut out: Vec<char> = Vec::new();
    let mut i: usize = 0;
    while i < cs.len()
        invariant
            i <= cs@.len(),
            cs@ == s@,
            out@ == shell_escaped(cs@.take(i as int)),
        decreases cs@.len() - i,
    {
        assert(cs@.take(i + 1).drop_last() == cs@.take(i as int));
        if cs[i] == '\'' {
            out.push('\'');
            out.push('\\');
            out.push('\'');
            out.push('\'');
            assert(out@ == shell_escaped(cs@.take(i as int)) + seq!['\'', '\\', '\'', '\'']);
        } else {
            out.push(cs[i]);
        }
        i += 1;
    }
    assert(cs@.take(cs@.len() as int) == cs@);
    string_from(&out)
}

/// The line that opens sigil's block in a markdown file.
pub open spec fn begin_marker() -> Seq<char> {
    "<!-- sigil:begin -->"@
}

/// The line that closes sigil's block in a markdown file.
pub open spec fn end_marker() -> Seq<char> {
    "<!-- sigil:end -->"@
}

/// The capability text every installer shares: what sigil offers and
/// when each command fits.
pub open spec fn capability_text() -> Seq<char> {
    "## sigil\n\nThis repository is indexed by sigil, a deterministic structural code-intelligence CLI.\n\n- `sigil map` for orientation: the most central files and symbols.\n- `sigil where <symbol>` to find a definition.\n- `sigil context <symbol>` for a focused bundle: definition, callers, callees.\n- `sigil callers <symbol>` / `sigil callees <symbol>` for exact lookups.\n- `sigil review <base>..<head>` for a structural summary of a change.\n- `sigil blast <symbol>` for the impact of changing a symbol."@
}

/// The capability block every installer writes.
pub fn capability_block() -> (r: String)
    ensures
        r@ == capability_text(),
{
    String::from_str(
        "## sigil\n\nThis repository is indexed by sigil, a deterministic structural code-intelligence CLI.\n\n- `sigil map` for orientation: the most central files and symbols.\n- `sigil where <symbol>` to find a definition.\n- `sigil context <symbol>` for a focused bundle: definition, callers, callees.\n- `sigil callers <symbol>` / `sigil callees <symbol>` for exact lookups.\n- `sigil review <base>..<head>` for a structural summary of a change.\n- `sigil blast <symbol>` for the impact of changing a symbol.",
    )
}

/// `block` between the two marker lines, ending with a newline.
pub open spec fn wrapped(block: Seq<char>) -> Seq<char> {
    begin_marker() + "\n"@ + block + "\n"@ + end_marker() + "\n"@
}

/// Where sigil's block lies in `text`: from the first begin marker to the
/// end of the first end marker after it (and the newline after that, if
/// any).
pub open spec fn block_span(text: Seq<char>) -> Option<(int, int)> {
    match first_match(text, begin_marker(), 0) {
        Some(i) => match first_match(text, end_marker(), i + begin_marker().len()) {
            Some(j) => {
                let e = j + end_marker().len();
                Some((i, if e < text.len() && text[e] == '\n' { e + 1 } else { e }))
            },
            None => None,
        },
        None => None,
    }
}

/// What a markdown file holds after installing `block`: a new file holds
/// only the block; an existing block is replaced in place; otherwise the
/// block is appended after a blank line.
pub open spec fn upserted_text(existing: Option<Seq<char>>, block: Seq<char>) -> Seq<char> {
    match existing {
        None => wrapped(block),
        Some(text) => match block_span(text) {
            Some((a, b)) => text.take(a) + wrapped(block) + text.skip(b),
            None => if text.len() == 0 {
                wrapped(block)
            } else if text.last() == '\n' {
                text + "\n"@ + wrapped(block)
            } else {
                text + "\n\n"@ + wrapped(block)
            },
        },
    }
}

/// The outcome of installing `block`: created, unchanged when the file
/// already reads the same, updated otherwise.
pub open spec fn upsert_outcome(existing: Option<Seq<char>>, block: Seq<char>) -> UpsertResult {
    match existing {
        None => UpsertResult::Created,
        Some(text) => if upserted_text(existing, block) == text {
            UpsertResult::Unchanged
        } else {
            UpsertResult::Updated
        },
    }
}

fn block_span_exec(text: &Vec<char>) -> (r: Option<(usize, usize)>)
    ensures
        match r {
            Some((a, b)) => block_span(text@) == Some((a as int, b as int)) && a <= b <= text@.len(),
            None => block_span(text@) is None,
        },
{
    let bm = chars_vec("<!-- sigil:begin -->");
    let em = chars_vec("<!-- sigil:end -->");
    match find_first(text, &bm) {
        Some(i) => {
            assert(i + bm@.len() <= text@.len());
            assert(bm@.len() == bm.len());
            assert(text@.len() == text.len());
            let from = i + bm.len();
            let rest = slice_range(text, from, text.len());
            match find_first(&rest, &em) {
                Some(k) => {
                    proof {
                        crate::text::lemma_first_match_shift(text@, em@, from as int, 0);
                    }
                    assert(k + em@.len() <= rest@.len());
                    assert(em@.len() == em.len());
                    let e = from + k + em.len();
                    let b = if e < text.len() && text[e] == '\n' { e + 1 } else { e };
                    Some((i, b))
                },
                None => {
                    proof {
                        crate::text::lemma_first_match_shift(text@, em@, from as int, 0);
                    }
                    None
                },
            }
        },
        None => None,
    }
}

fn wrap_exec(out: &mut Vec<char>, block: &str)
    ensures
        final(out)@ == old(out)@ + wrapped(block@),
{
    push_str(out, "<!-- sigil:begin -->");
    push_str(out, "\n");
    push_str(out, block);
    push_str(out, "\n");
    push_str(out, "<!-- sigil:end -->");
    push_str(out, "\n");
}

/// Install `block` into a markdown file whose current contents are
/// `existing` (`None` when it does not exist): the new contents and what
/// the install amounts to.
pub fn upsert_marker_block(existing: Option<&str>, block: &str) -> (r: (UpsertResult, String))
    ensures
        r.1@ == upserted_text(
            match existing {
                Some(t) => Some(t@),
                None => None,
            },
            block@,
        ),
        r.0 == upsert_outcome(
            match existing {
                Some(t) => Some(t@),
                None => None,
            },
            block@,
        ),
{
    match existing {
        None => {
            let mut out: Vec<char> = Vec::new();
            wrap_exec(&mut out, block);
            (UpsertResult::Created, string_from(&out))
        },
        Some(t) => {
            let text = chars_vec(t);
            let mut out: Vec<char> = Vec::new();
            match block_span_exec(&text) {
                Some((a, b)) => {
                    out = slice_range(&text, 0, a);
                    wrap_exec(&mut out, block);
                    let tail = slice_range(&text, b, text.len());
                    push_chars(&mut out, &tail);
                },
                None => {
                    if text.len() == 0 {
                    } else if text[text.len() - 1] == '\n' {
                        out = slice_range(&text, 0, text.len());
                        push_str(&mut out, "\n");
                    } else {
                        out = slice_range(&text, 0, text.len());
                        push_str(&mut out, "\n\n");
                    }
                    assert(text@.subrange(0, text@.len() as int) == text@);
                    wrap_exec(&mut out, block);
                },
            }
            let result = if seq_eq(&out, &text) {
                UpsertResult::Unchanged
            } else {
                UpsertResult::Updated
            };
            (result, string_from(&out))
        },
    }
}

/// What is left of a markdown file after removing sigil's block: the text
/// before it (trailing whitespace dropped) and after it, ending in a
/// newline; nothing when only whitespace would be left.
pub open spec fn removal_action(existing: Option<Seq<char>>) -> Option<Option<Seq<char>>> {
    match existing {
        None => None,
        Some(text) => match block_span(text) {
            None => None,
            Some((a, b)) => {
                let rest = trim_end(text.take(a)) + text.skip(b);
                if trim(rest).len() == 0 {
                    Some(None)
                } else if rest.last() == '\n' {
                    Some(Some(rest))
                } else {
                    Some(Some(rest.push('\n')))
                }
            },
        },
    }
}

/// Remove sigil's block from a markdown file whose current contents are
/// `existing`: whether there was one, and what to do with the file.
pub fn remove_marker_block(existing: Option<&str>) -> (r: (bool, FileAction))
    ensures
        action_view(r.1) == removal_action(
            match existing {
                Some(t) => Some(t@),
                None => None,
            },
        ),
        r.0 == (action_view(r.1) is Some),
{
    match existing {
        None => (false, FileAction::Keep),
        Some(t) => {
            let text = chars_vec(t);
            match block_span_exec(&text) {
                None => (false, FileAction::Keep),
                Some((a, b)) => {
                    let before = slice_range(&text, 0, a);
                    let mut rest = trim_end_chars(&before);
                    let tail = slice_range(&text, b, text.len());
                    push_chars(&mut rest, &tail);
                    let tr = trim_chars(&rest);
                    if tr.len() == 0 {
                        (true, FileAction::Delete)
                    } else {
                        if rest[rest.len() - 1] != '\n' {
                            rest.push('\n');
                        }
                        (true, FileAction::Write(string_from(&rest)))
                    }
                },
            }
        },
    }
}

/// No line break in `m`.
pub open spec fn single_line(m: Seq<char>) -> bool {
    forall|i: int| 0 <= i < m.len() ==> m[i] != '\n'
}

pub proof fn lemma_markers_single_line()
    ensures
        single_line(begin_marker()),
        single_line(end_marker()),
        begin_marker().len() == 20,
        end_marker().len() == 18,
{
    reveal_strlit("<!-- sigil:begin -->");
    reveal_strlit("<!-- sigil:end -->");
}

/// An occurrence of a single-line `m` cannot cover a line break.
pub proof fn lemma_no_match_over_newline(y: Seq<char>, m: Seq<char>, k: int, q: int)
    requires
        single_line(m),
        0 <= k <= q < k + m.len(),
        q < y.len(),
        y[q] == '\n',
    ensures
        !occurs_at(y, m, k),
{
    if occurs_at(y, m, k) {
        assert(y.subrange(k, k + m.len())[q - k] == y[q]);
    }
}

/// In `t + sep + w` where `t + sep` is empty or ends with a line break,
/// `t` holds no `m`, `sep` is line breaks, and `w` starts with a
/// single-line `m`, the first `m` is at the start of `w`.
pub proof fn lemma_first_after_prefix(t: Seq<char>, sep: Seq<char>, w: Seq<char>, m: Seq<char>)
    requires
        single_line(m),
        m.len() > 0,
        !crate::text::contains_sub(t, m),
        forall|i: int| 0 <= i < sep.len() ==> sep[i] == '\n',
        (t + sep).len() == 0 || (t + sep).last() == '\n',
        w.len() >= m.len(),
        w.subrange(0, m.len() as int) == m,
    ensures
        first_match(t + sep + w, m, 0) == Some((t.len() + sep.len()) as int),
{
    let y = t + sep + w;
    let p = (t.len() + sep.len()) as int;
    assert forall|k: int| 0 <= k < p implies !occurs_at(y, m, k) by {
        if k + m.len() <= t.len() {
            if occurs_at(y, m, k) {
                assert(y.subrange(k, k + m.len()) == t.subrange(k, k + m.len()));
                assert(occurs_at(t, m, k));
            }
        } else if sep.len() > 0 {
            let q = if t.len() > k { t.len() as int } else { k };
            assert(y[q] == sep[q - t.len()]);
            lemma_no_match_over_newline(y, m, k, q);
        } else {
            let q = t.len() - 1;
            assert((t + sep).last() == t[q]);
            assert(y[q] == t[q]);
            lemma_no_match_over_newline(y, m, k, q);
        }
    }
    assert(y.subrange(p, p + m.len()) == w.subrange(0, m.len() as int));
    crate::text::lemma_first_match(y, m, 0, Some(p));
}

/// Where `m` is first found after the opening marker of `wrapped(b)`, when
/// `b` holds no `m`: at the closing marker.
proof fn lemma_end_in_wrapped(pre: Seq<char>, b: Seq<char>)
    requires
        !crate::text::contains_sub(b, end_marker()),
    ensures
        first_match(pre + wrapped(b), end_marker(), (pre.len() + begin_marker().len()) as int) == Some(
            (pre.len() + begin_marker().len() + 1 + b.len() + 1) as int,
        ),
{
    lemma_markers_single_line();
    reveal_strlit("\n");
    let m = end_marker();
    let y = pre + wrapped(b);
    let from = (pre.len() + begin_marker().len()) as int;
    let j = from + 1 + b.len() + 1;
    assert(y[from] == '\n');
    assert(y[from + 1 + b.len()] == '\n');
    assert forall|k: int| from <= k < j implies !occurs_at(y, m, k) by {
        if k == from {
            lemma_no_match_over_newline(y, m, k, from);
        } else if k + m.len() <= from + 1 + b.len() {
            if occurs_at(y, m, k) {
                assert(y.subrange(k, k + m.len()) == b.subrange(k - from - 1, k - from - 1 + m.len()));
                assert(occurs_at(b, m, k - from - 1));
            }
        } else {
            lemma_no_match_over_newline(y, m, k, from + 1 + b.len());
        }
    }
    assert(y.subrange(j, j + m.len()) == m);
    crate::text::lemma_first_match(y, m, from, Some(j));
}

/// The text sigil appends to, for an existing file without a block.
pub open spec fn append_base(t: Seq<char>) -> Seq<char> {
    if t.len() == 0 {
        t
    } else if t.last() == '\n' {
        t + "\n"@
    } else {
        t + "\n\n"@
    }
}

proof fn lemma_block_span_of_upserted(t: Seq<char>, b: Seq<char>)
    requires
        !crate::text::contains_sub(t, begin_marker()),
        !crate::text::contains_sub(b, end_marker()),
    ensures
        block_span(t) is None,
        upserted_text(Some(t), b) == append_base(t) + wrapped(b),
        block_span(append_base(t) + wrapped(b)) == Some(
            (append_base(t).len() as int, (append_base(t) + wrapped(b)).len() as int),
        ),
{
    lemma_markers_single_line();
    reveal_strlit("\n");
    reveal_strlit("\n\n");
    assert forall|k: int| 0 <= k implies !occurs_at(t, begin_marker(), k) by {}
    crate::text::lemma_first_match(t, begin_marker(), 0, None);
    let sep: Seq<char> = if t.len() == 0 {
        Seq::empty()
    } else if t.last() == '\n' {
        "\n"@
    } else {
        "\n\n"@
    };
    assert(append_base(t) == t + sep);
    let w = wrapped(b);
    assert(w.subrange(0, begin_marker().len() as int) == begin_marker());
    lemma_first_after_prefix(t, sep, w, begin_marker());
    lemma_end_in_wrapped(t + sep, b);
    let y = t + sep + w;
    assert(y == append_base(t) + w);
    let e = ((t + sep).len() + begin_marker().len() + 1 + b.len() + 1 + end_marker().len()) as int;
    assert(e + 1 == y.len());
    assert(y[e] == '\n');
}

pub proof fn lemma_first_match_found(s: Seq<char>, p: Seq<char>, from: int)
    requires
        from >= 0,
        first_match(s, p, from) is Some,
    ensures
        ({
            let i = first_match(s, p, from).unwrap();
            &&& from <= i
            &&& occurs_at(s, p, i)
            &&& forall|j: int| from <= j < i ==> !#[trigger] occurs_at(s, p, j)
        }),
    decreases s.len() + 1 - from,
{
    if from <= s.len() && !occurs_at(s, p, from) {
        lemma_first_match_found(s, p, from + 1);
    }
}

/// Within a prefix, a text and its extension agree on every occurrence.
proof fn lemma_occurs_in_prefix(s1: Seq<char>, s2: Seq<char>, p: Seq<char>, j: int)
    requires
        s1.len() <= s2.len(),
        s2.take(s1.len() as int) == s1,
        0 <= j,
        j + p.len() <= s1.len(),
    ensures
        occurs_at(s1, p, j) == occurs_at(s2, p, j),
{
    assert(s1.subrange(j, j + p.len()) =~= s2.subrange(j, j + p.len())) by {
        assert forall|m: int| 0 <= m < p.len() implies #[trigger] s1.subrange(j, j + p.len())[m]
            == s2.subrange(j, j + p.len())[m] by {
            assert(s1[j + m] == s2.take(s1.len() as int)[j + m]);
        }
    }
}

/// A match found in a prefix is the first match in the whole text too.
pub proof fn lemma_first_match_in_prefix(s1: Seq<char>, s2: Seq<char>, p: Seq<char>, from: int)
    requires
        from >= 0,
        s1.len() <= s2.len(),
        s2.take(s1.len() as int) == s1,
        first_match(s1, p, from) matches Some(i) && i + p.len() <= s1.len(),
    ensures
        first_match(s2, p, from) == first_match(s1, p, from),
{
    lemma_first_match_found(s1, p, from);
    let i = first_match(s1, p, from).unwrap();
    lemma_occurs_in_prefix(s1, s2, p, i);
    assert forall|j: int| from <= j < i implies !#[trigger] occurs_at(s2, p, j) by {
        lemma_occurs_in_prefix(s1, s2, p, j);
    }
    crate::text::lemma_first_match(s2, p, from, Some(i));
}

/// Replacing an existing block leaves a block exactly where the new one
/// was put.
proof fn lemma_block_span_of_replaced(t: Seq<char>, b: Seq<char>)
    requires
        block_span(t) is Some,
        !crate::text::contains_sub(b, end_marker()),
    ensures
        ({
            let (a, e) = block_span(t).unwrap();
            let y = t.take(a) + wrapped(b) + t.skip(e);
            &&& 0 <= a <= e <= t.len()
            &&& upserted_text(Some(t), b) == y
            &&& block_span(y) == Some((a, a + wrapped(b).len()))
        }),
{
    lemma_markers_single_line();
    reveal_strlit("\n");
    let bm = begin_marker();
    let em = end_marker();
    lemma_first_match_found(t, bm, 0);
    let a = first_match(t, bm, 0).unwrap();
    lemma_first_match_found(t, em, a + bm.len());
    let j = first_match(t, em, a + bm.len()).unwrap();
    let (a0, e) = block_span(t).unwrap();
    assert(a0 == a);
    let w = wrapped(b);
    let x = t.take(a);
    let y = x + w + t.skip(e);
    // The first begin marker of `y` is still at `a`.
    assert(y.take(a + bm.len()) == t.take(a + bm.len())) by {
        assert forall|k: int| 0 <= k < a + bm.len() implies #[trigger] y.take(a + bm.len())[k] == t.take(a + bm.len())[k] by {
            if k >= a {
                assert(y[k] == w[k - a]);
                assert(w[k - a] == bm[k - a]);
                assert(t.subrange(a, a + bm.len()) == bm);
                assert(t[k] == t.subrange(a, a + bm.len())[k - a]);
            }
        }
    }
    let tp = t.take(a + bm.len());
    assert(first_match(tp, bm, 0) == Some(a)) by {
        assert(t.take(tp.len() as int) == tp);
        lemma_occurs_in_prefix(tp, t, bm, a);
        assert forall|k: int| 0 <= k < a implies !#[trigger] occurs_at(tp, bm, k) by {
            lemma_occurs_in_prefix(tp, t, bm, k);
        }
        crate::text::lemma_first_match(tp, bm, 0, Some(a));
    }
    assert(y.take(tp.len() as int) == tp);
    lemma_first_match_in_prefix(t.take(a + bm.len()), y, bm, 0);
    // The first end marker after it closes the new block.
    lemma_end_in_wrapped(x, b);
    let q = (a + bm.len() + 1 + b.len() + 1) as int;
    assert((x + w).len() == a + w.len());
    assert(y.take((x + w).len() as int) == x + w);
    lemma_first_match_in_prefix(x + w, y, em, a + bm.len());
    let e2 = q + em.len();
    assert(e2 + 1 == a + w.len());
    assert(y[e2] == '\n');
}

/// Installing the capability block a second time changes nothing: after
/// an install into a missing file, into a file without a sigil block, or
/// into a file whose block it replaced.
pub proof fn law_marker_reinstall_is_noop(existing: Option<Seq<char>>, b: Seq<char>)
    requires
        !crate::text::contains_sub(b, end_marker()),
        existing matches Some(t) ==> block_span(t) is Some || !crate::text::contains_sub(
            t,
            begin_marker(),
        ),
    ensures
        upserted_text(Some(upserted_text(existing, b)), b) == upserted_text(existing, b),
        upsert_outcome(Some(upserted_text(existing, b)), b) == UpsertResult::Unchanged,
{
    lemma_markers_single_line();
    let t = match existing {
        Some(t) => t,
        None => Seq::<char>::empty(),
    };
    if existing is Some && block_span(t) is Some {
        lemma_block_span_of_replaced(t, b);
        let (a, e) = block_span(t).unwrap();
        let w = wrapped(b);
        let y = t.take(a) + w + t.skip(e);
        assert(y.take(a) == t.take(a));
        assert(y.skip(a + w.len()) == t.skip(e));
    } else {
        assert(!crate::text::contains_sub(t, begin_marker()));
        lemma_block_span_of_upserted(t, b);
        assert(upserted_text(existing, b) == append_base(t) + wrapped(b));
        let y = append_base(t) + wrapped(b);
        assert(y.take(append_base(t).len() as int) == append_base(t));
        assert(y.skip(y.len() as int) == Seq::<char>::empty());
    }
}

/// Installing into a file without a sigil block keeps the file's text as
/// it was, followed by the block.
pub proof fn law_marker_install_preserves_text(t: Seq<char>, b: Seq<char>)
    requires
        !crate::text::contains_sub(t, begin_marker()),
        !crate::text::contains_sub(b, end_marker()),
    ensures
        crate::text::is_prefix(t, upserted_text(Some(t), b)),
{
    lemma_block_span_of_upserted(t, b);
    assert((append_base(t) + wrapped(b)).subrange(0, t.len() as int) == t);
}

/// Uninstalling after installing into a file without a sigil block gives
/// back the file's text (without trailing whitespace, ending in a
/// newline); a file that held nothing else is deleted.
pub proof fn law_marker_uninstall_restores_text(t: Seq<char>, b: Seq<char>)
    requires
        !crate::text::contains_sub(t, begin_marker()),
        !crate::text::contains_sub(b, end_marker()),
    ensures
        removal_action(Some(upserted_text(Some(t), b))) == if trim(t).len() == 0 {
            Some(None::<Seq<char>>)
        } else {
            Some(Some(trim_end(t).push('\n')))
        },
        removal_action(Some(upserted_text(None, b))) == Some(None::<Seq<char>>),
{
    lemma_block_span_of_upserted(t, b);
    let y = append_base(t) + wrapped(b);
    let a = append_base(t).len() as int;
    assert(y.take(a) == append_base(t));
    assert(y.skip(y.len() as int) == Seq::<char>::empty());
    lemma_trim_end_append_base(t);
    let rest = trim_end(t);
    assert(rest + Seq::<char>::empty() == rest);
    lemma_trim_of_trim_end(t);
    if trim(t).len() != 0 {
        lemma_trim_end_last(t);
    }
    assert(!crate::text::contains_sub(Seq::<char>::empty(), begin_marker())) by {
        lemma_markers_single_line();
        assert forall|i: int| !occurs_at(Seq::<char>::empty(), begin_marker(), i) by {}
    }
    lemma_block_span_of_upserted(Seq::empty(), b);
    assert(append_base(Seq::<char>::empty()) == Seq::<char>::empty());
    let y0 = wrapped(b);
    assert(Seq::<char>::empty() + y0 == y0);
    assert(y0.take(0) == Seq::<char>::empty());
    assert(y0.skip(y0.len() as int) == Seq::<char>::empty());
    assert(trim_end(Seq::<char>::empty()) == Seq::<char>::empty());
    assert(trim(Seq::<char>::empty()) == Seq::<char>::empty());
}

pub proof fn lemma_trim_end_append_base(t: Seq<char>)
    ensures
        trim_end(append_base(t)) == trim_end(t),
{
    reveal_strlit("\n");
    reveal_strlit("\n\n");
    if t.len() > 0 {
        let s1 = t.push('\n');
        assert(t + "\n"@ == s1);
        assert(s1.drop_last() == t);
        assert(crate::text::is_ws(s1.last()));
        assert(trim_end(s1) == trim_end(t));
        if t.last() != '\n' {
            let s2 = s1.push('\n');
            assert(t + "\n\n"@ == s2);
            assert(s2.drop_last() == s1);
            assert(crate::text::is_ws(s2.last()));
            assert(trim_end(s2) == trim_end(s1));
        }
    }
}

pub proof fn lemma_trim_of_trim_end(t: Seq<char>)
    ensures
        trim(trim_end(t)) == trim(t),
        trim_end(trim_end(t)) == trim_end(t),
    decreases t.len(),
{
    if t.len() > 0 && crate::text::is_ws(t.last()) {
        lemma_trim_of_trim_end(t.drop_last());
    }
}

pub proof fn lemma_trim_end_last(t: Seq<char>)
    requires
        trim(t).len() != 0,
    ensures
        trim_end(t).len() > 0,
        !crate::text::is_ws(trim_end(t).last()),
    decreases t.len(),
{
    if t.len() > 0 && crate::text::is_ws(t.last()) {
        lemma_trim_end_last(t.drop_last());
    } else if t.len() == 0 {
        assert(trim(t) == t);
    }
}

/// The capability block holds no closing marker, so the laws above apply
/// to it.
pub proof fn lemma_capability_text_has_no_end_marker()
    ensures
        !crate::text::contains_sub(capability_text(), end_marker()),
{
    reveal_strlit("<!-- sigil:end -->");
    reveal_strlit(
        "## sigil\n\nThis repository is indexed by sigil, a deterministic structural code-intelligence CLI.\n\n- `sigil map` for orientation: the most central files and symbols.\n- `sigil where <symbol>` to find a definition.\n- `sigil context <symbol>` for a focused bundle: definition, callers, callees.\n- `sigil callers <symbol>` / `sigil callees <symbol>` for exact lookups.\n- `sigil review <base>..<head>` for a structural summary of a change.\n- `sigil blast <symbol>` for the impact of changing a symbol.",
    );
    let c = capability_text();
    assert forall|i: int| 0 <= i < c.len() implies c[i] != '!' by {}
    assert forall|i: int| !occurs_at(c, end_marker(), i) by {
        if occurs_at(c, end_marker(), i) {
            assert(c.subrange(i, i + end_marker().len())[1] == c[i + 1]);
        }
    }
}

/// What writing `content` over a whole file does: create it when absent,
/// leave it when it already holds exactly `content`, else update it.
pub open spec fn whole_file_outcome(existing: Option<Seq<char>>, content: Seq<char>) -> UpsertResult {
    match existing {
        None => UpsertResult::Created,
        Some(e) => if e == content {
            UpsertResult::Unchanged
        } else {
            UpsertResult::Updated
        },
    }
}

/// Writing the same whole-file contents again changes nothing: an
/// install over its own output is `Unchanged`.
pub proof fn law_whole_file_reinstall_is_noop(content: Seq<char>)
    ensures
        whole_file_outcome(Some(content), content) == UpsertResult::Unchanged,
{
}

/// The outcome of writing `content` over a file whose current contents
/// are `existing` (`None`: absent).
pub fn whole_file_result(existing: Option<&str>, content: &str) -> (r: UpsertResult)
    ensures
        r == whole_file_outcome(
            match existing {
                Some(e) => Some(e@),
                None => None,
            },
            content@,
        ),
{
    match existing {
        None => UpsertResult::Created,
        Some(e) => if crate::text::str_eq(e, content) {
            UpsertResult::Unchanged
        } else {
            UpsertResult::Updated
        },
    }
}

} // verus!
