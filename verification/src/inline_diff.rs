//! Line-level diffs between two versions of an entity's text.

use vstd::prelude::*;
use crate::fmt::{join, push_joined, views};
use crate::text::{chars_vec, line_window, lines, lines_window, str_eq, string_from};

verus! {

broadcast use vstd::string::group_string_axioms;

/// What a diff line is.
#[derive(Debug, Clone, Copy, PartialEq, Eq, Structural)]
pub enum DiffLineKind {
    Added,
    Removed,
    Context,
    Separator,
}

/// One line of a diff.
#[derive(Debug)]
pub struct DiffLine {
    pub kind: DiffLineKind,
    pub text: String,
}

/// Which side of a diff a piece of text belongs to.
#[derive(Debug, Clone, Copy, PartialEq, Eq, Structural)]
pub enum DiffTag {
    /// In both texts.
    Equal,
    /// Only in the old text.
    Delete,
    /// Only in the new text.
    Insert,
}

/// A diff line as `(kind, text)`.
pub open spec fn line_view(l: DiffLine) -> (DiffLineKind, Seq<char>) {
    (l.kind, l.text@)
}

pub open spec fn lines_view(ls: Seq<DiffLine>) -> Seq<(DiffLineKind, Seq<char>)> {
    ls.map_values(|l: DiffLine| line_view(l))
}

pub open spec fn changes_view(cs: Seq<(DiffTag, String)>) -> Seq<(DiffTag, Seq<char>)> {
    cs.map_values(|c: (DiffTag, String)| (c.0, c.1@))
}

/// The changes `similar::TextDiff::from_lines(old, new)` reports, in
/// order, each with its tag and its text (a line with its newline).
pub uninterp spec fn line_changes(old: Seq<char>, new: Seq<char>) -> Seq<(DiffTag, Seq<char>)>;

/// `s` without its trailing `\n` characters.
pub open spec fn strip_newlines(s: Seq<char>) -> Seq<char>
    decreases s.len(),
{
    if s.len() > 0 && s.last() == '\n' {
        strip_newlines(s.drop_last())
    } else {
        s
    }
}

/// The old text a run of changes stands for: its equal and deleted pieces.
pub open spec fn old_side(cs: Seq<(DiffTag, Seq<char>)>) -> Seq<char>
    decreases cs.len(),
{
    if cs.len() == 0 {
        Seq::empty()
    } else if cs.last().0 == DiffTag::Insert {
        old_side(cs.drop_last())
    } else {
        old_side(cs.drop_last()) + cs.last().1
    }
}

/// The new text a run of changes stands for: its equal and inserted pieces.
pub open spec fn new_side(cs: Seq<(DiffTag, Seq<char>)>) -> Seq<char>
    decreases cs.len(),
{
    if cs.len() == 0 {
        Seq::empty()
    } else if cs.last().0 == DiffTag::Delete {
        new_side(cs.drop_last())
    } else {
        new_side(cs.drop_last()) + cs.last().1
    }
}

/// The `i`-th change is shown: it is a deletion or an insertion, or an
/// equal line right before or right after one (one line of context).
pub open spec fn shown_at(cs: Seq<(DiffTag, Seq<char>)>, i: int) -> bool {
    ||| cs[i].0 != DiffTag::Equal
    ||| (i > 0 && cs[i - 1].0 != DiffTag::Equal)
    ||| (i + 1 < cs.len() && cs[i + 1].0 != DiffTag::Equal)
}

/// The diff line of a change: removed, added or context, without its
/// trailing newlines.
pub open spec fn diff_line_of(c: (DiffTag, Seq<char>)) -> (DiffLineKind, Seq<char>) {
    let kind = match c.0 {
        DiffTag::Delete => DiffLineKind::Removed,
        DiffTag::Insert => DiffLineKind::Added,
        DiffTag::Equal => DiffLineKind::Context,
    };
    (kind, strip_newlines(c.1))
}

/// The shown lines among the first `n` changes, in order.
pub open spec fn shown_upto(cs: Seq<(DiffTag, Seq<char>)>, n: int) -> Seq<(DiffLineKind, Seq<char>)>
    decreases n,
{
    if n <= 0 {
        Seq::empty()
    } else if shown_at(cs, n - 1) {
        shown_upto(cs, n - 1).push(diff_line_of(cs[n - 1]))
    } else {
        shown_upto(cs, n - 1)
    }
}

/// The lines of a line diff that are shown: every removed and added line,
/// with the unchanged line just before and just after each run of them as
/// context, in the order of the diff.
pub open spec fn shown_lines(cs: Seq<(DiffTag, Seq<char>)>) -> Seq<(DiffLineKind, Seq<char>)> {
    shown_upto(cs, cs.len() as int)
}

/// Changes that are all equal stand for the same old and new text.
proof fn lemma_all_equal_sides(cs: Seq<(DiffTag, Seq<char>)>)
    requires
        forall|i: int| 0 <= i < cs.len() ==> (#[trigger] cs[i]).0 == DiffTag::Equal,
    ensures
        old_side(cs) == new_side(cs),
    decreases cs.len(),
{
    if cs.len() > 0 {
        lemma_all_equal_sides(cs.drop_last());
    }
}

/// A shown change among the first `n` makes the shown lines non-empty.
proof fn lemma_shown_nonempty(cs: Seq<(DiffTag, Seq<char>)>, n: int, i: int)
    requires
        0 <= i < n <= cs.len(),
        shown_at(cs, i),
    ensures
        shown_upto(cs, n).len() > 0,
    decreases n,
{
    if i < n - 1 {
        lemma_shown_nonempty(cs, n - 1, i);
    }
}

/// Changes standing for two different texts show at least one line.
pub proof fn lemma_differing_sides_show_lines(cs: Seq<(DiffTag, Seq<char>)>)
    requires
        old_side(cs) != new_side(cs),
    ensures
        shown_lines(cs).len() > 0,
{
    if forall|i: int| 0 <= i < cs.len() ==> (#[trigger] cs[i]).0 == DiffTag::Equal {
        lemma_all_equal_sides(cs);
    } else {
        let i = choose|i: int| 0 <= i < cs.len() && (#[trigger] cs[i]).0 != DiffTag::Equal;
        lemma_shown_nonempty(cs, cs.len() as int, i);
    }
}

/// `from_lines(old, new).iter_all_changes()` of the `similar` crate, each
/// change as its tag and its text (a line with its line ending). Claimed:
/// the result is `line_changes(old, new)`, a function of the two texts
/// alone, and, as the changes cover both texts line by line, the equal and
/// deleted pieces put together are `old`, the equal and inserted ones `new`.
#[verifier::external_body]
fn similar_line_changes(old: &str, new: &str) -> (r: Vec<(DiffTag, String)>)
    ensures
        changes_view(r@) == line_changes(old@, new@),
        old_side(changes_view(r@)) == old@,
        new_side(changes_view(r@)) == new@,
{
    similar::TextDiff::from_lines(old, new).iter_all_changes().map(|c| {
        let tag = match c.tag() {
            similar::ChangeTag::Equal => DiffTag::Equal,
            similar::ChangeTag::Delete => DiffTag::Delete,
            similar::ChangeTag::Insert => DiffTag::Insert,
        };
        (tag, c.value().to_string())
    }).collect()
}

fn strip_newlines_chars(v: Vec<char>) -> (r: Vec<char>)
    ensures
        r@ == strip_newlines(v@),
{
    let ghost orig = v@;
    let mut v = v;
    while v.len() > 0 && v[v.len() - 1] == '\n'
        invariant
            strip_newlines(v@) == strip_newlines(orig),
        decreases v@.len(),
    {
        v.pop();
    }
    v
}

/// The shown lines of a line diff (see `shown_lines`).
pub fn diff_lines_from_changes(changes: &Vec<(DiffTag, String)>) -> (r: Vec<DiffLine>)
    ensures
        lines_view(r@) == shown_lines(changes_view(changes@)),
{
    let ghost cs = changes_view(changes@);
    let mut out: Vec<DiffLine> = Vec::new();
    let n = changes.len();
    let mut i: usize = 0;
    while i < n
        invariant
            i <= n,
            n == changes@.len(),
            cs == changes_view(changes@),
            lines_view(out@) == shown_upto(cs, i as int),
        decreases n - i,
    {
        let tag = changes[i].0;
        let here = match tag {
            DiffTag::Equal => false,
            _ => true,
        };
        let before = i > 0 && match changes[i - 1].0 {
            DiffTag::Equal => false,
            _ => true,
        };
        let after = i + 1 < n && match changes[i + 1].0 {
            DiffTag::Equal => false,
            _ => true,
        };
        assert(cs[i as int] == (changes@[i as int].0, changes@[i as int].1@));
        assert(i > 0 ==> cs[i - 1] == (changes@[i - 1].0, changes@[i - 1].1@));
        assert(i + 1 < n ==> cs[i + 1] == (changes@[i + 1].0, changes@[i + 1].1@));
        if here || before || after {
            let t = strip_newlines_chars(chars_vec(changes[i].1.as_str()));
            let kind = match tag {
                DiffTag::Delete => DiffLineKind::Removed,
                DiffTag::Insert => DiffLineKind::Added,
                DiffTag::Equal => DiffLineKind::Context,
            };
            let ghost prev = out@;
            out.push(DiffLine { kind, text: string_from(&t) });
            assert(lines_view(out@) == lines_view(prev).push(line_view(out@.last())));
        }
        i += 1;
    }
    out
}

/// A line-level diff of two texts: the removed and added lines, each run
/// of them with one unchanged line of context before and after it, in the
/// order of the diff and without their newlines. `None` exactly when the
/// texts are identical.
pub fn compute_inline_diff(old_text: &str, new_text: &str) -> (r: Option<Vec<DiffLine>>)
    ensures
        r is None <==> old_text@ == new_text@,
        r matches Some(ls) ==> lines_view(ls@) == shown_lines(line_changes(old_text@, new_text@))
            && ls@.len() > 0,
{
    if str_eq(old_text, new_text) {
        return None;
    }
    let changes = similar_line_changes(old_text, new_text);
    let lines = diff_lines_from_changes(&changes);
    proof {
        lemma_differing_sides_show_lines(changes_view(changes@));
    }
    if lines.len() == 0 {
        None
    } else {
        Some(lines)
    }
}

/// The 1-based inclusive line range `line_start..=line_end` of `source`
/// (as far as it exists), joined with `\n`.
pub open spec fn entity_text(source: Seq<char>, line_start: nat, line_end: nat) -> Seq<char> {
    join(line_window(lines(source), line_start, line_end), "\n"@)
}

/// The text of lines `line_start..=line_end` (1-based) of `source`.
pub fn extract_entity_text(source: &str, line_start: u32, line_end: u32) -> (r: String)
    ensures
        r@ == entity_text(source@, line_start as nat, line_end as nat),
{
    let part = lines_window(source, line_start as usize, line_end as usize);
    assert(views(part@) == line_window(lines(source@), line_start as nat, line_end as nat));
    let mut out: Vec<char> = Vec::new();
    push_joined(&mut out, &part, "\n");
    string_from(&out)
}

} // verus!
