//! Git plumbing that needs no process: ref-spec parsing and the reading of
//! `git diff --name-status` output.

use vstd::prelude::*;
use crate::text::{
    after_last, chars_vec, contains_sub, lemma_first_match, occurs_at, find_first, lines, lines_of, slice_range, split_once, string_from,
    tail_after_last,
};

verus! {

broadcast use vstd::string::group_string_axioms;

/// How a file changed between two refs.
#[derive(Debug, Clone, Copy, PartialEq, Eq, Structural)]
pub enum FileStatus {
    Added,
    Modified,
    Deleted,
}

/// One changed file.
#[derive(Debug, Clone)]
pub struct FileChange {
    pub path: String,
    pub status: FileStatus,
}

/// `(base, head)` of a ref spec: `a...b` and `a..b` are cut at the first
/// `...` (else the first `..`); a single ref is compared against `HEAD`.
pub open spec fn ref_spec_parts(spec: Seq<char>) -> (Seq<char>, Seq<char>) {
    match split_once(spec, "..."@) {
        Some(parts) => parts,
        None => match split_once(spec, ".."@) {
            Some(parts) => parts,
            None => (spec, "HEAD"@),
        },
    }
}

fn split_at_first(s: &[char], p: &str) -> (r: Option<(Vec<char>, Vec<char>)>)
    ensures
        match r {
            Some((a, b)) => split_once(s@, p@) == Some((a@, b@)),
            None => split_once(s@, p@) is None,
        },
{
    let pv = chars_vec(p);
    match find_first(s, &pv) {
        Some(i) => {
            assert(i + pv@.len() <= s@.len());
            assert(pv@.len() == pv.len());
            assert(s@.len() == s.len());
            let a = slice_range(s, 0, i);
            let b = slice_range(s, i + pv.len(), s.len());
            assert(a@ == s@.take(i as int));
            assert(b@ == s@.skip(i + pv@.len()));
            Some((a, b))
        },
        None => None,
    }
}

/// Parse a ref spec like `main..HEAD`, `HEAD~1` or `main...feature` into
/// `(base, head)`. Every spec is accepted.
pub fn parse_ref_spec(spec: &str) -> (r: Result<(String, String), String>)
    ensures
        r matches Ok((base, head)) && (base@, head@) == ref_spec_parts(spec@),
{
    let s = chars_vec(spec);
    match split_at_first(&s, "...") {
        Some((a, b)) => Ok((string_from(&a), string_from(&b))),
        None => match split_at_first(&s, "..") {
            Some((a, b)) => Ok((string_from(&a), string_from(&b))),
            None => Ok((String::from_str(spec), String::from_str("HEAD"))),
        },
    }
}

/// The change a `--name-status` line stands for: its status letter, and
/// the path after its last tab. Lines without a tab, or with another
/// status letter, stand for none.
pub open spec fn name_status_entry(line: Seq<char>) -> Option<(Seq<char>, FileStatus)> {
    if !line.contains('\t') || line.len() == 0 {
        None
    } else if line[0] == 'A' {
        Some((after_last(line, '\t'), FileStatus::Added))
    } else if line[0] == 'M' {
        Some((after_last(line, '\t'), FileStatus::Modified))
    } else if line[0] == 'D' {
        Some((after_last(line, '\t'), FileStatus::Deleted))
    } else {
        None
    }
}

/// The changes listed by the given lines, in order.
pub open spec fn name_status_entries(ls: Seq<Seq<char>>) -> Seq<(Seq<char>, FileStatus)>
    decreases ls.len(),
{
    if ls.len() == 0 {
        Seq::empty()
    } else {
        let rest = name_status_entries(ls.drop_last());
        match name_status_entry(ls.last()) {
            Some(e) => rest.push(e),
            None => rest,
        }
    }
}

/// The view of a change list: `(path, status)` pairs.
pub open spec fn changes_view(cs: Seq<FileChange>) -> Seq<(Seq<char>, FileStatus)> {
    cs.map_values(|c: FileChange| (c.path@, c.status))
}

fn has_tab(line: &[char]) -> (r: bool)
    ensures
        r == line@.contains('\t'),
{
    let mut i: usize = 0;
    while i < line.len()
        invariant
            i <= line@.len(),
            forall|j: int| 0 <= j < i ==> line@[j] != '\t',
        decreases line@.len() - i,
    {
        if line[i] == '\t' {
            assert(line@[i as int] == '\t');
            return true;
        }
        i += 1;
    }
    false
}

/// Read the output of `git diff --name-status --no-renames`: one change
/// per line with an `A`, `M` or `D` status and a tab; other lines are
/// skipped.
pub fn parse_name_status(output: &str) -> (r: Vec<FileChange>)
    ensures
        changes_view(r@) == name_status_entries(lines(output@)),
{
    let text = chars_vec(output);
    let ls = lines_of(&text);
    let ghost all = lines(text@);
    let mut out: Vec<FileChange> = Vec::new();
    let mut k: usize = 0;
    while k < ls.len()
        invariant
            k <= ls@.len(),
            ls@.len() == all.len(),
            forall|j: int| 0 <= j < ls@.len() ==> (#[trigger] ls@[j])@ == all[j],
            changes_view(out@) == name_status_entries(all.take(k as int)),
        decreases ls@.len() - k,
    {
        let line = &ls[k];
        assert(all.take(k + 1).drop_last() == all.take(k as int));
        assert(all.take(k + 1).last() == line@);
        if line.len() > 0 && has_tab(line) {
            let status = if line[0] == 'A' {
                Some(FileStatus::Added)
            } else if line[0] == 'M' {
                Some(FileStatus::Modified)
            } else if line[0] == 'D' {
                Some(FileStatus::Deleted)
            } else {
                None
            };
            if let Some(st) = status {
                let path = tail_after_last(line, '\t');
                let ghost before = out@;
                out.push(FileChange { path: string_from(&path), status: st });
                assert(changes_view(out@) == changes_view(before).push((path@, st)));
            }
        }
        k += 1;
    }
    assert(all.take(ls@.len() as int) == all);
    out
}

/// `p` is `..`.
proof fn lemma_dots()
    ensures
        ".."@ == seq!['.', '.'],
        "..."@ == seq!['.', '.', '.'],
        "HEAD"@.len() == 4,
{
    reveal_strlit("..");
    reveal_strlit("...");
    reveal_strlit("HEAD");
    assert(".."@ =~= seq!['.', '.']);
    assert("..."@ =~= seq!['.', '.', '.']);
}

/// Two dots at `j` in `s`.
proof fn lemma_dots_at(s: Seq<char>, j: int)
    requires
        0 <= j,
        j + 2 <= s.len(),
    ensures
        occurs_at(s, ".."@, j) <==> (s[j] == '.' && s[j + 1] == '.'),
        j + 3 <= s.len() ==> (occurs_at(s, "..."@, j) <==> (s[j] == '.' && s[j + 1] == '.' && s[j + 2] == '.')),
{
    lemma_dots();
    if s[j] == '.' && s[j + 1] == '.' {
        assert(s.subrange(j, j + 2) =~= seq!['.', '.']);
    }
    if occurs_at(s, ".."@, j) {
        assert(s.subrange(j, j + 2)[0] == s[j]);
        assert(s.subrange(j, j + 2)[1] == s[j + 1]);
    }
    if j + 3 <= s.len() {
        if s[j] == '.' && s[j + 1] == '.' && s[j + 2] == '.' {
            assert(s.subrange(j, j + 3) =~= seq!['.', '.', '.']);
        }
        if occurs_at(s, "..."@, j) {
            assert(s.subrange(j, j + 3)[0] == s[j]);
            assert(s.subrange(j, j + 3)[1] == s[j + 1]);
            assert(s.subrange(j, j + 3)[2] == s[j + 2]);
        }
    }
}

/// Parsing the ref spec that the report headers show for `base` and
/// `head` gives back `base`, and `head` (`HEAD` when it was empty or
/// `HEAD`), provided the two dots can only be the separator: neither ref
/// holds `..`, `base` does not end with `.` and `head` does not start
/// with `.`.
pub proof fn law_ref_spec_round_trip(b: Seq<char>, h: Seq<char>)
    requires
        !contains_sub(b, ".."@),
        !contains_sub(h, ".."@),
        !(b.len() > 0 && b.last() == '.'),
        !(h.len() > 0 && h[0] == '.'),
    ensures
        ref_spec_parts(crate::markdown_formatter::ref_spec_text(b, h)) == (b, if h.len() == 0 || h == "HEAD"@ {
            "HEAD"@
        } else {
            h
        }),
{
    lemma_dots();
    let t = crate::markdown_formatter::ref_spec_text(b, h);
    if h == "HEAD"@ || h.len() == 0 {
        assert(t == b);
        assert forall|j: int| 0 <= j implies !occurs_at(b, ".."@, j) by {}
        assert forall|j: int| 0 <= j implies !occurs_at(b, "..."@, j) by {
            if j + 3 <= b.len() {
                lemma_dots_at(b, j);
            }
        }
        lemma_first_match(b, "..."@, 0, None);
        lemma_first_match(b, ".."@, 0, None);
    } else {
        let n = b.len() as int;
        assert(t == b + ".."@ + h);
        assert(t.len() == n + 2 + h.len());
        assert forall|k: int| 0 <= k < n implies t[k] == b[k] by {}
        assert(t[n] == '.' && t[n + 1] == '.');
        assert forall|k: int| 0 <= k < h.len() implies t[n + 2 + k] == h[k] by {}
        assert forall|j: int| 0 <= j implies !occurs_at(t, "..."@, j) by {
            if j + 3 <= t.len() {
                lemma_dots_at(t, j);
                if t[j] == '.' && t[j + 1] == '.' && t[j + 2] == '.' {
                    if j + 1 < n {
                        assert(b[j] == '.' && b[j + 1] == '.');
                        lemma_dots_at(b, j);
                        assert(occurs_at(b, ".."@, j));
                    } else if j + 1 == n {
                        assert(b.last() == b[j]);
                    } else if j == n {
                        assert(t[n + 2 + 0] == h[0]);
                    } else if j == n + 1 {
                        assert(t[n + 2 + 0] == h[0]);
                    } else {
                        assert(t[j] == h[j - n - 2] && t[j + 1] == h[j - n - 1]);
                        lemma_dots_at(h, j - n - 2);
                        assert(occurs_at(h, ".."@, j - n - 2));
                    }
                }
            }
        }
        lemma_first_match(t, "..."@, 0, None);
        lemma_dots_at(t, n);
        assert forall|j: int| 0 <= j < n implies !occurs_at(t, ".."@, j) by {
            lemma_dots_at(t, j);
            if t[j] == '.' && t[j + 1] == '.' {
                if j + 1 < n {
                    assert(b[j] == '.' && b[j + 1] == '.');
                    lemma_dots_at(b, j);
                    assert(occurs_at(b, ".."@, j));
                } else {
                    assert(b.last() == b[j]);
                }
            }
        }
        lemma_first_match(t, ".."@, 0, Some(n));
        assert(t.take(n) =~= b);
        assert(t.skip(n + 2) =~= h);
    }
}

} // verus!
