//! Git hook installer: `post-commit` and `post-checkout` scripts that
//! rebuild sigil's index in the background.
//!
//! sigil's part of a script sits between a sentinel comment and the same
//! comment followed by ` end`, so a user's own hook is extended rather
//! than replaced, and reinstalling rewrites only sigil's part.

use vstd::prelude::*;
use crate::fmt::{push_chars, push_str};
use crate::install::{action_view, lemma_first_after_prefix, FileAction};
use crate::text::{
    chars_vec, eq_lit, find_first, first_match, occurs_at, seq_eq, slice_range, str_eq,
    string_from, trim, trim_chars, trim_end, trim_end_chars,
};

verus! {

broadcast use vstd::string::group_string_axioms;

/// What happened to one hook script.
#[derive(Debug, Clone, Copy, PartialEq, Eq, Structural)]
pub enum HookResult {
    Created,
    Updated,
    Unchanged,
    Removed,
    NotPresent,
}

/// One hook and what happened to it.
#[derive(Debug)]
pub struct HookStep {
    pub name: String,
    pub result: HookResult,
}

/// The sentinel comment of a hook (`post-commit`'s for unknown hooks).
pub open spec fn sentinel_text(hook: Seq<char>) -> Seq<char> {
    if hook == "post-checkout"@ {
        "# sigil:post-checkout"@
    } else {
        "# sigil:post-commit"@
    }
}

proof fn lemma_hook_names_differ()
    ensures
        "post-commit"@ != "post-checkout"@,
{
    reveal_strlit("post-commit");
    reveal_strlit("post-checkout");
    assert("post-commit"@[6] != "post-checkout"@[6]);
}

pub fn sentinel_for(hook: &str) -> (r: &'static str)
    ensures
        r@ == sentinel_text(hook@),
{
    proof {
        lemma_hook_names_differ();
    }
    if str_eq(hook, "post-commit") {
        "# sigil:post-commit"
    } else if str_eq(hook, "post-checkout") {
        "# sigil:post-checkout"
    } else {
        "# sigil:post-commit"
    }
}

/// sigil's part of a hook script.
pub open spec fn sigil_block_text(sentinel: Seq<char>) -> Seq<char> {
    sentinel
        + "\n# Rebuild sigil's index in the background. Exits quietly; any\n# parse issues surface on the next explicit `sigil index` run.\n( sigil index --no-rank >/dev/null 2>&1 & ) || true\n"@
        + sentinel + " end\n"@
}

pub fn sigil_block(sentinel: &str) -> (r: Vec<char>)
    ensures
        r@ == sigil_block_text(sentinel@),
{
    let mut out: Vec<char> = Vec::new();
    push_str(&mut out, sentinel);
    push_str(
        &mut out,
        "\n# Rebuild sigil's index in the background. Exits quietly; any\n# parse issues surface on the next explicit `sigil index` run.\n( sigil index --no-rank >/dev/null 2>&1 & ) || true\n",
    );
    push_str(&mut out, sentinel);
    push_str(&mut out, " end\n");
    out
}

/// The closing line of sigil's part.
pub open spec fn end_line(sentinel: Seq<char>) -> Seq<char> {
    sentinel + " end\n"@
}

/// `(before, after)` sigil's part of `existing`: from the first sentinel
/// to the end of the first closing line at or after it.
pub open spec fn split_block(existing: Seq<char>, sentinel: Seq<char>) -> Option<(Seq<char>, Seq<char>)> {
    match first_match(existing, sentinel, 0) {
        Some(b) => match first_match(existing, end_line(sentinel), b) {
            Some(e) => Some((existing.take(b), existing.skip(e + end_line(sentinel).len()))),
            None => None,
        },
        None => None,
    }
}

/// Split `existing` around sigil's part, if it holds one.
pub fn split_existing_block(existing: &[char], sentinel: &str) -> (r: Option<(Vec<char>, Vec<char>)>)
    ensures
        match r {
            Some((a, b)) => split_block(existing@, sentinel@) == Some((a@, b@)),
            None => split_block(existing@, sentinel@) is None,
        },
{
    let sv = chars_vec(sentinel);
    match find_first(existing, &sv) {
        Some(begin) => {
            let mut em = chars_vec(sentinel);
            push_str(&mut em, " end\n");
            let rest = slice_range(existing, begin, existing.len());
            proof {
                crate::text::lemma_first_match_shift(existing@, em@, begin as int, 0);
            }
            match find_first(&rest, &em) {
                Some(off) => {
                    assert(off + em@.len() <= rest@.len());
                    assert(em@.len() == em.len());
                    assert(existing@.len() == existing.len());
                    let e = begin + off + em.len();
                    let a = slice_range(existing, 0, begin);
                    let b = slice_range(existing, e, existing.len());
                    Some((a, b))
                },
                None => None,
            }
        },
        None => None,
    }
}

/// The script to write and the outcome when installing the hook with
/// `sentinel` over `existing` (`None`: no such hook yet). Nothing is
/// written when the script already reads the same.
pub open spec fn hook_upsert(existing: Option<Seq<char>>, sentinel: Seq<char>) -> (HookResult, Option<Seq<char>>) {
    let block = sigil_block_text(sentinel);
    match existing {
        None => (HookResult::Created, Some("#!/bin/sh\n"@ + block)),
        Some(text) => match split_block(text, sentinel) {
            Some((before, after)) => if before + block + after == text {
                (HookResult::Unchanged, None)
            } else {
                (HookResult::Updated, Some(before + block + after))
            },
            None => if text.len() > 0 && text.last() == '\n' {
                (HookResult::Updated, Some(text + block))
            } else {
                (HookResult::Updated, Some(text + "\n"@ + block))
            },
        },
    }
}

pub open spec fn opt_chars(o: Option<String>) -> Option<Seq<char>> {
    match o {
        Some(s) => Some(s@),
        None => None,
    }
}

/// Install sigil's part into a hook script whose current contents are
/// `existing`: the outcome, and the script to write (with the executable
/// bit) unless nothing changes.
pub fn upsert_hook_script(existing: Option<&str>, sentinel: &str) -> (r: (HookResult, Option<String>))
    ensures
        (r.0, opt_chars(r.1)) == hook_upsert(
            match existing {
                Some(t) => Some(t@),
                None => None,
            },
            sentinel@,
        ),
{
    let block = sigil_block(sentinel);
    match existing {
        None => {
            let mut out = chars_vec("#!/bin/sh\n");
            push_chars(&mut out, &block);
            (HookResult::Created, Some(string_from(&out)))
        },
        Some(t) => {
            let text = chars_vec(t);
            match split_existing_block(&text, sentinel) {
                Some((before, after)) => {
                    let mut updated = before;
                    push_chars(&mut updated, &block);
                    push_chars(&mut updated, &after);
                    if seq_eq(&updated, &text) {
                        (HookResult::Unchanged, None)
                    } else {
                        (HookResult::Updated, Some(string_from(&updated)))
                    }
                },
                None => {
                    let mut script = chars_vec(t);
                    if !(script.len() > 0 && script[script.len() - 1] == '\n') {
                        push_str(&mut script, "\n");
                    }
                    push_chars(&mut script, &block);
                    (HookResult::Updated, Some(string_from(&script)))
                },
            }
        },
    }
}

/// What removing sigil's part leaves of a hook script: the text before it
/// (trailing whitespace dropped) and after it, ending in a newline; the
/// script is deleted when only a shebang or nothing would be left.
pub open spec fn hook_removal(existing: Option<Seq<char>>, sentinel: Seq<char>) -> Option<Option<Seq<char>>> {
    match existing {
        None => None,
        Some(text) => match split_block(text, sentinel) {
            None => None,
            Some((before, after)) => {
                let joined = trim_end(before) + after;
                let remaining = if joined.len() > 0 && joined.last() == '\n' {
                    joined
                } else {
                    joined.push('\n')
                };
                if trim(remaining) == "#!/bin/sh"@ || trim(remaining).len() == 0 {
                    Some(None)
                } else {
                    Some(Some(remaining))
                }
            },
        },
    }
}

/// Remove sigil's part from a hook script whose current contents are
/// `existing`: whether it had one, and what to do with the file.
pub fn remove_hook_script(existing: Option<&str>, sentinel: &str) -> (r: (bool, FileAction))
    ensures
        action_view(r.1) == hook_removal(
            match existing {
                Some(t) => Some(t@),
                None => None,
            },
            sentinel@,
        ),
        r.0 == (action_view(r.1) is Some),
{
    match existing {
        None => (false, FileAction::Keep),
        Some(t) => {
            let text = chars_vec(t);
            match split_existing_block(&text, sentinel) {
                None => (false, FileAction::Keep),
                Some((before, after)) => {
                    let mut remaining = trim_end_chars(&before);
                    push_chars(&mut remaining, &after);
                    if !(remaining.len() > 0 && remaining[remaining.len() - 1] == '\n') {
                        remaining.push('\n');
                    }
                    let tr = trim_chars(&remaining);
                    if eq_lit(&tr, "#!/bin/sh") || tr.len() == 0 {
                        (true, FileAction::Delete)
                    } else {
                        (true, FileAction::Write(string_from(&remaining)))
                    }
                },
            }
        },
    }
}

/// One hook's install: the step to report and the script to write.
#[derive(Debug)]
pub struct HookPlan {
    pub step: HookStep,
    pub write: Option<String>,
}

/// One hook's uninstall: the step to report and what to do with the file.
#[derive(Debug)]
pub struct HookRemoval {
    pub step: HookStep,
    pub action: FileAction,
}

/// Install both hooks over their current scripts (`None`: absent),
/// `post-commit` first.
pub fn install(post_commit: Option<&str>, post_checkout: Option<&str>) -> (r: Vec<HookPlan>)
    ensures
        r@.len() == 2,
        r@[0].step.name@ == "post-commit"@,
        r@[1].step.name@ == "post-checkout"@,
        (r@[0].step.result, opt_chars(r@[0].write)) == hook_upsert(opt_chars_str(post_commit), "# sigil:post-commit"@),
        (r@[1].step.result, opt_chars(r@[1].write)) == hook_upsert(opt_chars_str(post_checkout), "# sigil:post-checkout"@),
{
    proof {
        lemma_hook_names_differ();
    }
    let mut plans: Vec<HookPlan> = Vec::new();
    let (r1, w1) = upsert_hook_script(post_commit, sentinel_for("post-commit"));
    plans.push(HookPlan { step: HookStep { name: String::from_str("post-commit"), result: r1 }, write: w1 });
    let (r2, w2) = upsert_hook_script(post_checkout, sentinel_for("post-checkout"));
    plans.push(HookPlan { step: HookStep { name: String::from_str("post-checkout"), result: r2 }, write: w2 });
    plans
}

pub open spec fn opt_chars_str(o: Option<&str>) -> Option<Seq<char>> {
    match o {
        Some(s) => Some(s@),
        None => None,
    }
}

/// Uninstall both hooks from their current scripts, `post-commit` first:
/// `Removed` where sigil's part was found, `NotPresent` elsewhere.
pub fn uninstall(post_commit: Option<&str>, post_checkout: Option<&str>) -> (r: Vec<HookRemoval>)
    ensures
        r@.len() == 2,
        r@[0].step.name@ == "post-commit"@,
        r@[1].step.name@ == "post-checkout"@,
        action_view(r@[0].action) == hook_removal(opt_chars_str(post_commit), "# sigil:post-commit"@),
        action_view(r@[1].action) == hook_removal(opt_chars_str(post_checkout), "# sigil:post-checkout"@),
        r@[0].step.result == (if action_view(r@[0].action) is Some { HookResult::Removed } else { HookResult::NotPresent }),
        r@[1].step.result == (if action_view(r@[1].action) is Some { HookResult::Removed } else { HookResult::NotPresent }),
{
    proof {
        lemma_hook_names_differ();
    }
    let mut out: Vec<HookRemoval> = Vec::new();
    let (f1, a1) = remove_hook_script(post_commit, sentinel_for("post-commit"));
    out.push(HookRemoval {
        step: HookStep {
            name: String::from_str("post-commit"),
            result: if f1 { HookResult::Removed } else { HookResult::NotPresent },
        },
        action: a1,
    });
    let (f2, a2) = remove_hook_script(post_checkout, sentinel_for("post-checkout"));
    out.push(HookRemoval {
        step: HookStep {
            name: String::from_str("post-checkout"),
            result: if f2 { HookResult::Removed } else { HookResult::NotPresent },
        },
        action: a2,
    });
    out
}

// ---------------------------------------------------------------------
// Laws
// ---------------------------------------------------------------------

/// The lines of sigil's part between its sentinel and its closing line.
pub open spec fn block_body() -> Seq<char> {
    "\n# Rebuild sigil's index in the background. Exits quietly; any\n# parse issues surface on the next explicit `sigil index` run.\n( sigil index --no-rank >/dev/null 2>&1 & ) || true\n"@
}

/// One of the two sentinels sigil uses.
pub open spec fn is_sentinel(s: Seq<char>) -> bool {
    s == "# sigil:post-commit"@ || s == "# sigil:post-checkout"@
}

proof fn lemma_sentinel_facts(s: Seq<char>)
    requires
        is_sentinel(s),
    ensures
        s.len() >= 8,
        s[0] == '#',
        forall|i: int| 0 < i < s.len() ==> s[i] != '#',
        s[7] == ':',
        forall|i: int| 0 <= i < s.len() && i != 7 ==> s[i] != ':',
        crate::install::single_line(s),
{
    reveal_strlit("# sigil:post-commit");
    reveal_strlit("# sigil:post-checkout");
}

proof fn lemma_block_body_facts()
    ensures
        block_body().len() > 0,
        block_body()[0] == '\n',
        forall|i: int| 0 <= i < block_body().len() ==> block_body()[i] != ':',
{
    reveal_strlit(
        "\n# Rebuild sigil's index in the background. Exits quietly; any\n# parse issues surface on the next explicit `sigil index` run.\n( sigil index --no-rank >/dev/null 2>&1 & ) || true\n",
    );
}

proof fn lemma_end_line_in_block(prefix: Seq<char>, s: Seq<char>)
    requires
        is_sentinel(s),
    ensures
        sigil_block_text(s) == s + block_body() + end_line(s),
        first_match(prefix + sigil_block_text(s), end_line(s), prefix.len() as int) == Some(
            (prefix.len() + s.len() + block_body().len()) as int,
        ),
{
    lemma_sentinel_facts(s);
    lemma_block_body_facts();
    reveal_strlit(" end\n");
    let b = s + block_body() + end_line(s);
    assert(sigil_block_text(s) == b);
    let y = prefix + b;
    let e = end_line(s);
    let p = prefix.len() as int;
    let target = p + s.len() + block_body().len();
    assert(e[7] == ':');
    assert(e[s.len() as int] == ' ');
    assert forall|k: int| p <= k < target implies !occurs_at(y, e, k) by {
        if occurs_at(y, e, k) {
            let j = k - p;
            assert(y.subrange(k, k + e.len())[7] == y[k + 7]);
            assert(y[k + 7] == ':');
            assert(y[k + 7] == b[j + 7]);
            if j == 0 {
                assert(y.subrange(k, k + e.len())[s.len() as int] == y[k + s.len()]);
                assert(b[s.len() as int] == block_body()[0]);
            } else if j + 7 < s.len() {
                assert(b[j + 7] == s[j + 7]);
            } else if j + 7 < s.len() + block_body().len() {
                assert(b[j + 7] == block_body()[j + 7 - s.len()]);
            } else {
                assert(b[j + 7] == e[j + 7 - s.len() - block_body().len()]);
                assert(e[j + 7 - s.len() - block_body().len()] == s[j + 7 - s.len() - block_body().len()]);
            }
        }
    }
    assert(y.subrange(target, target + e.len()) == e);
    crate::text::lemma_first_match(y, e, p, Some(target));
}

/// The script before sigil's part after an install over `t`.
pub open spec fn installed_prefix(t: Option<Seq<char>>) -> Seq<char> {
    match t {
        None => "#!/bin/sh\n"@,
        Some(text) => if text.len() > 0 && text.last() == '\n' {
            text
        } else {
            text + "\n"@
        },
    }
}

proof fn lemma_split_installed(t: Option<Seq<char>>, s: Seq<char>)
    requires
        is_sentinel(s),
        t matches Some(text) ==> !crate::text::contains_sub(text, s),
    ensures
        hook_upsert(t, s).1 == Some(installed_prefix(t) + sigil_block_text(s)),
        split_block(installed_prefix(t) + sigil_block_text(s), s) == Some(
            (installed_prefix(t), Seq::<char>::empty()),
        ),
{
    lemma_sentinel_facts(s);
    reveal_strlit("\n");
    reveal_strlit("#!/bin/sh\n");
    let pre = installed_prefix(t);
    let blk = sigil_block_text(s);
    let (tt, sep): (Seq<char>, Seq<char>) = match t {
        None => ("#!/bin/sh"@, "\n"@),
        Some(text) => if text.len() > 0 && text.last() == '\n' {
            (text, Seq::empty())
        } else {
            (text, "\n"@)
        },
    };
    reveal_strlit("#!/bin/sh");
    assert(tt + sep == pre);
    if let Some(text) = t {
        assert forall|j: int| 0 <= j implies !occurs_at(text, s, j) by {}
        crate::text::lemma_first_match(text, s, 0, None);
    }
    if t is None {
        assert forall|i: int| !occurs_at(tt, s, i) by {
            if occurs_at(tt, s, i) {
                assert(tt.subrange(i, i + s.len())[1] == tt[i + 1]);
                assert(tt.subrange(i, i + s.len())[0] == tt[i]);
            }
        }
    }
    assert(blk.subrange(0, s.len() as int) == s);
    lemma_first_after_prefix(tt, sep, blk, s);
    assert(pre + blk == tt + sep + blk);
    lemma_end_line_in_block(pre, s);
    let y = pre + blk;
    assert(y.take(pre.len() as int) == pre);
    assert(y.skip((pre.len() + s.len() + block_body().len() + end_line(s).len()) as int) =~= Seq::<char>::empty());
}

/// Reinstalling over a script whose sigil part was put back in place
/// finds that part where it was left.
proof fn lemma_split_replaced(text: Seq<char>, s: Seq<char>)
    requires
        is_sentinel(s),
        split_block(text, s) is Some,
    ensures
        split_block(
            split_block(text, s).unwrap().0 + sigil_block_text(s) + split_block(text, s).unwrap().1,
            s,
        ) == split_block(text, s),
{
    lemma_sentinel_facts(s);
    crate::install::lemma_first_match_found(text, s, 0);
    let b = first_match(text, s, 0).unwrap();
    let (before, after) = split_block(text, s).unwrap();
    assert(before == text.take(b));
    let blk = sigil_block_text(s);
    let y = before + blk + after;
    lemma_end_line_in_block(before, s);
    assert forall|k: int| 0 <= k < b implies !occurs_at(y, s, k) by {
        if occurs_at(y, s, k) {
            if k + s.len() <= b {
                assert(y.subrange(k, k + s.len()) =~= text.subrange(k, k + s.len())) by {
                    assert forall|m: int| 0 <= m < s.len() implies #[trigger] y.subrange(k, k + s.len())[m]
                        == text.subrange(k, k + s.len())[m] by {
                        assert(y[k + m] == before[k + m]);
                    }
                }
                assert(occurs_at(text, s, k));
            } else {
                assert(y.subrange(k, k + s.len())[b - k] == y[b]);
                assert(y[b] == blk[0]);
                assert(blk[0] == s[0]);
                assert(s[b - k] == '#');
            }
        }
    }
    assert(y.subrange(b, b + s.len()) =~= s) by {
        assert forall|m: int| 0 <= m < s.len() implies #[trigger] y.subrange(b, b + s.len())[m] == s[m] by {
            assert(y[b + m] == blk[m]);
        }
    }
    crate::text::lemma_first_match(y, s, 0, Some(b));
    let e = b + s.len() + block_body().len();
    let el = end_line(s).len();
    assert((before + blk).take((before + blk).len() as int) =~= before + blk);
    assert(y.take((before + blk).len() as int) =~= before + blk);
    assert(e + el == (before + blk).len());
    crate::install::lemma_first_match_in_prefix(before + blk, y, end_line(s), b);
    assert(y.take(b) =~= before);
    assert(y.skip(e + el) =~= after);
}

/// The script a hook holds after installing over `t` (`None`: no script).
pub open spec fn script_after_install(t: Option<Seq<char>>, s: Seq<char>) -> Seq<char> {
    match hook_upsert(t, s).1 {
        Some(w) => w,
        None => match t {
            Some(x) => x,
            None => Seq::empty(),
        },
    }
}

/// Installing a hook a second time changes nothing: whatever the script
/// was (missing, the user's own, or one already holding sigil's part),
/// reinstalling over what the install left is `Unchanged` and writes
/// nothing. A script holding the sentinel without its closing line is
/// left out: the first install appends a second part after it.
pub proof fn law_hook_reinstall_is_noop(t: Option<Seq<char>>, s: Seq<char>)
    requires
        is_sentinel(s),
        t matches Some(text) ==> (!crate::text::contains_sub(text, s) || split_block(text, s) is Some),
    ensures
        hook_upsert(Some(script_after_install(t, s)), s) == (HookResult::Unchanged, None::<Seq<char>>),
{
    if t matches Some(text) && split_block(text, s) is Some {
        let text = t.unwrap();
        let (before, after) = split_block(text, s).unwrap();
        if before + sigil_block_text(s) + after != text {
            lemma_split_replaced(text, s);
        }
    } else {
        lemma_split_installed(t, s);
        let y = installed_prefix(t) + sigil_block_text(s);
        assert(installed_prefix(t) + sigil_block_text(s) + Seq::<char>::empty() == y);
    }
}

/// Installing over a user's script without sigil's part always writes
/// it back: the script is kept, with sigil's part after it.
pub proof fn law_hook_install_preserves_script(text: Seq<char>, s: Seq<char>)
    requires
        is_sentinel(s),
        !crate::text::contains_sub(text, s),
    ensures
        hook_upsert(Some(text), s).0 == HookResult::Updated,
        hook_upsert(Some(text), s).1 is Some,
        crate::text::is_prefix(text, hook_upsert(Some(text), s).1.unwrap()),
{
    lemma_split_installed(Some(text), s);
    reveal_strlit("\n");
    let y = installed_prefix(Some(text)) + sigil_block_text(s);
    assert(y.subrange(0, text.len() as int) == text);
}

/// Uninstalling right after an install gives the user's script back
/// (trailing whitespace dropped, ending in a newline); a script that was
/// only a shebang or blank, or created by the install, is deleted.
pub proof fn law_hook_uninstall_restores_script(t: Option<Seq<char>>, s: Seq<char>)
    requires
        is_sentinel(s),
        t matches Some(text) ==> !crate::text::contains_sub(text, s),
    ensures
        hook_removal(Some(hook_upsert(t, s).1.unwrap()), s) == match t {
            None => Some(None::<Seq<char>>),
            Some(text) => if trim(text) == "#!/bin/sh"@ || trim(text).len() == 0 {
                Some(None::<Seq<char>>)
            } else {
                Some(Some(trim_end(text).push('\n')))
            },
        },
{
    lemma_split_installed(t, s);
    reveal_strlit("\n");
    reveal_strlit("#!/bin/sh\n");
    reveal_strlit("#!/bin/sh");
    let pre = installed_prefix(t);
    let text = match t {
        Some(x) => x,
        None => "#!/bin/sh"@,
    };
    assert(trim_end(pre) == trim_end(text)) by {
        if pre != text {
            let q = text.push('\n');
            assert(pre == q);
            assert(q.drop_last() == text);
            assert(crate::text::is_ws(q.last()));
        }
    }
    let joined = trim_end(pre) + Seq::<char>::empty();
    assert(joined == trim_end(text));
    crate::install::lemma_trim_of_trim_end(text);
    if trim(text).len() != 0 {
        crate::install::lemma_trim_end_last(text);
        let r = trim_end(text).push('\n');
        assert(r.last() == '\n');
        assert(trim_end(r) == trim_end(text)) by {
            assert(r.drop_last() == trim_end(text));
        }
        assert(trim(r) == trim(text)) by {
            assert(trim(r) == crate::text::trim_start(trim_end(r)));
        }
    } else {
        lemma_trim_end_shape(text);
        if trim_end(text).len() > 0 {
            assert(trim(trim_end(text)).len() == 0);
            lemma_trim_start_empty_means_ws(trim_end(text));
        }
        let r = trim_end(text).push('\n');
        assert(trim_end(text).len() == 0);
        assert(r == seq!['\n']);
        assert(trim_end(r) == trim_end(r.drop_last()));
        assert(r.drop_last().len() == 0);
    }
    if t is None {
        assert(trim(text) == text) by {
            assert(!crate::text::is_ws(text.last()));
            assert(!crate::text::is_ws(text[0]));
        }
    }
}

proof fn lemma_trim_end_shape(s: Seq<char>)
    ensures
        trim_end(s).len() == 0 || !crate::text::is_ws(trim_end(s).last()),
    decreases s.len(),
{
    if s.len() > 0 && crate::text::is_ws(s.last()) {
        lemma_trim_end_shape(s.drop_last());
    }
}

proof fn lemma_trim_start_empty_means_ws(s: Seq<char>)
    requires
        s.len() > 0,
        !crate::text::is_ws(s.last()),
    ensures
        crate::text::trim_start(s).len() > 0,
    decreases s.len(),
{
    if crate::text::is_ws(s[0]) {
        assert(s.drop_first().last() == s.last());
        lemma_trim_start_empty_means_ws(s.drop_first());
    }
}

} // verus!
