//! Markdown rendering of a structured diff.

use vstd::prelude::*;
use crate::fmt::{decimal, digit_char, join, push_chars, push_joined, push_num, push_str, views};
use crate::inline_diff::{DiffLine, DiffLineKind};
use crate::output::{
    BreakingEntry, DiffOutput, FileSection, MoveEntry, OutputEntity, OutputPattern,
    SnippetContext, TokenChange,
};
use crate::text::{chars_vec, first_index_of, lemma_first_index_of, lines, lines_of, str_eq, string_from, strip_cr};

verus! {

/// Options controlling markdown output rendering.
pub struct MarkdownOptions {
    pub use_emoji: bool,
    pub show_context: bool,
}

/// The display glyph for a concept, emoji or ASCII.
pub open spec fn glyph_text(concept: Seq<char>, emoji: bool) -> Seq<char> {
    if concept == "breaking"@ {
        if emoji { "\u{26A0}\u{FE0F}"@ } else { "!"@ }
    } else if concept == "added"@ {
        if emoji { "\u{2726}"@ } else { "+"@ }
    } else if concept == "modified"@ {
        "~"@
    } else if concept == "removed"@ {
        if emoji { "\u{2212}"@ } else { "-"@ }
    } else if concept == "renamed"@ {
        "\u{2248}"@
    } else if concept == "pattern"@ {
        "\u{2261}"@
    } else if concept == "move"@ {
        if emoji { "\u{2197}"@ } else { "=>"@ }
    } else if concept == "format"@ {
        "\u{00B7}"@
    } else {
        "?"@
    }
}

/// The display glyph for `concept`, respecting the emoji preference.
pub fn glyph(concept: &str, use_emoji: bool) -> (r: &'static str)
    ensures
        r@ == glyph_text(concept@, use_emoji),
{
    if str_eq(concept, "breaking") {
        if use_emoji { "\u{26A0}\u{FE0F}" } else { "!" }
    } else if str_eq(concept, "added") {
        if use_emoji { "\u{2726}" } else { "+" }
    } else if str_eq(concept, "modified") {
        "~"
    } else if str_eq(concept, "removed") {
        if use_emoji { "\u{2212}" } else { "-" }
    } else if str_eq(concept, "renamed") {
        "\u{2248}"
    } else if str_eq(concept, "pattern") {
        "\u{2261}"
    } else if str_eq(concept, "move") {
        if use_emoji { "\u{2197}" } else { "=>" }
    } else if str_eq(concept, "format") {
        "\u{00B7}"
    } else {
        "?"
    }
}

/// `base` alone when the head is `HEAD` or empty, else `base..head`.
pub open spec fn ref_spec_text(base: Seq<char>, head: Seq<char>) -> Seq<char> {
    if head == "HEAD"@ || head.len() == 0 {
        base
    } else {
        base + ".."@ + head
    }
}

/// The ref spec shown in headers.
pub fn format_ref_spec(base_ref: &str, head_ref: &str) -> (r: String)
    ensures
        r@ == ref_spec_text(base_ref@, head_ref@),
{
    if str_eq(head_ref, "HEAD") || head_ref.is_empty() {
        String::from_str(base_ref)
    } else {
        let mut out: Vec<char> = Vec::new();
        push_str(&mut out, base_ref);
        push_str(&mut out, "..");
        push_str(&mut out, head_ref);
        string_from(&out)
    }
}

/// `` `s` ``.
pub open spec fn ticked(s: Seq<char>) -> Seq<char> {
    "`"@ + s + "`"@
}

pub open spec fn ticked_all(items: Seq<String>) -> Seq<Seq<char>> {
    items.map_values(|s: String| ticked(s@))
}

/// The first `max_show` items backticked and space-separated, then
/// ` +N more` when some were left out; nothing for an empty list.
pub open spec fn collapsed_list_text(items: Seq<String>, max_show: nat, indent: Seq<char>) -> Seq<char> {
    if items.len() == 0 {
        Seq::empty()
    } else {
        let shown = ticked_all(items.take(if items.len() < max_show { items.len() as int } else { max_show as int }));
        if items.len() > max_show {
            indent + join(shown, " "@) + " +"@ + decimal((items.len() - max_show) as nat) + " more\n"@
        } else {
            indent + join(shown, " "@) + "\n"@
        }
    }
}

fn ticked_vec(s: &str) -> (r: Vec<char>)
    ensures
        r@ == ticked(s@),
{
    let mut out: Vec<char> = Vec::new();
    push_str(&mut out, "`");
    push_str(&mut out, s);
    push_str(&mut out, "`");
    out
}

fn ticked_prefix(items: &[String], n: usize) -> (r: Vec<Vec<char>>)
    requires
        n <= items@.len(),
    ensures
        views(r@) == ticked_all(items@.take(n as int)),
{
    let mut r: Vec<Vec<char>> = Vec::new();
    let mut i: usize = 0;
    while i < n
        invariant
            i <= n <= items@.len(),
            r@.len() == i,
            views(r@) == ticked_all(items@.take(i as int)),
        decreases n - i,
    {
        let t = ticked_vec(items[i].as_str());
        let ghost before = r@;
        r.push(t);
        assert(items@.take(i + 1) == items@.take(i as int).push(items@[i as int]));
        assert forall|k: int| 0 <= k < i implies views(r@)[k] == ticked_all(items@.take(i + 1))[k] by {
            assert(r@[k] == before[k]);
            assert(views(before)[k] == ticked_all(items@.take(i as int))[k]);
        }
        assert(views(r@) =~= ticked_all(items@.take(i + 1)));
        i += 1;
    }
    r
}

/// Renders a collapsed inline list.
fn render_collapsed_list(md: &mut Vec<char>, items: &[String], max_show: usize, indent: &str)
    ensures
        final(md)@ == old(md)@ + collapsed_list_text(items@, max_show as nat, indent@),
{
    if items.len() == 0 {
        return;
    }
    let n = if items.len() < max_show { items.len() } else { max_show };
    let shown = ticked_prefix(items, n);
    push_str(md, indent);
    push_joined(md, &shown, " ");
    if items.len() > max_show {
        push_str(md, " +");
        push_num(md, (items.len() - max_show) as u64);
        push_str(md, " more\n");
    } else {
        push_str(md, "\n");
    }
}

/// ` — sig+body`, ` — sig`, ` — body` or nothing for a modified entity.
pub open spec fn change_detail_suffix_text(e: OutputEntity) -> Seq<char> {
    let sig = e.sig_changed == Some(true);
    let body = e.body_changed == Some(true);
    if sig && body {
        " \u{2014} sig+body"@
    } else if sig {
        " \u{2014} sig"@
    } else if body {
        " \u{2014} body"@
    } else {
        Seq::empty()
    }
}

/// Builds the change-detail suffix for a modified entity.
fn build_change_detail_suffix(entity: &OutputEntity) -> (r: Vec<char>)
    ensures
        r@ == change_detail_suffix_text(*entity),
{
    let sig = match entity.sig_changed {
        Some(b) => b,
        None => false,
    };
    let body = match entity.body_changed {
        Some(b) => b,
        None => false,
    };
    let mut out: Vec<char> = Vec::new();
    if sig && body {
        push_str(&mut out, " \u{2014} sig+body");
    } else if sig {
        push_str(&mut out, " \u{2014} sig");
    } else if body {
        push_str(&mut out, " \u{2014} body");
    }
    out
}

/// The two lines of a move entry.
pub open spec fn move_text(mv: MoveEntry, emoji: bool) -> Seq<char> {
    let brk = if mv.breaking { " "@ + glyph_text("breaking"@, emoji) + " breaking"@ } else { Seq::empty() };
    "- "@ + glyph_text("move"@, emoji) + " `"@ + mv.entity@ + "` ("@ + mv.kind@ + ")"@ + brk + "  \n"@
        + "  `"@ + mv.from_file@ + "` \u{2192} `"@ + mv.to_file@ + "`\n"@
}

/// Renders a single move entry.
fn render_move(md: &mut Vec<char>, mv: &MoveEntry, opts: &MarkdownOptions)
    ensures
        final(md)@ == old(md)@ + move_text(*mv, opts.use_emoji),
{
    push_str(md, "- ");
    push_str(md, glyph("move", opts.use_emoji));
    push_str(md, " `");
    push_str(md, mv.entity.as_str());
    push_str(md, "` (");
    push_str(md, mv.kind.as_str());
    push_str(md, ")");
    if mv.breaking {
        push_str(md, " ");
        push_str(md, glyph("breaking", opts.use_emoji));
        push_str(md, " breaking");
    }
    push_str(md, "  \n");
    push_str(md, "  `");
    push_str(md, mv.from_file.as_str());
    push_str(md, "` \u{2192} `");
    push_str(md, mv.to_file.as_str());
    push_str(md, "`\n");
}

pub open spec fn opt_or(o: Option<String>, d: Seq<char>) -> Seq<char> {
    match o {
        Some(s) => s@,
        None => d,
    }
}

/// The part of a pattern bullet that names the pattern.
pub open spec fn pattern_head(p: OutputPattern, emoji: bool) -> Seq<char> {
    let g = glyph_text("pattern"@, emoji);
    if p.pattern_type@ == "rename"@ {
        "- "@ + g + " rename `"@ + opt_or(p.from_glob, "*"@) + "` \u{2192} `"@ + opt_or(p.to_glob, "*"@)
    } else {
        "- "@ + g + " "@ + p.pattern_type@ + " `"@ + opt_or(p.entity_name, "?"@)
    }
}

/// The bullet line of a pattern entry (the file listing follows it).
pub open spec fn pattern_line(p: OutputPattern, emoji: bool) -> Seq<char> {
    pattern_head(p, emoji) + "`  \u{00D7}"@ + decimal(p.file_count as nat) + " files  ("@
        + p.entity_kind@ + ")\n"@
}

pub open spec fn pattern_text(p: OutputPattern, emoji: bool) -> Seq<char> {
    pattern_line(p, emoji) + collapsed_list_text(p.files@, 3, "  "@)
}

fn push_opt_or(md: &mut Vec<char>, o: &Option<String>, d: &str)
    ensures
        final(md)@ == old(md)@ + opt_or(*o, d@),
{
    match o {
        Some(s) => push_str(md, s.as_str()),
        None => push_str(md, d),
    }
}

fn push_pattern_head(md: &mut Vec<char>, pat: &OutputPattern, opts: &MarkdownOptions)
    ensures
        final(md)@ == old(md)@ + pattern_head(*pat, opts.use_emoji),
{
    let g = glyph("pattern", opts.use_emoji);
    push_str(md, "- ");
    push_str(md, g);
    if str_eq(pat.pattern_type.as_str(), "rename") {
        push_str(md, " rename `");
        push_opt_or(md, &pat.from_glob, "*");
        push_str(md, "` \u{2192} `");
        push_opt_or(md, &pat.to_glob, "*");
    } else {
        push_str(md, " ");
        push_str(md, pat.pattern_type.as_str());
        push_str(md, " `");
        push_opt_or(md, &pat.entity_name, "?");
    }
}

/// Renders a single pattern entry.
fn render_pattern(md: &mut Vec<char>, pat: &OutputPattern, opts: &MarkdownOptions)
    ensures
        final(md)@ == old(md)@ + pattern_text(*pat, opts.use_emoji),
{
    push_pattern_head(md, pat, opts);
    push_str(md, "`  \u{00D7}");
    push_num(md, pat.file_count as u64);
    push_str(md, " files  (");
    push_str(md, pat.entity_kind.as_str());
    push_str(md, ")\n");
    render_collapsed_list(md, pat.files.as_slice(), 3, "  ");
}

/// One line of a hunk inside a fenced `diff` block.
pub open spec fn hunk_line_text(l: DiffLine) -> Seq<char> {
    match l.kind {
        DiffLineKind::Context => "   "@ + l.text@ + "\n"@,
        DiffLineKind::Removed => "  -"@ + l.text@ + "\n"@,
        DiffLineKind::Added => "  +"@ + l.text@ + "\n"@,
        DiffLineKind::Separator => "  ...\n"@,
    }
}

pub open spec fn hunks_text(ls: Seq<DiffLine>) -> Seq<char>
    decreases ls.len(),
{
    if ls.len() == 0 {
        Seq::empty()
    } else {
        hunks_text(ls.drop_last()) + hunk_line_text(ls.last())
    }
}

/// Each line indented by two spaces, newline-terminated.
pub open spec fn indented(ls: Seq<Seq<char>>) -> Seq<char>
    decreases ls.len(),
{
    if ls.len() == 0 {
        Seq::empty()
    } else {
        indented(ls.drop_last()) + "  "@ + ls.last() + "\n"@
    }
}

/// The fenced code block for a snippet: its diff hunks when present,
/// else the before and after snippets.
pub open spec fn context_text(ctx: SnippetContext) -> Seq<char> {
    match ctx.hunks {
        Some(h) => "  ```diff\n"@ + hunks_text(h@) + "  ```\n"@,
        None => "  ```"@ + ctx.language@ + "\n"@ + "  # before\n"@ + indented(lines(ctx.base_snippet@))
            + "  # after\n"@ + indented(lines(ctx.head_snippet@)) + "  ```\n"@,
    }
}

fn push_hunk_line(md: &mut Vec<char>, l: &DiffLine)
    ensures
        final(md)@ == old(md)@ + hunk_line_text(*l),
{
    match l.kind {
        DiffLineKind::Context => {
            push_str(md, "   ");
            push_str(md, l.text.as_str());
            push_str(md, "\n");
        },
        DiffLineKind::Removed => {
            push_str(md, "  -");
            push_str(md, l.text.as_str());
            push_str(md, "\n");
        },
        DiffLineKind::Added => {
            push_str(md, "  +");
            push_str(md, l.text.as_str());
            push_str(md, "\n");
        },
        DiffLineKind::Separator => {
            push_str(md, "  ...\n");
        },
    }
}

fn push_indented_lines(md: &mut Vec<char>, text: &str)
    ensures
        final(md)@ == old(md)@ + indented(lines(text@)),
{
    let tv = chars_vec(text);
    let ls = lines_of(&tv);
    let ghost start = md@;
    let ghost all = lines(text@);
    let mut i: usize = 0;
    while i < ls.len()
        invariant
            i <= ls@.len(),
            ls@.len() == all.len(),
            forall|k: int| 0 <= k < ls@.len() ==> (#[trigger] ls@[k])@ == all[k],
            md@ == start + indented(all.take(i as int)),
        decreases ls@.len() - i,
    {
        push_str(md, "  ");
        push_chars(md, &ls[i]);
        push_str(md, "\n");
        assert(all.take(i + 1).drop_last() == all.take(i as int));
        assert(all.take(i + 1).last() == ls@[i as int]@);
        i += 1;
    }
    assert(all.take(all.len() as int) == all);
}

/// Renders a fenced context code block for a snippet.
fn render_context_block(md: &mut Vec<char>, ctx: &SnippetContext)
    ensures
        final(md)@ == old(md)@ + context_text(*ctx),
{
    match &ctx.hunks {
        Some(hunks) => {
            push_str(md, "  ```diff\n");
            let ghost start = md@;
            let mut i: usize = 0;
            while i < hunks.len()
                invariant
                    i <= hunks@.len(),
                    md@ == start + hunks_text(hunks@.take(i as int)),
                decreases hunks@.len() - i,
            {
                push_hunk_line(md, &hunks[i]);
                assert(hunks@.take(i + 1).drop_last() == hunks@.take(i as int));
                i += 1;
            }
            assert(hunks@.take(hunks@.len() as int) == hunks@);
            push_str(md, "  ```\n");
        },
        None => {
            push_str(md, "  ```");
            push_str(md, ctx.language.as_str());
            push_str(md, "\n");
            push_str(md, "  # before\n");
            push_indented_lines(md, ctx.base_snippet.as_str());
            push_str(md, "  # after\n");
            push_indented_lines(md, ctx.head_snippet.as_str());
            push_str(md, "  ```\n");
        },
    }
}

/// One token change: `+`x``, `-`x`` or `` `a` → `b` ``.
pub open spec fn token_text(tc: TokenChange) -> Seq<char> {
    if tc.from@.len() == 0 {
        "+`"@ + tc.to@ + "`"@
    } else if tc.to@.len() == 0 {
        "-`"@ + tc.from@ + "`"@
    } else {
        "`"@ + tc.from@ + "` \u{2192} `"@ + tc.to@ + "`"@
    }
}

pub open spec fn tokens_line(tcs: Seq<TokenChange>) -> Seq<char> {
    if tcs.len() == 0 {
        Seq::empty()
    } else {
        "  > "@ + join(tcs.map_values(|t: TokenChange| token_text(t)), " \u{00B7} "@) + "\n"@
    }
}

/// The glyph for an entity's change.
pub open spec fn change_glyph_text(change: Seq<char>, emoji: bool) -> Seq<char> {
    if change == "added"@ || change == "modified"@ || change == "removed"@ || change == "renamed"@ {
        glyph_text(change, emoji)
    } else {
        "?"@
    }
}

pub open spec fn entity_prefix(e: OutputEntity, emoji: bool) -> Seq<char> {
    let brk = if e.breaking { glyph_text("breaking"@, emoji) + " "@ } else { Seq::empty() };
    "- "@ + brk + change_glyph_text(e.change@, emoji)
}

pub open spec fn entity_suffix(e: OutputEntity) -> Seq<char> {
    let detail = if e.change@ == "modified"@ { change_detail_suffix_text(e) } else { Seq::empty() };
    let rename = match e.old_name {
        Some(o) => " (was `"@ + o@ + "`)"@,
        None => Seq::empty(),
    };
    let pat = match e.pattern_ref {
        Some(p) => " \u{2282} "@ + p@,
        None => Seq::empty(),
    };
    detail + rename + pat
}

/// The bullet line of an entity (token changes and context follow it).
pub open spec fn entity_line_text(e: OutputEntity, emoji: bool) -> Seq<char> {
    entity_prefix(e, emoji) + " "@ + e.change@ + " `"@ + e.name@ + "` ("@ + e.kind@ + ")"@
        + entity_suffix(e) + "\n"@
}

pub open spec fn entity_text(e: OutputEntity, opts: MarkdownOptions) -> Seq<char> {
    let ctx = if opts.show_context {
        match e.context {
            Some(c) => context_text(c),
            None => Seq::empty(),
        }
    } else {
        Seq::empty()
    };
    entity_line_text(e, opts.use_emoji) + tokens_line(e.token_changes@) + ctx
}

fn token_vec(tc: &TokenChange) -> (r: Vec<char>)
    ensures
        r@ == token_text(*tc),
{
    let mut out: Vec<char> = Vec::new();
    if tc.from.as_str().is_empty() {
        push_str(&mut out, "+`");
        push_str(&mut out, tc.to.as_str());
        push_str(&mut out, "`");
    } else if tc.to.as_str().is_empty() {
        push_str(&mut out, "-`");
        push_str(&mut out, tc.from.as_str());
        push_str(&mut out, "`");
    } else {
        push_str(&mut out, "`");
        push_str(&mut out, tc.from.as_str());
        push_str(&mut out, "` \u{2192} `");
        push_str(&mut out, tc.to.as_str());
        push_str(&mut out, "`");
    }
    out
}

fn push_tokens_line(md: &mut Vec<char>, tcs: &Vec<TokenChange>)
    ensures
        final(md)@ == old(md)@ + tokens_line(tcs@),
{
    if tcs.len() == 0 {
        return;
    }
    let mut parts: Vec<Vec<char>> = Vec::new();
    let mut i: usize = 0;
    while i < tcs.len()
        invariant
            i <= tcs@.len(),
            parts@.len() == i,
            views(parts@) == tcs@.take(i as int).map_values(|t: TokenChange| token_text(t)),
        decreases tcs@.len() - i,
    {
        let v = token_vec(&tcs[i]);
        let ghost before = parts@;
        parts.push(v);
        assert forall|k: int| 0 <= k < i implies views(parts@)[k]
            == tcs@.take(i + 1).map_values(|t: TokenChange| token_text(t))[k] by {
            assert(parts@[k] == before[k]);
            assert(views(before)[k] == tcs@.take(i as int).map_values(|t: TokenChange| token_text(t))[k]);
        }
        assert(views(parts@) =~= tcs@.take(i + 1).map_values(|t: TokenChange| token_text(t)));
        i += 1;
    }
    assert(tcs@.take(tcs@.len() as int) == tcs@);
    push_str(md, "  > ");
    push_joined(md, &parts, " \u{00B7} ");
    push_str(md, "\n");
}

fn push_entity_prefix(md: &mut Vec<char>, entity: &OutputEntity, opts: &MarkdownOptions)
    ensures
        final(md)@ == old(md)@ + entity_prefix(*entity, opts.use_emoji),
{
    push_str(md, "- ");
    if entity.breaking {
        push_str(md, glyph("breaking", opts.use_emoji));
        push_str(md, " ");
    }
    let c = entity.change.as_str();
    if str_eq(c, "added") || str_eq(c, "modified") || str_eq(c, "removed") || str_eq(c, "renamed") {
        push_str(md, glyph(c, opts.use_emoji));
    } else {
        push_str(md, "?");
    }
}

fn push_entity_suffix(md: &mut Vec<char>, entity: &OutputEntity)
    ensures
        final(md)@ == old(md)@ + entity_suffix(*entity),
{
    let ghost start = md@;
    let ghost e = *entity;
    let ghost detail = if e.change@ == "modified"@ { change_detail_suffix_text(e) } else { Seq::<char>::empty() };
    let ghost rename = match e.old_name {
        Some(o) => " (was `"@ + o@ + "`)"@,
        None => Seq::<char>::empty(),
    };
    let ghost pat = match e.pattern_ref {
        Some(p) => " \u{2282} "@ + p@,
        None => Seq::<char>::empty(),
    };
    if str_eq(entity.change.as_str(), "modified") {
        let d = build_change_detail_suffix(entity);
        push_chars(md, &d);
    }
    assert(md@ == start + detail);
    let ghost mid = md@;
    match &entity.old_name {
        Some(o) => {
            push_str(md, " (was `");
            push_str(md, o.as_str());
            push_str(md, "`)");
        },
        None => {},
    }
    assert(md@ == mid + rename);
    let ghost mid2 = md@;
    match &entity.pattern_ref {
        Some(p) => {
            push_str(md, " \u{2282} ");
            push_str(md, p.as_str());
        },
        None => {},
    }
    assert(md@ == mid2 + pat);
    assert(md@ =~= start + (detail + rename + pat));
}

fn push_entity_line(md: &mut Vec<char>, entity: &OutputEntity, opts: &MarkdownOptions)
    ensures
        final(md)@ == old(md)@ + entity_line_text(*entity, opts.use_emoji),
{
    push_entity_prefix(md, entity, opts);
    push_str(md, " ");
    push_str(md, entity.change.as_str());
    push_str(md, " `");
    push_str(md, entity.name.as_str());
    push_str(md, "` (");
    push_str(md, entity.kind.as_str());
    push_str(md, ")");
    push_entity_suffix(md, entity);
    push_str(md, "\n");
}

/// Renders a single entity bullet, its token changes and (when asked for)
/// its context block.
fn render_entity(md: &mut Vec<char>, entity: &OutputEntity, opts: &MarkdownOptions)
    ensures
        final(md)@ == old(md)@ + entity_text(*entity, *opts),
{
    push_entity_line(md, entity, opts);
    push_tokens_line(md, &entity.token_changes);
    if opts.show_context {
        match &entity.context {
            Some(ctx) => render_context_block(md, ctx),
            None => {},
        }
    }
}


/// `[prefix + n]` when `n > 0`, else nothing.
pub open spec fn count_part(prefix: Seq<char>, n: usize, suffix: Seq<char>) -> Seq<Seq<char>> {
    if n > 0 { seq![prefix + decimal(n as nat) + suffix] } else { Seq::empty() }
}

/// The `+A ~M -R rN ·F` counts of a file header.
pub open spec fn file_count_parts(sec: FileSection) -> Seq<Seq<char>> {
    let s = sec.summary;
    count_part("+"@, s.added, Seq::empty()) + count_part("~"@, s.modified, Seq::empty())
        + count_part("-"@, s.removed, Seq::empty()) + count_part("r"@, s.renamed, Seq::empty())
        + count_part("\u{00B7}"@, s.formatting_only, Seq::empty())
}

pub open spec fn is_formatting_only(e: OutputEntity) -> bool {
    e.change@ == "formatting_only"@
}

/// The rendering of the structural (not formatting-only) entities.
pub open spec fn structural_text(es: Seq<OutputEntity>, opts: MarkdownOptions) -> Seq<char>
    decreases es.len(),
{
    if es.len() == 0 {
        Seq::empty()
    } else if is_formatting_only(es.last()) {
        structural_text(es.drop_last(), opts)
    } else {
        structural_text(es.drop_last(), opts) + entity_text(es.last(), opts)
    }
}

/// The names of the formatting-only entities, in order.
pub open spec fn formatting_names(es: Seq<OutputEntity>) -> Seq<Seq<char>>
    decreases es.len(),
{
    if es.len() == 0 {
        Seq::empty()
    } else if is_formatting_only(es.last()) {
        formatting_names(es.drop_last()).push(es.last().name@)
    } else {
        formatting_names(es.drop_last())
    }
}

/// The collapsed line for formatting-only entities.
pub open spec fn formatting_line(names: Seq<Seq<char>>, emoji: bool) -> Seq<char> {
    if names.len() == 0 {
        Seq::empty()
    } else {
        let shown = names.take(if names.len() < 3 { names.len() as int } else { 3 }).map_values(
            |n: Seq<char>| ticked(n),
        );
        let head = "- "@ + glyph_text("format"@, emoji) + " "@ + decimal(names.len()) + " formatting only: "@
            + join(shown, " "@);
        if names.len() > 3 {
            head + " +"@ + decimal((names.len() - 3) as nat) + " more\n"@
        } else {
            head + "\n"@
        }
    }
}

pub open spec fn file_section_text(sec: FileSection, opts: MarkdownOptions) -> Seq<char> {
    "`"@ + sec.file@ + "`  "@ + join(file_count_parts(sec), " "@) + "\n"@
        + structural_text(sec.entities@, opts) + formatting_line(formatting_names(sec.entities@), opts.use_emoji)
}

fn push_count_part(parts: &mut Vec<Vec<char>>, prefix: &str, n: usize, suffix: &str)
    ensures
        views(final(parts)@) == views(old(parts)@) + count_part(prefix@, n, suffix@),
{
    if n > 0 {
        let mut v: Vec<char> = Vec::new();
        push_str(&mut v, prefix);
        push_num(&mut v, n as u64);
        push_str(&mut v, suffix);
        let ghost before = parts@;
        parts.push(v);
        assert(views(parts@) =~= views(before) + count_part(prefix@, n, suffix@));
    } else {
        assert(views(old(parts)@) + count_part(prefix@, n, suffix@) == views(old(parts)@));
    }
}

fn file_count_vec(sec: &FileSection) -> (r: Vec<Vec<char>>)
    ensures
        views(r@) == file_count_parts(*sec),
{
    let mut parts: Vec<Vec<char>> = Vec::new();
    proof {
        reveal_strlit("");
    }
    assert(views(parts@) =~= Seq::<Seq<char>>::empty());
    let s = &sec.summary;
    push_count_part(&mut parts, "+", s.added, "");
    assert(views(parts@) =~= count_part("+"@, s.added, ""@));
    push_count_part(&mut parts, "~", s.modified, "");
    push_count_part(&mut parts, "-", s.removed, "");
    push_count_part(&mut parts, "r", s.renamed, "");
    push_count_part(&mut parts, "\u{00B7}", s.formatting_only, "");
    assert(views(parts@) =~= file_count_parts(*sec));
    parts
}

fn push_formatting_line(md: &mut Vec<char>, names: &Vec<Vec<char>>, opts: &MarkdownOptions)
    ensures
        final(md)@ == old(md)@ + formatting_line(views(names@), opts.use_emoji),
{
    let count = names.len();
    if count == 0 {
        return;
    }
    let n = if count < 3 { count } else { 3 };
    let mut shown: Vec<Vec<char>> = Vec::new();
    let ghost nv = views(names@);
    let mut i: usize = 0;
    while i < n
        invariant
            i <= n <= names@.len(),
            n == (if names@.len() < 3 { names@.len() } else { 3 }),
            nv == views(names@),
            shown@.len() == i,
            views(shown@) == nv.take(i as int).map_values(|x: Seq<char>| ticked(x)),
        decreases n - i,
    {
        let mut v: Vec<char> = Vec::new();
        push_str(&mut v, "`");
        push_chars(&mut v, &names[i]);
        push_str(&mut v, "`");
        let ghost before = shown@;
        shown.push(v);
        assert forall|k: int| 0 <= k < i implies views(shown@)[k]
            == nv.take(i + 1).map_values(|x: Seq<char>| ticked(x))[k] by {
            assert(shown@[k] == before[k]);
            assert(views(before)[k] == nv.take(i as int).map_values(|x: Seq<char>| ticked(x))[k]);
        }
        assert(views(shown@) =~= nv.take(i + 1).map_values(|x: Seq<char>| ticked(x)));
        i += 1;
    }
    push_str(md, "- ");
    push_str(md, glyph("format", opts.use_emoji));
    push_str(md, " ");
    push_num(md, count as u64);
    push_str(md, " formatting only: ");
    push_joined(md, &shown, " ");
    if count > 3 {
        push_str(md, " +");
        push_num(md, (count - 3) as u64);
        push_str(md, " more\n");
    } else {
        push_str(md, "\n");
    }
}

fn is_formatting_only_exec(e: &OutputEntity) -> (r: bool)
    ensures
        r == is_formatting_only(*e),
{
    str_eq(e.change.as_str(), "formatting_only")
}

/// Renders a file section: header with counts, each structural entity,
/// then the formatting-only entities collapsed into one line.
fn render_file_section(md: &mut Vec<char>, section: &FileSection, opts: &MarkdownOptions)
    ensures
        final(md)@ == old(md)@ + file_section_text(*section, *opts),
{
    let counts = file_count_vec(section);
    push_str(md, "`");
    push_str(md, section.file.as_str());
    push_str(md, "`  ");
    push_joined(md, &counts, " ");
    push_str(md, "\n");
    let ghost head = md@;
    let es = &section.entities;
    let mut names: Vec<Vec<char>> = Vec::new();
    let mut i: usize = 0;
    while i < es.len()
        invariant
            i <= es@.len(),
            md@ == head + structural_text(es@.take(i as int), *opts),
            views(names@) == formatting_names(es@.take(i as int)),
        decreases es@.len() - i,
    {
        assert(es@.take(i + 1).drop_last() == es@.take(i as int));
        assert(es@.take(i + 1).last() == es@[i as int]);
        if is_formatting_only_exec(&es[i]) {
            let n = chars_vec(es[i].name.as_str());
            let ghost before = names@;
            names.push(n);
            assert(views(names@) =~= views(before).push(es@[i as int].name@));
        } else {
            render_entity(md, &es[i], opts);
        }
        i += 1;
    }
    assert(es@.take(es@.len() as int) == es@);
    push_formatting_line(md, &names, opts);
}


pub open spec fn summary_parts(o: DiffOutput) -> Seq<Seq<char>> {
    let s = o.summary;
    count_part(Seq::empty(), s.added, " added"@) + count_part(Seq::empty(), s.modified, " modified"@)
        + count_part(Seq::empty(), s.removed, " removed"@) + count_part(Seq::empty(), s.renamed, " renamed"@)
        + count_part(Seq::empty(), s.formatting_only, " formatting"@)
}

pub open spec fn breaking_entry_text(b: BreakingEntry) -> Seq<char> {
    "`"@ + b.entity@ + "` ("@ + b.reason@ + ")"@
}

/// The footer: the counts, then the breaking entries when there are any.
pub open spec fn summary_text(o: DiffOutput, emoji: bool) -> Seq<char> {
    let first = join(summary_parts(o), " \u{00B7} "@) + "\n"@;
    if o.breaking@.len() == 0 {
        first
    } else {
        first + glyph_text("breaking"@, emoji) + " **breaking:** "@
            + join(o.breaking@.map_values(|b: BreakingEntry| breaking_entry_text(b)), " \u{00B7} "@) + "\n"@
    }
}

fn summary_vec(o: &DiffOutput) -> (r: Vec<Vec<char>>)
    ensures
        views(r@) == summary_parts(*o),
{
    let mut parts: Vec<Vec<char>> = Vec::new();
    proof {
        reveal_strlit("");
    }
    let s = &o.summary;
    push_count_part(&mut parts, "", s.added, " added");
    assert(views(parts@) =~= count_part(Seq::empty(), s.added, " added"@));
    push_count_part(&mut parts, "", s.modified, " modified");
    push_count_part(&mut parts, "", s.removed, " removed");
    push_count_part(&mut parts, "", s.renamed, " renamed");
    push_count_part(&mut parts, "", s.formatting_only, " formatting");
    assert(views(parts@) =~= summary_parts(*o));
    parts
}

fn push_breaking_entries(md: &mut Vec<char>, bs: &Vec<BreakingEntry>)
    ensures
        final(md)@ == old(md)@ + join(bs@.map_values(|b: BreakingEntry| breaking_entry_text(b)), " \u{00B7} "@),
{
    let mut parts: Vec<Vec<char>> = Vec::new();
    let mut i: usize = 0;
    while i < bs.len()
        invariant
            i <= bs@.len(),
            parts@.len() == i,
            views(parts@) == bs@.take(i as int).map_values(|b: BreakingEntry| breaking_entry_text(b)),
        decreases bs@.len() - i,
    {
        let mut v: Vec<char> = Vec::new();
        push_str(&mut v, "`");
        push_str(&mut v, bs[i].entity.as_str());
        push_str(&mut v, "` (");
        push_str(&mut v, bs[i].reason.as_str());
        push_str(&mut v, ")");
        let ghost before = parts@;
        parts.push(v);
        assert forall|k: int| 0 <= k < i implies views(parts@)[k]
            == bs@.take(i + 1).map_values(|b: BreakingEntry| breaking_entry_text(b))[k] by {
            assert(parts@[k] == before[k]);
            assert(views(before)[k] == bs@.take(i as int).map_values(|b: BreakingEntry| breaking_entry_text(b))[k]);
        }
        assert(views(parts@) =~= bs@.take(i + 1).map_values(|b: BreakingEntry| breaking_entry_text(b)));
        i += 1;
    }
    assert(bs@.take(bs@.len() as int) == bs@);
    push_joined(md, &parts, " \u{00B7} ");
}

/// Renders the bottom summary and breaking entries.
fn render_summary(md: &mut Vec<char>, output: &DiffOutput, opts: &MarkdownOptions)
    ensures
        final(md)@ == old(md)@ + summary_text(*output, opts.use_emoji),
{
    let parts = summary_vec(output);
    push_joined(md, &parts, " \u{00B7} ");
    push_str(md, "\n");
    if output.breaking.len() > 0 {
        push_str(md, glyph("breaking", opts.use_emoji));
        push_str(md, " **breaking:** ");
        push_breaking_entries(md, &output.breaking);
        push_str(md, "\n");
    }
}

pub open spec fn files_note(files: usize) -> Seq<char> {
    decimal(files as nat) + " file"@ + if files == 1 { Seq::empty() } else { "s"@ }
}

pub open spec fn header_first_line(o: DiffOutput, emoji: bool) -> Seq<char> {
    let rs = ref_spec_text(o.meta.base_ref@, o.meta.head_ref@);
    if o.summary.has_breaking {
        glyph_text("breaking"@, emoji) + " **sigil diff** `"@ + rs + "` \u{2014} "@
            + files_note(o.summary.files_changed) + ", **"@ + decimal(o.breaking@.len()) + " breaking**"@
    } else {
        "**sigil diff** `"@ + rs + "` \u{2014} "@ + files_note(o.summary.files_changed)
    }
}

/// The header line (and the summary line under it, when there is one).
pub open spec fn header_text(o: DiffOutput, emoji: bool) -> Seq<char> {
    match o.summary.summary_line {
        Some(l) => header_first_line(o, emoji) + "\n\n_"@ + l@ + "_"@,
        None => header_first_line(o, emoji),
    }
}

fn push_file_count(md: &mut Vec<char>, files: usize)
    ensures
        final(md)@ == old(md)@ + files_note(files),
{
    push_num(md, files as u64);
    push_str(md, " file");
    if files != 1 {
        push_str(md, "s");
    }
}

fn push_breaking_header(md: &mut Vec<char>, output: &DiffOutput, ref_spec: &str, opts: &MarkdownOptions)
    requires
        ref_spec@ == ref_spec_text(output.meta.base_ref@, output.meta.head_ref@),
        output.summary.has_breaking,
    ensures
        final(md)@ == old(md)@ + header_first_line(*output, opts.use_emoji),
{
    push_str(md, glyph("breaking", opts.use_emoji));
    push_str(md, " **sigil diff** `");
    push_str(md, ref_spec);
    push_str(md, "` \u{2014} ");
    push_file_count(md, output.summary.files_changed);
    push_str(md, ", **");
    push_num(md, output.breaking.len() as u64);
    push_str(md, " breaking**");
}

fn push_plain_header(md: &mut Vec<char>, output: &DiffOutput, ref_spec: &str, opts: &MarkdownOptions)
    requires
        ref_spec@ == ref_spec_text(output.meta.base_ref@, output.meta.head_ref@),
        !output.summary.has_breaking,
    ensures
        final(md)@ == old(md)@ + header_first_line(*output, opts.use_emoji),
{
    push_str(md, "**sigil diff** `");
    push_str(md, ref_spec);
    push_str(md, "` \u{2014} ");
    push_file_count(md, output.summary.files_changed);
}

/// Renders the header line.
fn render_header(md: &mut Vec<char>, output: &DiffOutput, opts: &MarkdownOptions)
    ensures
        final(md)@ == old(md)@ + header_text(*output, opts.use_emoji),
{
    let ref_spec = format_ref_spec(output.meta.base_ref.as_str(), output.meta.head_ref.as_str());
    if output.summary.has_breaking {
        push_breaking_header(md, output, ref_spec.as_str(), opts);
    } else {
        push_plain_header(md, output, ref_spec.as_str(), opts);
    }
    match &output.summary.summary_line {
        Some(l) => {
            push_str(md, "\n\n_");
            push_str(md, l.as_str());
            push_str(md, "_");
        },
        None => {},
    }
}

pub open spec fn total_changes(o: DiffOutput) -> int {
    o.summary.added + o.summary.removed + o.summary.modified + o.summary.renamed + o.summary.moves
        + o.summary.formatting_only
}

/// Nothing changed at all: no counts and no sections.
pub open spec fn is_empty_diff(o: DiffOutput) -> bool {
    total_changes(o) == 0 && o.files@.len() == 0 && o.moves@.len() == 0 && o.patterns@.len() == 0
}

pub open spec fn patterns_text(ps: Seq<OutputPattern>, emoji: bool) -> Seq<char>
    decreases ps.len(),
{
    if ps.len() == 0 {
        Seq::empty()
    } else {
        patterns_text(ps.drop_last(), emoji) + pattern_text(ps.last(), emoji)
    }
}

pub open spec fn moves_text(ms: Seq<MoveEntry>, emoji: bool) -> Seq<char>
    decreases ms.len(),
{
    if ms.len() == 0 {
        Seq::empty()
    } else {
        moves_text(ms.drop_last(), emoji) + move_text(ms.last(), emoji)
    }
}

pub open spec fn files_text(fs: Seq<FileSection>, opts: MarkdownOptions) -> Seq<char>
    decreases fs.len(),
{
    if fs.len() == 0 {
        Seq::empty()
    } else {
        files_text(fs.drop_last(), opts) + "\n"@ + file_section_text(fs.last(), opts)
    }
}

/// The whole markdown rendering of a non-empty diff.
pub open spec fn markdown_text(o: DiffOutput, opts: MarkdownOptions) -> Seq<char> {
    let emoji = opts.use_emoji;
    let has_p = o.patterns@.len() > 0;
    let has_m = o.moves@.len() > 0;
    let pats = if has_p { "\n**patterns**\n"@ + patterns_text(o.patterns@, emoji) } else { Seq::empty() };
    let mvs = if has_m {
        (if has_p { "\n"@ } else { Seq::empty() }) + "\n**moves**\n"@ + moves_text(o.moves@, emoji)
    } else {
        Seq::empty()
    };
    let sep = if has_p || has_m { "\n---\n"@ } else { Seq::empty() };
    header_text(o, emoji) + "\n\n---\n"@ + pats + mvs + sep + files_text(o.files@, opts) + "\n---\n\n"@
        + summary_text(o, emoji)
}

/// Two entities that differ at most in their context snippet.
pub open spec fn same_but_context(e1: OutputEntity, e2: OutputEntity) -> bool {
    OutputEntity { context: e2.context, ..e1 } == e2
}

/// Two entity lists that differ at most in their context snippets.
pub open spec fn entities_same_but_context(es1: Seq<OutputEntity>, es2: Seq<OutputEntity>) -> bool {
    es1.len() == es2.len() && forall|k: int| 0 <= k < es1.len() ==> same_but_context(#[trigger] es1[k], es2[k])
}

/// Two file sections that differ at most in their entities' snippets.
pub open spec fn sections_same_but_context(s1: FileSection, s2: FileSection) -> bool {
    FileSection { entities: s2.entities, ..s1 } == s2 && entities_same_but_context(s1.entities@, s2.entities@)
}

/// Two diffs that differ at most in their entities' context snippets.
pub open spec fn outputs_same_but_context(o1: DiffOutput, o2: DiffOutput) -> bool {
    &&& DiffOutput { files: o2.files, ..o1 } == o2
    &&& o1.files@.len() == o2.files@.len()
    &&& forall|k: int| 0 <= k < o1.files@.len() ==> sections_same_but_context(#[trigger] o1.files@[k], o2.files@[k])
}

proof fn lemma_entities_text_without_context(es1: Seq<OutputEntity>, es2: Seq<OutputEntity>, opts: MarkdownOptions)
    requires
        !opts.show_context,
        entities_same_but_context(es1, es2),
    ensures
        structural_text(es1, opts) == structural_text(es2, opts),
        formatting_names(es1) == formatting_names(es2),
    decreases es1.len(),
{
    if es1.len() > 0 {
        let d1 = es1.drop_last();
        let d2 = es2.drop_last();
        assert(entities_same_but_context(d1, d2)) by {
            assert forall|k: int| 0 <= k < d1.len() implies same_but_context(#[trigger] d1[k], d2[k]) by {
                assert(same_but_context(es1[k], es2[k]));
            }
        }
        lemma_entities_text_without_context(d1, d2, opts);
        let e1 = es1.last();
        let e2 = es2.last();
        assert(same_but_context(es1[es1.len() - 1], es2[es2.len() - 1]));
        assert(e2.change == e1.change && e2.name == e1.name && e2.kind == e1.kind);
        assert(entity_text(e1, opts) == entity_text(e2, opts));
    }
}

proof fn lemma_files_text_without_context(fs1: Seq<FileSection>, fs2: Seq<FileSection>, opts: MarkdownOptions)
    requires
        !opts.show_context,
        fs1.len() == fs2.len(),
        forall|k: int| 0 <= k < fs1.len() ==> sections_same_but_context(#[trigger] fs1[k], fs2[k]),
    ensures
        files_text(fs1, opts) == files_text(fs2, opts),
    decreases fs1.len(),
{
    if fs1.len() > 0 {
        let d1 = fs1.drop_last();
        let d2 = fs2.drop_last();
        assert forall|k: int| 0 <= k < d1.len() implies sections_same_but_context(#[trigger] d1[k], d2[k]) by {
            assert(sections_same_but_context(fs1[k], fs2[k]));
        }
        lemma_files_text_without_context(d1, d2, opts);
        let s1 = fs1.last();
        let s2 = fs2.last();
        assert(sections_same_but_context(fs1[fs1.len() - 1], fs2[fs2.len() - 1]));
        lemma_entities_text_without_context(s1.entities@, s2.entities@, opts);
        assert(s2.file == s1.file && s2.summary == s1.summary);
        assert(file_section_text(s1, opts) == file_section_text(s2, opts));
    }
}

/// Law of the markdown report: with context snippets switched off, the
/// snippets of the entities change nothing in the report.
pub proof fn law_context_hidden_when_disabled(o1: DiffOutput, o2: DiffOutput, opts: MarkdownOptions)
    requires
        !opts.show_context,
        outputs_same_but_context(o1, o2),
    ensures
        is_empty_diff(o1) == is_empty_diff(o2),
        markdown_text(o1, opts) == markdown_text(o2, opts),
{
    lemma_files_text_without_context(o1.files@, o2.files@, opts);
    assert(o2.meta == o1.meta && o2.summary == o1.summary && o2.patterns == o1.patterns && o2.moves == o1.moves
        && o2.breaking == o1.breaking);
}

/// The one line of a report with no changes.
pub open spec fn empty_report(o: DiffOutput, emoji: bool) -> Seq<char> {
    (if emoji { "\u{2713}"@ } else { "ok"@ }) + " sigil diff `"@ + ref_spec_text(o.meta.base_ref@, o.meta.head_ref@)
        + "` \u{2014} no structural changes\n"@
}

/// The markdown report of a diff: the one line when nothing changed, else
/// the full rendering.
pub open spec fn report_text(o: DiffOutput, opts: MarkdownOptions) -> Seq<char> {
    if is_empty_diff(o) {
        empty_report(o, opts.use_emoji)
    } else {
        markdown_text(o, opts)
    }
}

proof fn lemma_no_dash_char(s: Seq<char>)
    requires
        forall|i: int| 0 <= i < s.len() ==> s[i] != '-',
    ensures
        !crate::text::contains_sub(s, "---"@),
{
    reveal_strlit("---");
    assert forall|i: int| !crate::text::occurs_at(s, "---"@, i) by {
        if crate::text::occurs_at(s, "---"@, i) {
            assert(s.subrange(i, i + 3)[0] == s[i]);
        }
    }
}

proof fn lemma_concat_no_dashes(x: Seq<char>, y: Seq<char>)
    requires
        !crate::text::contains_sub(x, "---"@),
        !crate::text::contains_sub(y, "---"@),
        x.len() == 0 || y.len() == 0 || x.last() != '-' || y[0] != '-',
    ensures
        !crate::text::contains_sub(x + y, "---"@),
{
    reveal_strlit("---");
    let z = x + y;
    assert forall|i: int| !crate::text::occurs_at(z, "---"@, i) by {
        if crate::text::occurs_at(z, "---"@, i) {
            let w = z.subrange(i, i + 3);
            assert(w[0] == z[i] && w[1] == z[i + 1] && w[2] == z[i + 2]);
            if i + 3 <= x.len() {
                assert(x.subrange(i, i + 3) =~= w);
                assert(crate::text::occurs_at(x, "---"@, i));
            } else if i >= x.len() {
                assert(y.subrange(i - x.len(), i - x.len() + 3) =~= w);
                assert(crate::text::occurs_at(y, "---"@, i - x.len()));
            } else {
                assert(z[x.len() - 1] == x.last());
                assert(z[x.len() as int] == y[0]);
            }
        }
    }
}

proof fn lemma_prefix_occurs(x: Seq<char>, y: Seq<char>, i: int)
    requires
        crate::text::occurs_at(x, "---"@, i),
    ensures
        crate::text::occurs_at(x + y, "---"@, i),
{
    reveal_strlit("---");
    assert((x + y).subrange(i, i + 3) =~= x.subrange(i, i + 3));
}

/// Law of the markdown report: it holds a `---` rule exactly when the diff
/// is not empty, provided the two refs hold no `---` themselves.
pub proof fn law_rule_marks_a_non_empty_report(o: DiffOutput, opts: MarkdownOptions)
    requires
        !crate::text::contains_sub(o.meta.base_ref@, "---"@),
        !crate::text::contains_sub(o.meta.head_ref@, "---"@),
    ensures
        crate::text::contains_sub(report_text(o, opts), "---"@) <==> !is_empty_diff(o),
{
    reveal_strlit("---");
    reveal_strlit("\n\n---\n");
    let emoji = opts.use_emoji;
    if is_empty_diff(o) {
        reveal_strlit("\u{2713}");
        reveal_strlit("ok");
        reveal_strlit(" sigil diff `");
        reveal_strlit("` \u{2014} no structural changes\n");
        reveal_strlit("..");
        let g = if emoji { "\u{2713}"@ } else { "ok"@ };
        let a = " sigil diff `"@;
        let c = "` \u{2014} no structural changes\n"@;
        let b = o.meta.base_ref@;
        let h = o.meta.head_ref@;
        lemma_no_dash_char(g);
        lemma_no_dash_char(a);
        lemma_no_dash_char(c);
        lemma_no_dash_char(".."@);
        let rs = ref_spec_text(b, h);
        if h == "HEAD"@ || h.len() == 0 {
            assert(rs == b);
        } else {
            lemma_concat_no_dashes(b, ".."@);
            lemma_concat_no_dashes(b + ".."@, h);
        }
        lemma_concat_no_dashes(g, a);
        lemma_concat_no_dashes(g + a, rs);
        lemma_concat_no_dashes(g + a + rs, c);
    } else {
        let hd = header_text(o, emoji);
        let q: int = hd.len() as int + 2;
        let rule = "\n\n---\n"@;
        assert(crate::text::occurs_at(hd + rule, "---"@, q)) by {
            assert((hd + rule).subrange(q, q + 3) =~= "---"@);
        }
        let has_p = o.patterns@.len() > 0;
        let has_m = o.moves@.len() > 0;
        let pats = if has_p { "\n**patterns**\n"@ + patterns_text(o.patterns@, emoji) } else { Seq::empty() };
        let mvs = if has_m {
            (if has_p { "\n"@ } else { Seq::empty() }) + "\n**moves**\n"@ + moves_text(o.moves@, emoji)
        } else {
            Seq::empty()
        };
        let sep = if has_p || has_m { "\n---\n"@ } else { Seq::empty() };
        let x1 = hd + rule;
        lemma_prefix_occurs(x1, pats, q);
        lemma_prefix_occurs(x1 + pats, mvs, q);
        lemma_prefix_occurs(x1 + pats + mvs, sep, q);
        lemma_prefix_occurs(x1 + pats + mvs + sep, files_text(o.files@, opts), q);
        lemma_prefix_occurs(x1 + pats + mvs + sep + files_text(o.files@, opts), "\n---\n\n"@, q);
        lemma_prefix_occurs(
            x1 + pats + mvs + sep + files_text(o.files@, opts) + "\n---\n\n"@,
            summary_text(o, emoji),
            q,
        );
    }
}

fn push_patterns(md: &mut Vec<char>, ps: &Vec<OutputPattern>, opts: &MarkdownOptions)
    ensures
        final(md)@ == old(md)@ + patterns_text(ps@, opts.use_emoji),
{
    let ghost start = md@;
    let mut i: usize = 0;
    while i < ps.len()
        invariant
            i <= ps@.len(),
            md@ == start + patterns_text(ps@.take(i as int), opts.use_emoji),
        decreases ps@.len() - i,
    {
        render_pattern(md, &ps[i], opts);
        assert(ps@.take(i + 1).drop_last() == ps@.take(i as int));
        i += 1;
    }
    assert(ps@.take(ps@.len() as int) == ps@);
}

fn push_moves(md: &mut Vec<char>, ms: &Vec<MoveEntry>, opts: &MarkdownOptions)
    ensures
        final(md)@ == old(md)@ + moves_text(ms@, opts.use_emoji),
{
    let ghost start = md@;
    let mut i: usize = 0;
    while i < ms.len()
        invariant
            i <= ms@.len(),
            md@ == start + moves_text(ms@.take(i as int), opts.use_emoji),
        decreases ms@.len() - i,
    {
        render_move(md, &ms[i], opts);
        assert(ms@.take(i + 1).drop_last() == ms@.take(i as int));
        i += 1;
    }
    assert(ms@.take(ms@.len() as int) == ms@);
}

fn push_files(md: &mut Vec<char>, fs: &Vec<FileSection>, opts: &MarkdownOptions)
    ensures
        final(md)@ == old(md)@ + files_text(fs@, *opts),
{
    let ghost start = md@;
    let mut i: usize = 0;
    while i < fs.len()
        invariant
            i <= fs@.len(),
            md@ == start + files_text(fs@.take(i as int), *opts),
        decreases fs@.len() - i,
    {
        push_str(md, "\n");
        render_file_section(md, &fs[i], opts);
        assert(fs@.take(i + 1).drop_last() == fs@.take(i as int));
        i += 1;
    }
    assert(fs@.take(fs@.len() as int) == fs@);
}

/// Patterns, moves and the rule after them, for a diff that has any.
pub open spec fn sections_text(o: DiffOutput, emoji: bool) -> Seq<char> {
    let sep = if o.patterns@.len() > 0 || o.moves@.len() > 0 { "\n---\n"@ } else { Seq::empty() };
    patterns_part(o, emoji) + moves_part(o, emoji) + sep
}

/// The patterns part of a diff's sections.
pub open spec fn patterns_part(o: DiffOutput, emoji: bool) -> Seq<char> {
    if o.patterns@.len() > 0 { "\n**patterns**\n"@ + patterns_text(o.patterns@, emoji) } else { Seq::empty() }
}

/// The moves part of a diff's sections.
pub open spec fn moves_part(o: DiffOutput, emoji: bool) -> Seq<char> {
    if o.moves@.len() > 0 {
        (if o.patterns@.len() > 0 { "\n"@ } else { Seq::empty() }) + "\n**moves**\n"@ + moves_text(o.moves@, emoji)
    } else {
        Seq::empty()
    }
}

fn push_pattern_part(md: &mut Vec<char>, output: &DiffOutput, opts: &MarkdownOptions)
    ensures
        final(md)@ == old(md)@ + patterns_part(*output, opts.use_emoji),
{
    if output.patterns.len() > 0 {
        push_str(md, "\n**patterns**\n");
        push_patterns(md, &output.patterns, opts);
    } else {
        assert(md@ + Seq::<char>::empty() =~= md@);
    }
}

fn push_move_part(md: &mut Vec<char>, output: &DiffOutput, opts: &MarkdownOptions)
    ensures
        final(md)@ == old(md)@ + moves_part(*output, opts.use_emoji),
{
    let ghost start = md@;
    if output.moves.len() > 0 {
        if output.patterns.len() > 0 {
            push_str(md, "\n");
        }
        let ghost lead = md@;
        push_str(md, "\n**moves**\n");
        push_moves(md, &output.moves, opts);
        assert(md@ =~= start + moves_part(*output, opts.use_emoji));
    } else {
        assert(md@ + Seq::<char>::empty() =~= md@);
    }
}

fn push_sections(md: &mut Vec<char>, output: &DiffOutput, opts: &MarkdownOptions)
    ensures
        final(md)@ == old(md)@ + sections_text(*output, opts.use_emoji),
{
    let ghost a = md@;
    push_pattern_part(md, output, opts);
    push_move_part(md, output, opts);
    let ghost c = md@;
    if output.patterns.len() > 0 || output.moves.len() > 0 {
        push_str(md, "\n---\n");
    }
    proof {
        let emoji = opts.use_emoji;
        let sep = if output.patterns@.len() > 0 || output.moves@.len() > 0 { "\n---\n"@ } else { Seq::<char>::empty() };
        assert(md@ == c + sep);
        assert(sections_text(*output, emoji) == patterns_part(*output, emoji) + moves_part(*output, emoji) + sep);
        assert(md@ =~= a + sections_text(*output, emoji));
    }
}

/// The one line of a diff without changes.
fn empty_line(output: &DiffOutput, opts: &MarkdownOptions) -> (r: String)
    ensures
        r@ == empty_report(*output, opts.use_emoji),
{
    let mut md: Vec<char> = Vec::new();
    let check = if opts.use_emoji { "\u{2713}" } else { "ok" };
    let rs = format_ref_spec(output.meta.base_ref.as_str(), output.meta.head_ref.as_str());
    push_str(&mut md, check);
    push_str(&mut md, " sigil diff `");
    push_str(&mut md, rs.as_str());
    push_str(&mut md, "` \u{2014} no structural changes\n");
    string_from(&md)
}

/// Formats a diff as markdown: a one-line "no structural changes" note
/// for an empty diff, else header, patterns, moves, file sections and
/// summary.
pub fn format_markdown(output: &DiffOutput, opts: &MarkdownOptions) -> (r: String)
    requires
        total_changes(*output) <= usize::MAX,
    ensures
        r@ == report_text(*output, *opts),
{
    let s = &output.summary;
    let total = s.added + s.removed + s.modified + s.renamed + s.moves + s.formatting_only;
    if total == 0 && output.files.len() == 0 && output.moves.len() == 0 && output.patterns.len() == 0 {
        return empty_line(output, opts);
    }
    let mut md: Vec<char> = Vec::new();
    render_header(&mut md, output, opts);
    push_str(&mut md, "\n\n---\n");
    let ghost a = md@;
    push_sections(&mut md, output, opts);
    push_files(&mut md, &output.files, opts);
    push_str(&mut md, "\n---\n\n");
    render_summary(&mut md, output, opts);
    proof {
        let emoji = opts.use_emoji;
        let sep = if output.patterns@.len() > 0 || output.moves@.len() > 0 { "\n---\n"@ } else { Seq::<char>::empty() };
        assert(a + sections_text(*output, emoji) =~= a + patterns_part(*output, emoji) + moves_part(*output, emoji) + sep);
        assert(markdown_text(*output, *opts) == header_text(*output, emoji) + "\n\n---\n"@ + patterns_part(*output, emoji)
            + moves_part(*output, emoji) + sep + files_text(output.files@, *opts) + "\n---\n\n"@ + summary_text(*output, emoji));
    }
    string_from(&md)
}

// ---------------------------------------------------------------------
// The ASCII mode prints no emoji glyph
// ---------------------------------------------------------------------

/// The glyphs only the emoji mode prints: warning sign, variation
/// selector, four-pointed star, minus sign, north-east arrow, check mark.
pub open spec fn is_emoji_glyph(c: char) -> bool {
    c == '\u{26A0}' || c == '\u{FE0F}' || c == '\u{2726}' || c == '\u{2212}' || c == '\u{2197}' || c == '\u{2713}'
}

/// `s` holds no emoji glyph.
pub open spec fn no_emoji(s: Seq<char>) -> bool {
    forall|i: int| 0 <= i < s.len() ==> !is_emoji_glyph(#[trigger] s[i])
}

pub broadcast proof fn lemma_no_emoji_add(a: Seq<char>, b: Seq<char>)
    requires
        no_emoji(a),
        no_emoji(b),
    ensures
        #[trigger] no_emoji(a + b),
{
    assert forall|i: int| 0 <= i < (a + b).len() implies !is_emoji_glyph(#[trigger] (a + b)[i]) by {
        if i < a.len() {
            assert((a + b)[i] == a[i]);
        } else {
            assert((a + b)[i] == b[i - a.len()]);
        }
    }
}

pub open spec fn opt_clean(o: Option<String>) -> bool {
    match o {
        Some(s) => no_emoji(s@),
        None => true,
    }
}

pub open spec fn all_clean(v: Seq<String>) -> bool {
    forall|k: int| 0 <= k < v.len() ==> no_emoji(#[trigger] v[k]@)
}

pub open spec fn context_clean(c: SnippetContext) -> bool {
    &&& no_emoji(c.base_snippet@)
    &&& no_emoji(c.head_snippet@)
    &&& no_emoji(c.language@)
    &&& match c.hunks {
        Some(h) => forall|k: int| 0 <= k < h@.len() ==> no_emoji(#[trigger] h@[k].text@),
        None => true,
    }
}

pub open spec fn entity_clean(e: OutputEntity) -> bool {
    &&& no_emoji(e.change@)
    &&& no_emoji(e.name@)
    &&& no_emoji(e.kind@)
    &&& opt_clean(e.old_name)
    &&& opt_clean(e.pattern_ref)
    &&& forall|k: int| 0 <= k < e.token_changes@.len() ==> no_emoji(#[trigger] e.token_changes@[k].from@)
        && no_emoji(e.token_changes@[k].to@)
    &&& match e.context {
        Some(c) => context_clean(c),
        None => true,
    }
}

pub open spec fn section_clean(s: FileSection) -> bool {
    no_emoji(s.file@) && forall|k: int| 0 <= k < s.entities@.len() ==> entity_clean(#[trigger] s.entities@[k])
}

pub open spec fn pattern_clean(p: OutputPattern) -> bool {
    &&& no_emoji(p.pattern_type@)
    &&& no_emoji(p.entity_kind@)
    &&& opt_clean(p.from_glob)
    &&& opt_clean(p.to_glob)
    &&& opt_clean(p.entity_name)
    &&& all_clean(p.files@)
}

pub open spec fn move_clean(m: MoveEntry) -> bool {
    no_emoji(m.entity@) && no_emoji(m.kind@) && no_emoji(m.from_file@) && no_emoji(m.to_file@)
}

/// Every text of the diff that the report can show holds no emoji glyph.
pub open spec fn output_clean(o: DiffOutput) -> bool {
    &&& no_emoji(o.meta.base_ref@)
    &&& no_emoji(o.meta.head_ref@)
    &&& opt_clean(o.summary.summary_line)
    &&& forall|k: int| 0 <= k < o.breaking@.len() ==> no_emoji(#[trigger] o.breaking@[k].entity@)
        && no_emoji(o.breaking@[k].reason@)
    &&& forall|k: int| 0 <= k < o.patterns@.len() ==> pattern_clean(#[trigger] o.patterns@[k])
    &&& forall|k: int| 0 <= k < o.moves@.len() ==> move_clean(#[trigger] o.moves@[k])
    &&& forall|k: int| 0 <= k < o.files@.len() ==> section_clean(#[trigger] o.files@[k])
}

proof fn lemma_decimal(n: nat)
    ensures
        no_emoji(decimal(n)),
    decreases n,
{
    broadcast use lemma_no_emoji_add;
    if n >= 10 {
        lemma_decimal(n / 10);
        let d = decimal(n / 10);
        assert(d.push(digit_char(n % 10)) == d + seq![digit_char(n % 10)]);
    }
}

proof fn lemma_join(parts: Seq<Seq<char>>, sep: Seq<char>)
    requires
        forall|k: int| 0 <= k < parts.len() ==> no_emoji(#[trigger] parts[k]),
        no_emoji(sep),
    ensures
        no_emoji(join(parts, sep)),
    decreases parts.len(),
{
    broadcast use lemma_no_emoji_add;
    if parts.len() > 1 {
        let d = parts.drop_last();
        assert forall|k: int| 0 <= k < d.len() implies no_emoji(#[trigger] d[k]) by {
            assert(d[k] == parts[k]);
        }
        lemma_join(d, sep);
        assert(no_emoji(parts[parts.len() - 1]));
    } else if parts.len() == 1 {
        assert(no_emoji(parts[0]));
    }
}

proof fn lemma_glyph(concept: Seq<char>)
    ensures
        no_emoji(glyph_text(concept, false)),
{
    broadcast use lemma_no_emoji_add;
    reveal_strlit("!");
    reveal_strlit("+");
    reveal_strlit("~");
    reveal_strlit("-");
    reveal_strlit("\u{2248}");
    reveal_strlit("\u{2261}");
    reveal_strlit("=>");
    reveal_strlit("\u{00B7}");
    reveal_strlit("?");
}

proof fn lemma_ref_spec(base: Seq<char>, head: Seq<char>)
    requires
        no_emoji(base),
        no_emoji(head),
    ensures
        no_emoji(ref_spec_text(base, head)),
{
    broadcast use lemma_no_emoji_add;
    reveal_strlit("..");
}

proof fn lemma_collapsed(items: Seq<String>, max_show: nat, indent: Seq<char>)
    requires
        all_clean(items),
        no_emoji(indent),
    ensures
        no_emoji(collapsed_list_text(items, max_show, indent)),
{
    broadcast use lemma_no_emoji_add;
    reveal_strlit("`");
    reveal_strlit(" ");
    reveal_strlit(" +");
    reveal_strlit(" more\n");
    reveal_strlit("\n");
    if items.len() > 0 {
        let t = items.take(if items.len() < max_show { items.len() as int } else { max_show as int });
        let shown = ticked_all(t);
        assert forall|k: int| 0 <= k < shown.len() implies no_emoji(#[trigger] shown[k]) by {
            assert(t[k] == items[k]);
            assert(no_emoji(items[k]@));
            assert(shown[k] == ticked(t[k]@));
        }
        lemma_join(shown, " "@);
        if items.len() > max_show {
            lemma_decimal((items.len() - max_show) as nat);
        }
    }
}

proof fn lemma_move(mv: MoveEntry)
    requires
        move_clean(mv),
    ensures
        no_emoji(move_text(mv, false)),
{
    broadcast use lemma_no_emoji_add;
    lemma_glyph("breaking"@);
    lemma_glyph("move"@);
    reveal_strlit(" ");
    reveal_strlit(" breaking");
    reveal_strlit("- ");
    reveal_strlit(" `");
    reveal_strlit("` (");
    reveal_strlit(")");
    reveal_strlit("  \n");
    reveal_strlit("  `");
    reveal_strlit("` \u{2192} `");
    reveal_strlit("`\n");
}

proof fn lemma_moves(ms: Seq<MoveEntry>)
    requires
        forall|k: int| 0 <= k < ms.len() ==> move_clean(#[trigger] ms[k]),
    ensures
        no_emoji(moves_text(ms, false)),
    decreases ms.len(),
{
    broadcast use lemma_no_emoji_add;
    if ms.len() > 0 {
        let d = ms.drop_last();
        assert forall|k: int| 0 <= k < d.len() implies move_clean(#[trigger] d[k]) by {
            assert(d[k] == ms[k]);
        }
        lemma_moves(d);
        lemma_move(ms.last());
    }
}

proof fn lemma_pattern(p: OutputPattern)
    requires
        pattern_clean(p),
    ensures
        no_emoji(pattern_text(p, false)),
{
    broadcast use lemma_no_emoji_add;
    lemma_glyph("pattern"@);
    reveal_strlit("- ");
    reveal_strlit(" rename `");
    reveal_strlit("*");
    reveal_strlit("` \u{2192} `");
    reveal_strlit(" ");
    reveal_strlit(" `");
    reveal_strlit("?");
    reveal_strlit("`  \u{00D7}");
    reveal_strlit(" files  (");
    reveal_strlit(")\n");
    reveal_strlit("  ");
    lemma_decimal(p.file_count as nat);
    lemma_collapsed(p.files@, 3, "  "@);
    assert(no_emoji(pattern_head(p, false)));
}

proof fn lemma_patterns(ps: Seq<OutputPattern>)
    requires
        forall|k: int| 0 <= k < ps.len() ==> pattern_clean(#[trigger] ps[k]),
    ensures
        no_emoji(patterns_text(ps, false)),
    decreases ps.len(),
{
    broadcast use lemma_no_emoji_add;
    if ps.len() > 0 {
        let d = ps.drop_last();
        assert forall|k: int| 0 <= k < d.len() implies pattern_clean(#[trigger] d[k]) by {
            assert(d[k] == ps[k]);
        }
        lemma_patterns(d);
        lemma_pattern(ps.last());
    }
}

proof fn lemma_hunks(ls: Seq<DiffLine>)
    requires
        forall|k: int| 0 <= k < ls.len() ==> no_emoji(#[trigger] ls[k].text@),
    ensures
        no_emoji(hunks_text(ls)),
    decreases ls.len(),
{
    broadcast use lemma_no_emoji_add;
    reveal_strlit("   ");
    reveal_strlit("  -");
    reveal_strlit("  +");
    reveal_strlit("\n");
    reveal_strlit("  ...\n");
    if ls.len() > 0 {
        let d = ls.drop_last();
        assert forall|k: int| 0 <= k < d.len() implies no_emoji(#[trigger] d[k].text@) by {
            assert(d[k] == ls[k]);
        }
        lemma_hunks(d);
        assert(no_emoji(ls[ls.len() - 1].text@));
        assert(no_emoji(hunk_line_text(ls.last())));
    }
}

proof fn lemma_lines(s: Seq<char>)
    requires
        no_emoji(s),
    ensures
        forall|k: int| 0 <= k < lines(s).len() ==> no_emoji(#[trigger] lines(s)[k]),
    decreases s.len(),
{
    broadcast use lemma_no_emoji_add;
    if s.len() > 0 {
        lemma_first_index_of(s, '\n');
        let i = first_index_of(s, '\n');
        if i >= 0 {
            let rest = s.skip(i + 1);
            assert forall|j: int| 0 <= j < rest.len() implies !is_emoji_glyph(#[trigger] rest[j]) by {
                assert(rest[j] == s[i + 1 + j]);
            }
            lemma_lines(rest);
            let first = strip_cr(s.take(i));
            assert forall|j: int| 0 <= j < first.len() implies !is_emoji_glyph(#[trigger] first[j]) by {
                assert(first[j] == s[j]);
            }
            let ls = lines(s);
            assert(ls == seq![first] + lines(rest));
            assert forall|k: int| 0 <= k < ls.len() implies no_emoji(#[trigger] ls[k]) by {
                if k > 0 {
                    assert(ls[k] == lines(rest)[k - 1]);
                }
            }
        } else {
            assert(lines(s) == seq![s]);
        }
    }
}

proof fn lemma_indented(ls: Seq<Seq<char>>)
    requires
        forall|k: int| 0 <= k < ls.len() ==> no_emoji(#[trigger] ls[k]),
    ensures
        no_emoji(indented(ls)),
    decreases ls.len(),
{
    broadcast use lemma_no_emoji_add;
    reveal_strlit("  ");
    reveal_strlit("\n");
    if ls.len() > 0 {
        let d = ls.drop_last();
        assert forall|k: int| 0 <= k < d.len() implies no_emoji(#[trigger] d[k]) by {
            assert(d[k] == ls[k]);
        }
        lemma_indented(d);
        assert(no_emoji(ls[ls.len() - 1]));
    }
}

proof fn lemma_context(c: SnippetContext)
    requires
        context_clean(c),
    ensures
        no_emoji(context_text(c)),
{
    broadcast use lemma_no_emoji_add;
    reveal_strlit("  ```diff\n");
    reveal_strlit("  ```\n");
    reveal_strlit("  ```");
    reveal_strlit("\n");
    reveal_strlit("  # before\n");
    reveal_strlit("  # after\n");
    match c.hunks {
        Some(h) => {
            lemma_hunks(h@);
        },
        None => {
            lemma_lines(c.base_snippet@);
            lemma_lines(c.head_snippet@);
            lemma_indented(lines(c.base_snippet@));
            lemma_indented(lines(c.head_snippet@));
        },
    }
}

proof fn lemma_tokens(tcs: Seq<TokenChange>)
    requires
        forall|k: int| 0 <= k < tcs.len() ==> no_emoji(#[trigger] tcs[k].from@) && no_emoji(tcs[k].to@),
    ensures
        no_emoji(tokens_line(tcs)),
{
    broadcast use lemma_no_emoji_add;
    reveal_strlit("+`");
    reveal_strlit("`");
    reveal_strlit("-`");
    reveal_strlit("` \u{2192} `");
    reveal_strlit("  > ");
    reveal_strlit(" \u{00B7} ");
    reveal_strlit("\n");
    if tcs.len() > 0 {
        let parts = tcs.map_values(|t: TokenChange| token_text(t));
        assert forall|k: int| 0 <= k < parts.len() implies no_emoji(#[trigger] parts[k]) by {
            assert(parts[k] == token_text(tcs[k]));
            assert(no_emoji(tcs[k].from@) && no_emoji(tcs[k].to@));
        }
        lemma_join(parts, " \u{00B7} "@);
    }
}

proof fn lemma_entity(e: OutputEntity, opts: MarkdownOptions)
    requires
        entity_clean(e),
        !opts.use_emoji,
    ensures
        no_emoji(entity_text(e, opts)),
{
    broadcast use lemma_no_emoji_add;
    lemma_glyph("breaking"@);
    lemma_glyph(e.change@);
    reveal_strlit(" ");
    reveal_strlit("- ");
    reveal_strlit("?");
    reveal_strlit(" `");
    reveal_strlit("` (");
    reveal_strlit(")");
    reveal_strlit("\n");
    reveal_strlit(" \u{2014} sig+body");
    reveal_strlit(" \u{2014} sig");
    reveal_strlit(" \u{2014} body");
    reveal_strlit(" (was `");
    reveal_strlit("`)");
    reveal_strlit(" \u{2282} ");
    assert(no_emoji(change_glyph_text(e.change@, false)));
    assert(no_emoji(entity_prefix(e, false)));
    assert(no_emoji(change_detail_suffix_text(e)));
    assert(no_emoji(entity_suffix(e)));
    assert(no_emoji(entity_line_text(e, false)));
    lemma_tokens(e.token_changes@);
    if opts.show_context {
        match e.context {
            Some(c) => lemma_context(c),
            None => {},
        }
    }
}

proof fn lemma_structural(es: Seq<OutputEntity>, opts: MarkdownOptions)
    requires
        forall|k: int| 0 <= k < es.len() ==> entity_clean(#[trigger] es[k]),
        !opts.use_emoji,
    ensures
        no_emoji(structural_text(es, opts)),
    decreases es.len(),
{
    broadcast use lemma_no_emoji_add;
    if es.len() > 0 {
        let d = es.drop_last();
        assert forall|k: int| 0 <= k < d.len() implies entity_clean(#[trigger] d[k]) by {
            assert(d[k] == es[k]);
        }
        lemma_structural(d, opts);
        lemma_entity(es.last(), opts);
    }
}

proof fn lemma_formatting_names(es: Seq<OutputEntity>)
    requires
        forall|k: int| 0 <= k < es.len() ==> entity_clean(#[trigger] es[k]),
    ensures
        forall|k: int| 0 <= k < formatting_names(es).len() ==> no_emoji(#[trigger] formatting_names(es)[k]),
    decreases es.len(),
{
    broadcast use lemma_no_emoji_add;
    if es.len() > 0 {
        let d = es.drop_last();
        assert forall|k: int| 0 <= k < d.len() implies entity_clean(#[trigger] d[k]) by {
            assert(d[k] == es[k]);
        }
        lemma_formatting_names(d);
        assert(entity_clean(es[es.len() - 1]));
        let prev = formatting_names(d);
        if is_formatting_only(es.last()) {
            assert forall|k: int| 0 <= k < prev.push(es.last().name@).len() implies no_emoji(
                #[trigger] prev.push(es.last().name@)[k],
            ) by {
                if k < prev.len() {
                    assert(prev.push(es.last().name@)[k] == prev[k]);
                }
            }
        }
    }
}

proof fn lemma_formatting_line(names: Seq<Seq<char>>)
    requires
        forall|k: int| 0 <= k < names.len() ==> no_emoji(#[trigger] names[k]),
    ensures
        no_emoji(formatting_line(names, false)),
{
    broadcast use lemma_no_emoji_add;
    lemma_glyph("format"@);
    reveal_strlit("- ");
    reveal_strlit(" ");
    reveal_strlit(" formatting only: ");
    reveal_strlit(" +");
    reveal_strlit(" more\n");
    reveal_strlit("\n");
    reveal_strlit("`");
    if names.len() > 0 {
        let t = names.take(if names.len() < 3 { names.len() as int } else { 3 });
        let shown = t.map_values(|n: Seq<char>| ticked(n));
        assert forall|k: int| 0 <= k < shown.len() implies no_emoji(#[trigger] shown[k]) by {
            assert(t[k] == names[k]);
            assert(shown[k] == ticked(t[k]));
        }
        lemma_join(shown, " "@);
        lemma_decimal(names.len());
        if names.len() > 3 {
            lemma_decimal((names.len() - 3) as nat);
        }
    }
}

proof fn lemma_count_part(prefix: Seq<char>, n: usize, suffix: Seq<char>)
    requires
        no_emoji(prefix),
        no_emoji(suffix),
    ensures
        forall|k: int| 0 <= k < count_part(prefix, n, suffix).len() ==> no_emoji(#[trigger] count_part(prefix, n, suffix)[k]),
{
    broadcast use lemma_no_emoji_add;
    lemma_decimal(n as nat);
}

proof fn lemma_parts_concat(a: Seq<Seq<char>>, b: Seq<Seq<char>>)
    requires
        forall|k: int| 0 <= k < a.len() ==> no_emoji(#[trigger] a[k]),
        forall|k: int| 0 <= k < b.len() ==> no_emoji(#[trigger] b[k]),
    ensures
        forall|k: int| 0 <= k < (a + b).len() ==> no_emoji(#[trigger] (a + b)[k]),
{
    broadcast use lemma_no_emoji_add;
    assert forall|k: int| 0 <= k < (a + b).len() implies no_emoji(#[trigger] (a + b)[k]) by {
        if k < a.len() {
            assert((a + b)[k] == a[k]);
        } else {
            assert((a + b)[k] == b[k - a.len()]);
        }
    }
}

proof fn lemma_section(sec: FileSection, opts: MarkdownOptions)
    requires
        section_clean(sec),
        !opts.use_emoji,
    ensures
        no_emoji(file_section_text(sec, opts)),
{
    broadcast use lemma_no_emoji_add;
    reveal_strlit("`");
    reveal_strlit("`  ");
    reveal_strlit(" ");
    reveal_strlit("\n");
    reveal_strlit("+");
    reveal_strlit("~");
    reveal_strlit("-");
    reveal_strlit("r");
    reveal_strlit("\u{00B7}");
    let s = sec.summary;
    let e = Seq::<char>::empty();
    lemma_count_part("+"@, s.added, e);
    lemma_count_part("~"@, s.modified, e);
    lemma_count_part("-"@, s.removed, e);
    lemma_count_part("r"@, s.renamed, e);
    lemma_count_part("\u{00B7}"@, s.formatting_only, e);
    let p1 = count_part("+"@, s.added, e);
    let p2 = count_part("~"@, s.modified, e);
    let p3 = count_part("-"@, s.removed, e);
    let p4 = count_part("r"@, s.renamed, e);
    let p5 = count_part("\u{00B7}"@, s.formatting_only, e);
    lemma_parts_concat(p1, p2);
    lemma_parts_concat(p1 + p2, p3);
    lemma_parts_concat(p1 + p2 + p3, p4);
    lemma_parts_concat(p1 + p2 + p3 + p4, p5);
    lemma_join(file_count_parts(sec), " "@);
    lemma_structural(sec.entities@, opts);
    lemma_formatting_names(sec.entities@);
    lemma_formatting_line(formatting_names(sec.entities@));
}

proof fn lemma_files(fs: Seq<FileSection>, opts: MarkdownOptions)
    requires
        forall|k: int| 0 <= k < fs.len() ==> section_clean(#[trigger] fs[k]),
        !opts.use_emoji,
    ensures
        no_emoji(files_text(fs, opts)),
    decreases fs.len(),
{
    broadcast use lemma_no_emoji_add;
    reveal_strlit("\n");
    if fs.len() > 0 {
        let d = fs.drop_last();
        assert forall|k: int| 0 <= k < d.len() implies section_clean(#[trigger] d[k]) by {
            assert(d[k] == fs[k]);
        }
        lemma_files(d, opts);
        lemma_section(fs.last(), opts);
    }
}

proof fn lemma_summary(o: DiffOutput)
    requires
        output_clean(o),
    ensures
        no_emoji(summary_text(o, false)),
{
    broadcast use lemma_no_emoji_add;
    lemma_glyph("breaking"@);
    reveal_strlit(" added");
    reveal_strlit(" modified");
    reveal_strlit(" removed");
    reveal_strlit(" renamed");
    reveal_strlit(" formatting");
    reveal_strlit(" \u{00B7} ");
    reveal_strlit("\n");
    reveal_strlit(" **breaking:** ");
    reveal_strlit("`");
    reveal_strlit("` (");
    reveal_strlit(")");
    let s = o.summary;
    let e = Seq::<char>::empty();
    lemma_count_part(e, s.added, " added"@);
    lemma_count_part(e, s.modified, " modified"@);
    lemma_count_part(e, s.removed, " removed"@);
    lemma_count_part(e, s.renamed, " renamed"@);
    lemma_count_part(e, s.formatting_only, " formatting"@);
    let p1 = count_part(e, s.added, " added"@);
    let p2 = count_part(e, s.modified, " modified"@);
    let p3 = count_part(e, s.removed, " removed"@);
    let p4 = count_part(e, s.renamed, " renamed"@);
    let p5 = count_part(e, s.formatting_only, " formatting"@);
    lemma_parts_concat(p1, p2);
    lemma_parts_concat(p1 + p2, p3);
    lemma_parts_concat(p1 + p2 + p3, p4);
    lemma_parts_concat(p1 + p2 + p3 + p4, p5);
    lemma_join(summary_parts(o), " \u{00B7} "@);
    let bs = o.breaking@.map_values(|b: BreakingEntry| breaking_entry_text(b));
    assert forall|k: int| 0 <= k < bs.len() implies no_emoji(#[trigger] bs[k]) by {
        assert(bs[k] == breaking_entry_text(o.breaking@[k]));
        assert(no_emoji(o.breaking@[k].entity@) && no_emoji(o.breaking@[k].reason@));
    }
    lemma_join(bs, " \u{00B7} "@);
}

proof fn lemma_header(o: DiffOutput)
    requires
        output_clean(o),
    ensures
        no_emoji(header_text(o, false)),
{
    broadcast use lemma_no_emoji_add;
    lemma_glyph("breaking"@);
    lemma_ref_spec(o.meta.base_ref@, o.meta.head_ref@);
    reveal_strlit(" **sigil diff** `");
    reveal_strlit("**sigil diff** `");
    reveal_strlit("` \u{2014} ");
    reveal_strlit(", **");
    reveal_strlit(" breaking**");
    reveal_strlit(" file");
    reveal_strlit("s");
    reveal_strlit("\n\n_");
    reveal_strlit("_");
    lemma_decimal(o.summary.files_changed as nat);
    lemma_decimal(o.breaking@.len());
    assert(no_emoji(files_note(o.summary.files_changed)));
    assert(no_emoji(header_first_line(o, false)));
}

proof fn lemma_sections(o: DiffOutput)
    requires
        output_clean(o),
    ensures
        no_emoji(patterns_part(o, false)),
        no_emoji(moves_part(o, false)),
{
    broadcast use lemma_no_emoji_add;
    reveal_strlit("\n**patterns**\n");
    reveal_strlit("\n");
    reveal_strlit("\n**moves**\n");
    lemma_patterns(o.patterns@);
    lemma_moves(o.moves@);
}

proof fn lemma_full_report(o: DiffOutput, opts: MarkdownOptions)
    requires
        output_clean(o),
        !opts.use_emoji,
    ensures
        no_emoji(markdown_text(o, opts)),
{
    broadcast use lemma_no_emoji_add;
    reveal_strlit("\n\n---\n");
    reveal_strlit("\n---\n");
    reveal_strlit("\n---\n\n");
    lemma_header(o);
    lemma_sections(o);
    lemma_files(o.files@, opts);
    lemma_summary(o);
    let emoji = opts.use_emoji;
    let sep = if o.patterns@.len() > 0 || o.moves@.len() > 0 { "\n---\n"@ } else { Seq::<char>::empty() };
    assert(no_emoji(sep));
    let h = header_text(o, emoji) + "\n\n---\n"@;
    assert(no_emoji(h));
    let x = h + patterns_part(o, emoji) + moves_part(o, emoji) + sep;
    assert(no_emoji(x));
    let y = x + files_text(o.files@, opts) + "\n---\n\n"@ + summary_text(o, emoji);
    assert(no_emoji(y));
    assert(markdown_text(o, opts) == y);
}

/// The ASCII mode prints no emoji glyph: with emoji turned off, the
/// report of a diff whose own texts hold none of the emoji glyphs holds
/// none either (the warning sign and its variation selector, the
/// four-pointed star, the minus sign, the north-east arrow and the check
/// mark give way to `!`, `+`, `-`, `=>` and `ok`).
pub proof fn law_ascii_mode_has_no_emoji(o: DiffOutput, opts: MarkdownOptions)
    requires
        !opts.use_emoji,
        output_clean(o),
    ensures
        no_emoji(report_text(o, opts)),
{
    broadcast use lemma_no_emoji_add;
    if is_empty_diff(o) {
        reveal_strlit("ok");
        reveal_strlit(" sigil diff `");
        reveal_strlit("` \u{2014} no structural changes\n");
        lemma_ref_spec(o.meta.base_ref@, o.meta.head_ref@);
    } else {
        lemma_full_report(o, opts);
    }
}

} // verus!
