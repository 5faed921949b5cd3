//! Markdown files in the index: a line-by-line block scanner that turns a
//! document into front matter, sections (one per heading, nested by
//! level), fenced code blocks, tables, lists, block quotes and paragraphs.

use vstd::prelude::*;
use vstd::utf8::encode_utf8;
use crate::entity::{opt_view, same_entity, Entity, Reference};
use crate::hasher::{extract_raw_bytes, raw_text, short_hash, struct_hash};
use crate::text::{
    chars_vec, eq_lit, is_prefix, lines, lines_of, slice_range, starts_with, string_from, trim, trim_chars,
    trim_start, trim_start_chars,
};

verus! {

broadcast use vstd::string::group_string_axioms;

/// The kinds of block the scanner recognises.
#[derive(Debug, Clone, Copy, PartialEq, Eq, Structural)]
pub enum BlockKind {
    Frontmatter,
    Section,
    CodeBlock,
    Table,
    List,
    Blockquote,
    Paragraph,
}

/// The entity kind of a block.
pub open spec fn kind_text(k: BlockKind) -> Seq<char> {
    match k {
        BlockKind::Frontmatter => "frontmatter"@,
        BlockKind::Section => "section"@,
        BlockKind::CodeBlock => "code_block"@,
        BlockKind::Table => "table"@,
        BlockKind::List => "list"@,
        BlockKind::Blockquote => "blockquote"@,
        BlockKind::Paragraph => "paragraph"@,
    }
}

fn kind_str(k: BlockKind) -> (r: &'static str)
    ensures
        r@ == kind_text(k),
{
    match k {
        BlockKind::Frontmatter => "frontmatter",
        BlockKind::Section => "section",
        BlockKind::CodeBlock => "code_block",
        BlockKind::Table => "table",
        BlockKind::List => "list",
        BlockKind::Blockquote => "blockquote",
        BlockKind::Paragraph => "paragraph",
    }
}

/// A block: its kind, name, first and last line (0-based) and, for a
/// section, its heading level (0 for other blocks).
pub struct MdBlock {
    pub kind: BlockKind,
    pub name: Seq<char>,
    pub start: int,
    pub end: int,
    pub level: int,
}

/// A line holding nothing but whitespace.
pub open spec fn is_blank(l: Seq<char>) -> bool {
    trim(l).len() == 0
}

/// The fence a line opens or closes a code block with, if any.
pub open spec fn fence_of(l: Seq<char>) -> Option<Seq<char>> {
    if is_prefix("```"@, trim_start(l)) {
        Some("```"@)
    } else if is_prefix("~~~"@, trim_start(l)) {
        Some("~~~"@)
    } else {
        None
    }
}

/// How many times `c` repeats at the start of `t`.
pub open spec fn leading_count(t: Seq<char>, c: char) -> nat
    decreases t.len(),
{
    if t.len() > 0 && t[0] == c {
        1 + leading_count(t.drop_first(), c)
    } else {
        0
    }
}

/// How many ASCII digits `t` starts with.
pub open spec fn leading_digits(t: Seq<char>) -> nat
    decreases t.len(),
{
    if t.len() > 0 && '0' <= t[0] && t[0] <= '9' {
        1 + leading_digits(t.drop_first())
    } else {
        0
    }
}

/// The level of an ATX heading line (one to six `#` followed by a space,
/// a tab or the end of the line, after leading whitespace); 0 for any
/// other line.
pub open spec fn heading_level(l: Seq<char>) -> nat {
    let t = trim_start(l);
    let n = leading_count(t, '#');
    if 1 <= n <= 6 && (n == t.len() || t[n as int] == ' ' || t[n as int] == '\t') {
        n
    } else {
        0
    }
}

/// The text of a heading line.
pub open spec fn heading_text(l: Seq<char>) -> Seq<char> {
    trim(trim_start(l).skip(heading_level(l) as int))
}

pub open spec fn is_table_line(l: Seq<char>) -> bool {
    is_prefix("|"@, trim_start(l))
}

pub open spec fn is_quote_line(l: Seq<char>) -> bool {
    is_prefix(">"@, trim_start(l))
}

/// A list item: `-`, `*` or `+` and a space, or digits, `.` or `)` and a
/// space, after leading whitespace.
pub open spec fn is_list_item(l: Seq<char>) -> bool {
    let t = trim_start(l);
    let d = leading_digits(t);
    ||| t.len() >= 2 && (t[0] == '-' || t[0] == '*' || t[0] == '+') && t[1] == ' '
    ||| d >= 1 && t.len() >= d + 2 && (t[d as int] == '.' || t[d as int] == ')') && t[(d + 1) as int] == ' '
}

/// A line that begins a block other than a paragraph.
pub open spec fn starts_block(l: Seq<char>) -> bool {
    fence_of(l) is Some || heading_level(l) > 0 || is_table_line(l) || is_quote_line(l) || is_list_item(l)
}

pub open spec fn is_indented(l: Seq<char>) -> bool {
    l.len() > 0 && (l[0] == ' ' || l[0] == '\t')
}

/// Whether a line carries on a table, list, block quote or paragraph.
pub open spec fn continues(k: BlockKind, l: Seq<char>) -> bool {
    match k {
        BlockKind::Table => is_table_line(l),
        BlockKind::Blockquote => is_quote_line(l),
        BlockKind::List => !is_blank(l) && (is_list_item(l) || is_indented(l)),
        BlockKind::Paragraph => !is_blank(l) && !starts_block(l),
        _ => false,
    }
}

/// How many lines from `from` on carry on a block of kind `k`.
pub open spec fn run_len(ls: Seq<Seq<char>>, k: BlockKind, from: int) -> nat
    decreases ls.len() - from,
{
    if 0 <= from < ls.len() && continues(k, ls[from]) {
        1 + run_len(ls, k, from + 1)
    } else {
        0
    }
}

/// How many lines from `from` on come before one that starts with the
/// fence `m` (or before the end).
pub open spec fn fence_gap(ls: Seq<Seq<char>>, m: Seq<char>, from: int) -> nat
    decreases ls.len() - from,
{
    if 0 <= from < ls.len() && !is_prefix(m, trim_start(ls[from])) {
        1 + fence_gap(ls, m, from + 1)
    } else {
        0
    }
}

/// How many lines from `from` on come before a `---` line (or the end).
pub open spec fn dash_gap(ls: Seq<Seq<char>>, from: int) -> nat
    decreases ls.len() - from,
{
    if 0 <= from < ls.len() && trim(ls[from]) != "---"@ {
        1 + dash_gap(ls, from + 1)
    } else {
        0
    }
}

/// The name of a code block: its info string, or `code_block`.
pub open spec fn code_name(l: Seq<char>) -> Seq<char> {
    let info = trim(trim_start(l).skip(3));
    if info.len() == 0 {
        "code_block"@
    } else {
        info
    }
}

/// The kind of a non-blank line that opens neither a fence nor a heading.
pub open spec fn run_kind(l: Seq<char>) -> BlockKind {
    if is_table_line(l) {
        BlockKind::Table
    } else if is_quote_line(l) {
        BlockKind::Blockquote
    } else if is_list_item(l) {
        BlockKind::List
    } else {
        BlockKind::Paragraph
    }
}

/// The block that starts at line `i` (not blank), and the line after it.
pub open spec fn block_at(ls: Seq<Seq<char>>, i: int) -> (MdBlock, int) {
    let l = ls[i];
    match fence_of(l) {
        Some(m) => {
            let c = i + 1 + fence_gap(ls, m, i + 1);
            let e = if c < ls.len() { c } else { ls.len() - 1 };
            (MdBlock { kind: BlockKind::CodeBlock, name: code_name(l), start: i, end: e, level: 0 }, e + 1)
        },
        None => if heading_level(l) > 0 {
            (
                MdBlock {
                    kind: BlockKind::Section,
                    name: heading_text(l),
                    start: i,
                    end: i,
                    level: heading_level(l) as int,
                },
                i + 1,
            )
        } else {
            let k = run_kind(l);
            let e = i + 1 + run_len(ls, k, i + 1);
            (MdBlock { kind: k, name: kind_text(k), start: i, end: e - 1, level: 0 }, e)
        },
    }
}

/// The blocks of lines `i..`, in order; blank lines separate them.
pub open spec fn blocks_from(ls: Seq<Seq<char>>, i: int) -> Seq<MdBlock>
    decreases (if 0 <= i < ls.len() { ls.len() - i } else { 0 }),
{
    if i < 0 || i >= ls.len() {
        Seq::empty()
    } else if is_blank(ls[i]) {
        blocks_from(ls, i + 1)
    } else {
        let (b, next) = block_at(ls, i);
        seq![b] + blocks_from(ls, next)
    }
}

/// The blocks of a document: front matter between a first `---` line and
/// the next one, then the blocks of the rest.
pub open spec fn md_blocks(ls: Seq<Seq<char>>) -> Seq<MdBlock> {
    if ls.len() > 1 && trim(ls[0]) == "---"@ && 1 + dash_gap(ls, 1) < ls.len() {
        let e = (1 + dash_gap(ls, 1)) as int;
        seq![MdBlock { kind: BlockKind::Frontmatter, name: "frontmatter"@, start: 0, end: e, level: 0 }]
            + blocks_from(ls, e + 1)
    } else {
        blocks_from(ls, 0)
    }
}

/// The blocks of a source text; none for a blank one.
pub open spec fn source_blocks(source: Seq<char>) -> Seq<MdBlock> {
    if trim(source).len() == 0 {
        Seq::empty()
    } else {
        md_blocks(lines(source))
    }
}

/// The first line (0-based) of the first section among blocks `j..` of
/// level `level` or above (fewer `#`); `n` when there is none.
pub open spec fn next_section_start(bs: Seq<MdBlock>, level: int, j: int, n: int) -> int
    decreases bs.len() - j,
{
    if j < 0 || j >= bs.len() {
        n
    } else if bs[j].kind == BlockKind::Section && bs[j].level <= level {
        bs[j].start
    } else {
        next_section_start(bs, level, j + 1, n)
    }
}

/// The name of the nearest section among blocks `0..=j` whose level is
/// below `level`.
pub open spec fn enclosing(bs: Seq<MdBlock>, level: int, j: int) -> Option<Seq<char>>
    decreases j + 1,
{
    if j < 0 || j >= bs.len() {
        None
    } else if bs[j].kind == BlockKind::Section && bs[j].level < level {
        Some(bs[j].name)
    } else {
        enclosing(bs, level, j - 1)
    }
}

/// The last line (1-based) of block `k`: a section runs to the line
/// before the next section of its level or above, or to the end.
pub open spec fn block_last_line(bs: Seq<MdBlock>, k: int, n: int) -> int {
    if bs[k].kind == BlockKind::Section {
        next_section_start(bs, bs[k].level, k + 1, n)
    } else {
        bs[k].end + 1
    }
}

/// The parent of block `k`: for a section the nearest section before it
/// with fewer `#`, for another block the nearest section before it.
pub open spec fn block_parent(bs: Seq<MdBlock>, k: int) -> Option<Seq<char>> {
    enclosing(bs, if bs[k].kind == BlockKind::Section { bs[k].level } else { 7 }, k - 1)
}

/// The entity of block `k` of `source` in `file`: name, kind, lines, the
/// enclosing section as parent, and the short hash of its raw text.
pub open spec fn md_entity(e: Entity, source: Seq<char>, file: Seq<char>, bs: Seq<MdBlock>, k: int) -> bool {
    let n = lines(source).len() as int;
    let first = bs[k].start + 1;
    let last = block_last_line(bs, k, n);
    &&& e.file@ == file
    &&& e.name@ == bs[k].name
    &&& e.kind@ == kind_text(bs[k].kind)
    &&& e.line_start == first
    &&& e.line_end == last
    &&& opt_view(e.parent) == block_parent(bs, k)
    &&& e.sig is None
    &&& e.meta is None
    &&& e.body_hash is None
    &&& e.sig_hash is None
    &&& e.struct_hash@ == short_hash(encode_utf8(raw_text(source, first, last)))
    &&& e.visibility is None
    &&& e.blast_radius is None
}

/// `es` are the entities of the Markdown `source` in `file`, one per
/// block, in order.
pub open spec fn md_entities(es: Seq<Entity>, source: Seq<char>, file: Seq<char>) -> bool {
    let bs = source_blocks(source);
    &&& es.len() == bs.len()
    &&& forall|k: int| 0 <= k < es.len() ==> md_entity(#[trigger] es[k], source, file, bs, k)
}

/// A text has no more characters than its UTF-8 encoding has bytes.
pub proof fn lemma_encode_len(cs: Seq<char>)
    ensures
        cs.len() <= encode_utf8(cs).len(),
    decreases cs.len(),
{
    if cs.len() > 0 {
        lemma_encode_len(cs.drop_first());
    }
}

/// The entities of a Markdown source are determined by it, field by
/// field.
pub proof fn lemma_md_entities_unique(a: Seq<Entity>, b: Seq<Entity>, source: Seq<char>, file: Seq<char>)
    requires
        md_entities(a, source, file),
        md_entities(b, source, file),
    ensures
        a.len() == b.len(),
        forall|k: int| 0 <= k < a.len() ==> same_entity(#[trigger] a[k], b[k]),
{
    let bs = source_blocks(source);
    assert forall|k: int| 0 <= k < a.len() implies same_entity(#[trigger] a[k], b[k]) by {
        assert(md_entity(a[k], source, file, bs, k));
        assert(md_entity(b[k], source, file, bs, k));
    }
}

/// Entities and references of a Markdown file: one entity per block (see
/// `md_blocks`), in document order; Markdown has no references.
pub fn parse_markdown_file(source: &str, file_path: &str) -> (r: Result<(Vec<Entity>, Vec<Reference>), String>)
    requires
        source@.len() < 0xFFFF_FFFE,
    ensures
        r matches Ok(p) && md_entities(p.0@, source@, file_path@) && p.1@.len() == 0,
{
    let text = chars_vec(source);
    let refs: Vec<Reference> = Vec::new();
    if trim_chars(&text).len() == 0 {
        let es: Vec<Entity> = Vec::new();
        return Ok((es, refs));
    }
    let ls = lines_of(&text);
    proof {
        crate::text::lemma_lines_len(source@);
    }
    assert(line_views(ls@) =~= lines(source@));
    let spans = scan(&ls);
    let es = entities_of(source, file_path, &spans, ls.len());
    Ok((es, refs))
}

/// A block as the scanner finds it.
struct Span {
    kind: BlockKind,
    name: Vec<char>,
    start: usize,
    end: usize,
    level: usize,
}

spec fn span_view(s: Span) -> MdBlock {
    MdBlock { kind: s.kind, name: s.name@, start: s.start as int, end: s.end as int, level: s.level as int }
}

spec fn spans_view(s: Seq<Span>) -> Seq<MdBlock> {
    s.map_values(|x: Span| span_view(x))
}

spec fn line_views(ls: Seq<Vec<char>>) -> Seq<Seq<char>> {
    ls.map_values(|l: Vec<char>| l@)
}

fn count_leading(t: &[char], c: char) -> (r: usize)
    ensures
        r == leading_count(t@, c),
        r <= t@.len(),
{
    let mut i: usize = 0;
    assert(t@.skip(0) == t@);
    while i < t.len() && t[i] == c
        invariant
            i <= t@.len(),
            leading_count(t@, c) == i + leading_count(t@.skip(i as int), c),
        decreases t@.len() - i,
    {
        assert(t@.skip(i as int).drop_first() == t@.skip(i + 1));
        i += 1;
    }
    i
}

fn count_digits(t: &[char]) -> (r: usize)
    ensures
        r == leading_digits(t@),
        r <= t@.len(),
{
    let mut i: usize = 0;
    assert(t@.skip(0) == t@);
    while i < t.len() && '0' <= t[i] && t[i] <= '9'
        invariant
            i <= t@.len(),
            leading_digits(t@) == i + leading_digits(t@.skip(i as int)),
        decreases t@.len() - i,
    {
        assert(t@.skip(i as int).drop_first() == t@.skip(i + 1));
        i += 1;
    }
    i
}

fn heading_level_of(l: &[char]) -> (r: usize)
    ensures
        r == heading_level(l@),
        r <= trim_start(l@).len(),
{
    let t = trim_start_chars(l);
    let n = count_leading(&t, '#');
    if 1 <= n && n <= 6 && (n == t.len() || t[n] == ' ' || t[n] == '\t') {
        n
    } else {
        0
    }
}

fn is_list_item_line(l: &[char]) -> (r: bool)
    ensures
        r == is_list_item(l@),
{
    let t = trim_start_chars(l);
    let d = count_digits(&t);
    (t.len() >= 2 && (t[0] == '-' || t[0] == '*' || t[0] == '+') && t[1] == ' ') || (d >= 1 && t.len() - d
        >= 2 && (t[d] == '.' || t[d] == ')') && t[d + 1] == ' ')
}

fn fence_marker(l: &[char]) -> (r: Option<&'static str>)
    ensures
        match r {
            Some(m) => fence_of(l@) == Some(m@),
            None => fence_of(l@) is None,
        },
{
    let t = trim_start_chars(l);
    if starts_with(&t, "```") {
        Some("```")
    } else if starts_with(&t, "~~~") {
        Some("~~~")
    } else {
        None
    }
}

fn blank(l: &[char]) -> (r: bool)
    ensures
        r == is_blank(l@),
{
    trim_chars(l).len() == 0
}

fn continues_line(k: BlockKind, l: &[char]) -> (r: bool)
    ensures
        r == continues(k, l@),
{
    let t = trim_start_chars(l);
    match k {
        BlockKind::Table => starts_with(&t, "|"),
        BlockKind::Blockquote => starts_with(&t, ">"),
        BlockKind::List => !blank(l) && (is_list_item_line(l) || (l.len() > 0 && (l[0] == ' ' || l[0] == '\t'))),
        BlockKind::Paragraph => {
            !blank(l) && !(fence_marker(l).is_some() || heading_level_of(l) > 0 || starts_with(&t, "|")
                || starts_with(&t, ">") || is_list_item_line(l))
        },
        _ => false,
    }
}

fn run_length(ls: &Vec<Vec<char>>, k: BlockKind, from: usize) -> (r: usize)
    requires
        from <= ls@.len(),
    ensures
        r == run_len(line_views(ls@), k, from as int),
        from + r <= ls@.len(),
{
    let ghost lv = line_views(ls@);
    let mut j = from;
    while j < ls.len() && continues_line(k, &ls[j])
        invariant
            from <= j <= ls@.len(),
            lv == line_views(ls@),
            run_len(lv, k, from as int) == (j - from) + run_len(lv, k, j as int),
        decreases ls@.len() - j,
    {
        assert(lv[j as int] == ls@[j as int]@);
        j += 1;
    }
    if j < ls.len() {
        assert(lv[j as int] == ls@[j as int]@);
    }
    j - from
}

fn fence_gap_of(ls: &Vec<Vec<char>>, m: &str, from: usize) -> (r: usize)
    requires
        from <= ls@.len(),
    ensures
        r == fence_gap(line_views(ls@), m@, from as int),
        from + r <= ls@.len(),
{
    let ghost lv = line_views(ls@);
    let mut j = from;
    while j < ls.len() && !starts_with(&trim_start_chars(&ls[j]), m)
        invariant
            from <= j <= ls@.len(),
            lv == line_views(ls@),
            fence_gap(lv, m@, from as int) == (j - from) + fence_gap(lv, m@, j as int),
        decreases ls@.len() - j,
    {
        assert(lv[j as int] == ls@[j as int]@);
        j += 1;
    }
    if j < ls.len() {
        assert(lv[j as int] == ls@[j as int]@);
    }
    j - from
}

fn dash_gap_of(ls: &Vec<Vec<char>>, from: usize) -> (r: usize)
    requires
        from <= ls@.len(),
    ensures
        r == dash_gap(line_views(ls@), from as int),
        from + r <= ls@.len(),
{
    let ghost lv = line_views(ls@);
    let mut j = from;
    while j < ls.len() && !eq_lit(&trim_chars(&ls[j]), "---")
        invariant
            from <= j <= ls@.len(),
            lv == line_views(ls@),
            dash_gap(lv, from as int) == (j - from) + dash_gap(lv, j as int),
        decreases ls@.len() - j,
    {
        assert(lv[j as int] == ls@[j as int]@);
        j += 1;
    }
    if j < ls.len() {
        assert(lv[j as int] == ls@[j as int]@);
    }
    j - from
}

/// The block starting at the non-blank line `i`, and the line after it.
fn block_at_exec(ls: &Vec<Vec<char>>, i: usize) -> (r: (Span, usize))
    requires
        i < ls@.len(),
    ensures
        (span_view(r.0), r.1 as int) == block_at(line_views(ls@), i as int),
        r.0.start <= r.0.end < ls@.len(),
        i < r.1 <= ls@.len(),
{
    let ghost lv = line_views(ls@);
    let len = ls.len();
    let l = &ls[i];
    assert(lv[i as int] == l@);
    match fence_marker(l) {
        Some(m) => {
            proof {
                reveal_strlit("```");
                reveal_strlit("~~~");
            }
            let g = fence_gap_of(ls, m, i + 1);
            let c = i + 1 + g;
            let e = if c < ls.len() { c } else { ls.len() - 1 };
            let t = trim_start_chars(l);
            let name = if t.len() >= 3 {
                let info = trim_chars(&slice_range(&t, 3, t.len()));
                assert(t@.skip(3) == t@.subrange(3, t@.len() as int));
                if info.len() == 0 { chars_vec("code_block") } else { info }
            } else {
                assert(t@.skip(3).len() == 0);
                chars_vec("code_block")
            };
            (Span { kind: BlockKind::CodeBlock, name, start: i, end: e, level: 0 }, e + 1)
        },
        None => {
            let h = heading_level_of(l);
            if h > 0 {
                let t = trim_start_chars(l);
                let name = trim_chars(&slice_range(&t, h, t.len()));
                assert(t@.skip(h as int) == t@.subrange(h as int, t@.len() as int));
                (Span { kind: BlockKind::Section, name, start: i, end: i, level: h }, i + 1)
            } else {
                let t = trim_start_chars(l);
                let k = if starts_with(&t, "|") {
                    BlockKind::Table
                } else if starts_with(&t, ">") {
                    BlockKind::Blockquote
                } else if is_list_item_line(l) {
                    BlockKind::List
                } else {
                    BlockKind::Paragraph
                };
                let n = run_length(ls, k, i + 1);
                let e = i + 1 + n;
                (Span { kind: k, name: chars_vec(kind_str(k)), start: i, end: e - 1, level: 0 }, e)
            }
        },
    }
}

proof fn lemma_seq_push_concat(a: Seq<MdBlock>, b: MdBlock, rest: Seq<MdBlock>)
    ensures
        a.push(b) + rest == a + (seq![b] + rest),
{
    assert(a.push(b) + rest =~= a + (seq![b] + rest));
}

/// The blocks of lines `from..`.
fn scan_from(ls: &Vec<Vec<char>>, from: usize, out: &mut Vec<Span>)
    requires
        from <= ls@.len(),
        forall|k: int| 0 <= k < old(out)@.len() ==> (#[trigger] old(out)@[k]).start <= old(out)@[k].end < ls@.len(),
    ensures
        spans_view(final(out)@) == spans_view(old(out)@) + blocks_from(line_views(ls@), from as int),
        forall|k: int| 0 <= k < final(out)@.len() ==> (#[trigger] final(out)@[k]).start <= final(out)@[k].end < ls@.len(),
{
    let ghost lv = line_views(ls@);
    let ghost base = spans_view(out@);
    let mut i = from;
    while i < ls.len()
        invariant
            from <= i <= ls@.len(),
            lv == line_views(ls@),
            spans_view(out@) + blocks_from(lv, i as int) == base + blocks_from(lv, from as int),
            forall|k: int| 0 <= k < out@.len() ==> (#[trigger] out@[k]).start <= out@[k].end < ls@.len(),
        decreases ls@.len() - i,
    {
        assert(lv[i as int] == ls@[i as int]@);
        if blank(&ls[i]) {
            i += 1;
        } else {
            let (b, next) = block_at_exec(ls, i);
            let ghost before = spans_view(out@);
            proof {
                lemma_seq_push_concat(before, span_view(b), blocks_from(lv, next as int));
            }
            out.push(b);
            assert(spans_view(out@) == before.push(span_view(b)));
            i = next;
        }
    }
    assert(blocks_from(lv, i as int).len() == 0);
    assert(spans_view(out@) + blocks_from(lv, i as int) == spans_view(out@));
}

/// The blocks of a document (front matter first, if any).
fn scan(ls: &Vec<Vec<char>>) -> (r: Vec<Span>)
    ensures
        spans_view(r@) == md_blocks(line_views(ls@)),
        forall|k: int| 0 <= k < r@.len() ==> (#[trigger] r@[k]).start <= r@[k].end < ls@.len(),
{
    let ghost lv = line_views(ls@);
    let mut out: Vec<Span> = Vec::new();
    proof {
        reveal_strlit("---");
    }
    if ls.len() > 1 && eq_lit(&trim_chars(&ls[0]), "---") {
        assert(lv[0] == ls@[0]@);
        let g = dash_gap_of(ls, 1);
        if 1 + g < ls.len() {
            let e = 1 + g;
            out.push(Span { kind: BlockKind::Frontmatter, name: chars_vec("frontmatter"), start: 0, end: e, level: 0 });
            assert(spans_view(out@) == seq![span_view(out@[0])]);
            scan_from(ls, e + 1, &mut out);
            return out;
        }
    } else if ls.len() > 1 {
        assert(lv[0] == ls@[0]@);
    }
    assert(spans_view(out@) =~= Seq::<MdBlock>::empty());
    scan_from(ls, 0, &mut out);
    assert(Seq::<MdBlock>::empty() + blocks_from(lv, 0) == blocks_from(lv, 0));
    out
}

fn next_section_start_exec(bs: &Vec<Span>, level: usize, j0: usize, n: usize) -> (r: usize)
    requires
        j0 <= bs@.len(),
        forall|k: int| 0 <= k < bs@.len() ==> (#[trigger] bs@[k]).start < n,
    ensures
        r == next_section_start(spans_view(bs@), level as int, j0 as int, n as int),
        r <= n,
{
    let ghost sv = spans_view(bs@);
    let mut j = j0;
    while j < bs.len() && !(bs[j].kind == BlockKind::Section && bs[j].level <= level)
        invariant
            j0 <= j <= bs@.len(),
            sv == spans_view(bs@),
            next_section_start(sv, level as int, j0 as int, n as int) == next_section_start(sv, level as int, j as int, n as int),
        decreases bs@.len() - j,
    {
        assert(sv[j as int] == span_view(bs@[j as int]));
        j += 1;
    }
    if j < bs.len() {
        assert(sv[j as int] == span_view(bs@[j as int]));
        bs[j].start
    } else {
        n
    }
}

fn enclosing_exec(bs: &Vec<Span>, level: usize, k: usize) -> (r: Option<Vec<char>>)
    requires
        k <= bs@.len(),
    ensures
        match r {
            Some(v) => enclosing(spans_view(bs@), level as int, k - 1) == Some(v@),
            None => enclosing(spans_view(bs@), level as int, k - 1) is None,
        },
{
    let ghost sv = spans_view(bs@);
    let mut j = k;
    while j > 0 && !(bs[j - 1].kind == BlockKind::Section && bs[j - 1].level < level)
        invariant
            j <= k <= bs@.len(),
            sv == spans_view(bs@),
            enclosing(sv, level as int, k - 1) == enclosing(sv, level as int, j - 1),
        decreases j,
    {
        assert(sv[j - 1] == span_view(bs@[j - 1]));
        j -= 1;
    }
    if j > 0 {
        assert(sv[j - 1] == span_view(bs@[j - 1]));
        Some(bs[j - 1].name.clone())
    } else {
        None
    }
}

/// The entities of the scanned blocks.
fn entities_of(source: &str, file_path: &str, bs: &Vec<Span>, n: usize) -> (r: Vec<Entity>)
    requires
        n == lines(source@).len(),
        n <= source@.len(),
        source@.len() < 0xFFFF_FFFE,
        forall|k: int| 0 <= k < bs@.len() ==> (#[trigger] bs@[k]).start <= bs@[k].end < n,
    ensures
        r@.len() == bs@.len(),
        forall|k: int| 0 <= k < r@.len() ==> md_entity(#[trigger] r@[k], source@, file_path@, spans_view(bs@), k),
{
    let ghost sv = spans_view(bs@);
    let mut out: Vec<Entity> = Vec::new();
    let mut k: usize = 0;
    while k < bs.len()
        invariant
            k <= bs@.len(),
            sv == spans_view(bs@),
            n == lines(source@).len(),
            n <= source@.len(),
            source@.len() < 0xFFFF_FFFE,
            forall|q: int| 0 <= q < bs@.len() ==> (#[trigger] bs@[q]).start <= bs@[q].end < n,
            out@.len() == k,
            forall|q: int| 0 <= q < k ==> md_entity(#[trigger] out@[q], source@, file_path@, sv, q),
        decreases bs@.len() - k,
    {
        let b = &bs[k];
        assert(sv[k as int] == span_view(bs@[k as int]));
        let is_section = b.kind == BlockKind::Section;
        let last = if is_section {
            next_section_start_exec(bs, b.level, k + 1, n)
        } else {
            b.end + 1
        };
        let parent = enclosing_exec(bs, if is_section { b.level } else { 7 }, k);
        let first = b.start + 1;
        let raw = extract_raw_bytes(source, first, last);
        let h = struct_hash(raw.as_str().as_bytes());
        let e = Entity {
            file: String::from_str(file_path),
            name: string_from(&b.name),
            kind: String::from_str(kind_str(b.kind)),
            line_start: first as u32,
            line_end: last as u32,
            parent: match parent {
                Some(p) => Some(string_from(&p)),
                None => None,
            },
            sig: None,
            meta: None,
            body_hash: None,
            sig_hash: None,
            struct_hash: h,
            visibility: None,
            blast_radius: None,
        };
        out.push(e);
        assert(out@[k as int] == e);
        k += 1;
    }
    out
}

} // verus!
