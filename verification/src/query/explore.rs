//! The directory overview of `sigil explore`: per directory, how many
//! files it holds and the first of them.

use vstd::prelude::*;
use crate::fmt::{decimal, push_num, push_str};
use crate::text::{after_last, insert_sorted, is_prefix, sorted_distinct, str_eq, string_from, string_views, strictly_sorted};

verus! {

broadcast use vstd::string::group_string_axioms;

/// How many files a directory holds, as the overview reports it.
#[derive(Debug)]
pub struct DirOverview {
    pub path: String,
    pub file_count: usize,
}

/// `(directory, count)` entries as plain values.
pub open spec fn count_views(v: Seq<(String, usize)>) -> Seq<(Seq<char>, usize)> {
    v.map_values(|e: (String, usize)| (e.0@, e.1))
}

/// Overview entries as `(directory, count)`.
pub open spec fn dir_views(v: Seq<DirOverview>) -> Seq<(Seq<char>, usize)> {
    v.map_values(|d: DirOverview| (d.path@, d.file_count))
}

/// A listed file as `(directory, file name)`.
pub type FileRow = (Seq<char>, Seq<char>);

pub open spec fn file_rows(files: Seq<(String, String, Option<String>)>) -> Seq<FileRow> {
    files.map_values(|f: (String, String, Option<String>)| (f.0@, f.1@))
}

pub open spec fn row_dirs(rows: Seq<FileRow>) -> Seq<Seq<char>> {
    rows.map_values(|r: FileRow| r.0)
}

/// The listed files of directory `d`, in order.
pub open spec fn shown_in(rows: Seq<FileRow>, d: Seq<char>) -> Seq<Seq<char>>
    decreases rows.len(),
{
    if rows.len() == 0 {
        Seq::empty()
    } else if rows.last().0 == d {
        shown_in(rows.drop_last(), d).push(rows.last().1)
    } else {
        shown_in(rows.drop_last(), d)
    }
}

/// The total the overview gives directory `d`: the sum of its entries'
/// counts (`summed`, capped at `usize::MAX`) or the count of its last
/// entry; `None` when it has none.
pub open spec fn overview_total(ov: Seq<(Seq<char>, usize)>, d: Seq<char>, summed: bool) -> Option<nat>
    decreases ov.len(),
{
    if ov.len() == 0 {
        None
    } else {
        let rest = overview_total(ov.drop_last(), d, summed);
        if ov.last().0 == d {
            if summed {
                match rest {
                    Some(t) => Some(if t + ov.last().1 > usize::MAX { usize::MAX as nat } else { (t + ov.last().1) as nat }),
                    None => Some(ov.last().1 as nat),
                }
            } else {
                Some(ov.last().1 as nat)
            }
        } else {
            rest
        }
    }
}

/// `  name\n` per listed file.
pub open spec fn indented(names: Seq<Seq<char>>) -> Seq<char>
    decreases names.len(),
{
    if names.len() == 0 {
        Seq::empty()
    } else {
        indented(names.drop_last()) + "  "@ + names.last() + "\n"@
    }
}

/// `dir/ (N files)` (`.` for the root).
pub open spec fn dir_header(d: Seq<char>, t: nat) -> Seq<char> {
    (if d.len() == 0 {
        "."@
    } else {
        d
    }) + "/ ("@ + decimal(t) + " files)\n"@
}

/// `... +M more` when the total exceeds the listed count.
pub open spec fn more_line(t: nat, n: nat) -> Seq<char> {
    if t > n {
        "  ... +"@ + decimal((t - n) as nat) + " more\n"@
    } else {
        Seq::empty()
    }
}

/// One directory's block: its header, its listed files, and how many
/// more the overview counts (the total is the listed count when the
/// overview has none).
pub open spec fn dir_block(d: Seq<char>, shown: Seq<Seq<char>>, total: Option<nat>) -> Seq<char> {
    let t = match total {
        Some(t) => t,
        None => shown.len(),
    };
    dir_header(d, t) + indented(shown) + more_line(t, shown.len())
}

/// The blocks of the directories `ds`, in order.
pub open spec fn blocks(rows: Seq<FileRow>, ov: Seq<(Seq<char>, usize)>, summed: bool, ds: Seq<Seq<char>>) -> Seq<char>
    decreases ds.len(),
{
    if ds.len() == 0 {
        Seq::empty()
    } else {
        blocks(rows, ov, summed, ds.drop_last()) + dir_block(
            ds.last(),
            shown_in(rows, ds.last()),
            overview_total(ov, ds.last(), summed),
        )
    }
}

/// The listing: one block per directory of the listed files, directories
/// in `str` order.
pub open spec fn listing(rows: Seq<FileRow>, ov: Seq<(Seq<char>, usize)>, summed: bool) -> Seq<char> {
    blocks(rows, ov, summed, sorted_distinct(row_dirs(rows)))
}

/// How many files to list per group: `max_entries` shared among the
/// overview's groups, one at least.
pub open spec fn cap_for(groups: nat, max_entries: nat) -> nat {
    let g = if groups > 1 { groups } else { 1 };
    if max_entries / g > 1 { max_entries / g } else { 1 }
}

/// How many files to list per group.
pub fn explore_cap(groups: usize, max_entries: usize) -> (r: usize)
    ensures
        r == cap_for(groups as nat, max_entries as nat),
{
    let g = if groups > 1 { groups } else { 1 };
    let c = max_entries / g;
    if c > 1 { c } else { 1 }
}

fn listed_dirs(files: &[(String, String, Option<String>)]) -> (r: Vec<String>)
    ensures
        string_views(r@) == sorted_distinct(row_dirs(file_rows(files@))),
{
    let ghost ds = row_dirs(file_rows(files@));
    let mut r: Vec<String> = Vec::new();
    let mut i: usize = 0;
    while i < files.len()
        invariant
            i <= files@.len(),
            ds == row_dirs(file_rows(files@)),
            strictly_sorted(string_views(r@)),
            string_views(r@) == sorted_distinct(ds.take(i as int)),
        decreases files@.len() - i,
    {
        assert(ds.take(i + 1).drop_last() == ds.take(i as int));
        insert_sorted(&mut r, files[i].0.clone());
        i += 1;
    }
    assert(ds.take(i as int) == ds);
    r
}

fn shown_names(files: &[(String, String, Option<String>)], d: &str) -> (r: Vec<String>)
    ensures
        string_views(r@) == shown_in(file_rows(files@), d@),
{
    let ghost rows = file_rows(files@);
    let mut r: Vec<String> = Vec::new();
    let mut i: usize = 0;
    while i < files.len()
        invariant
            i <= files@.len(),
            rows == file_rows(files@),
            string_views(r@) == shown_in(rows.take(i as int), d@),
        decreases files@.len() - i,
    {
        assert(rows.take(i + 1).drop_last() == rows.take(i as int));
        if str_eq(files[i].0.as_str(), d) {
            let ghost before = r@;
            r.push(files[i].1.clone());
            assert(string_views(r@) == string_views(before).push(files@[i as int].1@));
        }
        i += 1;
    }
    assert(rows.take(i as int) == rows);
    r
}

fn total_of(ov: &[(String, usize)], d: &str, summed: bool) -> (r: Option<usize>)
    ensures
        match r {
            Some(t) => overview_total(count_views(ov@), d@, summed)
                == Some(t as nat),
            None => overview_total(count_views(ov@), d@, summed) is None,
        },
{
    let ghost pv = count_views(ov@);
    let mut r: Option<usize> = None;
    let mut i: usize = 0;
    while i < ov.len()
        invariant
            i <= ov@.len(),
            pv == count_views(ov@),
            match r {
                Some(t) => overview_total(pv.take(i as int), d@, summed) == Some(t as nat),
                None => overview_total(pv.take(i as int), d@, summed) is None,
            },
        decreases ov@.len() - i,
    {
        assert(pv.take(i + 1).drop_last() == pv.take(i as int));
        assert(pv.take(i + 1).last() == pv[i as int]);
        if str_eq(ov[i].0.as_str(), d) {
            if summed {
                r = match r {
                    Some(t) => Some(t.saturating_add(ov[i].1)),
                    None => Some(ov[i].1),
                };
            } else {
                r = Some(ov[i].1);
            }
        }
        i += 1;
    }
    assert(pv.take(i as int) == pv);
    r
}

fn push_header(out: &mut Vec<char>, d: &str, t: usize)
    ensures
        final(out)@ == old(out)@ + dir_header(d@, t as nat),
{
    if d.unicode_len() == 0 {
        push_str(out, ".");
    } else {
        push_str(out, d);
    }
    push_str(out, "/ (");
    push_num(out, t as u64);
    push_str(out, " files)\n");
}

fn push_indented(out: &mut Vec<char>, shown: &Vec<String>)
    ensures
        final(out)@ == old(out)@ + indented(string_views(shown@)),
{
    let ghost head = out@;
    let mut i: usize = 0;
    while i < shown.len()
        invariant
            i <= shown@.len(),
            out@ == head + indented(string_views(shown@).take(i as int)),
        decreases shown@.len() - i,
    {
        assert(string_views(shown@).take(i + 1).drop_last() == string_views(shown@).take(i as int));
        push_str(out, "  ");
        push_str(out, shown[i].as_str());
        push_str(out, "\n");
        i += 1;
    }
    assert(string_views(shown@).take(i as int) == string_views(shown@));
}

fn push_more(out: &mut Vec<char>, t: usize, n: usize)
    ensures
        final(out)@ == old(out)@ + more_line(t as nat, n as nat),
{
    if t > n {
        push_str(out, "  ... +");
        push_num(out, (t - n) as u64);
        push_str(out, " more\n");
    }
}

fn push_block(out: &mut Vec<char>, d: &str, shown: &Vec<String>, total: Option<usize>)
    ensures
        final(out)@ == old(out)@ + dir_block(
            d@,
            string_views(shown@),
            match total {
                Some(t) => Some(t as nat),
                None => None,
            },
        ),
{
    let t: usize = match total {
        Some(t) => t,
        None => shown.len(),
    };
    let ghost a = out@;
    push_header(out, d, t);
    let ghost b = out@;
    push_indented(out, shown);
    let ghost c = out@;
    push_more(out, t, shown.len());
    assert(out@ == a + (dir_header(d@, t as nat) + indented(string_views(shown@)) + more_line(t as nat, shown@.len() as nat)));
}

/// The listing of the files, with the overview's totals.
pub fn render_listing(
    files: &[(String, String, Option<String>)],
    overview: &[(String, usize)],
    summed: bool,
) -> (r: String)
    ensures
        r@ == listing(file_rows(files@), count_views(overview@), summed),
{
    let ghost rows = file_rows(files@);
    let ghost pv = count_views(overview@);
    let dirs = listed_dirs(files);
    let ghost ds = string_views(dirs@);
    let mut out: Vec<char> = Vec::new();
    let mut m: usize = 0;
    while m < dirs.len()
        invariant
            m <= dirs@.len(),
            ds == string_views(dirs@),
            rows == file_rows(files@),
            pv == count_views(overview@),
            out@ == blocks(rows, pv, summed, ds.take(m as int)),
        decreases dirs@.len() - m,
    {
        assert(ds.take(m + 1).drop_last() == ds.take(m as int));
        assert(ds.take(m + 1).last() == dirs@[m as int]@);
        let shown = shown_names(files, dirs[m].as_str());
        let total = total_of(overview, dirs[m].as_str(), summed);
        push_block(&mut out, dirs[m].as_str(), &shown, total);
        m += 1;
    }
    assert(ds.take(m as int) == ds);
    string_from(&out)
}

/// The `sigil explore` text from the directory overview and the capped
/// file list: `No files found.` when the overview is empty, else one
/// block per directory with the overview's count of it.
pub fn explore_text(overview: &[DirOverview], files: &[(String, String, Option<String>)]) -> (r: String)
    ensures
        r@ == if overview@.len() == 0 {
            "No files found."@
        } else {
            listing(
                file_rows(files@),
                dir_views(overview@),
                false,
            )
        },
{
    if overview.len() == 0 {
        return String::from_str("No files found.");
    }
    let mut ov: Vec<(String, usize)> = Vec::new();
    let mut i: usize = 0;
    while i < overview.len()
        invariant
            i <= overview@.len(),
            ov@.len() == i,
            count_views(ov@) == dir_views(overview@.take(i as int)),
        decreases overview@.len() - i,
    {
        let ghost before = ov@;
        let p = overview[i].path.clone();
        ov.push((p, overview[i].file_count));
        assert(ov@ == before.push((p, overview@[i as int].file_count)));
        assert(overview@.take(i + 1) == overview@.take(i as int).push(overview@[i as int]));
        assert forall|k: int| 0 <= k < i implies #[trigger] ov@[k] == before[k] by {}
        assert(p@ == overview@[i as int].path@);
        assert forall|k: int| 0 <= k < i + 1 implies #[trigger] count_views(ov@)[k] == dir_views(overview@.take(i + 1))[k] by {
            if k < i {
                assert(count_views(before)[k] == dir_views(overview@.take(i as int))[k]);
            }
        }
        assert(count_views(ov@) =~= dir_views(overview@.take(i + 1)));
        i += 1;
    }
    assert(overview@.take(i as int) == overview@);
    render_listing(files, ov.as_slice(), false)
}

/// codeix's in-memory search database.
#[verifier::external_type_specification]
#[verifier::external_body]
pub struct ExSearchDb(codeix::server::db::SearchDb);

/// The `files` table of a code-search database: `(project, path,
/// directory, language)` per file. What the database holds depends on how
/// it was built; the queries below read from it.
pub uninterp spec fn db_files(db: codeix::server::db::SearchDb) -> Set<(Seq<char>, Seq<char>, Seq<char>, Option<Seq<char>>)>;

pub open spec fn opt_text(o: Option<String>) -> Option<Seq<char>> {
    match o {
        Some(s) => Some(s@),
        None => None,
    }
}

pub open spec fn opt_str(o: Option<&str>) -> Option<Seq<char>> {
    match o {
        Some(s) => Some(s@),
        None => None,
    }
}

/// `p` without its trailing slashes.
pub open spec fn trim_slashes(p: Seq<char>) -> Seq<char>
    decreases p.len(),
{
    if p.len() > 0 && p.last() == '/' {
        trim_slashes(p.drop_last())
    } else {
        p
    }
}

/// A character that SQLite's `GLOB` reads as a wildcard.
pub open spec fn has_glob_char(b: Seq<char>) -> bool {
    exists|i: int| 0 <= i < b.len() && (b[i] == '*' || b[i] == '?' || b[i] == '[')
}

/// Whether the queries' `path GLOB '<prefix>/*'` keeps `path`: every path
/// when there is no prefix (or only slashes); for a prefix without
/// wildcard characters, exactly the paths that start with it and a slash.
/// Nothing is claimed for a prefix with wildcard characters.
pub open spec fn under_prefix(path: Seq<char>, prefix: Option<Seq<char>>) -> bool {
    match prefix {
        None => true,
        Some(p) => {
            let b = trim_slashes(p);
            b.len() == 0 || has_glob_char(b) || is_prefix(b + "/"@, path)
        },
    }
}

/// A project of the database.
pub open spec fn db_project(db: codeix::server::db::SearchDb, p: Seq<char>) -> bool {
    exists|f: (Seq<char>, Seq<char>, Seq<char>, Option<Seq<char>>)| #[trigger] db_files(db).contains(f) && f.0 == p
}

/// An overview row `(directory, language, visibility, count)` counts at
/// least one file of `project` under the prefix in that directory with
/// that language.
pub open spec fn overview_row_in(
    db: codeix::server::db::SearchDb,
    project: Seq<char>,
    prefix: Option<Seq<char>>,
    r: (String, Option<String>, i32, usize),
) -> bool {
    &&& r.3 >= 1
    &&& exists|f: (Seq<char>, Seq<char>, Seq<char>, Option<Seq<char>>)|
        #[trigger] db_files(db).contains(f) && f.0 == project && under_prefix(f.1, prefix) && f.2 == r.0@
            && f.3 == opt_text(r.1)
}

/// A file row `(directory, file name, language)` is a file of `project`
/// under the prefix: its directory, the last part of its path, and its
/// language.
pub open spec fn file_row_in(
    db: codeix::server::db::SearchDb,
    project: Seq<char>,
    prefix: Option<Seq<char>>,
    r: (String, String, Option<String>),
) -> bool {
    exists|f: (Seq<char>, Seq<char>, Seq<char>, Option<Seq<char>>)|
        #[trigger] db_files(db).contains(f) && f.0 == project && under_prefix(f.1, prefix) && f.2 == r.0@
            && after_last(f.1, '/') == r.1@ && f.3 == opt_text(r.2)
}

/// `SearchDb::list_projects`: the distinct projects of the `files` table
/// (`SELECT DISTINCT project FROM files`). Claimed: each is the project
/// of some file.
#[verifier::external_body]
fn list_projects(db: &codeix::server::db::SearchDb) -> (r: Result<Vec<String>, anyhow::Error>)
    ensures
        r matches Ok(ps) ==> forall|k: int|
            0 <= k < ps@.len() ==> exists|f: (Seq<char>, Seq<char>, Seq<char>, Option<Seq<char>>)|
                #[trigger] db_files(*db).contains(f) && f.0 == (#[trigger] ps@[k])@,
{
    db.list_projects()
}

/// `SearchDb::explore_dir_overview`: `(directory, language, visibility
/// level, file count)` groups of the files of `project` under the prefix.
/// Claimed: the query selects `files` rows `WHERE project = ?1` (and `path
/// GLOB '<prefix>/*'` for a non-empty prefix) and groups them by
/// directory and language, so each group counts at least one such file.
/// Which groups come back, their visibility levels and counts are not
/// stated beyond that.
#[verifier::external_body]
fn dir_overview(
    db: &codeix::server::db::SearchDb,
    project: &str,
    path_prefix: Option<&str>,
) -> (r: Result<Vec<(String, Option<String>, i32, usize)>, anyhow::Error>)
    ensures
        r matches Ok(rows) ==> forall|k: int|
            0 <= k < rows@.len() ==> overview_row_in(*db, project@, opt_str(path_prefix), #[trigger] rows@[k]),
{
    db.explore_dir_overview(project, path_prefix)
}

/// The rows of directory `dir` and language `lang`.
pub open spec fn group_count(rows: Seq<(String, String, Option<String>)>, dir: Seq<char>, lang: Seq<char>) -> nat {
    rows.filter(|x: (String, String, Option<String>)| in_group(x, dir, lang)).len()
}

/// A row of directory `dir` and language `lang`.
pub open spec fn in_group(x: (String, String, Option<String>), dir: Seq<char>, lang: Seq<char>) -> bool {
    x.0@ == dir && match x.2 {
        Some(l) => l@ == lang,
        None => false,
    }
}

/// Every row has a language, and no directory and language have more than
/// `cap` rows.
pub open spec fn within_cap(rows: Seq<(String, String, Option<String>)>, cap: nat) -> bool {
    &&& forall|i: int| 0 <= i < rows.len() ==> (#[trigger] rows[i]).2 is Some
    &&& forall|d: Seq<char>, l: Seq<char>| #[trigger] group_count(rows, d, l) <= cap
}

/// `SearchDb::explore_files_capped` with no visibility given, so that its
/// default applies (public files only: those with a public symbol):
/// `(directory, file name, language)` rows. Claimed of every `Ok`: each
/// query of the method selects `files` rows `WHERE project = ?1` (and
/// `path GLOB '<prefix>/*'` for a non-empty prefix), each row giving the
/// file's directory, the part of its path after the last `/`, and its
/// language; it keeps only files with a language (`lang IS NOT NULL`) and
/// numbers them per directory and language (`ROW_NUMBER() OVER (PARTITION
/// BY parent_path, lang)`), keeping `rn <= cap`, so no directory and
/// language have more than `cap` rows. Which files the visibility filter
/// keeps is not stated.
#[verifier::external_body]
fn files_capped(
    db: &codeix::server::db::SearchDb,
    project: &str,
    path_prefix: Option<&str>,
    cap: usize,
) -> (r: Result<Vec<(String, String, Option<String>)>, anyhow::Error>)
    ensures
        r matches Ok(rows) ==> within_cap(rows@, cap as nat) && forall|k: int|
            0 <= k < rows@.len() ==> file_row_in(*db, project@, opt_str(path_prefix), #[trigger] rows@[k]),
{
    db.explore_files_capped(project, path_prefix, None, cap)
}

/// Overview groups as `(directory, count)`.
pub open spec fn group_counts(v: Seq<(String, Option<String>, i32, usize)>) -> Seq<(Seq<char>, usize)> {
    v.map_values(|g: (String, Option<String>, i32, usize)| (g.0@, g.3))
}

/// `  name\n` per non-empty project name.
pub open spec fn project_lines(ps: Seq<Seq<char>>) -> Seq<char>
    decreases ps.len(),
{
    if ps.len() == 0 {
        Seq::empty()
    } else {
        project_lines(ps.drop_last()) + if ps.last().len() > 0 {
            "  "@ + ps.last() + "\n"@
        } else {
            Seq::empty()
        }
    }
}

/// The `sigil explore` text of the code-search database: `No files
/// found.` for an empty overview; else, at the root of a workspace of
/// several projects, the subprojects, then one block per directory with
/// the summed counts of its overview groups.
pub open spec fn explore_spec(
    projects: Seq<Seq<char>>,
    at_root: bool,
    overview: Seq<(Seq<char>, usize)>,
    rows: Seq<FileRow>,
) -> Seq<char> {
    if overview.len() == 0 {
        "No files found."@
    } else {
        (if at_root && projects.len() > 1 {
            "Subprojects:\n"@ + project_lines(projects) + "\n"@
        } else {
            Seq::empty()
        }) + listing(rows, overview, true)
    }
}

/// The `sigil explore` text from what the database returned.
pub fn explore_output(
    projects: &[String],
    at_root: bool,
    overview: &[(String, Option<String>, i32, usize)],
    files: &[(String, String, Option<String>)],
) -> (r: String)
    ensures
        r@ == explore_spec(string_views(projects@), at_root, group_counts(overview@), file_rows(files@)),
{
    if overview.len() == 0 {
        return String::from_str("No files found.");
    }
    let mut out: Vec<char> = Vec::new();
    if at_root && projects.len() > 1 {
        push_str(&mut out, "Subprojects:\n");
        let ghost head = out@;
        let mut i: usize = 0;
        while i < projects.len()
            invariant
                i <= projects@.len(),
                out@ == head + project_lines(string_views(projects@).take(i as int)),
            decreases projects@.len() - i,
        {
            assert(string_views(projects@).take(i + 1).drop_last() == string_views(projects@).take(i as int));
            if projects[i].as_str().unicode_len() > 0 {
                push_str(&mut out, "  ");
                push_str(&mut out, projects[i].as_str());
                push_str(&mut out, "\n");
            }
            i += 1;
        }
        assert(string_views(projects@).take(i as int) == string_views(projects@));
        push_str(&mut out, "\n");
    }
    let mut ov: Vec<(String, usize)> = Vec::new();
    let mut k: usize = 0;
    while k < overview.len()
        invariant
            k <= overview@.len(),
            ov@.len() == k,
            count_views(ov@) == group_counts(overview@.take(k as int)),
        decreases overview@.len() - k,
    {
        let ghost before = ov@;
        let p = overview[k].0.clone();
        ov.push((p, overview[k].3));
        assert(overview@.take(k + 1) == overview@.take(k as int).push(overview@[k as int]));
        assert forall|m: int| 0 <= m < k + 1 implies #[trigger] count_views(ov@)[m] == group_counts(overview@.take(k + 1))[m] by {
            if m < k {
                assert(count_views(before)[m] == group_counts(overview@.take(k as int))[m]);
            }
        }
        assert(count_views(ov@) =~= group_counts(overview@.take(k + 1)));
        k += 1;
    }
    assert(overview@.take(k as int) == overview@);
    let listing = render_listing(files, ov.as_slice(), true);
    push_str(&mut out, listing.as_str());
    string_from(&out)
}

/// The project explored: the one given, else the root project `""`.
pub open spec fn explore_project(project: Option<&str>) -> Seq<char> {
    match project {
        Some(p) => p@,
        None => Seq::empty(),
    }
}

/// Explore the project structure in the code-search database: the
/// subprojects at the root, and per directory its file count and up to
/// `max_entries` files shared among the overview's groups. The text is
/// the `explore_spec` of the database's projects, the overview rows of
/// `project` (the root project `""` when none is given) under
/// `path_prefix`, and that project's files under the prefix, capped per
/// directory and language.
pub fn explore(
    db: &codeix::server::db::SearchDb,
    project: Option<&str>,
    path_prefix: Option<&str>,
    max_entries: usize,
) -> (r: Result<String, anyhow::Error>)
    ensures
        r matches Ok(s) ==> exists|
            ps: Seq<String>,
            ov: Seq<(String, Option<String>, i32, usize)>,
            fs: Seq<(String, String, Option<String>)>,
        |
            {
                &&& s@ == #[trigger] explore_spec(
                    string_views(ps),
                    path_prefix is None,
                    group_counts(ov),
                    file_rows(fs),
                )
                &&& within_cap(fs, cap_for(ov.len(), max_entries as nat))
                &&& forall|k: int| 0 <= k < ps.len() ==> db_project(*db, #[trigger] ps[k]@)
                &&& forall|k: int|
                    0 <= k < ov.len() ==> overview_row_in(
                        *db,
                        explore_project(project),
                        opt_str(path_prefix),
                        #[trigger] ov[k],
                    )
                &&& forall|k: int|
                    0 <= k < fs.len() ==> file_row_in(*db, explore_project(project), opt_str(path_prefix), #[trigger] fs[k])
            },
{
    let projects = list_projects(db)?;
    let proj = match project {
        Some(p) => p,
        None => "",
    };
    proof {
        reveal_strlit("");
    }
    let overview = dir_overview(db, proj, path_prefix)?;
    if overview.len() == 0 {
        let none: Vec<(String, String, Option<String>)> = Vec::new();
        let s = explore_output(projects.as_slice(), path_prefix.is_none(), overview.as_slice(), none.as_slice());
        proof {
            assert forall|d: Seq<char>, l: Seq<char>| #[trigger] group_count(none@, d, l) <= 0 by {
                reveal(Seq::filter);
                assert(none@ =~= Seq::<(String, String, Option<String>)>::empty());
            }
            assert(s@ == explore_spec(string_views(projects@), path_prefix is None, group_counts(overview@), file_rows(none@)));
            assert(proj@ == explore_project(project));
        }
        return Ok(s);
    }
    let cap = explore_cap(overview.len(), max_entries);
    let files = files_capped(db, proj, path_prefix, cap)?;
    let s = explore_output(projects.as_slice(), path_prefix.is_none(), overview.as_slice(), files.as_slice());
    proof {
        assert(group_counts(overview@).len() == overview@.len());
        assert(s@ == explore_spec(string_views(projects@), path_prefix is None, group_counts(overview@), file_rows(files@)));
        assert(proj@ == explore_project(project));
    }
    Ok(s)
}

} // verus!
