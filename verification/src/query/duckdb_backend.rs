//! The decisions of the DuckDB query backend that do not need the
//! database: whether to engage it, whether its store is stale, the SQL
//! that fills it, and the SQL of each lookup with its parameters.

use vstd::prelude::*;
use crate::fmt::{decimal, push_num, push_str};
use crate::text::{string_from, string_views};

verus! {

broadcast use vstd::string::group_string_axioms;

/// Default auto-upgrade threshold in bytes: 50 MiB of JSONL.
pub const DEFAULT_AUTO_UPGRADE_THRESHOLD_BYTES: u64 = 52428800;

/// The sum of the sizes.
pub open spec fn total_size(sizes: Seq<u64>) -> nat
    decreases sizes.len(),
{
    if sizes.len() == 0 {
        0
    } else {
        (total_size(sizes.drop_last()) + sizes.last()) as nat
    }
}

proof fn lemma_total_size_bound(sizes: Seq<u64>)
    ensures
        total_size(sizes) <= sizes.len() * 0xFFFF_FFFF_FFFF_FFFF,
    decreases sizes.len(),
{
    if sizes.len() > 0 {
        lemma_total_size_bound(sizes.drop_last());
    }
}

/// Whether the DuckDB backend should engage: the index files (entities,
/// references, files; absent ones counted as empty) hold at least
/// `threshold_bytes` together.
pub fn should_auto_engage(sizes: &[u64; 3], threshold_bytes: u64) -> (r: bool)
    ensures
        r == (total_size(sizes@) >= threshold_bytes),
{
    let mut total: u128 = 0;
    let mut i: usize = 0;
    while i < 3
        invariant
            i <= 3,
            sizes@.len() == 3,
            total == total_size(sizes@.take(i as int)),
            total <= i * 0xFFFF_FFFF_FFFF_FFFF,
        decreases 3 - i,
    {
        assert(sizes@.take(i + 1).drop_last() == sizes@.take(i as int));
        total = total + sizes[i] as u128;
        i += 1;
    }
    assert(sizes@.take(3) == sizes@);
    total >= threshold_bytes as u128
}

/// Size and modification time (ms since the epoch) of the JSONL files the
/// store was built from.
#[derive(Debug, Clone, Copy, PartialEq, Eq, Structural)]
pub struct Stamp {
    pub entities_len: u64,
    pub entities_mtime_ms: u128,
    pub refs_len: u64,
    pub refs_mtime_ms: u128,
}

/// The store is rebuilt unless its recorded stamp is exactly the
/// current one.
pub fn needs_rebuild(actual: Option<Stamp>, expected: Stamp) -> (r: bool)
    ensures
        r == (actual != Some(expected)),
{
    match actual {
        Some(a) => !(a == expected),
        None => true,
    }
}

/// The columns read for an entity row.
pub open spec fn entity_columns() -> Seq<char> {
    "SELECT file, name, kind, line_start, line_end, parent, sig, visibility, body_hash, sig_hash, struct_hash FROM entities WHERE "@
}

/// ` LIMIT n` unless `limit` is 0 (unlimited).
pub open spec fn limit_clause(limit: usize) -> Seq<char> {
    if limit > 0 {
        " LIMIT "@ + decimal(limit as nat)
    } else {
        Seq::empty()
    }
}

/// The SQL of a reference lookup by `column` (`name` for callers,
/// `caller` for callees), with an optional kind filter, in file and line
/// order.
pub open spec fn refs_sql(column: Seq<char>, by_kind: bool, limit: usize) -> Seq<char> {
    "SELECT file, caller, name, ref_kind, line FROM refs WHERE "@ + column + " = ?"@ + (if by_kind {
        " AND ref_kind = ?"@
    } else {
        Seq::empty()
    }) + " ORDER BY file, line"@ + limit_clause(limit)
}

fn push_limit(out: &mut Vec<char>, limit: usize)
    ensures
        final(out)@ == old(out)@ + limit_clause(limit),
{
    if limit > 0 {
        push_str(out, " LIMIT ");
        push_num(out, limit as u64);
    }
}

fn refs_query(column: &str, kind_filter: Option<&str>, limit: usize) -> (r: String)
    ensures
        r@ == refs_sql(column@, kind_filter is Some, limit),
{
    let mut out: Vec<char> = Vec::new();
    push_str(&mut out, "SELECT file, caller, name, ref_kind, line FROM refs WHERE ");
    push_str(&mut out, column);
    push_str(&mut out, " = ?");
    if kind_filter.is_some() {
        push_str(&mut out, " AND ref_kind = ?");
    }
    push_str(&mut out, " ORDER BY file, line");
    push_limit(&mut out, limit);
    string_from(&out)
}

/// The parameters of a lookup: the key, then the kind when filtering.
pub open spec fn key_params(key: Seq<char>, kind_filter: Option<&str>) -> Seq<Seq<char>> {
    match kind_filter {
        Some(k) => seq![key, k@],
        None => seq![key],
    }
}

/// The views of some string slices.
pub open spec fn str_views(keys: Seq<&str>) -> Seq<Seq<char>> {
    keys.map_values(|k: &str| k@)
}

fn params_of(keys: &[&str], kind_filter: Option<&str>) -> (r: Vec<String>)
    ensures
        string_views(r@) == str_views(keys@) + match kind_filter {
            Some(k) => seq![k@],
            None => Seq::empty(),
        },
{
    let mut r: Vec<String> = Vec::new();
    let mut i: usize = 0;
    while i < keys.len()
        invariant
            i <= keys@.len(),
            r@.len() == i,
            string_views(r@) == str_views(keys@.take(i as int)),
        decreases keys@.len() - i,
    {
        let ghost before = r@;
        r.push(String::from_str(keys[i]));
        assert(string_views(r@) =~= str_views(keys@.take(i + 1))) by {
            assert(keys@.take(i + 1) == keys@.take(i as int).push(keys@[i as int]));
            assert forall|m: int| 0 <= m < i implies #[trigger] string_views(r@)[m] == str_views(keys@.take(i + 1))[m] by {
                assert(r@[m] == before[m]);
                assert(string_views(before)[m] == str_views(keys@.take(i as int))[m]);
            }
        }
        i += 1;
    }
    assert(keys@.take(i as int) == keys@);
    if let Some(k) = kind_filter {
        let ghost before = r@;
        r.push(String::from_str(k));
        assert(string_views(r@) =~= string_views(before).push(k@));
    } else {
        assert(str_views(keys@) + Seq::<Seq<char>>::empty() == str_views(keys@));
    }
    r
}

/// The SQL and parameters of `get_callers`: references whose target is
/// `name`, optionally of one kind, in file and line order, at most
/// `limit` (0: all).
pub fn callers_query(name: &str, kind_filter: Option<&str>, limit: usize) -> (r: (String, Vec<String>))
    ensures
        r.0@ == refs_sql("name"@, kind_filter is Some, limit),
        string_views(r.1@) == key_params(name@, kind_filter),
{
    proof {
        reveal_strlit("name");
    }
    let sql = refs_query("name", kind_filter, limit);
    let params = params_of(&[name], kind_filter);
    (sql, params)
}

/// The SQL and parameters of `get_callees`: references made from inside
/// `caller`, optionally of one kind, in file and line order, at most
/// `limit` (0: all).
pub fn callees_query(caller: &str, kind_filter: Option<&str>, limit: usize) -> (r: (String, Vec<String>))
    ensures
        r.0@ == refs_sql("caller"@, kind_filter is Some, limit),
        string_views(r.1@) == key_params(caller@, kind_filter),
{
    proof {
        reveal_strlit("caller");
    }
    let sql = refs_query("caller", kind_filter, limit);
    let params = params_of(&[caller], kind_filter);
    (sql, params)
}

/// The SQL of an entity lookup: `condition`, an optional kind filter,
/// then `order`.
pub open spec fn entities_sql(condition: Seq<char>, by_kind: bool, order: Seq<char>, limit: usize) -> Seq<char> {
    entity_columns() + condition + (if by_kind {
        " AND kind = ?"@
    } else {
        Seq::empty()
    }) + order + limit_clause(limit)
}

fn entities_query(condition: &str, kind_filter: Option<&str>, order: &str, limit: usize) -> (r: String)
    ensures
        r@ == entities_sql(condition@, kind_filter is Some, order@, limit),
{
    let mut out: Vec<char> = Vec::new();
    push_str(
        &mut out,
        "SELECT file, name, kind, line_start, line_end, parent, sig, visibility, body_hash, sig_hash, struct_hash FROM entities WHERE ",
    );
    proof {
        reveal_strlit("SELECT file, name, kind, line_start, line_end, parent, sig, visibility, body_hash, sig_hash, struct_hash FROM entities WHERE ");
    }
    push_str(&mut out, condition);
    if kind_filter.is_some() {
        push_str(&mut out, " AND kind = ?");
    }
    push_str(&mut out, order);
    push_limit(&mut out, limit);
    string_from(&out)
}

/// The SQL and parameters of `get_file_symbols`: the entities of `file`,
/// optionally of one kind, by first line, at most `limit` (0: all).
pub fn file_symbols_query(file: &str, kind_filter: Option<&str>, limit: usize) -> (r: (String, Vec<String>))
    ensures
        r.0@ == entities_sql("file = ?"@, kind_filter is Some, " ORDER BY line_start"@, limit),
        string_views(r.1@) == key_params(file@, kind_filter),
{
    let sql = entities_query("file = ?", kind_filter, " ORDER BY line_start", limit);
    let params = params_of(&[file], kind_filter);
    (sql, params)
}

/// The SQL and parameters of `get_children`: the entities of `file`
/// under `parent`, optionally of one kind, by first line, at most `limit`
/// (0: all).
pub fn children_query(file: &str, parent: &str, kind_filter: Option<&str>, limit: usize) -> (r: (String, Vec<String>))
    ensures
        r.0@ == entities_sql("file = ? AND parent = ?"@, kind_filter is Some, " ORDER BY line_start"@, limit),
        string_views(r.1@) == seq![file@, parent@] + match kind_filter {
            Some(k) => seq![k@],
            None => Seq::empty(),
        },
{
    let sql = entities_query("file = ? AND parent = ?", kind_filter, " ORDER BY line_start", limit);
    let params = params_of(&[file, parent], kind_filter);
    assert(str_views(seq![file, parent]) == seq![file@, parent@]);
    (sql, params)
}

/// What `str::to_lowercase` gives: the Unicode lowercase mapping of each
/// character (which may change the length).
pub uninterp spec fn lowercase(s: Seq<char>) -> Seq<char>;

/// `str::to_lowercase`.
#[verifier::external_body]
fn to_lowercase(s: &str) -> (r: String)
    ensures
        r@ == lowercase(s@),
{
    s.to_lowercase()
}

/// The SQL of `search_symbols`: case-insensitive substring match on the
/// name, then the optional kind and path-prefix filters, in file and line
/// order.
pub open spec fn search_sql(by_kind: bool, by_prefix: bool, limit: usize) -> Seq<char> {
    entity_columns() + "lower(name) LIKE ?"@ + (if by_kind {
        " AND kind = ?"@
    } else {
        Seq::empty()
    }) + (if by_prefix {
        " AND file LIKE ?"@
    } else {
        Seq::empty()
    }) + " ORDER BY file, line_start"@ + limit_clause(limit)
}

/// The parameters of `search_symbols`: `%query%` lowercased, the kind
/// when filtering, `prefix%` when filtering by path.
pub open spec fn search_params(query: Seq<char>, kind_filter: Option<&str>, path_prefix: Option<&str>) -> Seq<Seq<char>> {
    seq!["%"@ + lowercase(query) + "%"@] + (match kind_filter {
        Some(k) => seq![k@],
        None => Seq::empty(),
    }) + match path_prefix {
        Some(p) => seq![p@ + "%"@],
        None => Seq::empty(),
    }
}

/// The SQL and parameters of `search_symbols`; `None` for an empty
/// query, which matches nothing.
pub fn search_symbols_query(
    query: &str,
    kind_filter: Option<&str>,
    path_prefix: Option<&str>,
    limit: usize,
) -> (r: Option<(String, Vec<String>)>)
    ensures
        query@.len() == 0 <==> r is None,
        r matches Some(q) ==> q.0@ == search_sql(kind_filter is Some, path_prefix is Some, limit)
            && string_views(q.1@) == search_params(query@, kind_filter, path_prefix),
{
    if query.unicode_len() == 0 {
        return None;
    }
    let mut out: Vec<char> = Vec::new();
    push_str(
        &mut out,
        "SELECT file, name, kind, line_start, line_end, parent, sig, visibility, body_hash, sig_hash, struct_hash FROM entities WHERE ",
    );
    proof {
        reveal_strlit("SELECT file, name, kind, line_start, line_end, parent, sig, visibility, body_hash, sig_hash, struct_hash FROM entities WHERE ");
    }
    push_str(&mut out, "lower(name) LIKE ?");
    if kind_filter.is_some() {
        push_str(&mut out, " AND kind = ?");
    }
    if path_prefix.is_some() {
        push_str(&mut out, " AND file LIKE ?");
    }
    push_str(&mut out, " ORDER BY file, line_start");
    push_limit(&mut out, limit);
    let sql = string_from(&out);

    let mut needle: Vec<char> = Vec::new();
    push_str(&mut needle, "%");
    let low = to_lowercase(query);
    push_str(&mut needle, low.as_str());
    push_str(&mut needle, "%");
    let mut params: Vec<String> = Vec::new();
    params.push(string_from(&needle));
    let ghost p1 = params@;
    if let Some(k) = kind_filter {
        params.push(String::from_str(k));
    }
    let ghost p2 = params@;
    if let Some(p) = path_prefix {
        let mut pre: Vec<char> = Vec::new();
        push_str(&mut pre, p);
        push_str(&mut pre, "%");
        params.push(string_from(&pre));
    }
    assert(string_views(params@) =~= search_params(query@, kind_filter, path_prefix));
    Some((sql, params))
}

/// `s` as the body of a single-quoted SQL string: each `'` doubled.
pub open spec fn sql_quoted(s: Seq<char>) -> Seq<char>
    decreases s.len(),
{
    if s.len() == 0 {
        Seq::empty()
    } else if s.last() == '\'' {
        sql_quoted(s.drop_last()) + seq!['\'', '\'']
    } else {
        sql_quoted(s.drop_last()).push(s.last())
    }
}

/// A path written into SQL between single quotes: each `'` doubled.
pub fn path_for_sql(path: &str) -> (r: String)
    ensures
        r@ == sql_quoted(path@),
{
    let v = crate::text::chars_vec(path);
    let mut out: Vec<char> = Vec::new();
    let mut i: usize = 0;
    while i < v.len()
        invariant
            i <= v@.len(),
            v@ == path@,
            out@ == sql_quoted(v@.take(i as int)),
        decreases v@.len() - i,
    {
        assert(v@.take(i + 1).drop_last() == v@.take(i as int));
        if v[i] == '\'' {
            out.push('\'');
            out.push('\'');
        } else {
            out.push(v[i]);
        }
        i += 1;
    }
    assert(v@.take(v@.len() as int) == v@);
    string_from(&out)
}

/// The script that fills a fresh store: both tables read from their JSONL
/// files (paths quoted), then the lookup indexes by name, file and caller.
pub open spec fn populate_script(entities_jsonl: Seq<char>, refs_jsonl: Seq<char>) -> Seq<char> {
    "CREATE TABLE entities AS SELECT * FROM read_json_auto('"@ + sql_quoted(entities_jsonl)
        + "');\n         CREATE TABLE refs     AS SELECT * FROM read_json_auto('"@ + sql_quoted(refs_jsonl)
        + "');\n         CREATE INDEX idx_entities_name ON entities(name);\n         CREATE INDEX idx_entities_file ON entities(file);\n         CREATE INDEX idx_refs_name   ON refs(name);\n         CREATE INDEX idx_refs_caller ON refs(caller);\n         CREATE INDEX idx_refs_file   ON refs(file);"@
}

/// The SQL of `populate`, for the store's two JSONL files.
pub fn populate_sql(entities_jsonl: &str, refs_jsonl: &str) -> (r: String)
    ensures
        r@ == populate_script(entities_jsonl@, refs_jsonl@),
{
    let mut out: Vec<char> = Vec::new();
    push_str(&mut out, "CREATE TABLE entities AS SELECT * FROM read_json_auto('");
    let e = path_for_sql(entities_jsonl);
    push_str(&mut out, e.as_str());
    push_str(&mut out, "');\n         CREATE TABLE refs     AS SELECT * FROM read_json_auto('");
    let q = path_for_sql(refs_jsonl);
    push_str(&mut out, q.as_str());
    push_str(
        &mut out,
        "');\n         CREATE INDEX idx_entities_name ON entities(name);\n         CREATE INDEX idx_entities_file ON entities(file);\n         CREATE INDEX idx_refs_name   ON refs(name);\n         CREATE INDEX idx_refs_caller ON refs(caller);\n         CREATE INDEX idx_refs_file   ON refs(file);",
    );
    string_from(&out)
}

} // verus!

