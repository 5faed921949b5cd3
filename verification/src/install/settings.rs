//! Editing the hook list of an agent's JSON settings: sigil's entry is
//! recognised by the `sigil-hint` tag in its command, replaced on every
//! install and removed on uninstall; every other entry and key is kept.

use vstd::prelude::*;
use crate::text::contains_sub;
use crate::install::json::{
    fields_view, field, field_index, find_field, get, items_view, json_get, json_str_contains, jv,
    lemma_field_index, lemma_jv_array, lemma_jv_object, remove_field, set_field, str_contains, Json,
    JsonV,
};

verus! {

broadcast use vstd::string::group_string_axioms;

/// Why a settings document cannot take sigil's hook.
#[derive(Debug, Clone, Copy, PartialEq, Eq, Structural)]
pub enum SettingsError {
    /// The document is not a JSON object.
    RootNotObject,
    /// The object that should hold the hook list is something else.
    HooksNotObject,
    /// The hook list is not an array.
    ListNotArray,
}

/// What to do with a settings file after an uninstall.
#[derive(Debug)]
pub enum JsonAction {
    Keep,
    Write(Json),
    Delete,
}

pub open spec fn json_action_view(a: JsonAction) -> Option<Option<JsonV>> {
    match a {
        JsonAction::Keep => None,
        JsonAction::Write(j) => Some(Some(jv(j))),
        JsonAction::Delete => Some(None),
    }
}

/// The tag that marks sigil's hook commands.
pub open spec fn hook_id() -> Seq<char> {
    "sigil-hint"@
}

/// Whether a hook-list entry is sigil's: its `command` holds the tag, or
/// (`nested`) one of its `hooks` does.
pub open spec fn is_sigil_entry(e: JsonV, nested: bool) -> bool {
    if nested {
        match get(e, "hooks"@) {
            Some(JsonV::Array(hs)) => exists|i: int|
                0 <= i < hs.len() && str_contains(get(#[trigger] hs[i], "command"@), hook_id()),
            _ => false,
        }
    } else {
        str_contains(get(e, "command"@), hook_id())
    }
}

/// The entries that are not sigil's, in order.
pub open spec fn without_sigil(arr: Seq<JsonV>, nested: bool) -> Seq<JsonV>
    decreases arr.len(),
{
    if arr.len() == 0 {
        Seq::empty()
    } else if is_sigil_entry(arr[0], nested) {
        without_sigil(arr.drop_first(), nested)
    } else {
        seq![arr[0]] + without_sigil(arr.drop_first(), nested)
    }
}

/// Install `entry` into the list under `key` of the object `fs` (an
/// absent list counts as empty).
pub open spec fn list_upserted(fs: Seq<(Seq<char>, JsonV)>, key: Seq<char>, nested: bool, entry: JsonV) -> Result<
    Seq<(Seq<char>, JsonV)>,
    SettingsError,
> {
    let cur = match field(fs, key) {
        Some(v) => v,
        None => JsonV::Array(Seq::empty()),
    };
    match cur {
        JsonV::Array(arr) => Ok(set_field(fs, key, JsonV::Array(without_sigil(arr, nested).push(entry)))),
        _ => Err(SettingsError::ListNotArray),
    }
}

/// The settings after installing `entry` into the hook list `key` of the
/// object under `outer` (or of the top level): earlier sigil entries are
/// dropped and `entry` appended; missing objects and lists are created.
pub open spec fn hooks_upserted(
    doc: JsonV,
    outer: Option<Seq<char>>,
    key: Seq<char>,
    nested: bool,
    entry: JsonV,
) -> Result<JsonV, SettingsError> {
    match doc {
        JsonV::Object(fs) => match outer {
            None => match list_upserted(fs, key, nested, entry) {
                Ok(fs2) => Ok(JsonV::Object(fs2)),
                Err(e) => Err(e),
            },
            Some(o) => {
                let h = match field(fs, o) {
                    Some(v) => v,
                    None => JsonV::Object(Seq::empty()),
                };
                match h {
                    JsonV::Object(hf) => match list_upserted(hf, key, nested, entry) {
                        Ok(hf2) => Ok(JsonV::Object(set_field(fs, o, JsonV::Object(hf2)))),
                        Err(e) => Err(e),
                    },
                    _ => Err(SettingsError::HooksNotObject),
                }
            },
        },
        _ => Err(SettingsError::RootNotObject),
    }
}

/// The entries `fs` after removing sigil's entries from their list
/// `key`: `None` when there is no such list or none of its entries is
/// sigil's; a list left empty is removed.
pub open spec fn list_removed(fs: Seq<(Seq<char>, JsonV)>, key: Seq<char>, nested: bool) -> Option<
    Seq<(Seq<char>, JsonV)>,
> {
    match field(fs, key) {
        Some(JsonV::Array(arr)) => {
            let a2 = without_sigil(arr, nested);
            if a2.len() == arr.len() {
                None
            } else if a2.len() == 0 {
                Some(remove_field(fs, key))
            } else {
                Some(set_field(fs, key, JsonV::Array(a2)))
            }
        },
        _ => None,
    }
}

/// The settings after removing sigil's entries from the list `key` (under
/// `outer`): `None` when there were none (or no such list); a list left
/// empty is removed, and under `outer` the object too when nothing else
/// is left in it; `Some(None)` when the whole document is left empty.
pub open spec fn hooks_removed(doc: JsonV, outer: Option<Seq<char>>, key: Seq<char>, nested: bool) -> Option<
    Option<JsonV>,
> {
    match doc {
        JsonV::Object(fs) => {
            let fs2 = match outer {
                None => list_removed(fs, key, nested),
                Some(o) => match field(fs, o) {
                    Some(JsonV::Object(hf)) => match list_removed(hf, key, nested) {
                        Some(hf2) => if hf2.len() == 0 {
                            Some(remove_field(fs, o))
                        } else {
                            Some(set_field(fs, o, JsonV::Object(hf2)))
                        },
                        None => None,
                    },
                    _ => None,
                },
            };
            match fs2 {
                Some(f) => if f.len() == 0 {
                    Some(None)
                } else {
                    Some(Some(JsonV::Object(f)))
                },
                None => None,
            }
        },
        _ => None,
    }
}

/// Whether `e` is sigil's hook entry (see `is_sigil_entry`).
pub fn is_sigil_hook(e: &Json, nested: bool) -> (r: bool)
    ensures
        r == is_sigil_entry(jv(*e), nested),
{
    if nested {
        match json_get(e, "hooks") {
            Some(Json::Array(hs)) => {
                proof {
                    lemma_jv_array(*hs);
                }
                let ghost hv = items_view(hs@);
                assert(get(jv(*e), "hooks"@) == Some(JsonV::Array(hv)));
                let mut i: usize = 0;
                while i < hs.len()
                    invariant
                        i <= hs@.len(),
                        hv == items_view(hs@),
                        nested,
                        get(jv(*e), "hooks"@) == Some(JsonV::Array(hv)),
                        forall|j: int| 0 <= j < i ==> !str_contains(get(#[trigger] hv[j], "command"@), hook_id()),
                    decreases hs@.len() - i,
                {
                    if json_str_contains(json_get(&hs[i], "command"), "sigil-hint") {
                        assert(hv[i as int] == jv(hs@[i as int]));
                        assert(0 <= i < hv.len() && str_contains(get(hv[i as int], "command"@), hook_id()));
                        return true;
                    }
                    i += 1;
                }
                false
            },
            _ => false,
        }
    } else {
        json_str_contains(json_get(e, "command"), "sigil-hint")
    }
}

/// `arr` without sigil's entries, and whether any was dropped.
fn drop_sigil_entries(arr: Vec<Json>, nested: bool) -> (r: (Vec<Json>, bool))
    ensures
        items_view(r.0@) == without_sigil(items_view(arr@), nested),
        r.1 == (without_sigil(items_view(arr@), nested).len() != arr@.len()),
{
    let ghost all = items_view(arr@);
    proof {
        lemma_without_sigil_len(all, nested);
    }
    let mut rest = arr;
    let mut kept: Vec<Json> = Vec::new();
    let mut dropped = false;
    while rest.len() > 0
        invariant
            items_view(kept@) + without_sigil(items_view(rest@), nested) == without_sigil(all, nested),
            dropped == (kept@.len() + rest@.len() != all.len()),
            kept@.len() + rest@.len() <= all.len(),
            without_sigil(items_view(rest@), nested).len() <= rest@.len(),
        decreases rest@.len(),
    {
        let ghost rv = items_view(rest@);
        let e = rest.remove(0);
        assert(items_view(rest@) == rv.drop_first());
        assert(rv[0] == jv(e));
        if is_sigil_hook(&e, nested) {
            dropped = true;
        } else {
            let ghost kv = items_view(kept@);
            kept.push(e);
            assert(items_view(kept@) == kv.push(jv(e)));
            assert(kv.push(jv(e)) + without_sigil(items_view(rest@), nested) == kv + (seq![jv(e)]
                + without_sigil(items_view(rest@), nested)));
        }
        proof {
            lemma_without_sigil_len(items_view(rest@), nested);
        }
    }
    proof {
        lemma_without_sigil_len(all, nested);
    }
    (kept, dropped)
}

proof fn lemma_without_sigil_len(arr: Seq<JsonV>, nested: bool)
    ensures
        without_sigil(arr, nested).len() <= arr.len(),
    decreases arr.len(),
{
    if arr.len() > 0 {
        lemma_without_sigil_len(arr.drop_first(), nested);
    }
}

proof fn lemma_fields_update(fs: Seq<(String, Json)>, i: int, k: String, v: Json)
    requires
        0 <= i < fs.len(),
    ensures
        fields_view(fs.remove(i).insert(i, (k, v))) == fields_view(fs).update(i, (k@, jv(v))),
        fields_view(fs.remove(i)) == fields_view(fs).remove(i),
{
    assert(fields_view(fs.remove(i).insert(i, (k, v))) =~= fields_view(fs).update(i, (k@, jv(v))));
    assert(fields_view(fs.remove(i)) =~= fields_view(fs).remove(i));
}

proof fn lemma_fields_push(fs: Seq<(String, Json)>, k: String, v: Json)
    ensures
        fields_view(fs.push((k, v))) == fields_view(fs).push((k@, jv(v))),
{
    assert(fields_view(fs.push((k, v))) =~= fields_view(fs).push((k@, jv(v))));
}

proof fn lemma_items_push(v: Seq<Json>, x: Json)
    ensures
        items_view(v.push(x)) == items_view(v).push(jv(x)),
{
    assert(items_view(v.push(x)) =~= items_view(v).push(jv(x)));
}

/// Install `entry` into the list `key` of the object with entries `fs`.
fn upsert_list(fs: Vec<(String, Json)>, key: &str, nested: bool, entry: Json) -> (r: Result<
    Vec<(String, Json)>,
    SettingsError,
>)
    ensures
        match r {
            Ok(f2) => list_upserted(fields_view(fs@), key@, nested, jv(entry)) == Ok::<
                Seq<(Seq<char>, JsonV)>,
                SettingsError,
            >(fields_view(f2@)),
            Err(e) => list_upserted(fields_view(fs@), key@, nested, jv(entry)) == Err::<
                Seq<(Seq<char>, JsonV)>,
                SettingsError,
            >(e),
        },
{
    let ghost fv = fields_view(fs@);
    let ghost ev = jv(entry);
    let mut fs = fs;
    proof {
        lemma_field_index(fv, key@);
    }
    match find_field(&fs, key) {
        Some(i) => {
            let ghost before = fs@;
            let (k, v) = fs.remove(i);
            match v {
                Json::Array(arr) => {
                    proof {
                        lemma_jv_array(arr);
                    }
                    let (kept, _) = drop_sigil_entries(arr, nested);
                    let mut kept = kept;
                    let ghost kb = kept@;
                    kept.push(entry);
                    proof {
                        lemma_items_push(kb, entry);
                    }
                    let nv = Json::Array(kept);
                    proof {
                        lemma_jv_array(kept);
                        lemma_fields_update(before, i as int, k, nv);
                    }
                    fs.insert(i, (k, nv));
                    Ok(fs)
                },
                _ => {
                    proof {
                        assert(jv(v) !is Array);
                    }
                    Err(SettingsError::ListNotArray)
                },
            }
        },
        None => {
            let mut arr: Vec<Json> = Vec::new();
            arr.push(entry);
            proof {
                lemma_items_push(Seq::empty(), entry);
                assert(Seq::<Json>::empty().push(entry) == arr@);
                assert(without_sigil(Seq::<JsonV>::empty(), nested) == Seq::<JsonV>::empty());
                assert(items_view(Seq::<Json>::empty()) == Seq::<JsonV>::empty());
            }
            let nv = Json::Array(arr);
            proof {
                lemma_jv_array(arr);
            }
            let ghost before = fs@;
            let k = String::from_str(key);
            proof {
                lemma_fields_push(before, k, nv);
            }
            fs.push((k, nv));
            Ok(fs)
        },
    }
}

pub open spec fn opt_str_view(o: Option<&str>) -> Option<Seq<char>> {
    match o {
        Some(s) => Some(s@),
        None => None,
    }
}

pub open spec fn result_view(r: Result<Json, SettingsError>) -> Result<JsonV, SettingsError> {
    match r {
        Ok(j) => Ok(jv(j)),
        Err(e) => Err(e),
    }
}

/// Install `entry` into the hook list `key` of the settings `doc`, inside
/// the object `outer` when given (see `hooks_upserted`).
pub fn upsert_hooks(doc: Json, outer: Option<&str>, key: &str, nested: bool, entry: Json) -> (r: Result<
    Json,
    SettingsError,
>)
    ensures
        result_view(r) == hooks_upserted(jv(doc), opt_str_view(outer), key@, nested, jv(entry)),
{
    let ghost dv = jv(doc);
    let ghost ev = jv(entry);
    match doc {
        Json::Object(fs) => {
            proof {
                lemma_jv_object(fs);
            }
            let ghost fv = fields_view(fs@);
            match outer {
                None => match upsert_list(fs, key, nested, entry) {
                    Ok(f2) => {
                        proof {
                            lemma_jv_object(f2);
                        }
                        Ok(Json::Object(f2))
                    },
                    Err(e) => Err(e),
                },
                Some(o) => {
                    let mut fs = fs;
                    proof {
                        lemma_field_index(fv, o@);
                    }
                    match find_field(&fs, o) {
                        Some(i) => {
                            let ghost before = fs@;
                            let (k, h) = fs.remove(i);
                            match h {
                                Json::Object(hf) => {
                                    proof {
                                        lemma_jv_object(hf);
                                    }
                                    match upsert_list(hf, key, nested, entry) {
                                        Ok(hf2) => {
                                            let nh = Json::Object(hf2);
                                            proof {
                                                lemma_jv_object(hf2);
                                                lemma_fields_update(before, i as int, k, nh);
                                            }
                                            fs.insert(i, (k, nh));
                                            proof {
                                                lemma_jv_object(fs);
                                            }
                                            Ok(Json::Object(fs))
                                        },
                                        Err(e) => Err(e),
                                    }
                                },
                                _ => {
                                    proof {
                                        assert(jv(h) !is Object);
                                    }
                                    Err(SettingsError::HooksNotObject)
                                },
                            }
                        },
                        None => {
                            let empty: Vec<(String, Json)> = Vec::new();
                            proof {
                                assert(fields_view(empty@) == Seq::<(Seq<char>, JsonV)>::empty());
                            }
                            match upsert_list(empty, key, nested, entry) {
                                Ok(hf2) => {
                                    let nh = Json::Object(hf2);
                                    proof {
                                        lemma_jv_object(hf2);
                                    }
                                    let ghost before = fs@;
                                    let k = String::from_str(o);
                                    proof {
                                        lemma_fields_push(before, k, nh);
                                    }
                                    fs.push((k, nh));
                                    proof {
                                        lemma_jv_object(fs);
                                    }
                                    Ok(Json::Object(fs))
                                },
                                Err(e) => Err(e),
                            }
                        },
                    }
                },
            }
        },
        _ => {
            proof {
                assert(jv(doc) !is Object);
            }
            Err(SettingsError::RootNotObject)
        },
    }
}

/// Remove sigil's entries from the list `key` of the entries `fs`:
/// `None` when there is no such list or nothing was removed; else the
/// entries with the list replaced, or dropped when left empty.
fn remove_from_list(fs: Vec<(String, Json)>, key: &str, nested: bool) -> (r: Option<Vec<(String, Json)>>)
    ensures
        match r {
            Some(f2) => list_removed(fields_view(fs@), key@, nested) == Some(fields_view(f2@)),
            None => list_removed(fields_view(fs@), key@, nested) is None,
        },
{
    let ghost fv = fields_view(fs@);
    let mut fs = fs;
    proof {
        lemma_field_index(fv, key@);
    }
    match find_field(&fs, key) {
        Some(i) => {
            let ghost before = fs@;
            let (k, v) = fs.remove(i);
            match v {
                Json::Array(arr) => {
                    proof {
                        lemma_jv_array(arr);
                    }
                    let (kept, dropped) = drop_sigil_entries(arr, nested);
                    if !dropped {
                        return None;
                    }
                    if kept.len() > 0 {
                        let nv = Json::Array(kept);
                        proof {
                            lemma_jv_array(kept);
                            lemma_fields_update(before, i as int, k, nv);
                        }
                        fs.insert(i, (k, nv));
                    } else {
                        proof {
                            lemma_fields_update(before, i as int, k, Json::Null);
                        }
                    }
                    Some(fs)
                },
                _ => {
                    proof {
                        assert(jv(v) !is Array);
                    }
                    None
                },
            }
        },
        None => None,
    }
}

/// Remove sigil's entries from the hook list `key` of the settings `doc`
/// (inside the object `outer` when given): whether any was removed, and
/// what to do with the file (see `hooks_removed`).
pub fn remove_hooks(doc: Json, outer: Option<&str>, key: &str, nested: bool) -> (r: (bool, JsonAction))
    ensures
        json_action_view(r.1) == hooks_removed(jv(doc), opt_str_view(outer), key@, nested),
        r.0 == (json_action_view(r.1) is Some),
{
    let ghost dv = jv(doc);
    match doc {
        Json::Object(fs) => {
            proof {
                lemma_jv_object(fs);
            }
            let ghost fv = fields_view(fs@);
            proof {
                lemma_field_index(fv, key@);
            }
            match outer {
                None => match remove_from_list(fs, key, nested) {
                    Some(f2) => {
                        if f2.len() == 0 {
                            assert(hooks_removed(dv, opt_str_view(outer), key@, nested) == Some(None::<JsonV>));
                            (true, JsonAction::Delete)
                        } else {
                            proof {
                                lemma_jv_object(f2);
                            }
                            (true, JsonAction::Write(Json::Object(f2)))
                        }
                    },
                    None => (false, JsonAction::Keep),
                },
                Some(o) => {
                    let mut fs = fs;
                    proof {
                        lemma_field_index(fv, o@);
                    }
                    match find_field(&fs, o) {
                        Some(i) => {
                            let ghost before = fs@;
                            let (k, h) = fs.remove(i);
                            let ghost hv = jv(h);
                            assert(fv[i as int] == (k@, hv));
                            assert(get(dv, o@) == Some(hv));
                            match h {
                                Json::Object(hf) => {
                                    proof {
                                        lemma_jv_object(hf);
                                        lemma_field_index(fields_view(hf@), key@);
                                    }
                                    assert(hv == JsonV::Object(fields_view(hf@)));
                                    match remove_from_list(hf, key, nested) {
                                        Some(hf2) => {
                                            if hf2.len() == 0 {
                                                proof {
                                                    lemma_fields_update(before, i as int, k, Json::Null);
                                                }
                                            } else {
                                                let nh = Json::Object(hf2);
                                                proof {
                                                    lemma_jv_object(hf2);
                                                    lemma_fields_update(before, i as int, k, nh);
                                                }
                                                fs.insert(i, (k, nh));
                                            }
                                            if fs.len() == 0 {
                                                assert(fields_view(fs@) == fv.remove(i as int));
                                                assert(remove_field(fv, o@) == fv.remove(i as int));
                                                assert(hooks_removed(dv, opt_str_view(outer), key@, nested) == Some(None::<JsonV>));
                                                (true, JsonAction::Delete)
                                            } else {
                                                proof {
                                                    lemma_jv_object(fs);
                                                }
                                                (true, JsonAction::Write(Json::Object(fs)))
                                            }
                                        },
                                        None => (false, JsonAction::Keep),
                                    }
                                },
                                _ => {
                                    proof {
                                        assert(jv(h) !is Object);
                                    }
                                    (false, JsonAction::Keep)
                                },
                            }
                        },
                        None => (false, JsonAction::Keep),
                    }
                },
            }
        },
        _ => {
            proof {
                assert(jv(doc) !is Object);
            }
            (false, JsonAction::Keep)
        },
    }
}

// ---------------------------------------------------------------------
// Laws
// ---------------------------------------------------------------------

/// The hook list of `doc` (under `outer`), empty when there is none.
pub open spec fn hook_list(doc: JsonV, outer: Option<Seq<char>>, key: Seq<char>) -> Seq<JsonV> {
    let holder = match outer {
        None => Some(doc),
        Some(o) => get(doc, o),
    };
    match holder {
        Some(h) => match get(h, key) {
            Some(JsonV::Array(a)) => a,
            _ => Seq::empty(),
        },
        None => Seq::empty(),
    }
}

/// No key occurs twice among `fs` (as in any parsed JSON object).
pub open spec fn unique_keys(fs: Seq<(Seq<char>, JsonV)>) -> bool {
    forall|i: int, j: int| 0 <= i < j < fs.len() ==> #[trigger] fs[i].0 != #[trigger] fs[j].0
}

proof fn lemma_without_sigil_push(arr: Seq<JsonV>, e: JsonV, nested: bool)
    ensures
        without_sigil(arr.push(e), nested) == if is_sigil_entry(e, nested) {
            without_sigil(arr, nested)
        } else {
            without_sigil(arr, nested).push(e)
        },
    decreases arr.len(),
{
    let p = arr.push(e);
    if arr.len() == 0 {
        assert(arr =~= Seq::<JsonV>::empty());
        assert(p.drop_first() =~= Seq::<JsonV>::empty());
        assert(p[0] == e);
        assert(without_sigil(Seq::<JsonV>::empty(), nested) == Seq::<JsonV>::empty());
        assert(without_sigil(p, nested) == if is_sigil_entry(e, nested) {
            without_sigil(p.drop_first(), nested)
        } else {
            seq![e] + without_sigil(p.drop_first(), nested)
        });
        assert(seq![e] + Seq::<JsonV>::empty() =~= Seq::<JsonV>::empty().push(e));
    } else {
        assert(p.drop_first() =~= arr.drop_first().push(e));
        assert(p[0] == arr[0]);
        lemma_without_sigil_push(arr.drop_first(), e, nested);
        let w = without_sigil(arr.drop_first(), nested);
        assert(without_sigil(p, nested) == if is_sigil_entry(arr[0], nested) {
            without_sigil(p.drop_first(), nested)
        } else {
            seq![arr[0]] + without_sigil(p.drop_first(), nested)
        });
        if !is_sigil_entry(arr[0], nested) {
            assert(seq![arr[0]] + w.push(e) =~= (seq![arr[0]] + w).push(e));
        }
    }
}

proof fn lemma_without_sigil_idem(arr: Seq<JsonV>, nested: bool)
    ensures
        without_sigil(without_sigil(arr, nested), nested) == without_sigil(arr, nested),
        forall|i: int| 0 <= i < without_sigil(arr, nested).len() ==> !is_sigil_entry(
            #[trigger] without_sigil(arr, nested)[i],
            nested,
        ),
    decreases arr.len(),
{
    if arr.len() > 0 {
        lemma_without_sigil_idem(arr.drop_first(), nested);
        let w = without_sigil(arr.drop_first(), nested);
        if !is_sigil_entry(arr[0], nested) {
            let x = seq![arr[0]] + w;
            assert(x.drop_first() == w);
            assert(x[0] == arr[0]);
            assert forall|i: int| 0 <= i < x.len() implies !is_sigil_entry(#[trigger] x[i], nested) by {
                if i > 0 {
                    assert(x[i] == w[i - 1]);
                }
            }
        }
    }
}

proof fn lemma_set_field(fs: Seq<(Seq<char>, JsonV)>, k: Seq<char>, v: JsonV)
    ensures
        field(set_field(fs, k, v), k) == Some(v),
        forall|k2: Seq<char>| k2 != k ==> field(set_field(fs, k, v), k2) == field(fs, k2),
        set_field(set_field(fs, k, v), k, v) == set_field(fs, k, v),
        unique_keys(fs) ==> unique_keys(set_field(fs, k, v)),
{
    crate::install::json::lemma_field_index(fs, k);
    let t = set_field(fs, k, v);
    match field_index(fs, k) {
        Some(i) => {
            crate::install::json::lemma_field_index_at(t, k, i);
            assert forall|k2: Seq<char>| k2 != k implies field(t, k2) == field(fs, k2) by {
                crate::install::json::lemma_field_index(fs, k2);
                match field_index(fs, k2) {
                    Some(j) => {
                        crate::install::json::lemma_field_index_at(t, k2, j);
                    },
                    None => {
                        crate::install::json::lemma_field_index_at(t, k2, t.len() as int);
                    },
                }
            }
            assert(t.update(i, (k, v)) == t);
        },
        None => {
            crate::install::json::lemma_field_index_at(t, k, fs.len() as int);
            assert forall|k2: Seq<char>| k2 != k implies field(t, k2) == field(fs, k2) by {
                crate::install::json::lemma_field_index(fs, k2);
                match field_index(fs, k2) {
                    Some(j) => {
                        crate::install::json::lemma_field_index_at(t, k2, j);
                    },
                    None => {
                        crate::install::json::lemma_field_index_at(t, k2, t.len() as int);
                    },
                }
            }
            crate::install::json::lemma_field_index_at(t, k, fs.len() as int);
            assert(t.update(fs.len() as int, (k, v)) == t);
        },
    }
}

/// After an install, the hook list is the user's entries, in order,
/// followed by sigil's entry; every other key of the document (and of the
/// object holding the list) keeps its value.
pub proof fn law_hook_install_keeps_user_entries(
    doc: JsonV,
    outer: Option<Seq<char>>,
    key: Seq<char>,
    nested: bool,
    entry: JsonV,
)
    requires
        hooks_upserted(doc, outer, key, nested, entry) is Ok,
    ensures
        ({
            let d1 = hooks_upserted(doc, outer, key, nested, entry)->Ok_0;
            &&& hook_list(d1, outer, key) == without_sigil(hook_list(doc, outer, key), nested).push(entry)
            &&& forall|k: Seq<char>|
                (match outer {
                    None => k != key,
                    Some(o) => k != o,
                }) ==> #[trigger] get(d1, k) == get(doc, k)
            &&& (outer matches Some(o) ==> forall|k: Seq<char>| k != key ==> #[trigger] get(get(d1, o)->0, k) == get(
                get(doc, o).unwrap_or(JsonV::Object(Seq::empty())),
                k,
            ))
        }),
{
    let fs = doc->Object_0;
    match outer {
        None => {
            let cur = match field(fs, key) {
                Some(v) => v,
                None => JsonV::Array(Seq::empty()),
            };
            let arr = cur->Array_0;
            lemma_set_field(fs, key, JsonV::Array(without_sigil(arr, nested).push(entry)));
        },
        Some(o) => {
            let h = match field(fs, o) {
                Some(v) => v,
                None => JsonV::Object(Seq::empty()),
            };
            let hf = h->Object_0;
            let cur = match field(hf, key) {
                Some(v) => v,
                None => JsonV::Array(Seq::empty()),
            };
            let arr = cur->Array_0;
            let hf2 = set_field(hf, key, JsonV::Array(without_sigil(arr, nested).push(entry)));
            lemma_set_field(hf, key, JsonV::Array(without_sigil(arr, nested).push(entry)));
            lemma_set_field(fs, o, JsonV::Object(hf2));
        },
    }
}

/// Installing sigil's hook a second time changes nothing.
pub proof fn law_hook_reinstall_is_noop(
    doc: JsonV,
    outer: Option<Seq<char>>,
    key: Seq<char>,
    nested: bool,
    entry: JsonV,
)
    requires
        is_sigil_entry(entry, nested),
        hooks_upserted(doc, outer, key, nested, entry) is Ok,
    ensures
        hooks_upserted(hooks_upserted(doc, outer, key, nested, entry)->Ok_0, outer, key, nested, entry)
            == hooks_upserted(doc, outer, key, nested, entry),
{
    let fs = doc->Object_0;
    match outer {
        None => {
            let cur = match field(fs, key) {
                Some(v) => v,
                None => JsonV::Array(Seq::empty()),
            };
            let arr = cur->Array_0;
            let a1 = without_sigil(arr, nested).push(entry);
            lemma_set_field(fs, key, JsonV::Array(a1));
            lemma_without_sigil_push(without_sigil(arr, nested), entry, nested);
            lemma_without_sigil_idem(arr, nested);
        },
        Some(o) => {
            let h = match field(fs, o) {
                Some(v) => v,
                None => JsonV::Object(Seq::empty()),
            };
            let hf = h->Object_0;
            let cur = match field(hf, key) {
                Some(v) => v,
                None => JsonV::Array(Seq::empty()),
            };
            let arr = cur->Array_0;
            let a1 = without_sigil(arr, nested).push(entry);
            let hf2 = set_field(hf, key, JsonV::Array(a1));
            lemma_set_field(hf, key, JsonV::Array(a1));
            lemma_set_field(fs, o, JsonV::Object(hf2));
            lemma_set_field(hf2, key, JsonV::Array(a1));
            lemma_without_sigil_push(without_sigil(arr, nested), entry, nested);
            lemma_without_sigil_idem(arr, nested);
        },
    }
}

proof fn lemma_remove_field(fs: Seq<(Seq<char>, JsonV)>, k: Seq<char>)
    ensures
        forall|k2: Seq<char>| k2 != k ==> field(remove_field(fs, k), k2) == field(fs, k2),
        unique_keys(fs) ==> field(remove_field(fs, k), k) is None && unique_keys(remove_field(fs, k)),
{
    crate::install::json::lemma_field_index(fs, k);
    match field_index(fs, k) {
        Some(i) => {
            let t = fs.remove(i);
            assert forall|k2: Seq<char>| k2 != k implies field(t, k2) == field(fs, k2) by {
                crate::install::json::lemma_field_index(fs, k2);
                match field_index(fs, k2) {
                    Some(j) => {
                        if j < i {
                            crate::install::json::lemma_field_index_at(t, k2, j);
                        } else {
                            assert forall|m: int| 0 <= m < j - 1 implies t[m].0 != k2 by {
                                if m < i {
                                    assert(t[m] == fs[m]);
                                } else {
                                    assert(t[m] == fs[m + 1]);
                                }
                            }
                            crate::install::json::lemma_field_index_at(t, k2, j - 1);
                        }
                    },
                    None => {
                        assert forall|m: int| 0 <= m < t.len() implies t[m].0 != k2 by {
                            if m < i {
                                assert(t[m] == fs[m]);
                            } else {
                                assert(t[m] == fs[m + 1]);
                            }
                        }
                        crate::install::json::lemma_field_index_at(t, k2, t.len() as int);
                    },
                }
            }
            if unique_keys(fs) {
                assert forall|m: int| 0 <= m < t.len() implies t[m].0 != k by {
                    if m < i {
                        assert(t[m] == fs[m]);
                    } else {
                        assert(t[m] == fs[m + 1]);
                        assert(fs[i].0 != fs[m + 1].0);
                    }
                }
                crate::install::json::lemma_field_index_at(t, k, t.len() as int);
                assert forall|a: int, b: int| 0 <= a < b < t.len() implies #[trigger] t[a].0 != #[trigger] t[b].0 by {
                    let a2 = if a < i { a } else { a + 1 };
                    let b2 = if b < i { b } else { b + 1 };
                    assert(t[a] == fs[a2]);
                    assert(t[b] == fs[b2]);
                    assert(fs[a2].0 != fs[b2].0);
                }
            }
        },
        None => {},
    }
}

/// The object holding the hook list (an empty one when absent).
pub open spec fn list_holder(doc: JsonV, outer: Option<Seq<char>>) -> JsonV {
    match outer {
        None => doc,
        Some(o) => match get(doc, o) {
            Some(h) => h,
            None => JsonV::Object(Seq::empty()),
        },
    }
}

/// The document an uninstall leaves (an empty one when the file goes).
pub open spec fn remaining_doc(r: Option<Option<JsonV>>, doc: JsonV) -> JsonV {
    match r {
        Some(Some(d)) => d,
        Some(None) => JsonV::Object(Seq::empty()),
        None => doc,
    }
}

/// Uninstalling right after an install removes sigil's entry and nothing
/// else: the hook list is the user's entries as they were before the
/// install (dropped when there are none), and every other key of the
/// document and of the object holding the list keeps its value.
pub proof fn law_hook_uninstall_after_install(
    doc: JsonV,
    outer: Option<Seq<char>>,
    key: Seq<char>,
    nested: bool,
    entry: JsonV,
)
    requires
        is_sigil_entry(entry, nested),
        hooks_upserted(doc, outer, key, nested, entry) is Ok,
        doc matches JsonV::Object(fs) && unique_keys(fs),
        list_holder(doc, outer) matches JsonV::Object(hf) ==> unique_keys(hf),
    ensures
        ({
            let d1 = hooks_upserted(doc, outer, key, nested, entry)->Ok_0;
            let r = hooks_removed(d1, outer, key, nested);
            let d2 = remaining_doc(r, d1);
            &&& r is Some
            &&& hook_list(d2, outer, key) == without_sigil(hook_list(doc, outer, key), nested)
            &&& forall|k: Seq<char>|
                (match outer {
                    None => k != key,
                    Some(o) => k != o,
                }) ==> #[trigger] get(d2, k) == get(doc, k)
            &&& forall|k: Seq<char>| k != key ==> #[trigger] get(list_holder(d2, outer), k) == get(
                list_holder(doc, outer),
                k,
            )
        }),
{
    let fs = doc->Object_0;
    let l0 = hook_list(doc, outer, key);
    let w = without_sigil(l0, nested);
    let a1 = w.push(entry);
    lemma_without_sigil_push(w, entry, nested);
    lemma_without_sigil_idem(l0, nested);
    assert(without_sigil(a1, nested) == w);
    match outer {
        None => {
            let fs1 = set_field(fs, key, JsonV::Array(a1));
            lemma_set_field(fs, key, JsonV::Array(a1));
            lemma_remove_field(fs1, key);
            lemma_set_field(fs1, key, JsonV::Array(w));
            let d1 = JsonV::Object(fs1);
            assert(hooks_upserted(doc, outer, key, nested, entry) == Ok::<JsonV, SettingsError>(d1));
            let fs2 = if w.len() == 0 {
                remove_field(fs1, key)
            } else {
                set_field(fs1, key, JsonV::Array(w))
            };
            assert(list_removed(fs1, key, nested) == Some(fs2));
            let d2 = remaining_doc(hooks_removed(d1, outer, key, nested), d1);
            if fs2.len() == 0 {
                assert(fs2 =~= Seq::<(Seq<char>, JsonV)>::empty());
            }
            assert(d2 == JsonV::Object(fs2));
            assert forall|k: Seq<char>| k != key implies #[trigger] get(d2, k) == get(doc, k) by {
                assert(field(fs2, k) == field(fs, k));
            }
            assert(hook_list(d2, outer, key) == w);
        },
        Some(o) => {
            let hf = list_holder(doc, outer)->Object_0;
            let hf2 = set_field(hf, key, JsonV::Array(a1));
            lemma_set_field(hf, key, JsonV::Array(a1));
            let fs1 = set_field(fs, o, JsonV::Object(hf2));
            lemma_set_field(fs, o, JsonV::Object(hf2));
            let d1 = JsonV::Object(fs1);
            assert(hooks_upserted(doc, outer, key, nested, entry) == Ok::<JsonV, SettingsError>(d1));
            lemma_remove_field(hf2, key);
            lemma_set_field(hf2, key, JsonV::Array(w));
            let hf3 = if w.len() == 0 {
                remove_field(hf2, key)
            } else {
                set_field(hf2, key, JsonV::Array(w))
            };
            assert(list_removed(hf2, key, nested) == Some(hf3));
            lemma_remove_field(fs1, o);
            lemma_set_field(fs1, o, JsonV::Object(hf3));
            let fs2 = if hf3.len() == 0 {
                remove_field(fs1, o)
            } else {
                set_field(fs1, o, JsonV::Object(hf3))
            };
            let d2 = remaining_doc(hooks_removed(d1, outer, key, nested), d1);
            assert(field(fs1, o) == Some(JsonV::Object(hf2)));
            if fs2.len() == 0 {
                assert(fs2 =~= Seq::<(Seq<char>, JsonV)>::empty());
            }
            assert(d2 == JsonV::Object(fs2));
            assert forall|k: Seq<char>| k != o implies #[trigger] get(d2, k) == get(doc, k) by {
                assert(field(fs2, k) == field(fs, k));
            }
            assert forall|k: Seq<char>| k != key implies #[trigger] get(list_holder(d2, outer), k) == get(
                list_holder(doc, outer),
                k,
            ) by {
                assert(field(hf3, k) == field(hf, k));
                if hf3.len() == 0 {
                    assert(field(hf3, k) is None);
                }
            }
            if hf3.len() == 0 {
                assert(field(hf3, key) is None);
            }
            assert(hook_list(d2, outer, key) == w);
        },
    }
}

/// A command ending in the tag holds the tag.
pub proof fn lemma_tagged_command(prefix: Seq<char>)
    ensures
        contains_sub(prefix + "' # sigil-hint"@, hook_id()),
{
    reveal_strlit("' # sigil-hint");
    reveal_strlit("sigil-hint");
    let t = prefix + "' # sigil-hint"@;
    let i = (prefix.len() + 4) as int;
    assert(t.subrange(i, i + 10) =~= "sigil-hint"@);
    assert(crate::text::occurs_at(t, hook_id(), i));
}

} // verus!
