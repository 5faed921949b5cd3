//! Incremental-index cache: the content hash each indexed file had when it
//! was last parsed.
//!
//! The table is a list of `(path, hash)` pairs in which no path occurs
//! twice; reading and writing `cache.json` is left to the caller.

use vstd::prelude::*;
use crate::text::str_eq;

verus! {

broadcast use vstd::string::group_string_axioms;

/// The lowercase hex BLAKE3 digest of `bytes`.
pub uninterp spec fn blake3_hex(bytes: Seq<u8>) -> Seq<char>;

pub open spec fn is_lower_hex(c: char) -> bool {
    ('0' <= c && c <= '9') || ('a' <= c && c <= 'f')
}

/// BLAKE3 digest of file contents as lowercase hex:
/// `blake3::hash(contents).to_hex()`. Claimed: the result is
/// `blake3_hex(contents)`, 64 characters from `0-9a-f` (32 bytes, two
/// digits each, from the crate's fixed table).
#[verifier::external_body]
pub fn hash_file_contents(contents: &[u8]) -> (r: String)
    ensures
        r@ == blake3_hex(contents@),
        r@.len() == 64,
        forall|i: int| 0 <= i < 64 ==> is_lower_hex(#[trigger] r@[i]),
{
    blake3::hash(contents).to_hex().to_string()
}

/// The hash recorded for `path` in `files` (first entry for that path).
pub open spec fn cached_hash(files: Seq<(String, String)>, path: Seq<char>) -> Option<Seq<char>>
    decreases files.len(),
{
    if files.len() == 0 {
        None
    } else if files[0].0@ == path {
        Some(files[0].1@)
    } else {
        cached_hash(files.drop_first(), path)
    }
}

/// No path occurs twice.
pub open spec fn paths_distinct(files: Seq<(String, String)>) -> bool {
    forall|i: int, j: int|
        0 <= i < j < files.len() ==> #[trigger] files[i].0@ != #[trigger] files[j].0@
}

/// Content hashes of indexed files, keyed by relative path.
#[derive(Debug)]
pub struct Cache {
    pub version: String,
    pub files: Vec<(String, String)>,
}

impl Cache {
    /// The table is a map: each path at most once.
    pub open spec fn wf(&self) -> bool {
        paths_distinct(self.files@)
    }

    /// The path-to-hash map the table stands for.
    pub open spec fn lookup(&self, path: Seq<char>) -> Option<Seq<char>> {
        cached_hash(self.files@, path)
    }

    /// An empty cache of format version `1`.
    pub fn new() -> (r: Cache)
        ensures
            r.version@ == "1"@,
            r.files@.len() == 0,
            r.wf(),
            forall|p: Seq<char>| r.lookup(p) is None,
    {
        Cache { version: String::from_str("1"), files: Vec::new() }
    }

    /// Whether `relative_path` must be re-parsed: it is unknown to the
    /// cache, or its recorded hash differs from `current_hash`.
    pub fn file_changed(&self, relative_path: &str, current_hash: &str) -> (r: bool)
        ensures
            r == (match self.lookup(relative_path@) {
                Some(h) => h != current_hash@,
                None => true,
            }),
    {
        let mut i: usize = 0;
        assert(self.files@.skip(0) == self.files@);
        while i < self.files.len()
            invariant
                i <= self.files@.len(),
                cached_hash(self.files@, relative_path@) == cached_hash(
                    self.files@.skip(i as int),
                    relative_path@,
                ),
            decreases self.files@.len() - i,
        {
            let ghost rest = self.files@.skip(i as int);
            assert(rest.drop_first() == self.files@.skip(i + 1));
            assert(rest[0] == self.files@[i as int]);
            if str_eq(self.files[i].0.as_str(), relative_path) {
                return !str_eq(self.files[i].1.as_str(), current_hash);
            }
            i += 1;
        }
        true
    }

    /// Record `hash` for `path`, replacing any hash recorded before.
    pub fn insert(&mut self, path: String, hash: String)
        requires
            old(self).wf(),
        ensures
            final(self).wf(),
            final(self).version == old(self).version,
            final(self).lookup(path@) == Some(hash@),
            forall|p: Seq<char>| p != path@ ==> final(self).lookup(p) == old(self).lookup(p),
    {
        let ghost before = self.files@;
        let ghost version = self.version;
        let mut i: usize = 0;
        while i < self.files.len()
            invariant
                i <= self.files@.len(),
                self.files@ == before,
                self.version == version,
                before == old(self).files@,
                version == old(self).version,
                paths_distinct(before),
                forall|k: int| 0 <= k < i ==> #[trigger] before[k].0@ != path@,
            decreases self.files@.len() - i,
        {
            if str_eq(self.files[i].0.as_str(), path.as_str()) {
                self.files.set(i, (path, hash));
                assert(self.version == version);
                assert(self.files@ == before.update(i as int, self.files@[i as int]));
                proof {
                    lemma_lookup_update(before, i as int, self.files@[i as int]);
                }
                return;
            }
            i += 1;
        }
        self.files.push((path, hash));
        proof {
            lemma_lookup_push(before, self.files@.last());
        }
    }
}

proof fn lemma_lookup_update(files: Seq<(String, String)>, i: int, e: (String, String))
    requires
        0 <= i < files.len(),
        paths_distinct(files),
        files[i].0@ == e.0@,
    ensures
        paths_distinct(files.update(i, e)),
        cached_hash(files.update(i, e), e.0@) == Some(e.1@),
        forall|p: Seq<char>|
            p != e.0@ ==> cached_hash(files.update(i, e), p) == cached_hash(files, p),
    decreases files.len(),
{
    let u = files.update(i, e);
    assert forall|a: int, b: int| 0 <= a < b < u.len() implies #[trigger] u[a].0@ != #[trigger] u[b].0@ by {
        assert(files[a].0@ != files[b].0@);
    }
    if i == 0 {
        assert(u.drop_first() == files.drop_first());
        assert forall|p: Seq<char>| p != e.0@ implies cached_hash(u, p) == cached_hash(files, p) by {
        }
    } else {
        assert(u.drop_first() == files.drop_first().update(i - 1, e));
        assert(paths_distinct(files.drop_first())) by {
            assert forall|a: int, b: int| 0 <= a < b < files.drop_first().len() implies
                #[trigger] files.drop_first()[a].0@ != #[trigger] files.drop_first()[b].0@ by {
                assert(files[a + 1].0@ != files[b + 1].0@);
            }
        }
        lemma_lookup_update(files.drop_first(), i - 1, e);
        assert(files[0].0@ != e.0@) by {
            assert(files[0].0@ != files[i].0@);
        }
        assert forall|p: Seq<char>| p != e.0@ implies cached_hash(u, p) == cached_hash(files, p) by {
            assert(u[0] == files[0]);
            assert(cached_hash(u.drop_first(), p) == cached_hash(files.drop_first(), p));
        }
    }
}

proof fn lemma_lookup_push(files: Seq<(String, String)>, e: (String, String))
    requires
        paths_distinct(files),
        forall|k: int| 0 <= k < files.len() ==> #[trigger] files[k].0@ != e.0@,
    ensures
        paths_distinct(files.push(e)),
        cached_hash(files.push(e), e.0@) == Some(e.1@),
        forall|p: Seq<char>| p != e.0@ ==> cached_hash(files.push(e), p) == cached_hash(files, p),
    decreases files.len(),
{
    let u = files.push(e);
    assert forall|a: int, b: int| 0 <= a < b < u.len() implies #[trigger] u[a].0@ != #[trigger] u[b].0@ by {
        if b < files.len() {
            assert(files[a].0@ != files[b].0@);
        } else {
            assert(files[a].0@ != e.0@);
        }
    }
    if files.len() > 0 {
        assert(u.drop_first() == files.drop_first().push(e));
        assert(paths_distinct(files.drop_first())) by {
            assert forall|a: int, b: int| 0 <= a < b < files.drop_first().len() implies
                #[trigger] files.drop_first()[a].0@ != #[trigger] files.drop_first()[b].0@ by {
                assert(files[a + 1].0@ != files[b + 1].0@);
            }
        }
        assert forall|k: int| 0 <= k < files.drop_first().len() implies #[trigger] files.drop_first()[k].0@ != e.0@ by {
            assert(files[k + 1].0@ != e.0@);
        }
        lemma_lookup_push(files.drop_first(), e);
        assert(files[0].0@ != e.0@);
        assert forall|p: Seq<char>| p != e.0@ implies cached_hash(u, p) == cached_hash(files, p) by {
            assert(u[0] == files[0]);
            assert(cached_hash(u.drop_first(), p) == cached_hash(files.drop_first(), p));
        }
    } else {
        assert(u.drop_first() == Seq::<(String, String)>::empty());
        assert forall|p: Seq<char>| p != e.0@ implies cached_hash(u, p) == cached_hash(files, p) by {
            assert(cached_hash(u.drop_first(), p) is None);
        }
    }
}

} // verus!
