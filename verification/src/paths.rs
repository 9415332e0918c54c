//! Where the store keeps its files: the base directory (`$STASH_DIR`, or
//! `.stash` in the home directory) and the paths of entries under it.
use vstd::prelude::*;

use crate::text::{chars_of, lower_seq, push_char, push_str, to_lower, trim, trim_bounds};

verus! {

/// `part` appended to `base` as `Path::push` does on Unix: an absolute
/// `part` replaces `base`; otherwise a `/` separates them unless `base` is
/// empty or already ends with one.
pub open spec fn join_spec(base: Seq<char>, part: Seq<char>) -> Seq<char> {
    if part.len() > 0 && part[0] == '/' {
        part
    } else if base.len() == 0 || base.last() == '/' {
        base + part
    } else {
        base + seq!['/'] + part
    }
}

/// `base` joined with `part` (see [`join_spec`]).
pub fn path_join(base: &str, part: &str) -> (r: String)
    ensures
        r@ == join_spec(base@, part@),
{
    let b = chars_of(base);
    let p = chars_of(part);
    if p.len() > 0 && p[0] == '/' {
        return part.to_owned();
    }
    let mut out = base.to_owned();
    if !(b.len() == 0 || b[b.len() - 1] == '/') {
        push_char(&mut out, '/');
    }
    push_str(&mut out, part);
    out
}

/// `$STASH_DIR` when it is set and not blank.
pub open spec fn usable_dir(dir: Option<String>) -> bool {
    match dir {
        Some(d) => trim(d@).len() > 0,
        None => false,
    }
}

/// The base directory: `$STASH_DIR` when it is set and not blank, else
/// `.stash` in the home directory.
pub open spec fn base_dir_spec(stash_dir: Option<String>, home: Option<String>) -> Seq<char> {
    if usable_dir(stash_dir) {
        stash_dir.unwrap()@
    } else {
        join_spec(home.unwrap()@, ".stash"@)
    }
}

/// The base directory of the store, from `$STASH_DIR` and `$HOME` (the
/// home directory is needed only when `$STASH_DIR` is unset or blank).
pub fn base_dir(stash_dir: Option<String>, home: Option<String>) -> (r: String)
    requires
        usable_dir(stash_dir) || home is Some,
    ensures
        r@ == base_dir_spec(stash_dir, home),
{
    match stash_dir {
        Some(d) => {
            let v = chars_of(d.as_str());
            let (a, b) = trim_bounds(&v, 0, v.len());
            assert(v@.subrange(0, v@.len() as int) == v@);
            if a < b {
                return d;
            }
        },
        None => {},
    }
    match home {
        Some(h) => path_join(h.as_str(), ".stash"),
        None => {
            proof {
                assert(false);
            }
            String::new()
        },
    }
}

/// The directory of entry data files.
pub fn data_dir(base: &str) -> (r: String)
    ensures
        r@ == join_spec(base@, "data"@),
{
    path_join(base, "data")
}

/// The directory of entry attribute files.
pub fn attr_dir(base: &str) -> (r: String)
    ensures
        r@ == join_spec(base@, "attr"@),
{
    path_join(base, "attr")
}

/// The directory of entries in the older one-directory-per-entry layout.
pub fn entries_dir(base: &str) -> (r: String)
    ensures
        r@ == join_spec(base@, "entries"@),
{
    path_join(base, "entries")
}

/// The directory named after an entry, directly under the base directory.
pub fn entry_dir(base: &str, id: &str) -> (r: String)
    ensures
        r@ == join_spec(base@, id@),
{
    path_join(base, id)
}

/// The data file of an entry: its lower-cased id in the data directory.
pub fn entry_data_path(base: &str, id: &str) -> (r: String)
    ensures
        r@ == join_spec(join_spec(base@, "data"@), lower_seq(id@)),
{
    let dir = data_dir(base);
    let name = to_lower(id);
    path_join(dir.as_str(), name.as_str())
}

/// The attribute file of an entry: its lower-cased id in the attribute
/// directory.
pub fn entry_attr_path(base: &str, id: &str) -> (r: String)
    ensures
        r@ == join_spec(join_spec(base@, "attr"@), lower_seq(id@)),
{
    let dir = attr_dir(base);
    let name = to_lower(id);
    path_join(dir.as_str(), name.as_str())
}

/// The cache directory.
pub fn cache_dir(base: &str) -> (r: String)
    ensures
        r@ == join_spec(base@, "cache"@),
{
    path_join(base, "cache")
}

/// The file that caches the newest-first list of entry ids.
pub fn list_cache_path(base: &str) -> (r: String)
    ensures
        r@ == join_spec(join_spec(base@, "cache"@), "list.cache"@),
{
    let dir = cache_dir(base);
    path_join(dir.as_str(), "list.cache")
}

/// The file where the sync daemon caches the state it last saw.
pub fn daemon_cache_path(base: &str) -> (r: String)
    ensures
        r@ == join_spec(join_spec(base@, "cache"@), "daemon.cache"@),
{
    let dir = cache_dir(base);
    path_join(dir.as_str(), "daemon.cache")
}

/// The directory where incoming data is written before it is moved into
/// place.
pub fn tmp_dir(base: &str) -> (r: String)
    ensures
        r@ == join_spec(base@, "tmp"@),
{
    path_join(base, "tmp")
}

} // verus!
