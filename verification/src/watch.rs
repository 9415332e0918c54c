//! The attribute watcher of `stashd`: which file-system events it looks
//! at, and the line it prints whenever the hash of an attribute file
//! changes (`ID OLD NEW`, with `-` for a missing file).
use vstd::prelude::*;

use crate::display::opt_str_view;
use crate::events::FsEventKind;
use crate::json::hex_char;
use crate::replica::{sorted_union, union_ids};
use crate::scan::{blake3_digest, blake3_hash};
use crate::selection::strs;
use crate::strmap::StrMap;
use crate::text::{chars_of, push_char, push_str, str_eq};

verus! {

/// The kinds the watcher looks at: file creation and removal (or of
/// unknown type), and changes to contents, metadata or names.
pub open spec fn watches_kind(k: FsEventKind) -> bool {
    match k {
        FsEventKind::CreateAny | FsEventKind::CreateFile => true,
        FsEventKind::ModifyAny | FsEventKind::ModifyData | FsEventKind::ModifyMetadata
        | FsEventKind::ModifyName => true,
        FsEventKind::RemoveAny | FsEventKind::RemoveFile => true,
        _ => false,
    }
}

/// Whether the watcher looks at an event of kind `kind` (see
/// [`watches_kind`]).
pub fn should_process_event_kind(kind: FsEventKind) -> (r: bool)
    ensures
        r == watches_kind(kind),
{
    match kind {
        FsEventKind::CreateAny | FsEventKind::CreateFile => true,
        FsEventKind::ModifyAny | FsEventKind::ModifyData | FsEventKind::ModifyMetadata
        | FsEventKind::ModifyName => true,
        FsEventKind::RemoveAny | FsEventKind::RemoveFile => true,
        _ => false,
    }
}

/// Bytes in lower-case hexadecimal, two digits each.
pub open spec fn lower_hex(b: Seq<u8>) -> Seq<char>
    decreases b.len(),
{
    if b.len() == 0 {
        Seq::empty()
    } else {
        lower_hex(b.drop_last()) + seq![hex_char((b.last() / 16) as nat), hex_char((b.last() % 16) as nat)]
    }
}

/// A hash in lower-case hexadecimal (see [`lower_hex`]).
pub fn hex_hash(hash: &[u8; 32]) -> (r: String)
    ensures
        r@ == lower_hex(hash@),
{
    let hex = chars_of("0123456789abcdef");
    proof {
        reveal_strlit("0123456789abcdef");
    }
    let mut out = String::new();
    let mut i: usize = 0;
    assert(hash@.take(0) =~= Seq::<u8>::empty());
    while i < 32
        invariant
            i <= 32,
            hash@.len() == 32,
            hex@ == "0123456789abcdef"@,
            hex@.len() == 16,
            out@ == lower_hex(hash@.take(i as int)),
        decreases 32 - i,
    {
        let b = hash[i];
        let ghost before = out@;
        push_char(&mut out, hex[(b / 16) as usize]);
        push_char(&mut out, hex[(b % 16) as usize]);
        proof {
            assert(hash@.take(i + 1).drop_last() =~= hash@.take(i as int));
            assert(hash@.take(i + 1).last() == b);
            assert(out@ =~= lower_hex(hash@.take(i + 1)));
        }
        i += 1;
    }
    assert(hash@.take(32) =~= hash@);
    out
}

/// The hash the watcher records for an attribute file: the BLAKE3 hash of
/// its contents in lower-case hexadecimal.
pub fn content_hash_hex(contents: &[u8]) -> (r: String)
    ensures
        r@ == lower_hex(blake3_digest(contents@)),
{
    let h = blake3_hash(contents);
    hex_hash(&h)
}

/// An optional string slice as a value.
pub open spec fn opt_ref_view(o: Option<&str>) -> Option<Seq<char>> {
    match o {
        Some(s) => Some(s@),
        None => None,
    }
}

/// A hash as the watcher prints it: `-` for none.
pub open spec fn or_dash(h: Option<Seq<char>>) -> Seq<char> {
    match h {
        Some(x) => x,
        None => "-"@,
    }
}

/// The hash recorded for `id`, if any.
pub open spec fn lookup(m: Map<Seq<char>, Seq<char>>, id: Seq<char>) -> Option<Seq<char>> {
    if m.contains_key(id) {
        Some(m[id])
    } else {
        None
    }
}

/// The line printed when the hash of entry `id` goes from `old` to `new`.
pub open spec fn transition_spec(id: Seq<char>, old: Option<Seq<char>>, new: Option<Seq<char>>) -> Seq<
    char,
> {
    id + " "@ + or_dash(old) + " "@ + or_dash(new)
}

/// The line printed when the hash of entry `id` changes (see
/// [`transition_spec`]).
pub fn emit_transition(id: &str, old: Option<&str>, new: Option<&str>) -> (r: String)
    ensures
        r@ == transition_spec(id@, opt_ref_view(old), opt_ref_view(new)),
{
    proof {
        reveal_strlit("-");
    }
    let mut line = id.to_owned();
    push_str(&mut line, " ");
    match old {
        Some(h) => push_str(&mut line, h),
        None => push_str(&mut line, "-"),
    }
    push_str(&mut line, " ");
    match new {
        Some(h) => push_str(&mut line, h),
        None => push_str(&mut line, "-"),
    }
    line
}

/// The lines for the ids of `ids` whose hash differs between `old` and
/// `new`, in the order of `ids`.
pub open spec fn difference_lines(
    ids: Seq<Seq<char>>,
    old: Map<Seq<char>, Seq<char>>,
    new: Map<Seq<char>, Seq<char>>,
) -> Seq<Seq<char>>
    decreases ids.len(),
{
    if ids.len() == 0 {
        Seq::empty()
    } else {
        let prev = difference_lines(ids.drop_last(), old, new);
        let k = ids.last();
        if lookup(old, k) != lookup(new, k) {
            prev.push(transition_spec(k, lookup(old, k), lookup(new, k)))
        } else {
            prev
        }
    }
}

/// The hash of `id` in a map, as an optional slice.
fn get_hash<'a>(m: &'a StrMap<String>, id: &str) -> (r: Option<&'a str>)
    requires
        m.wf(),
    ensures
        opt_ref_view(r) == lookup(m@, id@),
{
    match m.get(id) {
        Some(h) => Some(h.as_str()),
        None => None,
    }
}

/// Whether two optional hashes are the same.
fn same_hash(a: Option<&str>, b: Option<&str>) -> (r: bool)
    ensures
        r == (opt_ref_view(a) == opt_ref_view(b)),
{
    match (a, b) {
        (Some(x), Some(y)) => str_eq(x, y),
        (None, None) => true,
        _ => false,
    }
}

/// The lines for every id whose hash differs between the state saved at
/// the last run (`old`) and the one found now (`new`), in ascending id
/// order (see [`difference_lines`]).
pub fn emit_differences(old: &StrMap<String>, new: &StrMap<String>) -> (r: Vec<String>)
    requires
        old.wf(),
        new.wf(),
    ensures
        exists|ids: Seq<Seq<char>>|
            #![trigger sorted_union(ids, old@, new@)]
            sorted_union(ids, old@, new@) && strs(r@) == difference_lines(ids, old@, new@),
{
    let ids = union_ids(old, new);
    let ghost is = ids@.map_values(|s: String| s@);
    let mut out: Vec<String> = Vec::new();
    let mut i: usize = 0;
    while i < ids.len()
        invariant
            old.wf(),
            new.wf(),
            i <= ids@.len(),
            is == ids@.map_values(|s: String| s@),
            strs(out@) == difference_lines(is.take(i as int), old@, new@),
        decreases ids.len() - i,
    {
        let id = ids[i].as_str();
        let o = get_hash(old, id);
        let n = get_hash(new, id);
        proof {
            assert(is.take(i + 1).drop_last() =~= is.take(i as int));
            assert(is.take(i + 1).last() == id@);
        }
        if !same_hash(o, n) {
            let line = emit_transition(id, o, n);
            let ghost before = out@;
            out.push(line);
            assert(strs(out@) =~= strs(before).push(line@));
        }
        i += 1;
    }
    assert(is.take(ids@.len() as int) =~= is);
    out
}

/// The map after recording `new` as the hash of `id` (`None`: no file).
pub open spec fn recorded(m: Map<Seq<char>, Seq<char>>, id: Seq<char>, new: Option<Seq<char>>) -> Map<
    Seq<char>,
    Seq<char>,
> {
    match new {
        Some(h) => m.insert(id, h),
        None => m.remove(id),
    }
}

/// Records the hash now found for entry `id` (`None`: its attribute file
/// is gone).  When it differs from the recorded one, the map takes it and
/// the line to print is given; otherwise nothing changes.
pub fn record_hash(hashes: &mut StrMap<String>, id: &str, new: Option<String>) -> (r: Option<String>)
    requires
        old(hashes).wf(),
    ensures
        final(hashes).wf(),
        lookup(old(hashes)@, id@) == opt_str_view(new) ==> r is None && final(hashes)@ == old(
            hashes,
        )@,
        lookup(old(hashes)@, id@) != opt_str_view(new) ==> opt_str_view(r) == Some(
            transition_spec(id@, lookup(old(hashes)@, id@), opt_str_view(new)),
        ) && final(hashes)@ == recorded(old(hashes)@, id@, opt_str_view(new)),
{
    let line = {
        let prev = get_hash(hashes, id);
        let cur = match &new {
            Some(h) => Some(h.as_str()),
            None => None,
        };
        if same_hash(prev, cur) {
            return None;
        }
        emit_transition(id, prev, cur)
    };
    match new {
        Some(h) => hashes.insert(id.to_owned(), h),
        None => hashes.remove(id),
    }
    Some(line)
}

} // verus!
