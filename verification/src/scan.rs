//! Reading the attribute directory into snapshots, and checking what a
//! peer sends before it is written there.
use vstd::prelude::*;

use crate::snapshot::{is_tombstone, tombstone_view, ReplicatedEntry, SnapshotEntry};
use crate::text::{chars_of, lower_seq, to_lower};

verus! {

/// The BLAKE3 hash of `data`, as `blake3::hash` computes it.
pub uninterp spec fn blake3_digest(data: Seq<u8>) -> Seq<u8>;

/// Calls `blake3::hash` and gives its 32 bytes; the contract only names the
/// result, as a function of the input bytes.
#[verifier::external_body]
pub(crate) fn blake3_hash(data: &[u8]) -> (r: [u8; 32])
    ensures
        r@ == blake3_digest(data@),
{
    *blake3::hash(data).as_bytes()
}

/// A character that may appear in an entry id: a digit or a lower-case
/// letter other than `i`, `l`, `o` and `u`.
pub open spec fn is_id_char(c: char) -> bool {
    (('0' <= c && c <= '9') || ('a' <= c && c <= 'z')) && c != 'i' && c != 'l' && c != 'o' && c
        != 'u'
}

/// A complete entry id: 26 id characters (so also 26 bytes).
pub open spec fn full_entry_id(s: Seq<char>) -> bool {
    s.len() == 26 && forall|i: int| 0 <= i < s.len() ==> is_id_char(#[trigger] s[i])
}

/// Whether `value` is a complete entry id.
pub fn is_full_entry_id(value: &str) -> (r: bool)
    ensures
        r == full_entry_id(value@),
{
    let v = chars_of(value);
    if v.len() != 26 {
        return false;
    }
    let mut i: usize = 0;
    while i < v.len()
        invariant
            i <= v.len(),
            v@ == value@,
            forall|j: int| 0 <= j < i ==> is_id_char(#[trigger] v@[j]),
        decreases v.len() - i,
    {
        let c = v[i];
        let ok = (('0' <= c && c <= '9') || ('a' <= c && c <= 'z')) && c != 'i' && c != 'l' && c
            != 'o' && c != 'u';
        if !ok {
            return false;
        }
        i += 1;
    }
    true
}

/// The entry id that an attribute file name stands for: the lower-cased
/// name, when that is a complete entry id.
pub fn attr_id_from_name(name: &str) -> (r: Option<String>)
    ensures
        match r {
            Some(id) => id@ == lower_seq(name@) && full_entry_id(id@),
            None => !full_entry_id(lower_seq(name@)),
        },
{
    let id = to_lower(name);
    if is_full_entry_id(id.as_str()) {
        Some(id)
    } else {
        None
    }
}

/// The snapshot of an attribute file as a scan finds it: the hash of its
/// contents, clock 0, its change time, and the local origin.
pub fn scanned_entry(contents: &[u8], changed_at_ms: u64, local_origin: &str) -> (r: SnapshotEntry)
    ensures
        r@.hash == blake3_digest(contents@),
        r@.lamport == 0,
        r@.changed_at_ms == changed_at_ms,
        r@.origin == local_origin@,
{
    SnapshotEntry {
        hash: blake3_hash(contents),
        lamport: 0,
        changed_at_ms: changed_at_ms,
        origin: local_origin.to_owned(),
    }
}

/// What to do on disk for an entry taken over from a peer.
#[derive(Clone, Copy, Debug, PartialEq, Eq, Structural)]
pub enum RemoteWrite {
    /// The entry was removed: delete its attribute file.
    Remove,
    /// Write the attribute file with the received contents.
    Write,
}

/// Why a received entry cannot be written.
#[derive(Clone, Copy, Debug, PartialEq, Eq, Structural)]
pub enum RemoteEntryError {
    /// The entry exists but no attribute file came with it.
    MissingContents,
    /// The received attribute file does not have the announced hash.
    HashMismatch,
}

impl RemoteEntryError {
    /// The message that reports this error.
    pub fn message(&self) -> (r: &'static str)
        ensures
            r@ == (match *self {
                RemoteEntryError::MissingContents => "remote snapshot missing attr contents"@,
                RemoteEntryError::HashMismatch => "remote snapshot hash/content mismatch"@,
            }),
    {
        match self {
            RemoteEntryError::MissingContents => "remote snapshot missing attr contents",
            RemoteEntryError::HashMismatch => "remote snapshot hash/content mismatch",
        }
    }
}

/// Checks a received entry before it is applied to the attribute directory:
/// a tombstone removes the file; otherwise the contents must be present
/// and hash to the announced hash.
pub fn check_remote_entry(entry: &ReplicatedEntry) -> (r: Result<RemoteWrite, RemoteEntryError>)
    ensures
        entry@.hash == tombstone_view() ==> r == Ok::<RemoteWrite, RemoteEntryError>(
            RemoteWrite::Remove,
        ),
        entry@.hash != tombstone_view() ==> match entry@.contents {
            None => r == Err::<RemoteWrite, RemoteEntryError>(RemoteEntryError::MissingContents),
            Some(c) => if blake3_digest(c) == entry@.hash {
                r == Ok::<RemoteWrite, RemoteEntryError>(RemoteWrite::Write)
            } else {
                r == Err::<RemoteWrite, RemoteEntryError>(RemoteEntryError::HashMismatch)
            },
        },
{
    if is_tombstone(&entry.hash) {
        return Ok(RemoteWrite::Remove);
    }
    match &entry.contents {
        None => Err(RemoteEntryError::MissingContents),
        Some(c) => {
            let h = blake3_hash(c.as_slice());
            if crate::snapshot::hash_eq(&h, &entry.hash) {
                Ok(RemoteWrite::Write)
            } else {
                Err(RemoteEntryError::HashMismatch)
            }
        },
    }
}

} // verus!
