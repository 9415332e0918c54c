//! Replicated snapshot records and the last-writer-wins order between them.
//!
//! Each entry of the attribute directory is described by a snapshot: the
//! hash of its attribute file (all zero for a removed entry), a Lamport
//! clock, the time of the change and the peer it came from.  Two snapshots
//! of one entry are ordered by Lamport clock, then change time, then
//! origin, then hash; a peer takes a remote snapshot only when it is
//! greater than the one it holds.
use vstd::prelude::*;
use vstd::utf8::{decode_utf8, encode_utf8, is_char_boundary};
use vstd::string::StringSliceAdditionalSpecFns;

use crate::strmap::StrMap;
use crate::text::{lex_lt, lemma_lex_irrefl, lemma_lex_trans, lemma_lex_trichotomy, str_eq, str_lt};
use std::cmp::Ordering;

verus! {

/// The hash that marks a removed entry.
#[verifier::rlimit(50)]
pub fn tombstone_hash() -> (h: [u8; 32])
    ensures
        h@ == tombstone_view(),
{
    let h = [0u8; 32];
    assert(h@ =~= tombstone_view());
    h
}

/// Thirty-two zero bytes.
pub open spec fn tombstone_view() -> Seq<u8> {
    Seq::new(32, |i: int| 0u8)
}

/// The state of one entry as peers exchange it.
#[derive(Clone, Debug, PartialEq, Eq)]
pub struct SnapshotEntry {
    pub hash: [u8; 32],
    pub lamport: u64,
    pub changed_at_ms: u64,
    pub origin: String,
}

/// The mathematical value of a [`SnapshotEntry`].
pub struct SnapshotView {
    pub hash: Seq<u8>,
    pub lamport: u64,
    pub changed_at_ms: u64,
    pub origin: Seq<char>,
}

impl View for SnapshotEntry {
    type V = SnapshotView;

    open spec fn view(&self) -> SnapshotView {
        SnapshotView {
            hash: self.hash@,
            lamport: self.lamport,
            changed_at_ms: self.changed_at_ms,
            origin: self.origin@,
        }
    }
}

impl SnapshotEntry {
    /// A copy of this snapshot.
    #[verifier::rlimit(50)]
    pub fn copy(&self) -> (r: SnapshotEntry)
        ensures
            r@ == self@,
    {
        SnapshotEntry {
            hash: self.hash,
            lamport: self.lamport,
            changed_at_ms: self.changed_at_ms,
            origin: self.origin.clone(),
        }
    }
}

/// An entry as it travels between peers, with the attribute file itself
/// unless the entry was removed.
#[derive(Clone, Debug, PartialEq, Eq)]
pub struct ReplicatedEntry {
    pub ulid: String,
    pub hash: [u8; 32],
    pub lamport: u64,
    pub changed_at_ms: u64,
    pub contents: Option<Vec<u8>>,
    pub origin: String,
}

/// The mathematical value of a [`ReplicatedEntry`].
pub struct ReplicatedView {
    pub ulid: Seq<char>,
    pub hash: Seq<u8>,
    pub lamport: u64,
    pub changed_at_ms: u64,
    pub contents: Option<Seq<u8>>,
    pub origin: Seq<char>,
}

/// The view of optional file contents.
pub open spec fn bytes_opt_view(c: Option<Vec<u8>>) -> Option<Seq<u8>> {
    match c {
        Some(v) => Some(v@),
        None => None,
    }
}

impl View for ReplicatedEntry {
    type V = ReplicatedView;

    open spec fn view(&self) -> ReplicatedView {
        ReplicatedView {
            ulid: self.ulid@,
            hash: self.hash@,
            lamport: self.lamport,
            changed_at_ms: self.changed_at_ms,
            contents: bytes_opt_view(self.contents),
            origin: self.origin@,
        }
    }
}

/// An entry as it is listed when peers compare their states, without the
/// attribute file.
#[derive(Clone, Debug, PartialEq, Eq)]
pub struct SnapshotMetaEntry {
    pub ulid: String,
    pub hash: [u8; 32],
    pub lamport: u64,
    pub changed_at_ms: u64,
    pub origin: String,
}

/// The mathematical value of a [`SnapshotMetaEntry`].
pub struct SnapshotMetaView {
    pub ulid: Seq<char>,
    pub hash: Seq<u8>,
    pub lamport: u64,
    pub changed_at_ms: u64,
    pub origin: Seq<char>,
}

impl View for SnapshotMetaEntry {
    type V = SnapshotMetaView;

    open spec fn view(&self) -> SnapshotMetaView {
        SnapshotMetaView {
            ulid: self.ulid@,
            hash: self.hash@,
            lamport: self.lamport,
            changed_at_ms: self.changed_at_ms,
            origin: self.origin@,
        }
    }
}

impl SnapshotMetaEntry {
    /// A copy of this entry.
    #[verifier::rlimit(50)]
    pub fn copy(&self) -> (r: SnapshotMetaEntry)
        ensures
            r@ == self@,
    {
        SnapshotMetaEntry {
            ulid: self.ulid.clone(),
            hash: self.hash,
            lamport: self.lamport,
            changed_at_ms: self.changed_at_ms,
            origin: self.origin.clone(),
        }
    }
}

/// A summary of all entries whose id starts with `bucket`: how many there
/// are and a hash over their listing.
#[derive(Clone, Debug, PartialEq, Eq)]
pub struct SnapshotBucketSummary {
    pub bucket: String,
    pub count: u32,
    pub hash: [u8; 32],
}

/// The mathematical value of a [`SnapshotBucketSummary`].
pub struct BucketView {
    pub bucket: Seq<char>,
    pub count: u32,
    pub hash: Seq<u8>,
}

impl View for SnapshotBucketSummary {
    type V = BucketView;

    open spec fn view(&self) -> BucketView {
        BucketView { bucket: self.bucket@, count: self.count, hash: self.hash@ }
    }
}

// ---------------------------------------------------------------------------
// Conversions
// ---------------------------------------------------------------------------

/// The snapshot part of a replicated entry.
pub open spec fn wire_view(e: ReplicatedView) -> SnapshotView {
    SnapshotView {
        hash: e.hash,
        lamport: e.lamport,
        changed_at_ms: e.changed_at_ms,
        origin: e.origin,
    }
}

/// The snapshot part of a listed entry.
pub open spec fn meta_view(e: SnapshotMetaView) -> SnapshotView {
    SnapshotView {
        hash: e.hash,
        lamport: e.lamport,
        changed_at_ms: e.changed_at_ms,
        origin: e.origin,
    }
}

/// The snapshot that a replicated entry carries.
#[verifier::rlimit(50)]
pub fn snapshot_from_wire(entry: &ReplicatedEntry) -> (r: SnapshotEntry)
    ensures
        r@ == wire_view(entry@),
{
    SnapshotEntry {
        hash: entry.hash,
        lamport: entry.lamport,
        changed_at_ms: entry.changed_at_ms,
        origin: entry.origin.clone(),
    }
}

/// The snapshot that a listed entry carries.
#[verifier::rlimit(50)]
pub fn snapshot_meta_to_snapshot(entry: &SnapshotMetaEntry) -> (r: SnapshotEntry)
    ensures
        r@ == meta_view(entry@),
{
    SnapshotEntry {
        hash: entry.hash,
        lamport: entry.lamport,
        changed_at_ms: entry.changed_at_ms,
        origin: entry.origin.clone(),
    }
}

// ---------------------------------------------------------------------------
// Order
// ---------------------------------------------------------------------------

/// Strict lexicographic order of byte strings.
pub open spec fn bytes_lt(a: Seq<u8>, b: Seq<u8>) -> bool
    decreases a.len(),
{
    if a.len() == 0 {
        b.len() > 0
    } else if b.len() == 0 {
        false
    } else if a[0] < b[0] {
        true
    } else if a[0] == b[0] {
        bytes_lt(a.drop_first(), b.drop_first())
    } else {
        false
    }
}

/// `a` comes strictly before `b`: by Lamport clock, then change time, then
/// origin, then hash.
pub open spec fn snapshot_lt(a: SnapshotView, b: SnapshotView) -> bool {
    ||| a.lamport < b.lamport
    ||| a.lamport == b.lamport && a.changed_at_ms < b.changed_at_ms
    ||| a.lamport == b.lamport && a.changed_at_ms == b.changed_at_ms && lex_lt(a.origin, b.origin)
    ||| a.lamport == b.lamport && a.changed_at_ms == b.changed_at_ms && a.origin == b.origin
        && bytes_lt(a.hash, b.hash)
}

/// The three-way comparison that `snapshot_lt` induces.
pub open spec fn snapshot_order(a: SnapshotView, b: SnapshotView) -> Ordering {
    if snapshot_lt(a, b) {
        Ordering::Less
    } else if snapshot_lt(b, a) {
        Ordering::Greater
    } else {
        Ordering::Equal
    }
}

/// Whether a remote snapshot replaces the current one (if any).
pub open spec fn accepts(current: Option<SnapshotView>, remote: SnapshotView) -> bool {
    match current {
        None => true,
        Some(c) => snapshot_order(remote, c) == Ordering::Greater,
    }
}

/// The view of an optional snapshot.
pub open spec fn snapshot_opt_view(o: Option<SnapshotEntry>) -> Option<SnapshotView> {
    match o {
        Some(e) => Some(e@),
        None => None,
    }
}

#[verifier::rlimit(50)]
proof fn lemma_bytes_irrefl(a: Seq<u8>)
    ensures
        !bytes_lt(a, a),
    decreases a.len(),
{
    if a.len() > 0 {
        lemma_bytes_irrefl(a.drop_first());
    }
}

#[verifier::rlimit(50)]
proof fn lemma_bytes_trichotomy(a: Seq<u8>, b: Seq<u8>)
    ensures
        bytes_lt(a, b) || a == b || bytes_lt(b, a),
        !(bytes_lt(a, b) && bytes_lt(b, a)),
    decreases a.len(),
{
    if a.len() > 0 && b.len() > 0 {
        lemma_bytes_trichotomy(a.drop_first(), b.drop_first());
        if a[0] == b[0] && a.drop_first() == b.drop_first() {
            assert forall|i: int| 0 <= i < a.len() implies a[i] == b[i] by {
                if i > 0 {
                    assert(a[i] == a.drop_first()[i - 1]);
                    assert(b[i] == b.drop_first()[i - 1]);
                }
            }
            assert(a =~= b);
        }
    } else if a.len() == 0 && b.len() == 0 {
        assert(a =~= b);
    }
}

#[verifier::rlimit(50)]
proof fn lemma_bytes_trans(a: Seq<u8>, b: Seq<u8>, c: Seq<u8>)
    requires
        bytes_lt(a, b),
        bytes_lt(b, c),
    ensures
        bytes_lt(a, c),
    decreases a.len(),
{
    if a.len() > 0 && b.len() > 0 && c.len() > 0 {
        if a[0] == b[0] && b[0] == c[0] {
            lemma_bytes_trans(a.drop_first(), b.drop_first(), c.drop_first());
        }
    }
}

/// Exactly one of `a < b`, `a == b`, `b < a` holds.
#[verifier::rlimit(50)]
pub proof fn lemma_snapshot_trichotomy(a: SnapshotView, b: SnapshotView)
    ensures
        snapshot_lt(a, b) || a == b || snapshot_lt(b, a),
        !(snapshot_lt(a, b) && snapshot_lt(b, a)),
        !snapshot_lt(a, a),
{
    lemma_lex_trichotomy(a.origin, b.origin);
    lemma_bytes_trichotomy(a.hash, b.hash);
    lemma_lex_irrefl(a.origin);
    lemma_bytes_irrefl(a.hash);
}

/// The order on snapshots is transitive.
#[verifier::rlimit(50)]
pub proof fn lemma_snapshot_trans(a: SnapshotView, b: SnapshotView, c: SnapshotView)
    requires
        snapshot_lt(a, b),
        snapshot_lt(b, c),
    ensures
        snapshot_lt(a, c),
{
    if a.lamport == b.lamport && b.lamport == c.lamport && a.changed_at_ms == b.changed_at_ms
        && b.changed_at_ms == c.changed_at_ms {
        if lex_lt(a.origin, b.origin) && lex_lt(b.origin, c.origin) {
            lemma_lex_trans(a.origin, b.origin, c.origin);
        }
        if a.origin == b.origin && b.origin == c.origin && bytes_lt(a.hash, b.hash) && bytes_lt(
            b.hash,
            c.hash,
        ) {
            lemma_bytes_trans(a.hash, b.hash, c.hash);
        }
    }
}

/// The comparison is antisymmetric and only calls equal snapshots equal:
/// `compare(a, b)` is `Greater` exactly when `compare(b, a)` is `Less`, and
/// `Equal` exactly when `a == b`.
#[verifier::rlimit(50)]
pub proof fn lemma_snapshot_order_antisymmetric(a: SnapshotView, b: SnapshotView)
    ensures
        (snapshot_order(a, b) == Ordering::Greater) == (snapshot_order(b, a) == Ordering::Less),
        (snapshot_order(a, b) == Ordering::Equal) == (a == b),
        snapshot_order(a, b) == Ordering::Equal ==> snapshot_order(b, a) == Ordering::Equal,
{
    lemma_snapshot_trichotomy(a, b);
    lemma_snapshot_trichotomy(b, a);
}

/// The comparison is transitive: from `a > b` and `b > c` follows `a > c`.
#[verifier::rlimit(50)]
pub proof fn lemma_snapshot_order_transitive(a: SnapshotView, b: SnapshotView, c: SnapshotView)
    requires
        snapshot_order(a, b) == Ordering::Greater,
        snapshot_order(b, c) == Ordering::Greater,
    ensures
        snapshot_order(a, c) == Ordering::Greater,
{
    lemma_snapshot_trichotomy(a, b);
    lemma_snapshot_trichotomy(b, c);
    lemma_snapshot_trans(c, b, a);
    lemma_snapshot_trichotomy(a, c);
}

/// A snapshot that is already held is never taken again, and of two
/// different snapshots of an entry exactly one replaces the other.
#[verifier::rlimit(50)]
pub proof fn lemma_accept_exclusive(a: SnapshotView, b: SnapshotView)
    ensures
        !accepts(Some(a), a),
        a != b ==> (accepts(Some(a), b) != accepts(Some(b), a)),
{
    lemma_snapshot_trichotomy(a, b);
    lemma_snapshot_trichotomy(a, a);
}

/// What a peer holds after it was offered `remote` while holding `current`.
pub open spec fn merged(current: Option<SnapshotView>, remote: SnapshotView) -> SnapshotView {
    if accepts(current, remote) {
        remote
    } else {
        current.unwrap()
    }
}

/// Peers that are offered the same two snapshots end up holding the same
/// one, whatever the order in which the snapshots arrive.
#[verifier::rlimit(50)]
pub proof fn lemma_merge_order_independent(
    current: Option<SnapshotView>,
    a: SnapshotView,
    b: SnapshotView,
)
    ensures
        merged(Some(merged(current, a)), b) == merged(Some(merged(current, b)), a),
{
    lemma_snapshot_trichotomy(a, b);
    match current {
        None => {},
        Some(c) => {
            lemma_snapshot_trichotomy(a, c);
            lemma_snapshot_trichotomy(b, c);
            if snapshot_lt(c, a) && snapshot_lt(a, b) {
                lemma_snapshot_trans(c, a, b);
            }
            if snapshot_lt(c, b) && snapshot_lt(b, a) {
                lemma_snapshot_trans(c, b, a);
            }
            if snapshot_lt(a, c) && snapshot_lt(c, b) {
                lemma_snapshot_trans(a, c, b);
            }
            if snapshot_lt(b, c) && snapshot_lt(c, a) {
                lemma_snapshot_trans(b, c, a);
            }
            if snapshot_lt(a, b) && snapshot_lt(b, c) {
                lemma_snapshot_trans(a, b, c);
            }
            if snapshot_lt(b, a) && snapshot_lt(a, c) {
                lemma_snapshot_trans(b, a, c);
            }
        },
    }
}

/// Whether hash `a` sorts before hash `b`, byte by byte.
#[verifier::rlimit(50)]
fn hash_lt(a: &[u8; 32], b: &[u8; 32]) -> (r: bool)
    ensures
        r == bytes_lt(a@, b@),
{
    let mut i: usize = 0;
    assert(a@.skip(0) == a@ && b@.skip(0) == b@);
    while i < 32 && a[i] == b[i]
        invariant
            i <= 32,
            a@.len() == 32,
            b@.len() == 32,
            bytes_lt(a@, b@) == bytes_lt(a@.skip(i as int), b@.skip(i as int)),
        decreases 32 - i,
    {
        assert(a@.skip(i as int).drop_first() =~= a@.skip(i + 1));
        assert(b@.skip(i as int).drop_first() =~= b@.skip(i + 1));
        i += 1;
    }
    if i == 32 {
        false
    } else {
        assert(a@.skip(i as int)[0] == a@[i as int]);
        assert(b@.skip(i as int)[0] == b@[i as int]);
        a[i] < b[i]
    }
}

/// Whether two hashes are equal.
#[verifier::rlimit(50)]
pub fn hash_eq(a: &[u8; 32], b: &[u8; 32]) -> (r: bool)
    ensures
        r == (a@ == b@),
{
    let mut i: usize = 0;
    while i < 32
        invariant
            i <= 32,
            a@.len() == 32,
            b@.len() == 32,
            forall|j: int| 0 <= j < i ==> a@[j] == b@[j],
        decreases 32 - i,
    {
        if a[i] != b[i] {
            return false;
        }
        i += 1;
    }
    assert(a@ =~= b@);
    true
}

/// Whether a hash marks a removed entry.
#[verifier::rlimit(50)]
pub fn is_tombstone(h: &[u8; 32]) -> (r: bool)
    ensures
        r == (h@ == tombstone_view()),
{
    let t = tombstone_hash();
    hash_eq(h, &t)
}

/// Orders two snapshots of one entry: by Lamport clock, then change time,
/// then origin, then hash.
#[verifier::rlimit(50)]
pub fn compare_snapshot(left: SnapshotEntry, right: SnapshotEntry) -> (r: Ordering)
    ensures
        r == snapshot_order(left@, right@),
{
    proof {
        lemma_snapshot_trichotomy(left@, right@);
    }
    if left.lamport < right.lamport {
        return Ordering::Less;
    }
    if left.lamport > right.lamport {
        return Ordering::Greater;
    }
    if left.changed_at_ms < right.changed_at_ms {
        return Ordering::Less;
    }
    if left.changed_at_ms > right.changed_at_ms {
        return Ordering::Greater;
    }
    if str_lt(left.origin.as_str(), right.origin.as_str()) {
        return Ordering::Less;
    }
    if !str_eq(left.origin.as_str(), right.origin.as_str()) {
        return Ordering::Greater;
    }
    if hash_lt(&left.hash, &right.hash) {
        return Ordering::Less;
    }
    if hash_lt(&right.hash, &left.hash) {
        return Ordering::Greater;
    }
    Ordering::Equal
}

/// Whether a remote snapshot should replace the one held (if any): it must
/// be strictly greater.
#[verifier::rlimit(50)]
pub fn should_accept_remote(current: Option<SnapshotEntry>, remote: SnapshotEntry) -> (r: bool)
    ensures
        r == accepts(snapshot_opt_view(current), remote@),
{
    match current {
        None => true,
        Some(current) => {
            let o = compare_snapshot(remote, current);
            match o {
                Ordering::Greater => true,
                _ => false,
            }
        },
    }
}

} // verus!
