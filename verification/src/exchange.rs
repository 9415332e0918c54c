//! What two peers exchange when they compare and merge their states:
//! remote snapshots taken over, ids and buckets a peer lacks, and the
//! listing of held entries by bucket.
use vstd::prelude::*;
use vstd::utf8::{decode_utf8, encode_utf8, is_char_boundary};
use vstd::string::StringSliceAdditionalSpecFns;

use crate::replica::{
    local_state, max_u64, opt_view, pair_views, sat_inc, saturating_inc, tombstone_at, LocalState,
    SnapPair, SnapshotMap,
};
use crate::snapshot::{
    accepts, is_tombstone, lemma_merge_order_independent, lemma_snapshot_trans, lemma_snapshot_trichotomy,
    merged, meta_view, snapshot_lt, snapshot_from_wire, snapshot_meta_to_snapshot,
    should_accept_remote, tombstone_hash, tombstone_view, wire_view, BucketView,
    ReplicatedEntry, ReplicatedView, SnapshotBucketSummary, SnapshotEntry, SnapshotMetaEntry,
    SnapshotMetaView, SnapshotView,
};
use crate::text::{chars_of, range_eq, str_eq};

verus! {

// ---------------------------------------------------------------------------
// Remote snapshots
// ---------------------------------------------------------------------------

/// The state that remote snapshots change, with the entries taken over.
pub struct RemoteState {
    pub local: LocalState,
    pub accepted: Seq<ReplicatedView>,
}

/// Takes over the remote entries `rs` in turn: an entry from the local
/// origin is skipped, as is one whose snapshot is not greater than the one
/// held; an accepted one is held and remembered as an expected echo, and
/// the Lamport clock moves up to its clock.
pub open spec fn apply_remote_spec(rs: Seq<ReplicatedView>, st: RemoteState, origin: Seq<char>) -> RemoteState
    decreases rs.len(),
{
    if rs.len() == 0 {
        st
    } else {
        let prev = apply_remote_spec(rs.drop_last(), st, origin);
        let e = rs.last();
        let snap = wire_view(e);
        let held = if prev.local.entries.contains_key(e.ulid) {
            Some(prev.local.entries[e.ulid])
        } else {
            None
        };
        if e.origin == origin || !accepts(held, snap) {
            prev
        } else {
            RemoteState {
                local: LocalState {
                    lamport: max_u64(prev.local.lamport, snap.lamport),
                    entries: prev.local.entries.insert(e.ulid, snap),
                    suppressed: prev.local.suppressed.insert(e.ulid, snap),
                },
                accepted: prev.accepted.push(e),
            }
        }
    }
}

/// Every entry of `rs` from another origin than `origin` is held in
/// `entries` at a snapshot no lower than its own.
pub open spec fn holds_all(entries: Map<Seq<char>, SnapshotView>, rs: Seq<ReplicatedView>, origin: Seq<char>) -> bool {
    forall|i: int|
        0 <= i < rs.len() && (#[trigger] rs[i]).origin != origin ==> entries.contains_key(rs[i].ulid)
            && !snapshot_lt(entries[rs[i].ulid], wire_view(rs[i]))
}

/// No snapshot held in `before` is missing or lower in `after`.
pub open spec fn no_lower(after: Map<Seq<char>, SnapshotView>, before: Map<Seq<char>, SnapshotView>) -> bool {
    forall|k: Seq<char>|
        #[trigger] before.contains_key(k) ==> after.contains_key(k) && !snapshot_lt(after[k], before[k])
}

/// After a batch of remote entries is taken over, every one of them from
/// another origin is held at a snapshot no lower than its own, and no
/// snapshot held before went missing or lower.
#[verifier::rlimit(50)]
pub proof fn lemma_apply_remote_covers(rs: Seq<ReplicatedView>, st: RemoteState, origin: Seq<char>)
    ensures
        holds_all(apply_remote_spec(rs, st, origin).local.entries, rs, origin),
        no_lower(apply_remote_spec(rs, st, origin).local.entries, st.local.entries),
    decreases rs.len(),
{
    if rs.len() == 0 {
        assert forall|k: Seq<char>| #[trigger] st.local.entries.contains_key(k) implies !snapshot_lt(
            st.local.entries[k],
            st.local.entries[k],
        ) by {
            lemma_snapshot_trichotomy(st.local.entries[k], st.local.entries[k]);
        }
    } else {
        let r0 = rs.drop_last();
        lemma_apply_remote_covers(r0, st, origin);
        let prev = apply_remote_spec(r0, st, origin);
        let e = rs.last();
        let snap = wire_view(e);
        let pe = prev.local.entries;
        let ne = apply_remote_spec(rs, st, origin).local.entries;
        let held = if pe.contains_key(e.ulid) {
            Some(pe[e.ulid])
        } else {
            None
        };
        if e.origin == origin || !accepts(held, snap) {
            assert(ne == pe);
            assert forall|i: int|
                0 <= i < rs.len() && (#[trigger] rs[i]).origin != origin implies ne.contains_key(
                rs[i].ulid) && !snapshot_lt(ne[rs[i].ulid], wire_view(rs[i])) by {
                if i < r0.len() {
                    assert(rs[i] == r0[i]);
                } else {
                    lemma_snapshot_trichotomy(snap, pe[e.ulid]);
                }
            }
        } else {
            assert(ne == pe.insert(e.ulid, snap));
            assert(held is Some ==> snapshot_lt(held.unwrap(), snap)) by {
                if held is Some {
                    lemma_snapshot_trichotomy(snap, held.unwrap());
                }
            }
            assert forall|i: int|
                0 <= i < rs.len() && (#[trigger] rs[i]).origin != origin implies ne.contains_key(
                rs[i].ulid) && !snapshot_lt(ne[rs[i].ulid], wire_view(rs[i])) by {
                lemma_snapshot_trichotomy(snap, snap);
                if i < r0.len() {
                    assert(rs[i] == r0[i]);
                    let w = wire_view(rs[i]);
                    if rs[i].ulid == e.ulid {
                        let h = pe[e.ulid];
                        lemma_snapshot_trichotomy(h, w);
                        lemma_snapshot_trichotomy(snap, w);
                        if snapshot_lt(snap, w) {
                            lemma_snapshot_trans(h, snap, w);
                        }
                    }
                }
            }
            assert forall|k: Seq<char>| #[trigger] st.local.entries.contains_key(k) implies ne.contains_key(k)
                && !snapshot_lt(ne[k], st.local.entries[k]) by {
                if k == e.ulid {
                    let old_k = st.local.entries[k];
                    let h = pe[k];
                    lemma_snapshot_trichotomy(h, old_k);
                    lemma_snapshot_trichotomy(snap, old_k);
                    if snapshot_lt(snap, old_k) {
                        lemma_snapshot_trans(h, snap, old_k);
                    }
                }
            }
        }
    }
}

/// Taking over entries that are all held already at snapshots no lower
/// than their own changes nothing.
#[verifier::rlimit(50)]
proof fn lemma_apply_remote_settled(rs: Seq<ReplicatedView>, st: RemoteState, origin: Seq<char>)
    requires
        holds_all(st.local.entries, rs, origin),
    ensures
        apply_remote_spec(rs, st, origin) == st,
    decreases rs.len(),
{
    if rs.len() > 0 {
        let r0 = rs.drop_last();
        assert(holds_all(st.local.entries, r0, origin)) by {
            assert forall|i: int| 0 <= i < r0.len() && (#[trigger] r0[i]).origin != origin implies st.local.entries.contains_key(
                r0[i].ulid) && !snapshot_lt(st.local.entries[r0[i].ulid], wire_view(r0[i])) by {
                assert(r0[i] == rs[i]);
            }
        }
        lemma_apply_remote_settled(r0, st, origin);
        let e = rs.last();
        assert(e == rs[rs.len() - 1]);
        if e.origin != origin {
            lemma_snapshot_trichotomy(wire_view(e), st.local.entries[e.ulid]);
        }
    }
}

/// Taking over the same batch of remote entries a second time, right after
/// the first, takes nothing over and changes nothing.
#[verifier::rlimit(50)]
pub proof fn lemma_apply_remote_idempotent(rs: Seq<ReplicatedView>, st: RemoteState, origin: Seq<char>)
    ensures
        ({
            let once = RemoteState { local: apply_remote_spec(rs, st, origin).local, accepted: Seq::empty() };
            apply_remote_spec(rs, once, origin) == once
        }),
{
    lemma_apply_remote_covers(rs, st, origin);
    let once = RemoteState { local: apply_remote_spec(rs, st, origin).local, accepted: Seq::empty() };
    lemma_apply_remote_settled(rs, once, origin);
}

/// A map's entry at `k`, if any.
pub open spec fn map_get(m: Map<Seq<char>, SnapshotView>, k: Seq<char>) -> Option<SnapshotView> {
    if m.contains_key(k) {
        Some(m[k])
    } else {
        None
    }
}

/// What is held for `u` after the remote entries `rs` are offered in turn,
/// starting from `c`: each entry for `u` from another origin than `origin`
/// is merged in (see `merged`).
pub open spec fn best_of(c: Option<SnapshotView>, rs: Seq<ReplicatedView>, u: Seq<char>, origin: Seq<char>) -> Option<
    SnapshotView,
>
    decreases rs.len(),
{
    if rs.len() == 0 {
        c
    } else {
        merge_step(best_of(c, rs.drop_last(), u, origin), rs.last(), u, origin)
    }
}

/// One remote entry offered for `u` (see `best_of`).
pub open spec fn merge_step(p: Option<SnapshotView>, e: ReplicatedView, u: Seq<char>, origin: Seq<char>) -> Option<
    SnapshotView,
> {
    if e.ulid == u && e.origin != origin {
        Some(merged(p, wire_view(e)))
    } else {
        p
    }
}

#[verifier::rlimit(50)]
proof fn lemma_best_of_concat(c: Option<SnapshotView>, a: Seq<ReplicatedView>, b: Seq<ReplicatedView>, u: Seq<char>, origin: Seq<char>)
    ensures
        best_of(c, a + b, u, origin) == best_of(best_of(c, a, u, origin), b, u, origin),
    decreases b.len(),
{
    if b.len() == 0 {
        assert(a + b =~= a);
    } else {
        assert((a + b).drop_last() =~= a + b.drop_last());
        assert((a + b).last() == b.last());
        lemma_best_of_concat(c, a, b.drop_last(), u, origin);
    }
}

#[verifier::rlimit(50)]
proof fn lemma_merge_steps_commute(p: Option<SnapshotView>, x: ReplicatedView, y: ReplicatedView, u: Seq<char>, origin: Seq<char>)
    ensures
        merge_step(merge_step(p, x, u, origin), y, u, origin) == merge_step(merge_step(p, y, u, origin), x, u, origin),
{
    lemma_merge_order_independent(p, wire_view(x), wire_view(y));
}

#[verifier::rlimit(50)]
proof fn lemma_best_of_front(c: Option<SnapshotView>, x: ReplicatedView, s: Seq<ReplicatedView>, u: Seq<char>, origin: Seq<char>)
    ensures
        best_of(c, s.push(x), u, origin) == best_of(c, seq![x] + s, u, origin),
    decreases s.len(),
{
    if s.len() == 0 {
        assert(seq![x] + s =~= s.push(x));
    } else {
        let s0 = s.drop_last();
        let y = s.last();
        assert(s.push(x).drop_last() =~= s);
        assert(s0.push(x).drop_last() =~= s0);
        let b0 = best_of(c, s0, u, origin);
        assert(s.push(x).last() == x);
        assert(best_of(c, s.push(x), u, origin) == merge_step(best_of(c, s, u, origin), x, u, origin));
        assert(best_of(c, s, u, origin) == merge_step(b0, y, u, origin));
        lemma_merge_steps_commute(b0, y, x, u, origin);
        assert(s0.push(x).last() == x);
        assert(best_of(c, s0.push(x), u, origin) == merge_step(b0, x, u, origin));
        lemma_best_of_front(c, x, s0, u, origin);
        assert((seq![x] + s).drop_last() =~= seq![x] + s0);
        assert((seq![x] + s).last() == y);
        assert(best_of(c, seq![x] + s, u, origin) == merge_step(best_of(c, seq![x] + s0, u, origin), y, u, origin));
    }
}

#[verifier::rlimit(50)]
proof fn lemma_best_of_swap(c: Option<SnapshotView>, a: Seq<ReplicatedView>, b: Seq<ReplicatedView>, u: Seq<char>, origin: Seq<char>)
    ensures
        best_of(c, a + b, u, origin) == best_of(c, b + a, u, origin),
    decreases a.len(),
{
    if a.len() == 0 {
        assert(a + b =~= b);
        assert(b + a =~= b);
    } else {
        let x = a[0];
        let a1 = a.drop_first();
        assert(a + b =~= seq![x] + (a1 + b));
        lemma_best_of_front(c, x, a1 + b, u, origin);
        assert((a1 + b).push(x) =~= a1 + b.push(x));
        lemma_best_of_swap(c, a1, b.push(x), u, origin);
        assert(b.push(x) + a1 =~= b + a);
    }
}

/// `best_of` is the greatest of the start `c` and the snapshots of the
/// entries for `u` from another origin: it is one of them, and none of
/// them is greater.
#[verifier::rlimit(50)]
pub proof fn lemma_best_of_is_max(c: Option<SnapshotView>, rs: Seq<ReplicatedView>, u: Seq<char>, origin: Seq<char>)
    ensures
        c is Some ==> best_of(c, rs, u, origin) is Some && !snapshot_lt(best_of(c, rs, u, origin).unwrap(), c.unwrap()),
        forall|i: int|
            0 <= i < rs.len() && (#[trigger] rs[i]).ulid == u && rs[i].origin != origin ==> best_of(c, rs, u, origin) is Some
                && !snapshot_lt(best_of(c, rs, u, origin).unwrap(), wire_view(rs[i])),
        best_of(c, rs, u, origin) == c || exists|i: int|
            0 <= i < rs.len() && (#[trigger] rs[i]).ulid == u && rs[i].origin != origin && best_of(c, rs, u, origin)
                == Some(wire_view(rs[i])),
    decreases rs.len(),
{
    if rs.len() == 0 {
        if c is Some {
            lemma_snapshot_trichotomy(c.unwrap(), c.unwrap());
        }
    } else {
        let r0 = rs.drop_last();
        lemma_best_of_is_max(c, r0, u, origin);
        let p = best_of(c, r0, u, origin);
        let e = rs.last();
        let w = wire_view(e);
        let b = best_of(c, rs, u, origin);
        assert(b == merge_step(p, e, u, origin));
        if e.ulid == u && e.origin != origin {
            // the new best is the greater of `p` and `w`
            if p is Some {
                lemma_snapshot_trichotomy(w, p.unwrap());
            }
            let bb = b.unwrap();
            lemma_snapshot_trichotomy(bb, bb);
            lemma_snapshot_trichotomy(bb, w);
            if p is Some {
                lemma_snapshot_trichotomy(bb, p.unwrap());
            }
            assert(!snapshot_lt(bb, w));
            assert(p is Some ==> !snapshot_lt(bb, p.unwrap()));
            if c is Some {
                let o = c.unwrap();
                let pp = p.unwrap();
                if snapshot_lt(bb, o) {
                    if snapshot_lt(bb, pp) {
                    } else if bb == pp {
                    } else {
                        lemma_snapshot_trans(pp, bb, o);
                    }
                }
            }
            assert forall|i: int|
                0 <= i < rs.len() && (#[trigger] rs[i]).ulid == u && rs[i].origin != origin implies b is Some
                && !snapshot_lt(b.unwrap(), wire_view(rs[i])) by {
                if i < r0.len() {
                    assert(rs[i] == r0[i]);
                    let pp = p.unwrap();
                    let wi = wire_view(rs[i]);
                    lemma_snapshot_trichotomy(pp, wi);
                    lemma_snapshot_trichotomy(bb, pp);
                    if snapshot_lt(bb, wi) && snapshot_lt(pp, bb) {
                        lemma_snapshot_trans(pp, bb, wi);
                    }
                } else {
                    assert(rs[i] == e);
                }
            }
            if b != c {
                if b == Some(w) {
                    assert(rs[rs.len() - 1] == e);
                } else {
                    assert(b == p);
                    let i = choose|i: int|
                        0 <= i < r0.len() && (#[trigger] r0[i]).ulid == u && r0[i].origin != origin && p == Some(
                            wire_view(r0[i]),
                        );
                    assert(rs[i] == r0[i]);
                }
            }
        } else {
            assert(b == p);
            assert forall|i: int|
                0 <= i < rs.len() && (#[trigger] rs[i]).ulid == u && rs[i].origin != origin implies b is Some
                && !snapshot_lt(b.unwrap(), wire_view(rs[i])) by {
                assert(i < r0.len());
                assert(rs[i] == r0[i]);
            }
            if b != c {
                let i = choose|i: int|
                    0 <= i < r0.len() && (#[trigger] r0[i]).ulid == u && r0[i].origin != origin && p == Some(
                        wire_view(r0[i]),
                    );
                assert(rs[i] == r0[i]);
            }
        }
    }
}

/// What taking over a batch does to one id `u`: the held snapshot becomes
/// the merge of the entries for `u` (see `best_of`, and
/// `lemma_best_of_is_max` for why that is their maximum), and the
/// suppressed echo becomes that snapshot when it changed.
#[verifier::rlimit(50)]
pub proof fn lemma_apply_remote_at(rs: Seq<ReplicatedView>, st: RemoteState, origin: Seq<char>, u: Seq<char>)
    ensures
        map_get(apply_remote_spec(rs, st, origin).local.entries, u) == best_of(
            map_get(st.local.entries, u),
            rs,
            u,
            origin,
        ),
        map_get(apply_remote_spec(rs, st, origin).local.suppressed, u) == if map_get(
            apply_remote_spec(rs, st, origin).local.entries,
            u,
        ) != map_get(st.local.entries, u) {
            map_get(apply_remote_spec(rs, st, origin).local.entries, u)
        } else {
            map_get(st.local.suppressed, u)
        },
    decreases rs.len(),
{
    if rs.len() > 0 {
        let r0 = rs.drop_last();
        lemma_apply_remote_at(r0, st, origin, u);
        lemma_apply_remote_covers(r0, st, origin);
        let prev = apply_remote_spec(r0, st, origin);
        let e = rs.last();
        let snap = wire_view(e);
        let pe = prev.local.entries;
        let held = map_get(pe, e.ulid);
        if !(e.origin == origin || !accepts(held, snap)) && e.ulid == u {
            // an accepted entry for `u` moves the held snapshot strictly up
            let s0 = map_get(st.local.entries, u);
            if s0 is Some {
                let h = pe[u];
                let o = s0.unwrap();
                lemma_snapshot_trichotomy(h, o);
                lemma_snapshot_trichotomy(snap, h);
                lemma_snapshot_trichotomy(snap, o);
                if snapshot_lt(o, h) {
                    lemma_snapshot_trans(o, h, snap);
                }
            }
        }
    }
}

/// The highest Lamport clock among the entries of `rs` from another origin
/// than `origin` whose snapshots beat what `start` holds for their ids (0
/// when there is none).
pub open spec fn beat_max(rs: Seq<ReplicatedView>, start: Map<Seq<char>, SnapshotView>, origin: Seq<char>) -> u64
    decreases rs.len(),
{
    if rs.len() == 0 {
        0
    } else {
        let p = beat_max(rs.drop_last(), start, origin);
        let e = rs.last();
        if e.origin != origin && accepts(map_get(start, e.ulid), wire_view(e)) {
            max_u64(p, e.lamport)
        } else {
            p
        }
    }
}

#[verifier::rlimit(50)]
proof fn lemma_beat_max_concat(a: Seq<ReplicatedView>, b: Seq<ReplicatedView>, start: Map<Seq<char>, SnapshotView>, origin: Seq<char>)
    ensures
        beat_max(a + b, start, origin) == max_u64(beat_max(a, start, origin), beat_max(b, start, origin)),
    decreases b.len(),
{
    if b.len() == 0 {
        assert(a + b =~= a);
    } else {
        assert((a + b).drop_last() =~= a + b.drop_last());
        assert((a + b).last() == b.last());
        lemma_beat_max_concat(a, b.drop_last(), start, origin);
    }
}

/// Taking over `a` and then `b` is taking over `a` followed by `b`.
#[verifier::rlimit(50)]
pub proof fn lemma_apply_remote_concat(a: Seq<ReplicatedView>, b: Seq<ReplicatedView>, st: RemoteState, origin: Seq<char>)
    ensures
        apply_remote_spec(a + b, st, origin) == apply_remote_spec(b, apply_remote_spec(a, st, origin), origin),
    decreases b.len(),
{
    if b.len() == 0 {
        assert(a + b =~= a);
    } else {
        assert((a + b).drop_last() =~= a + b.drop_last());
        assert((a + b).last() == b.last());
        lemma_apply_remote_concat(a, b.drop_last(), st, origin);
    }
}

/// What taking over a batch does to the Lamport clock: it moves up to the
/// highest clock among the entries that beat the starting snapshots, and
/// every snapshot that changed carries a clock no higher than the result.
#[verifier::rlimit(60)]
proof fn lemma_apply_remote_lamport(rs: Seq<ReplicatedView>, st: RemoteState, origin: Seq<char>)
    ensures
        apply_remote_spec(rs, st, origin).local.lamport == max_u64(
            st.local.lamport,
            beat_max(rs, st.local.entries, origin),
        ),
        forall|u: Seq<char>|
            #[trigger] map_get(apply_remote_spec(rs, st, origin).local.entries, u) != map_get(
                st.local.entries,
                u,
            ) ==> apply_remote_spec(rs, st, origin).local.entries[u].lamport <= apply_remote_spec(
                rs,
                st,
                origin,
            ).local.lamport,
    decreases rs.len(),
{
    if rs.len() > 0 {
        let r0 = rs.drop_last();
        lemma_apply_remote_lamport(r0, st, origin);
        lemma_apply_remote_covers(r0, st, origin);
        let prev = apply_remote_spec(r0, st, origin);
        let fin = apply_remote_spec(rs, st, origin);
        let e = rs.last();
        let w = wire_view(e);
        let u = e.ulid;
        let pe = prev.local.entries;
        let start = map_get(st.local.entries, u);
        let held = map_get(pe, u);
        if e.origin != origin {
            if accepts(held, w) {
                // accepted: it also beats the starting snapshot
                if held is Some && start is Some {
                    let h = held.unwrap();
                    let o = start.unwrap();
                    lemma_snapshot_trichotomy(w, h);
                    lemma_snapshot_trichotomy(h, o);
                    if snapshot_lt(o, h) {
                        lemma_snapshot_trans(o, h, w);
                    }
                    lemma_snapshot_trichotomy(w, o);
                }
                assert(accepts(start, w));
                assert forall|k: Seq<char>| #[trigger] map_get(fin.local.entries, k) != map_get(
                    st.local.entries,
                    k,
                ) implies fin.local.entries[k].lamport <= fin.local.lamport by {
                    if k != u {
                        assert(map_get(fin.local.entries, k) == map_get(pe, k));
                    }
                }
            } else {
                assert(fin == prev);
                if accepts(start, w) {
                    // rejected though it beats the start: what is held beats it and changed
                    let h = held.unwrap();
                    lemma_snapshot_trichotomy(w, h);
                    if start is Some {
                        let o = start.unwrap();
                        lemma_snapshot_trichotomy(w, o);
                        lemma_snapshot_trichotomy(h, o);
                        if snapshot_lt(w, h) {
                            lemma_snapshot_trans(o, w, h);
                        }
                        assert(h != o);
                    }
                    assert(map_get(pe, u) != map_get(st.local.entries, u));
                    assert(w.lamport <= h.lamport);
                }
            }
        }
    }
}

/// Two batches of remote entries, taken over one after the other, leave
/// the same held snapshots, suppressed echoes and Lamport clock in either
/// order.
#[verifier::rlimit(50)]
pub proof fn lemma_apply_remote_batches_commute(
    r1: Seq<ReplicatedView>,
    r2: Seq<ReplicatedView>,
    st: RemoteState,
    origin: Seq<char>,
)
    ensures
        apply_remote_spec(r2, apply_remote_spec(r1, st, origin), origin).local.entries
            == apply_remote_spec(r1, apply_remote_spec(r2, st, origin), origin).local.entries,
        apply_remote_spec(r2, apply_remote_spec(r1, st, origin), origin).local.suppressed
            == apply_remote_spec(r1, apply_remote_spec(r2, st, origin), origin).local.suppressed,
        apply_remote_spec(r2, apply_remote_spec(r1, st, origin), origin).local.lamport
            == apply_remote_spec(r1, apply_remote_spec(r2, st, origin), origin).local.lamport,
{
    lemma_apply_remote_concat(r1, r2, st, origin);
    lemma_apply_remote_concat(r2, r1, st, origin);
    lemma_apply_remote_lamport(r1 + r2, st, origin);
    lemma_apply_remote_lamport(r2 + r1, st, origin);
    lemma_beat_max_concat(r1, r2, st.local.entries, origin);
    lemma_beat_max_concat(r2, r1, st.local.entries, origin);
    let s1 = apply_remote_spec(r1, st, origin);
    let s2 = apply_remote_spec(r2, st, origin);
    let s12 = apply_remote_spec(r2, s1, origin);
    let s21 = apply_remote_spec(r1, s2, origin);
    assert forall|u: Seq<char>| map_get(s12.local.entries, u) == map_get(s21.local.entries, u)
        && map_get(s12.local.suppressed, u) == map_get(s21.local.suppressed, u) by {
        lemma_apply_remote_at(r1, st, origin, u);
        lemma_apply_remote_at(r2, st, origin, u);
        lemma_apply_remote_at(r2, s1, origin, u);
        lemma_apply_remote_at(r1, s2, origin, u);
        let c = map_get(st.local.entries, u);
        lemma_best_of_concat(c, r1, r2, u, origin);
        lemma_best_of_concat(c, r2, r1, u, origin);
        lemma_best_of_swap(c, r1, r2, u, origin);
        lemma_changed_twice(r1, r2, st, origin, u);
        lemma_changed_twice(r2, r1, st, origin, u);
    }
    assert(s12.local.entries =~= s21.local.entries) by {
        assert forall|u: Seq<char>| s12.local.entries.contains_key(u) == s21.local.entries.contains_key(u) by {
            assert(map_get(s12.local.entries, u) == map_get(s21.local.entries, u));
        }
        assert forall|u: Seq<char>| #[trigger] s12.local.entries.contains_key(u) implies s12.local.entries[u]
            == s21.local.entries[u] by {
            assert(map_get(s12.local.entries, u) == map_get(s21.local.entries, u));
        }
    }
    assert(s12.local.suppressed =~= s21.local.suppressed) by {
        assert forall|u: Seq<char>| s12.local.suppressed.contains_key(u) == s21.local.suppressed.contains_key(u) by {
            assert(map_get(s12.local.suppressed, u) == map_get(s21.local.suppressed, u));
        }
        assert forall|u: Seq<char>| #[trigger] s12.local.suppressed.contains_key(u) implies s12.local.suppressed[u]
            == s21.local.suppressed[u] by {
            assert(map_get(s12.local.suppressed, u) == map_get(s21.local.suppressed, u));
        }
    }
}

/// After two batches, the suppressed echo for `u` is the held snapshot if
/// that changed from the start, and the starting echo otherwise.
#[verifier::rlimit(50)]
proof fn lemma_changed_twice(r1: Seq<ReplicatedView>, r2: Seq<ReplicatedView>, st: RemoteState, origin: Seq<char>, u: Seq<char>)
    ensures
        ({
            let s1 = apply_remote_spec(r1, st, origin);
            let s12 = apply_remote_spec(r2, s1, origin);
            map_get(s12.local.suppressed, u) == if map_get(s12.local.entries, u) != map_get(st.local.entries, u) {
                map_get(s12.local.entries, u)
            } else {
                map_get(st.local.suppressed, u)
            }
        }),
{
    let s1 = apply_remote_spec(r1, st, origin);
    let s12 = apply_remote_spec(r2, s1, origin);
    lemma_apply_remote_at(r1, st, origin, u);
    lemma_apply_remote_at(r2, s1, origin, u);
    lemma_apply_remote_covers(r1, st, origin);
    lemma_apply_remote_covers(r2, s1, origin);
    let e0 = map_get(st.local.entries, u);
    let e1 = map_get(s1.local.entries, u);
    let e2 = map_get(s12.local.entries, u);
    if e2 != e1 && e2 == e0 {
        // the snapshot went up twice and came back: impossible
        if e0 is Some {
            let a = e0.unwrap();
            let b = e1.unwrap();
            lemma_snapshot_trichotomy(b, a);
            lemma_snapshot_trichotomy(a, b);
            if snapshot_lt(a, b) {
                lemma_snapshot_trans(a, b, a);
            }
        } else {
            if e1 is Some {
                assert(s1.local.entries.contains_key(u));
            }
        }
    }
}

/// The views of a list of replicated entries.
pub open spec fn replicated_views(v: Seq<ReplicatedEntry>) -> Seq<ReplicatedView> {
    v.map_values(|e: ReplicatedEntry| e@)
}

/// Takes over the remote entries that win against the held snapshots (see
/// [`apply_remote_spec`]) and gives them back in order.
#[verifier::rlimit(50)]
pub fn apply_remote_entries(
    lamport: &mut u64,
    entries: &mut SnapshotMap,
    suppressed: &mut SnapshotMap,
    local_origin: &str,
    remote_entries: Vec<ReplicatedEntry>,
) -> (r: Vec<ReplicatedEntry>)
    requires
        old(entries).wf(),
        old(suppressed).wf(),
    ensures
        final(entries).wf(),
        final(suppressed).wf(),
        (RemoteState {
            local: local_state(*final(lamport), *final(entries), *final(suppressed)),
            accepted: replicated_views(r@),
        }) == apply_remote_spec(
            replicated_views(remote_entries@),
            RemoteState {
                local: local_state(*old(lamport), *old(entries), *old(suppressed)),
                accepted: Seq::empty(),
            },
            local_origin@,
        ),
{
    let ghost rs = replicated_views(remote_entries@);
    let ghost st0 = RemoteState {
        local: local_state(*lamport, *entries, *suppressed),
        accepted: Seq::empty(),
    };
    let mut rest = remote_entries;
    let mut accepted: Vec<ReplicatedEntry> = Vec::new();
    let ghost mut i: int = 0;
    proof {
        assert(rs.take(0) =~= Seq::<ReplicatedView>::empty());
        assert(replicated_views(accepted@) =~= Seq::<ReplicatedView>::empty());
        assert(replicated_views(rest@) =~= rs.skip(0));
    }
    while rest.len() > 0
        invariant
            0 <= i <= rs.len(),
            replicated_views(rest@) == rs.skip(i),
            entries.wf(),
            suppressed.wf(),
            (RemoteState {
                local: local_state(*lamport, *entries, *suppressed),
                accepted: replicated_views(accepted@),
            }) == apply_remote_spec(rs.take(i), st0, local_origin@),
        decreases rest.len(),
    {
        let ghost old_rest = rest@;
        proof {
            assert(replicated_views(old_rest).len() == old_rest.len());
            assert(i < rs.len());
        }
        let entry = rest.remove(0);
        proof {
            assert(rest@ =~= old_rest.drop_first());
            assert(replicated_views(old_rest)[0] == rs.skip(i)[0]);
            assert forall|j: int| 0 <= j < rest@.len() implies #[trigger] replicated_views(rest@)[j]
                == rs.skip(i + 1)[j] by {
                assert(rest@[j] == old_rest[j + 1]);
                assert(rs.skip(i + 1)[j] == rs.skip(i)[j + 1]);
            }
            assert(replicated_views(rest@) =~= rs.skip(i + 1));
            assert(rs.take(i + 1).drop_last() =~= rs.take(i));
            assert(rs.take(i + 1).last() == entry@);
            i = i + 1;
        }
        if str_eq(entry.origin.as_str(), local_origin) {
            continue;
        }
        let remote = snapshot_from_wire(&entry);
        let held: Option<SnapshotEntry> = match entries.get(entry.ulid.as_str()) {
            Some(e) => Some(e.copy()),
            None => None,
        };
        assert(opt_view(held) == crate::snapshot::snapshot_opt_view(held));
        if !should_accept_remote(held, remote.copy()) {
            continue;
        }
        if remote.lamport > *lamport {
            *lamport = remote.lamport;
        }
        entries.insert(entry.ulid.clone(), remote.copy());
        suppressed.insert(entry.ulid.clone(), remote);
        let ghost before = accepted@;
        accepted.push(entry);
        proof {
            assert(replicated_views(accepted@) =~= replicated_views(before).push(rs[i - 1]));
        }
    }
    proof {
        assert(rs.skip(i).len() == 0);
        assert(rs.take(i) =~= rs);
    }
    accepted
}

// ---------------------------------------------------------------------------
// What a peer lacks
// ---------------------------------------------------------------------------

/// The ids of the listed remote entries whose snapshot would be taken
/// over, in order.
pub open spec fn missing_ids(local: Map<Seq<char>, SnapshotView>, rs: Seq<SnapshotMetaView>) -> Seq<
    Seq<char>,
>
    decreases rs.len(),
{
    if rs.len() == 0 {
        Seq::empty()
    } else {
        let prev = missing_ids(local, rs.drop_last());
        let e = rs.last();
        let held = if local.contains_key(e.ulid) {
            Some(local[e.ulid])
        } else {
            None
        };
        if accepts(held, meta_view(e)) {
            prev.push(e.ulid)
        } else {
            prev
        }
    }
}

/// The views of a list of listed entries.
pub open spec fn meta_views(v: Seq<SnapshotMetaEntry>) -> Seq<SnapshotMetaView> {
    v.map_values(|e: SnapshotMetaEntry| e@)
}

/// The views of a list of strings.
pub open spec fn string_views(v: Seq<String>) -> Seq<Seq<char>> {
    v.map_values(|s: String| s@)
}

/// The ids, in order, of the remote entries that would win against the
/// local snapshots.
#[verifier::rlimit(50)]
pub fn collect_missing_snapshot_ids_from_state(
    local_entries: &SnapshotMap,
    remote_entries: Vec<SnapshotMetaEntry>,
) -> (r: Vec<String>)
    requires
        local_entries.wf(),
    ensures
        string_views(r@) == missing_ids(local_entries@, meta_views(remote_entries@)),
{
    let ghost rs = meta_views(remote_entries@);
    let mut out: Vec<String> = Vec::new();
    let mut i: usize = 0;
    while i < remote_entries.len()
        invariant
            i <= remote_entries.len(),
            rs == meta_views(remote_entries@),
            local_entries.wf(),
            string_views(out@) == missing_ids(local_entries@, rs.take(i as int)),
        decreases remote_entries.len() - i,
    {
        let entry = &remote_entries[i];
        proof {
            assert(rs.take(i + 1).drop_last() =~= rs.take(i as int));
            assert(rs.take(i + 1).last() == entry@);
        }
        let remote = snapshot_meta_to_snapshot(entry);
        let held: Option<SnapshotEntry> = match local_entries.get(entry.ulid.as_str()) {
            Some(e) => Some(e.copy()),
            None => None,
        };
        assert(opt_view(held) == crate::snapshot::snapshot_opt_view(held));
        if should_accept_remote(held, remote) {
            let ghost before = out@;
            out.push(entry.ulid.clone());
            proof {
                assert(string_views(out@) =~= string_views(before).push(entry@.ulid));
            }
        }
        i += 1;
    }
    proof {
        assert(rs.take(remote_entries.len() as int) =~= rs);
    }
    out
}

/// The last summary of `ls` for bucket `name`, if any.
pub open spec fn bucket_lookup(ls: Seq<BucketView>, name: Seq<char>) -> Option<BucketView>
    decreases ls.len(),
{
    if ls.len() == 0 {
        None
    } else if ls.last().bucket == name {
        Some(ls.last())
    } else {
        bucket_lookup(ls.drop_last(), name)
    }
}

/// The names of the remote buckets whose summary differs from the local
/// one for the same bucket (or that have none locally), in order.
pub open spec fn differing_buckets(local: Seq<BucketView>, remote: Seq<BucketView>) -> Seq<Seq<char>>
    decreases remote.len(),
{
    if remote.len() == 0 {
        Seq::empty()
    } else {
        let prev = differing_buckets(local, remote.drop_last());
        let b = remote.last();
        if bucket_lookup(local, b.bucket) != Some(b) {
            prev.push(b.bucket)
        } else {
            prev
        }
    }
}

/// The views of a list of bucket summaries.
pub open spec fn bucket_views(v: Seq<SnapshotBucketSummary>) -> Seq<BucketView> {
    v.map_values(|b: SnapshotBucketSummary| b@)
}

/// The local summary for bucket `name`: the last one of `local` with that
/// name.
#[verifier::rlimit(50)]
fn find_bucket(local: &Vec<SnapshotBucketSummary>, name: &str) -> (r: Option<usize>)
    ensures
        match r {
            Some(i) => i < local.len() && bucket_lookup(bucket_views(local@), name@) == Some(
                local@[i as int]@,
            ),
            None => bucket_lookup(bucket_views(local@), name@) is None,
        },
{
    let ghost ls = bucket_views(local@);
    let mut i: usize = local.len();
    proof {
        assert(ls.take(local.len() as int) =~= ls);
    }
    while i > 0
        invariant
            i <= local.len(),
            ls == bucket_views(local@),
            bucket_lookup(ls, name@) == bucket_lookup(ls.take(i as int), name@),
        decreases i,
    {
        proof {
            assert(ls.take(i as int).drop_last() =~= ls.take(i - 1));
            assert(ls.take(i as int).last() == local@[i - 1]@);
        }
        if str_eq(local[i - 1].bucket.as_str(), name) {
            return Some(i - 1);
        }
        i -= 1;
    }
    None
}

/// Whether two summaries are equal in every field.
#[verifier::rlimit(50)]
fn bucket_eq(a: &SnapshotBucketSummary, b: &SnapshotBucketSummary) -> (r: bool)
    ensures
        r == (a@ == b@),
{
    str_eq(a.bucket.as_str(), b.bucket.as_str()) && a.count == b.count && crate::snapshot::hash_eq(
        &a.hash,
        &b.hash,
    )
}

/// The names of the remote buckets whose summary differs from the local
/// summaries (or that have none locally), in the remote order.
#[verifier::rlimit(50)]
pub fn collect_missing_snapshot_buckets_from_state(
    local_buckets: &Vec<SnapshotBucketSummary>,
    remote_buckets: Vec<SnapshotBucketSummary>,
) -> (r: Vec<String>)
    ensures
        string_views(r@) == differing_buckets(
            bucket_views(local_buckets@),
            bucket_views(remote_buckets@),
        ),
{
    let ghost ls = bucket_views(local_buckets@);
    let ghost rs = bucket_views(remote_buckets@);
    let mut out: Vec<String> = Vec::new();
    let mut i: usize = 0;
    while i < remote_buckets.len()
        invariant
            i <= remote_buckets.len(),
            ls == bucket_views(local_buckets@),
            rs == bucket_views(remote_buckets@),
            string_views(out@) == differing_buckets(ls, rs.take(i as int)),
        decreases remote_buckets.len() - i,
    {
        let b = &remote_buckets[i];
        proof {
            assert(rs.take(i + 1).drop_last() =~= rs.take(i as int));
            assert(rs.take(i + 1).last() == b@);
        }
        let same = match find_bucket(local_buckets, b.bucket.as_str()) {
            Some(j) => bucket_eq(&local_buckets[j], b),
            None => false,
        };
        if !same {
            let ghost before = out@;
            out.push(b.bucket.clone());
            proof {
                assert(string_views(out@) =~= string_views(before).push(b@.bucket));
            }
        }
        i += 1;
    }
    proof {
        assert(rs.take(remote_buckets.len() as int) =~= rs);
    }
    out
}

/// The bucket level that a list of remote summaries uses: the byte length
/// of the first bucket name (as a `u8`), or 6 when there is none.
#[verifier::rlimit(50)]
pub fn bucket_level(remote_buckets: &Vec<SnapshotBucketSummary>) -> (r: u8)
    ensures
        remote_buckets@.len() == 0 ==> r == 6,
        remote_buckets@.len() > 0 ==> r as int == encode_utf8(remote_buckets@[0].bucket@).len() % 256,
{
    if remote_buckets.len() == 0 {
        6
    } else {
        let s = remote_buckets[0].bucket.as_str();
        proof {
            assert(s@ == remote_buckets@[0].bucket@);
            assert(s.spec_bytes() == encode_utf8(s@));
        }
        let n = s.as_bytes().len();
        assert((n as u8) as int == n % 256) by (bit_vector);
        n as u8
    }
}

// ---------------------------------------------------------------------------
// Buckets
// ---------------------------------------------------------------------------

/// Byte length of the bucket of `id` at `level`: `level` bytes, or the
/// whole id when it is shorter.
pub open spec fn bucket_len(id: Seq<char>, level: u8) -> int {
    let n = encode_utf8(id).len();
    if (level as int) < n {
        level as int
    } else {
        n as int
    }
}

/// The bucket of `id` at `level`: its first `level` bytes.
pub open spec fn bucket_spec(id: Seq<char>, level: u8) -> Seq<char> {
    decode_utf8(encode_utf8(id).subrange(0, bucket_len(id, level)))
}

/// The bucket can be cut out of `id` without splitting a character.
pub open spec fn bucket_ok(id: Seq<char>, level: u8) -> bool {
    is_char_boundary(encode_utf8(id), bucket_len(id, level))
}

/// The bucket of an entry id at `level`: its first `level` bytes (the
/// whole id when it is shorter).
#[verifier::rlimit(50)]
pub fn bucket_for_ulid(id: &str, level: u8) -> (r: String)
    requires
        bucket_ok(id@, level),
    ensures
        r@ == bucket_spec(id@, level),
{
    assert(id.spec_bytes() == encode_utf8(id@));
    let n = id.as_bytes().len();
    let l = level as usize;
    let len = if l < n {
        l
    } else {
        n
    };
    assert(len == bucket_len(id@, level));
    proof {
        vstd::utf8::encode_utf8_valid_utf8(id@);
    }
    let (head, _) = id.split_at(len);
    proof {
        vstd::utf8::encode_utf8_decode_utf8(head@);
        assert(head.spec_bytes() == encode_utf8(head@));
    }
    head.to_owned()
}

/// Whether `id` starts with one of `prefixes`.
pub open spec fn has_bucket_prefix(id: Seq<char>, prefixes: Seq<Seq<char>>) -> bool {
    exists|i: int| 0 <= i < prefixes.len() && (#[trigger] prefixes[i]).is_prefix_of(id)
}

/// Whether `id` starts with one of `prefixes`.
#[verifier::rlimit(50)]
fn matches_bucket_prefixes(id: &str, prefixes: &Vec<String>) -> (r: bool)
    ensures
        r == has_bucket_prefix(id@, string_views(prefixes@)),
{
    let v = chars_of(id);
    let ghost ps = string_views(prefixes@);
    let mut i: usize = 0;
    while i < prefixes.len()
        invariant
            i <= prefixes.len(),
            v@ == id@,
            ps == string_views(prefixes@),
            forall|j: int| 0 <= j < i ==> !(#[trigger] ps[j]).is_prefix_of(id@),
        decreases prefixes.len() - i,
    {
        let p = chars_of(prefixes[i].as_str());
        assert(ps[i as int] == p@);
        if p.len() <= v.len() && range_eq(&v, 0, p.len(), &p) {
            assert(ps[i as int].is_prefix_of(id@));
            return true;
        }
        proof {
            if p@.len() <= v@.len() && p@ =~= v@.subrange(0, p@.len() as int) {
                assert(v@.subrange(0, p.len() as int) == p@);
            }
        }
        i += 1;
    }
    false
}

// ---------------------------------------------------------------------------
// Listing held entries
// ---------------------------------------------------------------------------

/// What a peer reports for entry `id` when asked for it: nothing when it
/// holds no snapshot of it; a fresh tombstone (next Lamport clock, dated
/// `now`, local origin) when its attribute file has gone missing though the
/// snapshot says it exists; the held snapshot otherwise.
pub open spec fn report_spec(
    lamport: u64,
    entries: Map<Seq<char>, SnapshotView>,
    origin: Seq<char>,
    id: Seq<char>,
    file_missing: bool,
    now: u64,
) -> (u64, Map<Seq<char>, SnapshotView>, Option<SnapshotView>) {
    if !entries.contains_key(id) {
        (lamport, entries, None)
    } else if entries[id].hash != tombstone_view() && file_missing {
        let l = sat_inc(lamport);
        let t = tombstone_at(l, now, origin);
        (l, entries.insert(id, t), Some(t))
    } else {
        (lamport, entries, Some(entries[id]))
    }
}

/// Whether `v` holds the string `s`.
#[verifier::rlimit(50)]
pub fn contains_str(v: &Vec<String>, s: &str) -> (r: bool)
    ensures
        r == string_views(v@).contains(s@),
{
    let mut i: usize = 0;
    while i < v.len()
        invariant
            i <= v.len(),
            forall|j: int| 0 <= j < i ==> v@[j]@ != s@,
        decreases v.len() - i,
    {
        if str_eq(v[i].as_str(), s) {
            assert(string_views(v@)[i as int] == s@);
            return true;
        }
        i += 1;
    }
    proof {
        if string_views(v@).contains(s@) {
            let j = choose|j: int| 0 <= j < string_views(v@).len() && string_views(v@)[j] == s@;
            assert(v@[j]@ == s@);
        }
    }
    false
}

/// Reports entry `id` (see [`report_spec`]); `file_missing` tells whether
/// its attribute file was found missing.
#[verifier::rlimit(50)]
fn report_entry(
    lamport: &mut u64,
    entries: &mut SnapshotMap,
    local_origin: &str,
    id: &str,
    file_missing: bool,
    now_ms: u64,
) -> (r: Option<SnapshotEntry>)
    requires
        old(entries).wf(),
    ensures
        final(entries).wf(),
        (*final(lamport), final(entries)@, opt_view(r)) == report_spec(
            *old(lamport),
            old(entries)@,
            local_origin@,
            id@,
            file_missing,
            now_ms,
        ),
{
    let held = match entries.get(id) {
        Some(e) => e.copy(),
        None => {
            return None;
        },
    };
    if !is_tombstone(&held.hash) && file_missing {
        *lamport = saturating_inc(*lamport);
        let t = SnapshotEntry {
            hash: tombstone_hash(),
            lamport: *lamport,
            changed_at_ms: now_ms,
            origin: local_origin.to_owned(),
        };
        let out = t.copy();
        entries.insert(id.to_owned(), t);
        Some(out)
    } else {
        Some(held)
    }
}

/// The listing entry for `id` with snapshot `e`.
pub open spec fn listed(id: Seq<char>, e: SnapshotView) -> SnapshotMetaView {
    SnapshotMetaView {
        ulid: id,
        hash: e.hash,
        lamport: e.lamport,
        changed_at_ms: e.changed_at_ms,
        origin: e.origin,
    }
}

/// Lists the entries `ids` in turn (see [`report_spec`]), keeping only those
/// in one of `buckets` when any are given.
pub open spec fn listing_spec(
    ids: Seq<Seq<char>>,
    lamport: u64,
    entries: Map<Seq<char>, SnapshotView>,
    origin: Seq<char>,
    buckets: Seq<Seq<char>>,
    missing: Seq<Seq<char>>,
    now: u64,
) -> (u64, Map<Seq<char>, SnapshotView>, Seq<SnapshotMetaView>)
    decreases ids.len(),
{
    if ids.len() == 0 {
        (lamport, entries, Seq::empty())
    } else {
        let prev = listing_spec(ids.drop_last(), lamport, entries, origin, buckets, missing, now);
        let id = ids.last();
        if buckets.len() > 0 && !has_bucket_prefix(id, buckets) {
            prev
        } else {
            let step = report_spec(prev.0, prev.1, origin, id, missing.contains(id), now);
            match step.2 {
                Some(e) => (step.0, step.1, prev.2.push(listed(id, e))),
                None => (step.0, step.1, prev.2),
            }
        }
    }
}

/// The ids of the held entries, in ascending order.
pub open spec fn held_ids(entries: SnapshotMap) -> Seq<Seq<char>> {
    entries.pairs().map_values(|p: SnapPair| p.0)
}

/// Lists the held entries in id order, keeping only those whose id starts
/// with one of `buckets` when any are given.  An entry whose attribute file
/// is listed in `missing` (though its snapshot says it exists) is first
/// replaced by a tombstone dated `now_ms`.
#[verifier::rlimit(50)]
pub fn build_snapshot_meta_for_buckets(
    lamport: &mut u64,
    entries: &mut SnapshotMap,
    local_origin: &str,
    buckets: &Vec<String>,
    missing: &Vec<String>,
    now_ms: u64,
) -> (r: Vec<SnapshotMetaEntry>)
    requires
        old(entries).wf(),
    ensures
        final(entries).wf(),
        (*final(lamport), final(entries)@, meta_views(r@)) == listing_spec(
            held_ids(*old(entries)),
            *old(lamport),
            old(entries)@,
            local_origin@,
            string_views(buckets@),
            string_views(missing@),
            now_ms,
        ),
{
    let ghost ids = held_ids(*entries);
    let ghost l0 = *lamport;
    let ghost m0 = entries@;
    let n = entries.len();
    let mut keys: Vec<String> = Vec::new();
    let mut i: usize = 0;
    while i < n
        invariant
            entries.wf(),
            n == entries.pairs().len(),
            ids == held_ids(*entries),
            i <= n,
            string_views(keys@) == ids.take(i as int),
        decreases n - i,
    {
        let ghost before = keys@;
        keys.push(entries.key_at(i).clone());
        proof {
            assert(string_views(keys@) =~= string_views(before).push(ids[i as int]));
            assert(ids.take(i + 1) =~= ids.take(i as int).push(ids[i as int]));
        }
        i += 1;
    }
    proof {
        assert(ids.take(n as int) =~= ids);
    }
    let mut out: Vec<SnapshotMetaEntry> = Vec::new();
    let mut i: usize = 0;
    while i < keys.len()
        invariant
            i <= keys.len(),
            string_views(keys@) == ids,
            entries.wf(),
            (*lamport, entries@, meta_views(out@)) == listing_spec(
                ids.take(i as int),
                l0,
                m0,
                local_origin@,
                string_views(buckets@),
                string_views(missing@),
                now_ms,
            ),
        decreases keys.len() - i,
    {
        let id = keys[i].as_str();
        proof {
            assert(ids.take(i + 1).drop_last() =~= ids.take(i as int));
            assert(ids.take(i + 1).last() == ids[i as int]);
            assert(ids[i as int] == keys@[i as int]@);
        }
        if buckets.len() > 0 && !matches_bucket_prefixes(id, buckets) {
            i += 1;
            continue;
        }
        let missing_file = contains_str(missing, id);
        match report_entry(lamport, entries, local_origin, id, missing_file, now_ms) {
            Some(e) => {
                let ghost before = out@;
                out.push(
                    SnapshotMetaEntry {
                        ulid: keys[i].clone(),
                        hash: e.hash,
                        lamport: e.lamport,
                        changed_at_ms: e.changed_at_ms,
                        origin: e.origin,
                    },
                );
                proof {
                    assert(meta_views(out@) =~= meta_views(before).push(out@[before.len() as int]@));
                }
            },
            None => {},
        }
        i += 1;
    }
    proof {
        assert(ids.take(keys.len() as int) =~= ids);
    }
    out
}

/// Reports the requested entries `ids` in turn (see [`report_spec`]).
pub open spec fn requested_spec(
    ids: Seq<Seq<char>>,
    lamport: u64,
    entries: Map<Seq<char>, SnapshotView>,
    origin: Seq<char>,
    missing: Seq<Seq<char>>,
    now: u64,
) -> (u64, Map<Seq<char>, SnapshotView>, Seq<SnapPair>)
    decreases ids.len(),
{
    if ids.len() == 0 {
        (lamport, entries, Seq::empty())
    } else {
        let prev = requested_spec(ids.drop_last(), lamport, entries, origin, missing, now);
        let id = ids.last();
        let step = report_spec(prev.0, prev.1, origin, id, missing.contains(id), now);
        match step.2 {
            Some(e) => (step.0, step.1, prev.2.push((id, e))),
            None => (step.0, step.1, prev.2),
        }
    }
}

/// The snapshots of the requested entries `ids` that are held, in the
/// order asked; an entry whose attribute file is listed in `missing`
/// (though its snapshot says it exists) is first replaced by a tombstone
/// dated `now_ms`.
#[verifier::rlimit(50)]
pub fn build_requested_snapshot_entries(
    lamport: &mut u64,
    entries: &mut SnapshotMap,
    local_origin: &str,
    ids: &Vec<String>,
    missing: &Vec<String>,
    now_ms: u64,
) -> (r: Vec<(String, SnapshotEntry)>)
    requires
        old(entries).wf(),
    ensures
        final(entries).wf(),
        (*final(lamport), final(entries)@, pair_views(r@)) == requested_spec(
            string_views(ids@),
            *old(lamport),
            old(entries)@,
            local_origin@,
            string_views(missing@),
            now_ms,
        ),
{
    let ghost idv = string_views(ids@);
    let ghost l0 = *lamport;
    let ghost m0 = entries@;
    let mut out: Vec<(String, SnapshotEntry)> = Vec::new();
    let mut i: usize = 0;
    while i < ids.len()
        invariant
            i <= ids.len(),
            idv == string_views(ids@),
            entries.wf(),
            (*lamport, entries@, pair_views(out@)) == requested_spec(
                idv.take(i as int),
                l0,
                m0,
                local_origin@,
                string_views(missing@),
                now_ms,
            ),
        decreases ids.len() - i,
    {
        let id = ids[i].as_str();
        proof {
            assert(idv.take(i + 1).drop_last() =~= idv.take(i as int));
            assert(idv.take(i + 1).last() == idv[i as int]);
            assert(idv[i as int] == ids@[i as int]@);
        }
        let missing_file = contains_str(missing, id);
        match report_entry(lamport, entries, local_origin, id, missing_file, now_ms) {
            Some(e) => {
                let ghost before = out@;
                out.push((ids[i].clone(), e));
                proof {
                    assert(pair_views(out@) =~= pair_views(before).push((idv[i as int], out@[before.len() as int].1@)));
                }
            },
            None => {},
        }
        i += 1;
    }
    proof {
        assert(idv.take(ids.len() as int) =~= idv);
    }
    out
}

/// Whether a listed entry is one to ask for: nothing is held for its id,
/// or the held snapshot is below the listed one in snapshot order.
pub open spec fn wanted(local: Map<Seq<char>, SnapshotView>, e: SnapshotMetaView) -> bool {
    !local.contains_key(e.ulid) || snapshot_lt(local[e.ulid], meta_view(e))
}

#[verifier::rlimit(50)]
#[verifier::spinoff_prover]
proof fn lemma_wanted_are_asked(local: Map<Seq<char>, SnapshotView>, rs: Seq<SnapshotMetaView>)
    ensures
        forall|i: int| 0 <= i < rs.len() && wanted(local, #[trigger] rs[i]) ==> missing_ids(local, rs).contains(rs[i].ulid),
    decreases rs.len(),
{
    if rs.len() > 0 {
        let p = rs.drop_last();
        lemma_wanted_are_asked(local, p);
        let e = rs.last();
        let out = missing_ids(local, rs);
        let po = missing_ids(local, p);
        if local.contains_key(e.ulid) {
            lemma_snapshot_trichotomy(meta_view(e), local[e.ulid]);
        }
        assert forall|i: int| 0 <= i < rs.len() && wanted(local, #[trigger] rs[i]) implies out.contains(rs[i].ulid) by {
            if i < p.len() {
                assert(rs[i] == p[i]);
                let k = choose|k: int| 0 <= k < po.len() && po[k] == p[i].ulid;
                assert(out[k] == po[k]);
            } else {
                assert(rs[i] == e);
                assert(out[out.len() - 1] == e.ulid);
            }
        }
    }
}

/// Every listed entry that nothing is held for, or whose listed snapshot
/// is greater than the held one in snapshot order (Lamport clock, then
/// change time, origin and hash), is asked for: a held entry that changed
/// on the peer is asked for too.  (`lemma_missing_ids_is_filter` adds that
/// nothing else is asked, and in which order.)
pub proof fn lemma_missing_ids_exact(local: Map<Seq<char>, SnapshotView>, rs: Seq<SnapshotMetaView>)
    ensures
        forall|i: int| 0 <= i < rs.len() && wanted(local, #[trigger] rs[i]) ==> missing_ids(local, rs).contains(rs[i].ulid),
{
    lemma_wanted_are_asked(local, rs);
}

/// The ids asked of a peer are, in the order listed, the ids of exactly
/// the listed entries that are wanted (see [`wanted`]): nothing held at an
/// equal or greater snapshot is asked for.
#[verifier::rlimit(50)]
pub proof fn lemma_missing_ids_is_filter(local: Map<Seq<char>, SnapshotView>, rs: Seq<SnapshotMetaView>)
    ensures
        missing_ids(local, rs) == rs.filter(|e: SnapshotMetaView| wanted(local, e)).map_values(
            |e: SnapshotMetaView| e.ulid,
        ),
    decreases rs.len(),
{
    reveal(Seq::filter);
    if rs.len() == 0 {
        assert(missing_ids(local, rs) =~= Seq::<Seq<char>>::empty());
        assert(rs.filter(|e: SnapshotMetaView| wanted(local, e)) =~= Seq::<SnapshotMetaView>::empty());
    } else {
        let p = rs.drop_last();
        lemma_missing_ids_is_filter(local, p);
        let e = rs.last();
        if local.contains_key(e.ulid) {
            lemma_snapshot_trichotomy(meta_view(e), local[e.ulid]);
        }
        let fp = p.filter(|e: SnapshotMetaView| wanted(local, e));
        assert(fp.push(e).map_values(|e: SnapshotMetaView| e.ulid) =~= fp.map_values(|e: SnapshotMetaView| e.ulid).push(
            e.ulid,
        ));
    }
}

} // verus!
