//! The replicated state of the attribute directory: one snapshot per entry
//! id, kept in id order, and how it changes on start-up, on local changes
//! and on snapshots received from peers.
use vstd::prelude::*;

use crate::snapshot::{
    accepts, hash_eq, is_tombstone, snapshot_from_wire, snapshot_opt_view, should_accept_remote,
    tombstone_hash, tombstone_view, wire_view, ReplicatedEntry, ReplicatedView, SnapshotEntry,
    SnapshotView,
};
use crate::strmap::{
    has_key, lemma_pairs_map_push_sorted, lemma_value_of_index, pairs_map, sorted_keys, StrMap,
};
use crate::text::lex_lt;

verus! {

/// The snapshots of all entries, by id.
pub type SnapshotMap = StrMap<SnapshotEntry>;

/// An entry id with the view of its snapshot.
pub type SnapPair = (Seq<char>, SnapshotView);

/// `n + 1`, or `n` when that would overflow.
pub open spec fn sat_inc(n: u64) -> u64 {
    if n == u64::MAX {
        n
    } else {
        (n + 1) as u64
    }
}

/// `n + 1`, saturating at the largest `u64`.
#[verifier::rlimit(50)]
pub fn saturating_inc(n: u64) -> (r: u64)
    ensures
        r == sat_inc(n),
{
    if n == u64::MAX {
        n
    } else {
        n + 1
    }
}

/// The largest Lamport clock among the snapshots (0 for none).
pub open spec fn max_lamport(ps: Seq<SnapPair>) -> u64
    decreases ps.len(),
{
    if ps.len() == 0 {
        0
    } else {
        let m = max_lamport(ps.drop_last());
        if ps.last().1.lamport > m {
            ps.last().1.lamport
        } else {
            m
        }
    }
}

/// Start-up pass over the scanned entries `ps` (in id order): an entry
/// whose hash is unchanged since the cached state takes the cached
/// snapshot; any other gets the next Lamport clock and the local origin.
/// Gives the new pairs and the last clock handed out.
pub open spec fn restamp(
    ps: Seq<SnapPair>,
    cached: Map<Seq<char>, SnapshotView>,
    start: u64,
    origin: Seq<char>,
) -> (Seq<SnapPair>, u64)
    decreases ps.len(),
{
    if ps.len() == 0 {
        (Seq::empty(), start)
    } else {
        let prev = restamp(ps.drop_last(), cached, start, origin);
        let k = ps.last().0;
        let e = ps.last().1;
        if cached.contains_key(k) && cached[k].hash == e.hash {
            (prev.0.push((k, cached[k])), prev.1)
        } else {
            let n = sat_inc(prev.1);
            (prev.0.push((k, SnapshotView { lamport: n, origin: origin, ..e })), n)
        }
    }
}

/// The tombstone that marks an entry removed at `ts`.
pub open spec fn tombstone_at(lamport: u64, ts: u64, origin: Seq<char>) -> SnapshotView {
    SnapshotView { hash: tombstone_view(), lamport: lamport, changed_at_ms: ts, origin: origin }
}

/// Start-up pass over the cached entries `ps` (in id order): each one that
/// is gone from `live` and was not already removed gets a tombstone with
/// the next Lamport clock.  Gives the tombstones and the last clock.
pub open spec fn tombstone_pass(
    ps: Seq<SnapPair>,
    live: Map<Seq<char>, SnapshotView>,
    start: u64,
    ts: u64,
    origin: Seq<char>,
) -> (Seq<SnapPair>, u64)
    decreases ps.len(),
{
    if ps.len() == 0 {
        (Seq::empty(), start)
    } else {
        let prev = tombstone_pass(ps.drop_last(), live, start, ts, origin);
        let k = ps.last().0;
        let e = ps.last().1;
        if !live.contains_key(k) && e.hash != tombstone_view() {
            let n = sat_inc(prev.1);
            (prev.0.push((k, tombstone_at(n, ts, origin))), n)
        } else {
            prev
        }
    }
}

/// The pairs of `ps` whose hash differs from the one in `old` (or that
/// `old` lacks), in order.
pub open spec fn changed_pairs(ps: Seq<SnapPair>, old: Map<Seq<char>, SnapshotView>) -> Seq<
    SnapPair,
>
    decreases ps.len(),
{
    if ps.len() == 0 {
        Seq::empty()
    } else {
        let prev = changed_pairs(ps.drop_last(), old);
        let k = ps.last().0;
        if !old.contains_key(k) || old[k].hash != ps.last().1.hash {
            prev.push(ps.last())
        } else {
            prev
        }
    }
}

/// The views of a list of (id, snapshot) pairs.
pub open spec fn pair_views(v: Seq<(String, SnapshotEntry)>) -> Seq<SnapPair> {
    v.map_values(|p: (String, SnapshotEntry)| (p.0@, p.1@))
}

#[verifier::rlimit(50)]
proof fn lemma_restamp_keys(
    ps: Seq<SnapPair>,
    cached: Map<Seq<char>, SnapshotView>,
    start: u64,
    origin: Seq<char>,
)
    ensures
        restamp(ps, cached, start, origin).0.len() == ps.len(),
        forall|j: int|
            0 <= j < ps.len() ==> (#[trigger] restamp(ps, cached, start, origin).0[j]).0 == ps[j].0,
    decreases ps.len(),
{
    if ps.len() > 0 {
        lemma_restamp_keys(ps.drop_last(), cached, start, origin);
    }
}

#[verifier::rlimit(50)]
proof fn lemma_tombstone_pass_keys(
    ps: Seq<SnapPair>,
    live: Map<Seq<char>, SnapshotView>,
    start: u64,
    ts: u64,
    origin: Seq<char>,
)
    requires
        sorted_keys(ps),
    ensures
        sorted_keys(tombstone_pass(ps, live, start, ts, origin).0),
        forall|j: int|
            0 <= j < tombstone_pass(ps, live, start, ts, origin).0.len() ==> has_key(
                ps,
                (#[trigger] tombstone_pass(ps, live, start, ts, origin).0[j]).0,
            ),
    decreases ps.len(),
{
    if ps.len() > 0 {
        let q = ps.drop_last();
        assert(sorted_keys(q)) by {
            assert forall|a: int, b: int| 0 <= a < b < q.len() implies lex_lt(
                #[trigger] q[a].0,
                #[trigger] q[b].0,
            ) by {
                assert(q[a] == ps[a] && q[b] == ps[b]);
            }
        }
        lemma_tombstone_pass_keys(q, live, start, ts, origin);
        let prev = tombstone_pass(q, live, start, ts, origin);
        let t = tombstone_pass(ps, live, start, ts, origin);
        assert forall|j: int| 0 <= j < prev.0.len() implies lex_lt(
            #[trigger] prev.0[j].0,
            ps.last().0,
        ) && has_key(ps, prev.0[j].0) by {
            let c = choose|c: int| 0 <= c < q.len() && #[trigger] q[c].0 == prev.0[j].0;
            assert(ps[c] == q[c]);
            assert(lex_lt(ps[c].0, ps[ps.len() - 1].0));
        }
        if t.0.len() > prev.0.len() {
            lemma_pairs_map_push_sorted(prev.0, ps.last().0, t.0.last().1);
            assert(t.0 == prev.0.push((ps.last().0, t.0.last().1)));
            assert forall|j: int| 0 <= j < t.0.len() implies has_key(ps, (#[trigger] t.0[j]).0) by {
                if j == prev.0.len() {
                    assert(ps[ps.len() - 1].0 == t.0[j].0);
                } else {
                    assert(t.0[j] == prev.0[j]);
                }
            }
        }
    }
}

/// Reconciles the scanned attribute directory (`current`) with the state
/// saved at the last run (`cached`, if any).  Entries whose hash is
/// unchanged keep their cached snapshot; changed or new ones are stamped
/// with fresh Lamport clocks (counting up from the largest cached one) and
/// the local origin; cached entries that are gone become tombstones dated
/// `tombstone_ts`.  Also gives, in id order, each entry of the result whose
/// hash differs from the cached state, as a peer should be told of it.
#[verifier::rlimit(40)]
pub fn reconcile_startup_state(
    cached: Option<SnapshotMap>,
    current: SnapshotMap,
    local_origin: &str,
    tombstone_ts: u64,
) -> (r: (SnapshotMap, Vec<(String, SnapshotEntry)>))
    requires
        current.wf(),
        match cached {
            Some(c) => c.wf(),
            None => true,
        },
    ensures
        r.0.wf(),
        match cached {
            None => r.0@ == current@ && r.1@.len() == 0,
            Some(c) => {
                let s1 = restamp(current.pairs(), c@, max_lamport(c.pairs()), local_origin@);
                let s2 = tombstone_pass(c.pairs(), current@, s1.1, tombstone_ts, local_origin@);
                &&& r.0@ == pairs_map(s1.0).union_prefer_right(pairs_map(s2.0))
                &&& pair_views(r.1@) == changed_pairs(r.0.pairs(), c@)
            },
        },
{
    let c = match cached {
        None => {
            return (current, Vec::new());
        },
        Some(c) => c,
    };
    let ghost cp = c.pairs();
    let ghost origin = local_origin@;
    // the largest cached clock
    let cn = c.len();
    let mut next: u64 = 0;
    let mut i: usize = 0;
    while i < cn
        invariant
            c.wf(),
            cn == c.pairs().len(),
            i <= cn,
            next == max_lamport(c.pairs().take(i as int)),
        decreases cn - i,
    {
        let l = c.value_at(i).lamport;
        assert(c.pairs().take(i + 1).drop_last() =~= c.pairs().take(i as int));
        if l > next {
            next = l;
        }
        i += 1;
    }
    assert(c.pairs().take(cn as int) =~= c.pairs());
    let ghost start = next;
    // restamp the scanned entries
    let mut cur = current;
    let ghost cur0 = cur.pairs();
    let n = cur.len();
    let mut i: usize = 0;
    proof {
        assert(cur0.take(0) =~= Seq::<SnapPair>::empty());
        assert(cur.pairs() =~= restamp(cur0.take(0), c@, start, origin).0 + cur0.skip(0));
    }
    while i < n
        invariant
            c.wf(),
            cur.wf(),
            n == cur0.len(),
            i <= n,
            origin == local_origin@,
            cur.pairs() == restamp(cur0.take(i as int), c@, start, origin).0 + cur0.skip(i as int),
            next == restamp(cur0.take(i as int), c@, start, origin).1,
        decreases n - i,
    {
        proof {
            lemma_restamp_keys(cur0.take(i as int), c@, start, origin);
            assert(cur0.take(i + 1).drop_last() =~= cur0.take(i as int));
            assert(cur.pairs()[i as int] == cur0[i as int]);
        }
        let ghost prev = restamp(cur0.take(i as int), c@, start, origin);
        let k = cur.key_at(i).clone();
        let e = cur.value_at(i);
        let keep = match c.get(k.as_str()) {
            Some(old) => {
                if hash_eq(&old.hash, &e.hash) {
                    Some(old.copy())
                } else {
                    None
                }
            },
            None => None,
        };
        match keep {
            Some(o) => {
                cur.set_value_at(i, o);
            },
            None => {
                next = saturating_inc(next);
                let ne = SnapshotEntry {
                    hash: e.hash,
                    lamport: next,
                    changed_at_ms: e.changed_at_ms,
                    origin: local_origin.to_owned(),
                };
                cur.set_value_at(i, ne);
            },
        }
        proof {
            let now = restamp(cur0.take(i + 1), c@, start, origin);
            assert(cur.pairs() =~= now.0 + cur0.skip(i + 1));
        }
        i += 1;
    }
    proof {
        assert(cur0.take(n as int) =~= cur0);
        assert(cur0.skip(n as int) =~= Seq::<SnapPair>::empty());
        lemma_restamp_keys(cur0, c@, start, origin);
    }
    let ghost s1 = restamp(cur0, c@, start, origin);
    assert(cur.pairs() =~= s1.0);
    let ghost live = pairs_map(cur0);
    proof {
        assert forall|k: Seq<char>| #[trigger] pairs_map(s1.0).contains_key(k) == live.contains_key(k) by {
            if has_key(s1.0, k) {
                let j = choose|j: int| 0 <= j < s1.0.len() && #[trigger] s1.0[j].0 == k;
                assert(cur0[j].0 == k);
            }
            if has_key(cur0, k) {
                let j = choose|j: int| 0 <= j < cur0.len() && #[trigger] cur0[j].0 == k;
                assert(s1.0[j].0 == k);
            }
        }
    }
    // tombstones for cached entries that are gone
    let ghost base = cur@;
    let ts_origin = local_origin;
    let mut i: usize = 0;
    proof {
        assert(cp.take(0) =~= Seq::<SnapPair>::empty());
        let t0 = tombstone_pass(cp.take(0), live, s1.1, tombstone_ts, origin);
        assert(pairs_map(t0.0) =~= Map::<Seq<char>, SnapshotView>::empty());
        assert(base.union_prefer_right(pairs_map(t0.0)) =~= base);
    }
    while i < cn
        invariant
            c.wf(),
            cp == c.pairs(),
            cn == cp.len(),
            i <= cn,
            cur.wf(),
            origin == local_origin@,
            ts_origin == local_origin,
            base == pairs_map(s1.0),
            forall|k: Seq<char>| #[trigger] base.contains_key(k) == live.contains_key(k),
            cur@ == base.union_prefer_right(
                pairs_map(tombstone_pass(cp.take(i as int), live, s1.1, tombstone_ts, origin).0),
            ),
            next == tombstone_pass(cp.take(i as int), live, s1.1, tombstone_ts, origin).1,
        decreases cn - i,
    {
        let ghost q = cp.take(i as int);
        let ghost prev = tombstone_pass(q, live, s1.1, tombstone_ts, origin);
        proof {
            assert(cp.take(i + 1).drop_last() =~= q);
            assert(sorted_keys(q)) by {
                assert forall|a: int, b: int| 0 <= a < b < q.len() implies lex_lt(
                    #[trigger] q[a].0,
                    #[trigger] q[b].0,
                ) by {
                    assert(q[a] == cp[a] && q[b] == cp[b]);
                }
            }
            lemma_tombstone_pass_keys(q, live, s1.1, tombstone_ts, origin);
            assert forall|j: int| 0 <= j < prev.0.len() implies lex_lt(
                #[trigger] prev.0[j].0,
                cp[i as int].0,
            ) by {
                let m = choose|m: int| 0 <= m < q.len() && #[trigger] q[m].0 == prev.0[j].0;
                assert(q[m] == cp[m]);
            }
            assert(!pairs_map(prev.0).contains_key(cp[i as int].0)) by {
                if has_key(prev.0, cp[i as int].0) {
                    let j = choose|j: int| 0 <= j < prev.0.len() && #[trigger] prev.0[j].0 == cp[i as int].0;
                    crate::text::lemma_lex_irrefl(cp[i as int].0);
                }
            }
        }
        let k = c.key_at(i);
        let old = c.value_at(i);
        let present = cur.contains_key(k.as_str());
        if !present && !is_tombstone(&old.hash) {
            next = saturating_inc(next);
            let t = SnapshotEntry {
                hash: tombstone_hash(),
                lamport: next,
                changed_at_ms: tombstone_ts,
                origin: ts_origin.to_owned(),
            };
            let ghost tv = t@;
            cur.insert(k.clone(), t);
            proof {
                lemma_pairs_map_push_sorted(prev.0, cp[i as int].0, tv);
                let now = tombstone_pass(cp.take(i + 1), live, s1.1, tombstone_ts, origin);
                assert(now.0 == prev.0.push((cp[i as int].0, tv)));
                assert(cur@ =~= base.union_prefer_right(pairs_map(now.0)));
            }
        } else {
            proof {
                let now = tombstone_pass(cp.take(i + 1), live, s1.1, tombstone_ts, origin);
                assert(now == prev);
            }
        }
        i += 1;
    }
    proof {
        assert(cp.take(cn as int) =~= cp);
    }
    let emitted = emit_differences(&c, &cur);
    (cur, emitted)
}

/// The entries of `new` whose hash differs from `old` (or that `old`
/// lacks), in id order.
#[verifier::rlimit(50)]
fn emit_differences(old: &SnapshotMap, new: &SnapshotMap) -> (r: Vec<(String, SnapshotEntry)>)
    requires
        old.wf(),
        new.wf(),
    ensures
        pair_views(r@) == changed_pairs(new.pairs(), old@),
{
    let n = new.len();
    let mut out: Vec<(String, SnapshotEntry)> = Vec::new();
    let mut i: usize = 0;
    while i < n
        invariant
            old.wf(),
            new.wf(),
            n == new.pairs().len(),
            i <= n,
            pair_views(out@) == changed_pairs(new.pairs().take(i as int), old@),
        decreases n - i,
    {
        let k = new.key_at(i);
        let e = new.value_at(i);
        proof {
            assert(new.pairs().take(i + 1).drop_last() =~= new.pairs().take(i as int));
        }
        let changed = match old.get(k.as_str()) {
            Some(o) => !hash_eq(&o.hash, &e.hash),
            None => true,
        };
        if changed {
            let ghost before = out@;
            out.push((k.clone(), e.copy()));
            proof {
                assert(pair_views(out@) =~= pair_views(before).push(new.pairs()[i as int]));
            }
        }
        i += 1;
    }
    proof {
        assert(new.pairs().take(n as int) =~= new.pairs());
    }
    out
}

// ---------------------------------------------------------------------------
// Local changes
// ---------------------------------------------------------------------------

/// The replicated state that local observations change.
pub struct LocalState {
    pub lamport: u64,
    pub entries: Map<Seq<char>, SnapshotView>,
    pub suppressed: Map<Seq<char>, SnapshotView>,
}

/// The larger of two clocks or times.
pub open spec fn max_u64(a: u64, b: u64) -> u64 {
    if a >= b {
        a
    } else {
        b
    }
}

/// The snapshot a peer records for entry `id` when it finds on disk a file
/// with hash and change time `observed`, or no file (`None`, at time
/// `now`): nothing when the observation is the echo of a snapshot it
/// wrote itself (`suppressed`, which is then settled) or matches what it
/// holds; otherwise a new snapshot with the next Lamport clock, a change
/// time after the previous one, and the local origin.
pub open spec fn observe_spec(
    st: LocalState,
    origin: Seq<char>,
    id: Seq<char>,
    observed: Option<(Seq<u8>, u64)>,
    now: u64,
) -> (LocalState, Option<SnapshotView>) {
    let hash = match observed {
        Some(o) => o.0,
        None => tombstone_view(),
    };
    if st.suppressed.contains_key(id) && st.suppressed[id].hash == hash {
        (
            LocalState {
                entries: st.entries.insert(id, st.suppressed[id]),
                suppressed: st.suppressed.remove(id),
                ..st
            },
            None,
        )
    } else if st.entries.contains_key(id) && st.entries[id].hash == hash {
        (st, None)
    } else {
        let lamport = sat_inc(st.lamport);
        let prev = if st.entries.contains_key(id) {
            st.entries[id].changed_at_ms
        } else {
            0
        };
        let when = match observed {
            Some(o) => o.1,
            None => now,
        };
        let e = SnapshotView {
            hash: hash,
            lamport: lamport,
            changed_at_ms: max_u64(when, sat_inc(prev)),
            origin: origin,
        };
        (LocalState { lamport: lamport, entries: st.entries.insert(id, e), ..st }, Some(e))
    }
}

/// The state held in the three arguments.
pub open spec fn local_state(lamport: u64, entries: SnapshotMap, suppressed: SnapshotMap) -> LocalState {
    LocalState { lamport: lamport, entries: entries@, suppressed: suppressed@ }
}

/// The view of an optional hash and change time.
pub open spec fn observed_view(o: Option<([u8; 32], u64)>) -> Option<(Seq<u8>, u64)> {
    match o {
        Some(p) => Some((p.0@, p.1)),
        None => None,
    }
}

/// The view of an optional snapshot.
pub open spec fn opt_view(o: Option<SnapshotEntry>) -> Option<SnapshotView> {
    match o {
        Some(e) => Some(e@),
        None => None,
    }
}

/// Records what was found on disk for entry `id` (see [`observe_spec`]);
/// gives the snapshot to send to peers, if any.
#[verifier::rlimit(50)]
pub fn observe_local_state(
    lamport: &mut u64,
    entries: &mut SnapshotMap,
    suppressed: &mut SnapshotMap,
    local_origin: &str,
    id: &str,
    observed: Option<([u8; 32], u64)>,
    now_ms: u64,
) -> (r: Option<SnapshotEntry>)
    requires
        old(entries).wf(),
        old(suppressed).wf(),
    ensures
        final(entries).wf(),
        final(suppressed).wf(),
        (local_state(*final(lamport), *final(entries), *final(suppressed)), opt_view(r)) == observe_spec(
            local_state(*old(lamport), *old(entries), *old(suppressed)),
            local_origin@,
            id@,
            observed_view(observed),
            now_ms,
        ),
{
    let hash: [u8; 32] = match observed {
        Some(o) => o.0,
        None => tombstone_hash(),
    };
    let expected = match suppressed.get(id) {
        Some(e) => {
            if hash_eq(&e.hash, &hash) {
                Some(e.copy())
            } else {
                None
            }
        },
        None => None,
    };
    match expected {
        Some(e) => {
            entries.insert(id.to_owned(), e);
            suppressed.remove(id);
            return None;
        },
        None => {},
    }
    let prev: Option<u64> = match entries.get(id) {
        Some(e) => {
            if hash_eq(&e.hash, &hash) {
                return None;
            }
            Some(e.changed_at_ms)
        },
        None => None,
    };
    *lamport = saturating_inc(*lamport);
    let prev_changed: u64 = match prev {
        Some(p) => p,
        None => 0,
    };
    let when: u64 = match observed {
        Some(o) => o.1,
        None => now_ms,
    };
    let after = saturating_inc(prev_changed);
    let changed = if when >= after {
        when
    } else {
        after
    };
    let e = SnapshotEntry {
        hash: hash,
        lamport: *lamport,
        changed_at_ms: changed,
        origin: local_origin.to_owned(),
    };
    let out = e.copy();
    entries.insert(id.to_owned(), e);
    Some(out)
}

/// Observations of the entries `ids` in turn, where `scanned` holds what
/// the directory scan found; collects the snapshots to send.
pub open spec fn observe_all(
    ids: Seq<Seq<char>>,
    st: LocalState,
    origin: Seq<char>,
    scanned: Map<Seq<char>, SnapshotView>,
    now: u64,
) -> (LocalState, Seq<SnapPair>)
    decreases ids.len(),
{
    if ids.len() == 0 {
        (st, Seq::empty())
    } else {
        let prev = observe_all(ids.drop_last(), st, origin, scanned, now);
        let id = ids.last();
        let observed = if scanned.contains_key(id) {
            Some((scanned[id].hash, scanned[id].changed_at_ms))
        } else {
            None
        };
        let step = observe_spec(prev.0, origin, id, observed, now);
        match step.1 {
            Some(e) => (step.0, prev.1.push((id, e))),
            None => (step.0, prev.1),
        }
    }
}

/// `ids` lists, in strictly ascending order, exactly the keys of `a` and `b`.
pub open spec fn sorted_union<A, B>(ids: Seq<Seq<char>>, a: Map<Seq<char>, A>, b: Map<Seq<char>, B>) -> bool {
    &&& forall|i: int, j: int| 0 <= i < j < ids.len() ==> lex_lt(#[trigger] ids[i], #[trigger] ids[j])
    &&& forall|k: Seq<char>| #[trigger] ids.contains(k) == (a.contains_key(k) || b.contains_key(k))
}

/// The ids of both maps in ascending order, each once.
#[verifier::rlimit(50)]
pub fn union_ids<A: View, B: View>(a: &StrMap<A>, b: &StrMap<B>) -> (r: Vec<String>)
    requires
        a.wf(),
        b.wf(),
    ensures
        sorted_union(r@.map_values(|s: String| s@), a@, b@),
{
    let mut keys: StrMap<u64> = StrMap::new();
    let mut i: usize = 0;
    while i < a.len()
        invariant
            a.wf(),
            keys.wf(),
            i <= a.pairs().len(),
            forall|k: Seq<char>| #[trigger] keys@.contains_key(k) == has_key(a.pairs().take(i as int), k),
        decreases a.pairs().len() - i,
    {
        keys.insert(a.key_at(i).clone(), 0);
        proof {
            let q = a.pairs().take(i + 1);
            assert forall|k: Seq<char>| #[trigger] keys@.contains_key(k) == has_key(q, k) by {
                if has_key(q, k) {
                    let j = choose|j: int| 0 <= j < q.len() && #[trigger] q[j].0 == k;
                    if j < i {
                        assert(a.pairs().take(i as int)[j].0 == k);
                    }
                }
                if has_key(a.pairs().take(i as int), k) {
                    let j = choose|j: int| 0 <= j < i && #[trigger] a.pairs().take(i as int)[j].0 == k;
                    assert(q[j].0 == k);
                }
                if k == a.pairs()[i as int].0 {
                    assert(q[i as int].0 == k);
                }
            }
        }
        i += 1;
    }
    let mut i: usize = 0;
    proof {
        assert(a.pairs().take(a.pairs().len() as int) =~= a.pairs());
    }
    while i < b.len()
        invariant
            a.wf(),
            b.wf(),
            keys.wf(),
            i <= b.pairs().len(),
            forall|k: Seq<char>| #[trigger] keys@.contains_key(k) == (has_key(a.pairs(), k) || has_key(b.pairs().take(i as int), k)),
        decreases b.pairs().len() - i,
    {
        keys.insert(b.key_at(i).clone(), 0);
        proof {
            let q = b.pairs().take(i + 1);
            assert forall|k: Seq<char>| #[trigger] keys@.contains_key(k) == (has_key(a.pairs(), k) || has_key(q, k)) by {
                if has_key(q, k) {
                    let j = choose|j: int| 0 <= j < q.len() && #[trigger] q[j].0 == k;
                    if j < i {
                        assert(b.pairs().take(i as int)[j].0 == k);
                    }
                }
                if has_key(b.pairs().take(i as int), k) {
                    let j = choose|j: int| 0 <= j < i && #[trigger] b.pairs().take(i as int)[j].0 == k;
                    assert(q[j].0 == k);
                }
                if k == b.pairs()[i as int].0 {
                    assert(q[i as int].0 == k);
                }
            }
        }
        i += 1;
    }
    proof {
        assert(b.pairs().take(b.pairs().len() as int) =~= b.pairs());
    }
    let n = keys.len();
    let mut out: Vec<String> = Vec::new();
    let mut i: usize = 0;
    while i < n
        invariant
            keys.wf(),
            n == keys.pairs().len(),
            i <= n,
            out@.len() == i,
            forall|j: int| 0 <= j < i ==> (#[trigger] out@[j])@ == keys.pairs()[j].0,
        decreases n - i,
    {
        out.push(keys.key_at(i).clone());
        i += 1;
    }
    proof {
        let ids = out@.map_values(|s: String| s@);
        let kp = keys.pairs();
        assert forall|x: int, y: int| 0 <= x < y < ids.len() implies lex_lt(#[trigger] ids[x], #[trigger] ids[y]) by {
            assert(ids[x] == kp[x].0 && ids[y] == kp[y].0);
        }
        assert forall|k: Seq<char>| #[trigger] ids.contains(k) == (a@.contains_key(k) || b@.contains_key(k)) by {
            if ids.contains(k) {
                let j = choose|j: int| 0 <= j < ids.len() && ids[j] == k;
                lemma_value_of_index(kp, j);
            }
            if keys@.contains_key(k) {
                let j = crate::strmap::key_index(kp, k);
                assert(ids[j] == k);
            }
        }
    }
    out
}

/// Compares the held snapshots with a fresh scan of the attribute
/// directory (`scanned`, whose snapshots carry the scanned hash and change
/// time): every id held or scanned is observed in ascending order (see
/// [`observe_spec`]; an id missing from the scan counts as removed at
/// `now_ms`).  Gives the snapshots to send to peers, in id order.
#[verifier::rlimit(50)]
pub fn rescan_local_state(
    lamport: &mut u64,
    entries: &mut SnapshotMap,
    suppressed: &mut SnapshotMap,
    local_origin: &str,
    scanned: &SnapshotMap,
    now_ms: u64,
) -> (r: Vec<(String, SnapshotEntry)>)
    requires
        old(entries).wf(),
        old(suppressed).wf(),
        scanned.wf(),
    ensures
        final(entries).wf(),
        final(suppressed).wf(),
        exists|ids: Seq<Seq<char>>|
            #![trigger sorted_union(ids, old(entries)@, scanned@)]
            sorted_union(ids, old(entries)@, scanned@) && (
                local_state(*final(lamport), *final(entries), *final(suppressed)),
                pair_views(r@),
            ) == observe_all(
                ids,
                local_state(*old(lamport), *old(entries), *old(suppressed)),
                local_origin@,
                scanned@,
                now_ms,
            ),
{
    let ids = union_ids(entries, scanned);
    let ghost idv = ids@.map_values(|s: String| s@);
    let ghost st0 = local_state(*lamport, *entries, *suppressed);
    let mut out: Vec<(String, SnapshotEntry)> = Vec::new();
    let mut i: usize = 0;
    proof {
        assert(idv.take(0) =~= Seq::<Seq<char>>::empty());
        assert(pair_views(out@) =~= Seq::<SnapPair>::empty());
    }
    while i < ids.len()
        invariant
            i <= ids.len(),
            idv == ids@.map_values(|s: String| s@),
            entries.wf(),
            suppressed.wf(),
            scanned.wf(),
            (local_state(*lamport, *entries, *suppressed), pair_views(out@)) == observe_all(
                idv.take(i as int),
                st0,
                local_origin@,
                scanned@,
                now_ms,
            ),
        decreases ids.len() - i,
    {
        let id = ids[i].as_str();
        proof {
            assert(idv.take(i + 1).drop_last() =~= idv.take(i as int));
            assert(idv.take(i + 1).last() == idv[i as int]);
            assert(idv[i as int] == ids@[i as int]@);
        }
        let observed: Option<([u8; 32], u64)> = match scanned.get(id) {
            Some(e) => Some((e.hash, e.changed_at_ms)),
            None => None,
        };
        let ghost before = out@;
        let update = observe_local_state(lamport, entries, suppressed, local_origin, id, observed, now_ms);
        match update {
            Some(e) => {
                out.push((ids[i].clone(), e));
                proof {
                    assert(pair_views(out@) =~= pair_views(before).push(
                        (idv[i as int], out@[before.len() as int].1@),
                    ));
                }
            },
            None => {},
        }
        i += 1;
    }
    proof {
        assert(idv.take(ids.len() as int) =~= idv);
    }
    out
}

} // verus!
