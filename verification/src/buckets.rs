//! Bucket summaries for anti-entropy: the listing of the local entries is
//! grouped by the first bytes of the ids, and each group is summarised by
//! its size and a BLAKE3 hash over its entries.
use vstd::prelude::*;
use vstd::string::StringSliceAdditionalSpecFns;
use vstd::utf8::encode_utf8;

use crate::exchange::{
    bucket_for_ulid, bucket_ok, bucket_spec, build_snapshot_meta_for_buckets, held_ids, listing_spec,
    meta_views, string_views,
};
use crate::replica::SnapshotMap;
use crate::strmap::{lemma_value_of_index, StrMap};
use crate::scan::{blake3_digest, blake3_hash};
use crate::snapshot::{BucketView, SnapshotBucketSummary, SnapshotMetaEntry, SnapshotMetaView};
use crate::text::{lex_lt, str_eq};
use crate::ulid::pow_nat;

verus! {

/// The eight bytes of `x`, least significant first.
pub open spec fn le8(x: u64) -> Seq<u8> {
    Seq::new(8, |i: int| ((x as nat / pow_nat(256, i as nat)) % 256) as u8)
}

/// The bytes one listing entry adds to its bucket's hash: the id, the
/// content hash, the clock and the change time (little-endian), and the
/// origin, separated by zero bytes and ended by a line feed.
pub open spec fn entry_bytes(e: SnapshotMetaView) -> Seq<u8> {
    encode_utf8(e.ulid) + seq![0u8] + e.hash + seq![0u8] + le8(e.lamport) + seq![0u8] + le8(
        e.changed_at_ms,
    ) + seq![0u8] + encode_utf8(e.origin) + seq![10u8]
}

/// The groups of a listing, by bucket at `level`: how many entries fall in
/// each bucket, and the bytes those entries add to its hash, in listing
/// order.
pub open spec fn bucket_groups(es: Seq<SnapshotMetaView>, level: u8) -> Map<Seq<char>, (nat, Seq<u8>)>
    decreases es.len(),
{
    if es.len() == 0 {
        Map::empty()
    } else {
        let m = bucket_groups(es.drop_last(), level);
        let e = es.last();
        let b = bucket_spec(e.ulid, level);
        if m.contains_key(b) {
            m.insert(b, (m[b].0 + 1, m[b].1 + entry_bytes(e)))
        } else {
            m.insert(b, (1nat, entry_bytes(e)))
        }
    }
}

/// `r` summarises the groups one per bucket, in ascending bucket order:
/// each by its bucket, its size (as a `u32`, wrapping) and the BLAKE3 hash
/// of its bytes.
pub open spec fn sorted_summaries(r: Seq<BucketView>, groups: Map<Seq<char>, (nat, Seq<u8>)>) -> bool {
    &&& forall|i: int, j: int| 0 <= i < j < r.len() ==> lex_lt(#[trigger] r[i].bucket, #[trigger] r[j].bucket)
    &&& forall|i: int|
        0 <= i < r.len() ==> groups.contains_key(#[trigger] r[i].bucket) && r[i].count == groups[r[i].bucket].0
            as u32 && r[i].hash == blake3_digest(groups[r[i].bucket].1)
    &&& forall|b: Seq<char>| #[trigger] groups.contains_key(b) ==> exists|i: int| 0 <= i < r.len() && r[i].bucket == b
}

/// The groups as the contracts count them.
pub open spec fn group_views(m: Map<Seq<char>, (usize, Seq<u8>)>) -> Map<Seq<char>, (nat, Seq<u8>)> {
    Map::new(|b: Seq<char>| m.contains_key(b), |b: Seq<char>| (m[b].0 as nat, m[b].1))
}

/// The views of bucket summaries.
pub open spec fn summary_views(v: Seq<SnapshotBucketSummary>) -> Seq<BucketView> {
    v.map_values(|b: SnapshotBucketSummary| b@)
}

/// Appends the eight bytes of `x`, least significant first.
#[verifier::rlimit(50)]
fn push_le8(out: &mut Vec<u8>, x: u64)
    ensures
        final(out)@ == old(out)@ + le8(x),
{
    let mut rest = x;
    let mut k: usize = 0;
    let ghost start = out@;
    assert(pow_nat(256, 0) == 1);
    while k < 8
        invariant
            k <= 8,
            rest as nat == x as nat / pow_nat(256, k as nat),
            out@ == start + le8(x).take(k as int),
        decreases 8 - k,
    {
        proof {
            crate::ulid::lemma_pow_pos(256, k as nat);
            vstd::arithmetic::div_mod::lemma_div_denominator(
                x as int,
                pow_nat(256, k as nat) as int,
                256,
            );
            assert(pow_nat(256, (k + 1) as nat) == 256 * pow_nat(256, k as nat));
            assert(pow_nat(256, k as nat) * 256 == 256 * pow_nat(256, k as nat)) by (nonlinear_arith);
        }
        out.push((rest % 256) as u8);
        assert(le8(x).take(k + 1) =~= le8(x).take(k as int).push(((rest % 256) as u8)));
        rest = rest / 256;
        k += 1;
    }
    assert(le8(x).take(8) =~= le8(x));
}

/// Appends the bytes of `s`.
#[verifier::rlimit(50)]
fn push_bytes(out: &mut Vec<u8>, s: &[u8])
    ensures
        final(out)@ == old(out)@ + s@,
{
    let ghost start = out@;
    let mut i: usize = 0;
    while i < s.len()
        invariant
            i <= s@.len(),
            out@ == start + s@.take(i as int),
        decreases s@.len() - i,
    {
        out.push(s[i]);
        assert(s@.take(i + 1) =~= s@.take(i as int).push(s@[i as int]));
        i += 1;
    }
    assert(s@.take(s@.len() as int) =~= s@);
}

/// Appends the bytes one listing entry adds to its bucket's hash.
#[verifier::rlimit(50)]
fn push_entry_bytes(out: &mut Vec<u8>, e: &SnapshotMetaEntry)
    ensures
        final(out)@ == old(out)@ + entry_bytes(e@),
{
    let ghost start = out@;
    let u = e.ulid.as_str();
    assert(u.spec_bytes() == encode_utf8(e.ulid@));
    push_bytes(out, u.as_bytes());
    out.push(0u8);
    push_bytes(out, &e.hash);
    out.push(0u8);
    push_le8(out, e.lamport);
    out.push(0u8);
    push_le8(out, e.changed_at_ms);
    out.push(0u8);
    let o = e.origin.as_str();
    assert(o.spec_bytes() == encode_utf8(e.origin@));
    push_bytes(out, o.as_bytes());
    out.push(10u8);
    assert(out@ =~= start + entry_bytes(e@));
}

/// A finished group as a summary.
#[verifier::rlimit(50)]
fn finish_group(bucket: String, count: usize, bytes: &Vec<u8>) -> (r: SnapshotBucketSummary)
    ensures
        r@ == (BucketView { bucket: bucket@, count: count as u32, hash: blake3_digest(bytes@) }),
{
    SnapshotBucketSummary { bucket, count: count as u32, hash: blake3_hash(bytes.as_slice()) }
}

/// Summaries of the groups of a listing, one per bucket in ascending order
/// (see [`bucket_groups`] and [`sorted_summaries`]).
#[verifier::rlimit(50)]
pub fn summarize_listing(listing: &Vec<SnapshotMetaEntry>, level: u8) -> (r: Vec<SnapshotBucketSummary>)
    requires
        forall|i: int| 0 <= i < listing@.len() ==> bucket_ok(#[trigger] listing@[i].ulid@, level),
    ensures
        sorted_summaries(summary_views(r@), bucket_groups(meta_views(listing@), level)),
{
    let ghost es = meta_views(listing@);
    let mut groups: StrMap<(usize, Vec<u8>)> = StrMap::new();
    let mut i: usize = 0;
    assert(es.take(0) =~= Seq::<SnapshotMetaView>::empty());
    assert(group_views(groups@) =~= bucket_groups(es.take(0), level));
    while i < listing.len()
        invariant
            i <= listing@.len(),
            es == meta_views(listing@),
            forall|q: int| 0 <= q < listing@.len() ==> bucket_ok(#[trigger] listing@[q].ulid@, level),
            groups.wf(),
            group_views(groups@) == bucket_groups(es.take(i as int), level),
            forall|b: Seq<char>| #[trigger] groups@.contains_key(b) ==> groups@[b].0 <= i,
        decreases listing@.len() - i,
    {
        let e = &listing[i];
        let b = bucket_for_ulid(e.ulid.as_str(), level);
        let ghost prev = bucket_groups(es.take(i as int), level);
        proof {
            assert(es.take(i + 1).drop_last() =~= es.take(i as int));
            assert(es.take(i + 1).last() == listing@[i as int]@);
        }
        let (count, bytes) = match groups.get(b.as_str()) {
            Some(g) => {
                let mut v: Vec<u8> = Vec::new();
                push_bytes(&mut v, g.1.as_slice());
                push_entry_bytes(&mut v, e);
                assert(prev.contains_key(b@) && prev[b@] == (g.0 as nat, g.1@));
                (g.0 + 1, v)
            },
            None => {
                let mut v: Vec<u8> = Vec::new();
                push_entry_bytes(&mut v, e);
                assert(!prev.contains_key(b@));
                (1, v)
            },
        };
        groups.insert(b, (count, bytes));
        proof {
            assert(group_views(groups@) =~= bucket_groups(es.take(i + 1), level));
        }
        i += 1;
    }
    assert(es.take(listing@.len() as int) =~= es);
    let ghost gs = bucket_groups(es, level);
    let n = groups.len();
    let mut out: Vec<SnapshotBucketSummary> = Vec::new();
    let mut j: usize = 0;
    while j < n
        invariant
            groups.wf(),
            n == groups.pairs().len(),
            j <= n,
            out@.len() == j,
            forall|q: int|
                0 <= q < j ==> (#[trigger] out@[q])@ == (BucketView {
                    bucket: groups.pairs()[q].0,
                    count: groups.pairs()[q].1.0 as u32,
                    hash: blake3_digest(groups.pairs()[q].1.1),
                }),
        decreases n - j,
    {
        let k = groups.key_at(j).clone();
        let g = groups.value_at(j);
        let s = finish_group(k, g.0, &g.1);
        out.push(s);
        j += 1;
    }
    proof {
        let ps = groups.pairs();
        let rv = summary_views(out@);
        assert forall|x: int, y: int| 0 <= x < y < rv.len() implies lex_lt(#[trigger] rv[x].bucket, #[trigger] rv[y].bucket) by {
            assert(rv[x] == out@[x]@ && rv[y] == out@[y]@);
        }
        assert forall|x: int| 0 <= x < rv.len() implies gs.contains_key(#[trigger] rv[x].bucket) && rv[x].count
            == gs[rv[x].bucket].0 as u32 && rv[x].hash == blake3_digest(gs[rv[x].bucket].1) by {
            assert(rv[x] == out@[x]@);
            lemma_value_of_index(ps, x);
        }
        assert forall|b: Seq<char>| #[trigger] gs.contains_key(b) implies exists|x: int| 0 <= x < rv.len() && rv[x].bucket == b by {
            assert(groups@.contains_key(b));
            let x = choose|x: int| 0 <= x < ps.len() && #[trigger] ps[x].0 == b;
            assert(rv[x] == out@[x]@);
        }
    }
    out
}

/// Every listed id is one of the ids listed from, and the listing keeps
/// their order.
#[verifier::rlimit(50)]
pub proof fn lemma_listing_from_ids(
    ids: Seq<Seq<char>>,
    lamport: u64,
    entries: Map<Seq<char>, crate::snapshot::SnapshotView>,
    origin: Seq<char>,
    buckets: Seq<Seq<char>>,
    missing: Seq<Seq<char>>,
    now: u64,
)
    ensures
        ({
            let out = listing_spec(ids, lamport, entries, origin, buckets, missing, now).2;
            forall|i: int|
                0 <= i < out.len() ==> exists|k: int| 0 <= k < ids.len() && #[trigger] out[i].ulid == ids[k]
        }),
    decreases ids.len(),
{
    if ids.len() > 0 {
        lemma_listing_from_ids(ids.drop_last(), lamport, entries, origin, buckets, missing, now);
        let prev = listing_spec(ids.drop_last(), lamport, entries, origin, buckets, missing, now).2;
        let out = listing_spec(ids, lamport, entries, origin, buckets, missing, now).2;
        assert forall|i: int| 0 <= i < out.len() implies exists|k: int|
            0 <= k < ids.len() && #[trigger] out[i].ulid == ids[k] by {
            if i < prev.len() {
                assert(out[i] == prev[i]);
                let k = choose|k: int| 0 <= k < ids.drop_last().len() && #[trigger] prev[i].ulid
                    == ids.drop_last()[k];
                assert(ids[k] == ids.drop_last()[k]);
            } else {
                assert(out[i].ulid == ids.last());
                assert(ids[ids.len() - 1] == ids.last());
            }
        }
    }
}

/// The bucket summaries of the local entries at `level`: the entries are
/// listed in id order as [`build_snapshot_meta_for_buckets`] lists them
/// (only those under `parents` when any are given; an entry whose
/// attribute file is in `missing` becomes a tombstone dated `now_ms`), and
/// the listing is grouped by bucket (see [`bucket_groups`]). Returns the
/// summaries, one per bucket in ascending order (see [`sorted_summaries`]).
#[verifier::rlimit(50)]
pub fn collect_snapshot_bucket_summaries(
    lamport: &mut u64,
    entries: &mut SnapshotMap,
    local_origin: &str,
    level: u8,
    parents: &Vec<String>,
    missing: &Vec<String>,
    now_ms: u64,
) -> (r: Vec<SnapshotBucketSummary>)
    requires
        old(entries).wf(),
        forall|k: Seq<char>| #[trigger] old(entries)@.contains_key(k) ==> bucket_ok(k, level),
    ensures
        final(entries).wf(),
        ({
            let l = listing_spec(
                held_ids(*old(entries)),
                *old(lamport),
                old(entries)@,
                local_origin@,
                string_views(parents@),
                string_views(missing@),
                now_ms,
            );
            &&& *final(lamport) == l.0
            &&& final(entries)@ == l.1
            &&& sorted_summaries(summary_views(r@), bucket_groups(l.2, level))
        }),
{
    let ghost ids = held_ids(*entries);
    let ghost e0 = *entries;
    let ghost l0 = *lamport;
    let listing = build_snapshot_meta_for_buckets(lamport, entries, local_origin, parents, missing, now_ms);
    proof {
        let l = listing_spec(
            ids,
            l0,
            e0@,
            local_origin@,
            string_views(parents@),
            string_views(missing@),
            now_ms,
        );
        assert(meta_views(listing@) == l.2);
        lemma_listing_from_ids(
            ids,
            l0,
            e0@,
            local_origin@,
            string_views(parents@),
            string_views(missing@),
            now_ms,
        );
        assert forall|i: int| 0 <= i < listing@.len() implies bucket_ok(#[trigger] listing@[i].ulid@, level) by {
            assert(meta_views(listing@)[i] == listing@[i]@);
            assert(l.2[i].ulid == listing@[i].ulid@);
            let k = choose|k: int| 0 <= k < ids.len() && #[trigger] l.2[i].ulid == ids[k];
            assert(ids[k] == e0.pairs()[k].0);
            crate::strmap::lemma_value_of_index(e0.pairs(), k);
        }
    }
    summarize_listing(&listing, level)
}

} // verus!
