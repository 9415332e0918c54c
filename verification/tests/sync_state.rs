use stash_cli::buckets::summarize_listing;
use stash_cli::events::{local_event_action, should_process_event_kind, FsEventKind, LocalEventAction};
use stash_cli::replica::{observe_local_state, reconcile_startup_state, rescan_local_state, SnapshotMap};
use stash_cli::scan::scanned_entry;
use stash_cli::exchange::apply_remote_entries;
use stash_cli::snapshot::{ReplicatedEntry, SnapshotEntry, SnapshotMetaEntry};

const ID: &str = "01knxf1n5ffvk9jsm8wve1pgsd";

fn hash(data: &[u8]) -> [u8; 32] {
    *blake3::hash(data).as_bytes()
}

fn same(a: &SnapshotEntry, b: &SnapshotEntry) -> bool {
    a.hash == b.hash && a.lamport == b.lamport && a.changed_at_ms == b.changed_at_ms && a.origin == b.origin
}

#[test]
fn build_snapshot_map_uses_mtime_for_scan() {
    let entry = scanned_entry(b"id=1\n", 1_700_000_000_123, "peer-a");
    assert_eq!(entry.hash, *blake3::hash(b"id=1\n").as_bytes());
    assert_eq!(entry.lamport, 0);
    assert!(entry.changed_at_ms > 0);
    assert_eq!(entry.origin, "peer-a");
}

#[test]
fn startup_reconcile_creates_tombstone_for_removed_cached_entry() {
    let removed = ID.to_string();
    let mut cached = SnapshotMap::new();
    cached.insert(
        removed.clone(),
        SnapshotEntry {
            hash: *blake3::hash(b"old\n").as_bytes(),
            lamport: 7,
            changed_at_ms: 7,
            origin: "peer-a".into(),
        },
    );
    let (entries, emitted) = reconcile_startup_state(Some(cached), SnapshotMap::new(), "peer-a", 1_700_000_000_000);
    let lines: Vec<String> = emitted
        .iter()
        .map(|(id, entry)| format!("{} {} {:?}", entry.changed_at_ms, id, entry.hash))
        .collect();
    let entry = entries.get(&removed).unwrap();
    assert_eq!(entry.hash, [0u8; 32]);
    assert!(entry.changed_at_ms > 0);
    assert!(entry.lamport > 0);
    assert_eq!(entry.origin, "peer-a");
    assert_eq!(lines.len(), 1);
}

#[test]
fn startup_without_cache_keeps_the_scan() {
    let mut current = SnapshotMap::new();
    current.insert(ID.into(), scanned_entry(b"x", 5, "peer-a"));
    let (entries, emitted) = reconcile_startup_state(None, current, "peer-a", 9);
    assert_eq!(entries.len(), 1);
    assert!(emitted.is_empty());
}

#[test]
fn local_event_suppresses_remote_apply_echo() {
    let id = ID.to_string();
    let remote = SnapshotEntry {
        hash: *blake3::hash(b"remote\n").as_bytes(),
        lamport: 4,
        changed_at_ms: 42,
        origin: "peer-b".into(),
    };
    let mut entries = SnapshotMap::new();
    entries.insert(id.clone(), remote.copy());
    let mut suppressed = SnapshotMap::new();
    suppressed.insert(id.clone(), remote.copy());
    assert_eq!(local_event_action(FsEventKind::ModifyAny, false), LocalEventAction::Observe);
    let mut lamport = 4;
    let update = observe_local_state(
        &mut lamport,
        &mut entries,
        &mut suppressed,
        "peer-a",
        &id,
        Some((hash(b"remote\n"), 50)),
        60,
    );
    assert!(update.is_none());
    assert!(suppressed.is_empty());
    assert!(same(entries.get(&id).unwrap(), &remote));
}

#[test]
fn local_change_gets_a_new_clock_and_time() {
    let id = ID.to_string();
    let mut entries = SnapshotMap::new();
    entries.insert(id.clone(), scanned_entry(b"before", 100, "peer-a"));
    let mut suppressed = SnapshotMap::new();
    let mut lamport = 9;
    let update = observe_local_state(
        &mut lamport,
        &mut entries,
        &mut suppressed,
        "peer-a",
        &id,
        Some((hash(b"after"), 50)),
        60,
    )
    .unwrap();
    assert_eq!(lamport, 10);
    assert_eq!(update.lamport, 10);
    assert_eq!(update.changed_at_ms, 101);
    assert_eq!(update.hash, hash(b"after"));
    let removed = observe_local_state(&mut lamport, &mut entries, &mut suppressed, "peer-a", &id, None, 500)
        .unwrap();
    assert_eq!(removed.hash, [0u8; 32]);
    assert_eq!(removed.changed_at_ms, 500);
}

#[test]
fn directory_event_rescans_new_attr_files() {
    let id = ID.to_string();
    assert_eq!(local_event_action(FsEventKind::CreateAny, true), LocalEventAction::Rescan);
    let mut scanned = SnapshotMap::new();
    scanned.insert(id.clone(), scanned_entry(b"kind=test\n", 1_000, "peer-a"));
    let mut lamport = 0;
    let mut entries = SnapshotMap::new();
    let mut suppressed = SnapshotMap::new();
    let updates = rescan_local_state(&mut lamport, &mut entries, &mut suppressed, "peer-a", &scanned, 2_000);
    assert_eq!(updates.len(), 1);
    assert_eq!(updates[0].0, id);
    assert_eq!(updates[0].1.hash, hash(b"kind=test\n"));
    assert_eq!(entries.len(), 1);
    assert!(lamport > 0);
}

#[test]
fn event_kinds_that_can_change_files() {
    assert!(should_process_event_kind(FsEventKind::ModifyName));
    assert!(should_process_event_kind(FsEventKind::RemoveFile));
    assert!(!should_process_event_kind(FsEventKind::Access));
    assert!(!should_process_event_kind(FsEventKind::CreateOther));
    assert_eq!(local_event_action(FsEventKind::Access, true), LocalEventAction::Ignore);
}

fn listing(ulid: &str, lamport: u64) -> SnapshotMetaEntry {
    SnapshotMetaEntry {
        ulid: ulid.into(),
        hash: [lamport as u8; 32],
        lamport,
        changed_at_ms: 1000 + lamport,
        origin: "peer-a".into(),
    }
}

fn entry_bytes(e: &SnapshotMetaEntry) -> Vec<u8> {
    let mut out = Vec::new();
    out.extend_from_slice(e.ulid.as_bytes());
    out.push(0);
    out.extend_from_slice(&e.hash);
    out.push(0);
    out.extend_from_slice(&e.lamport.to_le_bytes());
    out.push(0);
    out.extend_from_slice(&e.changed_at_ms.to_le_bytes());
    out.push(0);
    out.extend_from_slice(e.origin.as_bytes());
    out.push(b'\n');
    out
}

#[test]
fn buckets_group_by_id_prefix_and_hash_their_listing() {
    let l = vec![listing("01aa1", 1), listing("01aa2", 2), listing("01ab1", 3)];
    let sums = summarize_listing(&l, 4);
    assert_eq!(sums.len(), 2);
    assert_eq!(sums[0].bucket, "01aa");
    assert_eq!(sums[0].count, 2);
    let mut first = entry_bytes(&l[0]);
    first.extend(entry_bytes(&l[1]));
    let mut hasher = blake3::Hasher::new();
    hasher.update(&entry_bytes(&l[0]));
    hasher.update(&entry_bytes(&l[1]));
    assert_eq!(sums[0].hash, *hasher.finalize().as_bytes());
    assert_eq!(sums[0].hash, hash(&first));
    assert_eq!(sums[1].bucket, "01ab");
    assert_eq!(sums[1].count, 1);
    assert_eq!(sums[1].hash, hash(&entry_bytes(&l[2])));
    assert!(summarize_listing(&vec![], 4).is_empty());
}

#[test]
fn buckets_come_once_each_in_ascending_order() {
    let l = vec![listing("01ab1", 1), listing("01aa1", 2), listing("01ab2", 3)];
    let sums = summarize_listing(&l, 4);
    assert_eq!(sums.len(), 2);
    assert_eq!(sums[0].bucket, "01aa");
    assert_eq!(sums[0].count, 1);
    assert_eq!(sums[1].bucket, "01ab");
    assert_eq!(sums[1].count, 2);
    let mut both = entry_bytes(&l[0]);
    both.extend(entry_bytes(&l[2]));
    assert_eq!(sums[1].hash, hash(&both));
}

fn remote(ulid: &str, lamport: u64, changed_at_ms: u64, origin: &str, data: &[u8]) -> ReplicatedEntry {
    ReplicatedEntry {
        ulid: ulid.to_string(),
        hash: hash(data),
        lamport,
        changed_at_ms,
        contents: Some(data.to_vec()),
        origin: origin.to_string(),
    }
}

fn apply_batches(first: Vec<ReplicatedEntry>, second: Vec<ReplicatedEntry>) -> (u64, SnapshotMap, SnapshotMap) {
    let mut lamport = 3;
    let mut entries = SnapshotMap::new();
    entries.insert(ID.to_string(), SnapshotEntry { hash: hash(b"base"), lamport: 2, changed_at_ms: 10, origin: "me".into() });
    let mut suppressed = SnapshotMap::new();
    apply_remote_entries(&mut lamport, &mut entries, &mut suppressed, "me", first);
    apply_remote_entries(&mut lamport, &mut entries, &mut suppressed, "me", second);
    (lamport, entries, suppressed)
}

#[test]
fn remote_batches_merge_the_same_in_either_order() {
    let other = "01knxf6yj2tdgj4k8kz70pc1xm";
    let a = vec![remote(ID, 5, 20, "peer-b", b"five"), remote(other, 9, 30, "peer-b", b"nine")];
    let b = vec![remote(ID, 7, 25, "peer-c", b"seven"), remote(other, 4, 40, "peer-c", b"four")];
    let (l1, e1, s1) = apply_batches(a.clone(), b.clone());
    let (l2, e2, s2) = apply_batches(b, a);
    assert_eq!(l1, 9);
    assert_eq!(l1, l2);
    for map in [(&e1, &e2), (&s1, &s2)] {
        assert_eq!(map.0.len(), map.1.len());
        for id in [ID, other] {
            match (map.0.get(id), map.1.get(id)) {
                (Some(x), Some(y)) => assert!(same(x, y)),
                (None, None) => {}
                _ => panic!("maps differ at {id}"),
            }
        }
    }
    assert_eq!(e1.get(ID).unwrap().lamport, 7);
    assert_eq!(e1.get(other).unwrap().lamport, 9);
}

#[test]
fn applying_a_batch_twice_takes_nothing_the_second_time() {
    let batch = vec![remote(ID, 5, 20, "peer-b", b"five"), remote(ID, 1, 5, "peer-b", b"old"), remote(ID, 6, 1, "me", b"mine")];
    let mut lamport = 0;
    let mut entries = SnapshotMap::new();
    let mut suppressed = SnapshotMap::new();
    let first = apply_remote_entries(&mut lamport, &mut entries, &mut suppressed, "me", batch.clone());
    assert_eq!(first.len(), 1);
    assert_eq!(lamport, 5);
    let second = apply_remote_entries(&mut lamport, &mut entries, &mut suppressed, "me", batch);
    assert!(second.is_empty());
    assert_eq!(lamport, 5);
    assert_eq!(entries.len(), 1);
    assert_eq!(entries.get(ID).unwrap().lamport, 5);
}
