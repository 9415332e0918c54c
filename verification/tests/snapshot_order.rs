use stash_cli::snapshot::{compare_snapshot, should_accept_remote, SnapshotEntry};

fn entry(hash: u8, lamport: u64, changed_at_ms: u64, origin: &str) -> SnapshotEntry {
    SnapshotEntry {
        hash: [hash; 32],
        lamport,
        changed_at_ms,
        origin: origin.into(),
    }
}

#[test]
fn equal_lamport_uses_changed_at_ms_before_origin_and_hash() {
    let older = SnapshotEntry {
        hash: [9; 32],
        lamport: 5,
        changed_at_ms: 10,
        origin: "peer-z".into(),
    };
    let newer = SnapshotEntry {
        hash: [1; 32],
        lamport: 5,
        changed_at_ms: 11,
        origin: "peer-a".into(),
    };
    assert_eq!(compare_snapshot(newer, older), std::cmp::Ordering::Greater);
}

#[test]
fn equal_lamport_and_changed_at_uses_origin_then_hash() {
    let low_origin = SnapshotEntry {
        hash: [1; 32],
        lamport: 5,
        changed_at_ms: 10,
        origin: "peer-a".into(),
    };
    let high_origin = SnapshotEntry {
        hash: [1; 32],
        lamport: 5,
        changed_at_ms: 10,
        origin: "peer-b".into(),
    };
    assert_eq!(compare_snapshot(high_origin, low_origin), std::cmp::Ordering::Greater);
}

#[test]
fn remote_newer_snapshot_wins_by_timestamp() {
    let current = entry(3, 1, 1, "peer-a");
    let remote = entry(4, 2, 2, "peer-b");
    assert!(should_accept_remote(Some(current), remote));
}

#[test]
fn lamport_decides_first() {
    let a = entry(0, 7, 1, "peer-a");
    let b = entry(9, 6, 99, "peer-z");
    assert_eq!(compare_snapshot(a.clone(), b.clone()), std::cmp::Ordering::Greater);
    assert_eq!(compare_snapshot(b, a), std::cmp::Ordering::Less);
}

#[test]
fn equal_everything_but_hash_uses_hash() {
    let a = entry(2, 5, 10, "peer-a");
    let b = entry(1, 5, 10, "peer-a");
    assert_eq!(compare_snapshot(a.clone(), b.clone()), std::cmp::Ordering::Greater);
    assert_eq!(compare_snapshot(a.clone(), a.clone()), std::cmp::Ordering::Equal);
}

#[test]
fn same_snapshot_is_not_taken_twice() {
    let a = entry(2, 5, 10, "peer-a");
    assert!(!should_accept_remote(Some(a.clone()), a.clone()));
    assert!(should_accept_remote(None, a));
}

#[test]
fn of_two_snapshots_exactly_one_replaces_the_other() {
    let a = entry(2, 5, 10, "peer-a");
    let b = entry(2, 5, 10, "peer-b");
    assert!(should_accept_remote(Some(a.clone()), b.clone()));
    assert!(!should_accept_remote(Some(b), a));
}
