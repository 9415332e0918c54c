use stash_cli::session::{
    frame, frame_len, peer_allowed, Initiator, InitiatorPhase, InitiatorTask, ReplyKind, RequestMessage, Responder,
    ResponderPhase, ResponderTask, ResponseMessage, SessionError, SyncStep,
};
use stash_cli::snapshot::SnapshotBucketSummary;

fn bucket(name: &str, count: u32) -> SnapshotBucketSummary {
    SnapshotBucketSummary { bucket: name.into(), count, hash: [count as u8; 32] }
}

#[test]
fn responder_walks_through_a_sync() {
    let mut r = Responder::new();
    let task = r
        .receive(RequestMessage::SnapshotSyncStart { from: "a".into(), sync_id: 7, buckets: vec![bucket("01k", 1)] })
        .unwrap();
    assert!(matches!(task, ResponderTask::CompareBuckets { level: 5, .. }));
    let (msg, done) = r.reply(5, vec!["01k".into()], ReplyKind::Buckets);
    assert!(!done);
    assert!(matches!(msg, ResponseMessage::SnapshotSyncNeedBuckets { sync_id: 7, level: 5, .. }));
    assert_eq!(r.phase, ResponderPhase::Level5);
    let task = r
        .receive(RequestMessage::SnapshotSyncBuckets {
            from: "a".into(),
            sync_id: 7,
            level: 5,
            buckets: vec![bucket("01kn", 2)],
        })
        .unwrap();
    assert!(matches!(task, ResponderTask::CompareBuckets { level: 6, .. }));
    r.reply(6, vec!["01knx".into()], ReplyKind::Buckets);
    let task = r
        .receive(RequestMessage::SnapshotSyncBuckets {
            from: "a".into(),
            sync_id: 7,
            level: 6,
            buckets: vec![bucket("01knxf", 2), bucket("01knxg", 1)],
        })
        .unwrap();
    match task {
        ResponderTask::AskMeta { buckets } => assert_eq!(buckets, vec!["01knxf", "01knxg"]),
        _ => panic!("expected a listing request"),
    }
    let (msg, done) = r.reply(0, vec![], ReplyKind::Meta);
    assert!(done);
    assert!(matches!(msg, ResponseMessage::SnapshotSyncNeedMeta { sync_id: 7, .. }));
    assert_eq!(r.phase, ResponderPhase::Finished);
}

#[test]
fn responder_refuses_out_of_order_messages() {
    let mut r = Responder::new();
    let err = r
        .receive(RequestMessage::SnapshotSyncMeta { from: "a".into(), sync_id: 3, entries: vec![] })
        .err()
        .unwrap();
    assert_eq!(err, SessionError::UnexpectedMeta { sync_id: 3 });
    let err = r
        .receive(RequestMessage::SnapshotSyncEntries { from: "a".into(), sync_id: 3, entries: vec![] })
        .err()
        .unwrap();
    assert_eq!(err, SessionError::UnexpectedEntries { sync_id: 3 });
    r.receive(RequestMessage::SnapshotSyncStart { from: "a".into(), sync_id: 3, buckets: vec![] })
        .unwrap();
    r.reply(5, vec!["x".into()], ReplyKind::Buckets);
    let err = r
        .receive(RequestMessage::SnapshotSyncBuckets { from: "a".into(), sync_id: 4, level: 5, buckets: vec![] })
        .err()
        .unwrap();
    assert_eq!(err, SessionError::PhaseMismatch { got_sync_id: 4, got_level: 5, sync_id: 3, level: 5 });
    let err = r
        .receive(RequestMessage::SnapshotSyncEntries { from: "a".into(), sync_id: 3, entries: vec![] })
        .err()
        .unwrap();
    assert_eq!(err, SessionError::ExpectedMessage { sync_id: 3, step: SyncStep::Level5Buckets });
}

#[test]
fn initiator_follows_the_needs() {
    let (mut i, msg) = Initiator::start("me".into(), 9, vec![bucket("01", 3)]);
    assert!(matches!(msg, RequestMessage::SnapshotSyncStart { sync_id: 9, .. }));
    assert_eq!(i.phase, InitiatorPhase::Level5);
    let task = i
        .receive(ResponseMessage::SnapshotSyncNeedBuckets { sync_id: 9, level: 5, buckets: vec!["01".into()] })
        .unwrap();
    assert_eq!(task, InitiatorTask::CollectBuckets { level: 5, parents: vec!["01".into()] });
    let err = i.receive(ResponseMessage::Ack).err().unwrap();
    assert_eq!(err, SessionError::ExpectedMessage { sync_id: 9, step: SyncStep::Level5Need });
    let task = i
        .receive(ResponseMessage::SnapshotSyncNeedBuckets { sync_id: 9, level: 5, buckets: vec![] })
        .unwrap();
    assert_eq!(task, InitiatorTask::Finish);
    assert_eq!(i.phase, InitiatorPhase::Finished);
}

#[test]
fn frames_carry_a_big_endian_length() {
    let f = frame(&vec![1, 2, 3]);
    assert_eq!(f, vec![0, 0, 0, 3, 1, 2, 3]);
    assert_eq!(frame_len([0, 0, 1, 2]), 258);
    assert_eq!(frame_len([1, 0, 0, 0]), 16_777_216);
}

#[test]
fn peer_allowed_matches_only_listed_keys() {
    let listed = [7u8; 32];
    let mut other = [7u8; 32];
    other[31] = 8;
    let allowlist = vec![[1u8; 32], listed];
    assert!(peer_allowed(&allowlist, &listed));
    assert!(!peer_allowed(&allowlist, &other));
    assert!(!peer_allowed(&Vec::new(), &listed));
}
