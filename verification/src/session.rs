//! The snapshot sync conversation between two peers.
//!
//! The peer that starts a sync sends the summaries of its coarsest buckets;
//! the other names the buckets whose summary differs, and the two narrow
//! down through finer buckets to bucket listings, then to the entries
//! themselves, which the responder takes over.  Either side stops as soon
//! as nothing differs.  Each side is a state machine: it is handed what
//! was received (or what its own state produced) and says what to do next.
use vstd::prelude::*;

use crate::snapshot::{ReplicatedEntry, SnapshotBucketSummary, SnapshotMetaEntry};

verus! {

/// A request from the peer that drives a sync (or sends a live change).
#[derive(Debug)]
pub enum RequestMessage {
    /// Opens a sync with the summaries of the coarsest buckets.
    SnapshotSyncStart { from: String, sync_id: u64, buckets: Vec<SnapshotBucketSummary> },
    /// The summaries of the finer buckets at `level` under the ones asked for.
    SnapshotSyncBuckets {
        from: String,
        sync_id: u64,
        level: u8,
        buckets: Vec<SnapshotBucketSummary>,
    },
    /// The listing of the entries in the buckets asked for.
    SnapshotSyncMeta { from: String, sync_id: u64, entries: Vec<SnapshotMetaEntry> },
    /// The entries asked for.
    SnapshotSyncEntries { from: String, sync_id: u64, entries: Vec<ReplicatedEntry> },
    /// One local change, sent outside any sync.
    LiveEvent { from: String, entry: ReplicatedEntry },
}

/// A response from the peer that answers a sync.
#[derive(Debug)]
pub enum ResponseMessage {
    /// The buckets whose summary differs; the finer ones at `level` are wanted.
    SnapshotSyncNeedBuckets { sync_id: u64, level: u8, buckets: Vec<String> },
    /// The buckets whose entries should be listed.
    SnapshotSyncNeedMeta { sync_id: u64, buckets: Vec<String> },
    /// The entries that are wanted.
    SnapshotSyncNeed { sync_id: u64, ids: Vec<String> },
    /// The request was handled.
    Ack,
}

/// How a sync conversation went wrong.
#[derive(Clone, Copy, Debug, PartialEq, Eq, Structural)]
pub enum SessionError {
    /// Bucket summaries that do not follow an opening request.
    UnexpectedBuckets { sync_id: u64, level: u8 },
    /// Snapshot metadata that does not follow an opening request.
    UnexpectedMeta { sync_id: u64 },
    /// Snapshot entries that do not follow an opening request.
    UnexpectedEntries { sync_id: u64 },
    /// A request after the conversation ended.
    AfterFinish { sync_id: u64 },
    /// A message of another kind than the one this step expects.
    ExpectedMessage { sync_id: u64, step: SyncStep },
    /// Bucket summaries or a bucket need for another sync or level.
    PhaseMismatch { got_sync_id: u64, got_level: u8, sync_id: u64, level: u8 },
    /// A message for another sync.
    SyncIdMismatch { got: u64, expected: u64 },
}

/// The steps of a sync, as errors name them.
#[derive(Clone, Copy, Debug, PartialEq, Eq, Structural)]
pub enum SyncStep {
    Level5Buckets,
    Level6Buckets,
    Metadata,
    Entries,
    Level5Need,
    Level6Need,
    MetadataNeed,
    EntryNeed,
}

// ---------------------------------------------------------------------------
// The answering side
// ---------------------------------------------------------------------------

/// Where the answering side of a conversation stands.
#[derive(Clone, Copy, Debug, PartialEq, Eq, Structural)]
pub enum ResponderPhase {
    /// Waiting for the first request.
    Opening,
    /// Waiting for the level 5 bucket summaries.
    Level5,
    /// Waiting for the level 6 bucket summaries.
    Level6,
    /// Waiting for the entry listing.
    Meta,
    /// Waiting for the entries.
    Entries,
    /// The conversation is over.
    Finished,
}

/// The answering side of a conversation.
#[derive(Clone, Copy, Debug, PartialEq, Eq, Structural)]
pub struct Responder {
    pub sync_id: u64,
    pub phase: ResponderPhase,
}

/// What the answering side does with a request.
#[derive(Debug)]
pub enum ResponderTask {
    /// Compare these summaries with the local ones; the finer buckets at
    /// `level` will be asked for.
    CompareBuckets { level: u8, buckets: Vec<SnapshotBucketSummary> },
    /// Ask for the listing of these buckets.
    AskMeta { buckets: Vec<String> },
    /// Compare this listing with the local snapshots.
    CompareIds { entries: Vec<SnapshotMetaEntry> },
    /// Take over these entries, then acknowledge.
    ApplyEntries { entries: Vec<ReplicatedEntry> },
    /// Take over this live change, then acknowledge.
    ApplyLive { entry: ReplicatedEntry },
}

/// A task as the contracts see it: the bucket names asked for as a
/// sequence.
pub enum TaskView {
    CompareBuckets { level: u8, buckets: Vec<SnapshotBucketSummary> },
    AskMeta { buckets: Seq<String> },
    CompareIds { entries: Vec<SnapshotMetaEntry> },
    ApplyEntries { entries: Vec<ReplicatedEntry> },
    ApplyLive { entry: ReplicatedEntry },
}

/// The contracts' view of a task.
pub open spec fn task_view(t: ResponderTask) -> TaskView {
    match t {
        ResponderTask::CompareBuckets { level, buckets } => TaskView::CompareBuckets {
            level: level,
            buckets: buckets,
        },
        ResponderTask::AskMeta { buckets } => TaskView::AskMeta { buckets: buckets@ },
        ResponderTask::CompareIds { entries } => TaskView::CompareIds { entries: entries },
        ResponderTask::ApplyEntries { entries } => TaskView::ApplyEntries { entries: entries },
        ResponderTask::ApplyLive { entry } => TaskView::ApplyLive { entry: entry },
    }
}

/// The contracts' view of the outcome of a request.
pub open spec fn outcome_view(r: Result<ResponderTask, SessionError>) -> Result<TaskView, SessionError> {
    match r {
        Ok(t) => Ok(task_view(t)),
        Err(e) => Err(e),
    }
}

/// The names of a list of bucket summaries.
pub open spec fn bucket_names(bs: Seq<SnapshotBucketSummary>) -> Seq<String> {
    bs.map_values(|b: SnapshotBucketSummary| b.bucket)
}

/// The task (or error) a request gives the answering side in each phase,
/// and the phase that follows.
pub open spec fn responder_spec(st: Responder, req: RequestMessage) -> (Responder, Result<
    TaskView,
    SessionError,
>) {
    match st.phase {
        ResponderPhase::Opening => match req {
            RequestMessage::SnapshotSyncStart { sync_id, buckets, .. } => (
                Responder { sync_id: sync_id, phase: ResponderPhase::Opening },
                Ok(TaskView::CompareBuckets { level: 5, buckets: buckets }),
            ),
            RequestMessage::SnapshotSyncBuckets { sync_id, level, .. } => (
                st,
                Err(SessionError::UnexpectedBuckets { sync_id: sync_id, level: level }),
            ),
            RequestMessage::SnapshotSyncMeta { sync_id, .. } => (
                st,
                Err(SessionError::UnexpectedMeta { sync_id: sync_id }),
            ),
            RequestMessage::SnapshotSyncEntries { sync_id, .. } => (
                st,
                Err(SessionError::UnexpectedEntries { sync_id: sync_id }),
            ),
            RequestMessage::LiveEvent { entry, .. } => (st, Ok(TaskView::ApplyLive { entry: entry })),
        },
        ResponderPhase::Level5 | ResponderPhase::Level6 => {
            let want: u8 = if st.phase == ResponderPhase::Level5 {
                5
            } else {
                6
            };
            match req {
                RequestMessage::SnapshotSyncBuckets { sync_id, level, buckets, .. } => {
                    if sync_id != st.sync_id || level != want {
                        (
                            st,
                            Err(
                                SessionError::PhaseMismatch {
                                    got_sync_id: sync_id,
                                    got_level: level,
                                    sync_id: st.sync_id,
                                    level: want,
                                },
                            ),
                        )
                    } else if want == 5 {
                        (st, Ok(TaskView::CompareBuckets { level: 6, buckets: buckets }))
                    } else {
                        (st, Ok(TaskView::AskMeta { buckets: bucket_names(buckets@) }))
                    }
                },
                _ => (
                    st,
                    Err(
                        SessionError::ExpectedMessage {
                            sync_id: st.sync_id,
                            step: if want == 5 {
                                SyncStep::Level5Buckets
                            } else {
                                SyncStep::Level6Buckets
                            },
                        },
                    ),
                ),
            }
        },
        ResponderPhase::Meta => match req {
            RequestMessage::SnapshotSyncMeta { sync_id, entries, .. } => if sync_id != st.sync_id {
                (st, Err(SessionError::SyncIdMismatch { got: sync_id, expected: st.sync_id }))
            } else {
                (st, Ok(TaskView::CompareIds { entries: entries }))
            },
            _ => (
                st,
                Err(SessionError::ExpectedMessage { sync_id: st.sync_id, step: SyncStep::Metadata }),
            ),
        },
        ResponderPhase::Entries => match req {
            RequestMessage::SnapshotSyncEntries { sync_id, entries, .. } => if sync_id
                != st.sync_id {
                (st, Err(SessionError::SyncIdMismatch { got: sync_id, expected: st.sync_id }))
            } else {
                (st, Ok(TaskView::ApplyEntries { entries: entries }))
            },
            _ => (
                st,
                Err(SessionError::ExpectedMessage { sync_id: st.sync_id, step: SyncStep::Entries }),
            ),
        },
        ResponderPhase::Finished => (
            st,
            Err(SessionError::AfterFinish { sync_id: st.sync_id }),
        ),
    }
}

impl Responder {
    /// A responder waiting for the first request.
    pub fn new() -> (r: Responder)
        ensures
            r.phase == ResponderPhase::Opening,
            r.sync_id == 0,
    {
        Responder { sync_id: 0, phase: ResponderPhase::Opening }
    }

    /// Takes a request and says what to do with it (see [`responder_spec`]).
    pub fn receive(&mut self, req: RequestMessage) -> (r: Result<ResponderTask, SessionError>)
        ensures
            (*final(self), outcome_view(r)) == responder_spec(*old(self), req),
    {
        match self.phase {
            ResponderPhase::Opening => match req {
                RequestMessage::SnapshotSyncStart { sync_id, buckets, .. } => {
                    self.sync_id = sync_id;
                    Ok(ResponderTask::CompareBuckets { level: 5, buckets })
                },
                RequestMessage::SnapshotSyncBuckets { sync_id, level, .. } => {
                    Err(SessionError::UnexpectedBuckets { sync_id, level })
                },
                RequestMessage::SnapshotSyncMeta { sync_id, .. } => {
                    Err(SessionError::UnexpectedMeta { sync_id })
                },
                RequestMessage::SnapshotSyncEntries { sync_id, .. } => {
                    Err(SessionError::UnexpectedEntries { sync_id })
                },
                RequestMessage::LiveEvent { entry, .. } => Ok(ResponderTask::ApplyLive { entry }),
            },
            ResponderPhase::Level5 | ResponderPhase::Level6 => {
                let want: u8 = if self.phase == ResponderPhase::Level5 {
                    5
                } else {
                    6
                };
                match req {
                    RequestMessage::SnapshotSyncBuckets { sync_id, level, buckets, .. } => {
                        if sync_id != self.sync_id || level != want {
                            Err(
                                SessionError::PhaseMismatch {
                                    got_sync_id: sync_id,
                                    got_level: level,
                                    sync_id: self.sync_id,
                                    level: want,
                                },
                            )
                        } else if want == 5 {
                            Ok(ResponderTask::CompareBuckets { level: 6, buckets })
                        } else {
                            let names = names_of(&buckets);
                            Ok(ResponderTask::AskMeta { buckets: names })
                        }
                    },
                    _ => Err(
                        SessionError::ExpectedMessage {
                            sync_id: self.sync_id,
                            step: if want == 5 {
                                SyncStep::Level5Buckets
                            } else {
                                SyncStep::Level6Buckets
                            },
                        },
                    ),
                }
            },
            ResponderPhase::Meta => match req {
                RequestMessage::SnapshotSyncMeta { sync_id, entries, .. } => {
                    if sync_id != self.sync_id {
                        Err(SessionError::SyncIdMismatch { got: sync_id, expected: self.sync_id })
                    } else {
                        Ok(ResponderTask::CompareIds { entries })
                    }
                },
                _ => Err(
                    SessionError::ExpectedMessage { sync_id: self.sync_id, step: SyncStep::Metadata },
                ),
            },
            ResponderPhase::Entries => match req {
                RequestMessage::SnapshotSyncEntries { sync_id, entries, .. } => {
                    if sync_id != self.sync_id {
                        Err(SessionError::SyncIdMismatch { got: sync_id, expected: self.sync_id })
                    } else {
                        Ok(ResponderTask::ApplyEntries { entries })
                    }
                },
                _ => Err(
                    SessionError::ExpectedMessage { sync_id: self.sync_id, step: SyncStep::Entries },
                ),
            },
            ResponderPhase::Finished => Err(
                SessionError::AfterFinish { sync_id: self.sync_id },
            ),
        }
    }

    /// The response that answers a task, given what comparing produced
    /// (`missing`: the buckets or ids that differ, or the bucket names asked
    /// for; unused after taking over entries), and whether the conversation
    /// is over: it is when nothing more is wanted or entries were taken over.
    pub fn reply(&mut self, task_level: u8, missing: Vec<String>, kind: ReplyKind) -> (r: (ResponseMessage, bool))
        requires
            kind == ReplyKind::Buckets ==> (task_level == 5 || task_level == 6),
        ensures
            (*final(self), r) == reply_spec(*old(self), task_level, missing, kind),
    {
        match kind {
            ReplyKind::Buckets => {
                let done = missing.len() == 0;
                self.phase = if done {
                    ResponderPhase::Finished
                } else if task_level == 5 {
                    ResponderPhase::Level5
                } else {
                    ResponderPhase::Level6
                };
                (
                    ResponseMessage::SnapshotSyncNeedBuckets {
                        sync_id: self.sync_id,
                        level: task_level,
                        buckets: missing,
                    },
                    done,
                )
            },
            ReplyKind::Meta => {
                let done = missing.len() == 0;
                self.phase = if done {
                    ResponderPhase::Finished
                } else {
                    ResponderPhase::Meta
                };
                (ResponseMessage::SnapshotSyncNeedMeta { sync_id: self.sync_id, buckets: missing }, done)
            },
            ReplyKind::Ids => {
                let done = missing.len() == 0;
                self.phase = if done {
                    ResponderPhase::Finished
                } else {
                    ResponderPhase::Entries
                };
                (ResponseMessage::SnapshotSyncNeed { sync_id: self.sync_id, ids: missing }, done)
            },
            ReplyKind::Applied => {
                self.phase = ResponderPhase::Finished;
                (ResponseMessage::Ack, true)
            },
        }
    }
}

/// What a reply answers.
#[derive(Clone, Copy, Debug, PartialEq, Eq, Structural)]
pub enum ReplyKind {
    /// Bucket summaries were compared.
    Buckets,
    /// Bucket listings are asked for.
    Meta,
    /// A listing was compared.
    Ids,
    /// Entries were taken over.
    Applied,
}

/// The response to a task and the phase that follows (see
/// [`Responder::reply`]).
pub open spec fn reply_spec(st: Responder, task_level: u8, missing: Vec<String>, kind: ReplyKind) -> (
    Responder,
    (ResponseMessage, bool),
) {
    let done = missing@.len() == 0;
    match kind {
        ReplyKind::Buckets => (
            Responder {
                phase: if done {
                    ResponderPhase::Finished
                } else if task_level == 5 {
                    ResponderPhase::Level5
                } else {
                    ResponderPhase::Level6
                },
                ..st
            },
            (
                ResponseMessage::SnapshotSyncNeedBuckets {
                    sync_id: st.sync_id,
                    level: task_level,
                    buckets: missing,
                },
                done,
            ),
        ),
        ReplyKind::Meta => (
            Responder {
                phase: if done {
                    ResponderPhase::Finished
                } else {
                    ResponderPhase::Meta
                },
                ..st
            },
            (ResponseMessage::SnapshotSyncNeedMeta { sync_id: st.sync_id, buckets: missing }, done),
        ),
        ReplyKind::Ids => (
            Responder {
                phase: if done {
                    ResponderPhase::Finished
                } else {
                    ResponderPhase::Entries
                },
                ..st
            },
            (ResponseMessage::SnapshotSyncNeed { sync_id: st.sync_id, ids: missing }, done),
        ),
        ReplyKind::Applied => (
            Responder { phase: ResponderPhase::Finished, ..st },
            (ResponseMessage::Ack, true),
        ),
    }
}

/// The names of the buckets, in order.
fn names_of(buckets: &Vec<SnapshotBucketSummary>) -> (r: Vec<String>)
    ensures
        r@ == bucket_names(buckets@),
{
    let mut out: Vec<String> = Vec::new();
    let mut i: usize = 0;
    while i < buckets.len()
        invariant
            i <= buckets.len(),
            out@ == bucket_names(buckets@).take(i as int),
        decreases buckets.len() - i,
    {
        let n = buckets[i].bucket.clone();
        assert(n == buckets@[i as int].bucket);
        out.push(n);
        assert(out@ =~= bucket_names(buckets@).take(i + 1));
        i += 1;
    }
    assert(bucket_names(buckets@).take(buckets.len() as int) =~= bucket_names(buckets@));
    out
}

// ---------------------------------------------------------------------------
// The driving side
// ---------------------------------------------------------------------------

/// Where the driving side of a conversation stands: which response it
/// waits for.
#[derive(Clone, Copy, Debug, PartialEq, Eq, Structural)]
pub enum InitiatorPhase {
    /// The level 5 bucket need.
    Level5,
    /// The level 6 bucket need.
    Level6,
    /// The listing need.
    Meta,
    /// The entry need.
    Ids,
    /// The final acknowledgement.
    Ack,
    /// Nothing: the conversation is over.
    Finished,
}

/// The driving side of a conversation.
#[derive(Clone, Copy, Debug, PartialEq, Eq, Structural)]
pub struct Initiator {
    pub sync_id: u64,
    pub phase: InitiatorPhase,
}

/// What the driving side does with a response.
#[derive(Debug, PartialEq, Eq)]
pub enum InitiatorTask {
    /// Summarise the local buckets at `level` under these parents and send them.
    CollectBuckets { level: u8, parents: Vec<String> },
    /// List the local entries in these buckets and send the listing.
    CollectMeta { buckets: Vec<String> },
    /// Send these entries.
    CollectEntries { ids: Vec<String> },
    /// The conversation is over.
    Finish,
}

/// The task (or error) a response gives the driving side in each phase,
/// and the phase that follows.
pub open spec fn initiator_spec(st: Initiator, resp: ResponseMessage) -> (Initiator, Result<
    InitiatorTask,
    SessionError,
>) {
    let done = Initiator { phase: InitiatorPhase::Finished, ..st };
    match st.phase {
        InitiatorPhase::Level5 | InitiatorPhase::Level6 => {
            let want: u8 = if st.phase == InitiatorPhase::Level5 {
                5
            } else {
                6
            };
            match resp {
                ResponseMessage::SnapshotSyncNeedBuckets { sync_id, level, buckets } => {
                    if sync_id != st.sync_id || level != want {
                        (
                            st,
                            Err(
                                SessionError::PhaseMismatch {
                                    got_sync_id: sync_id,
                                    got_level: level,
                                    sync_id: st.sync_id,
                                    level: want,
                                },
                            ),
                        )
                    } else if buckets@.len() == 0 {
                        (done, Ok(InitiatorTask::Finish))
                    } else {
                        (st, Ok(InitiatorTask::CollectBuckets { level: want, parents: buckets }))
                    }
                },
                _ => (
                    st,
                    Err(
                        SessionError::ExpectedMessage {
                            sync_id: st.sync_id,
                            step: if want == 5 {
                                SyncStep::Level5Need
                            } else {
                                SyncStep::Level6Need
                            },
                        },
                    ),
                ),
            }
        },
        InitiatorPhase::Meta => match resp {
            ResponseMessage::SnapshotSyncNeedMeta { sync_id, buckets } => if sync_id != st.sync_id {
                (st, Err(SessionError::SyncIdMismatch { got: sync_id, expected: st.sync_id }))
            } else if buckets@.len() == 0 {
                (done, Ok(InitiatorTask::Finish))
            } else {
                (st, Ok(InitiatorTask::CollectMeta { buckets: buckets }))
            },
            _ => (
                st,
                Err(SessionError::ExpectedMessage { sync_id: st.sync_id, step: SyncStep::MetadataNeed }),
            ),
        },
        InitiatorPhase::Ids => match resp {
            ResponseMessage::SnapshotSyncNeed { sync_id, ids } => if sync_id != st.sync_id {
                (st, Err(SessionError::SyncIdMismatch { got: sync_id, expected: st.sync_id }))
            } else if ids@.len() == 0 {
                (done, Ok(InitiatorTask::Finish))
            } else {
                (st, Ok(InitiatorTask::CollectEntries { ids: ids }))
            },
            _ => (
                st,
                Err(SessionError::ExpectedMessage { sync_id: st.sync_id, step: SyncStep::EntryNeed }),
            ),
        },
        InitiatorPhase::Ack | InitiatorPhase::Finished => (done, Ok(InitiatorTask::Finish)),
    }
}

impl Initiator {
    /// Opens sync `sync_id` with the local coarsest bucket summaries; the
    /// level 5 bucket need is awaited next.
    pub fn start(from: String, sync_id: u64, buckets: Vec<SnapshotBucketSummary>) -> (r: (
        Initiator,
        RequestMessage,
    ))
        ensures
            r.0 == (Initiator { sync_id: sync_id, phase: InitiatorPhase::Level5 }),
            r.1 == (RequestMessage::SnapshotSyncStart { from: from, sync_id: sync_id, buckets: buckets }),
    {
        (
            Initiator { sync_id, phase: InitiatorPhase::Level5 },
            RequestMessage::SnapshotSyncStart { from, sync_id, buckets },
        )
    }

    /// Takes a response and says what to do next (see [`initiator_spec`]).
    pub fn receive(&mut self, resp: ResponseMessage) -> (r: Result<InitiatorTask, SessionError>)
        ensures
            (*final(self), r) == initiator_spec(*old(self), resp),
    {
        match self.phase {
            InitiatorPhase::Level5 | InitiatorPhase::Level6 => {
                let want: u8 = if self.phase == InitiatorPhase::Level5 {
                    5
                } else {
                    6
                };
                match resp {
                    ResponseMessage::SnapshotSyncNeedBuckets { sync_id, level, buckets } => {
                        if sync_id != self.sync_id || level != want {
                            Err(
                                SessionError::PhaseMismatch {
                                    got_sync_id: sync_id,
                                    got_level: level,
                                    sync_id: self.sync_id,
                                    level: want,
                                },
                            )
                        } else if buckets.len() == 0 {
                            self.phase = InitiatorPhase::Finished;
                            Ok(InitiatorTask::Finish)
                        } else {
                            Ok(InitiatorTask::CollectBuckets { level: want, parents: buckets })
                        }
                    },
                    _ => Err(
                        SessionError::ExpectedMessage {
                            sync_id: self.sync_id,
                            step: if want == 5 {
                                SyncStep::Level5Need
                            } else {
                                SyncStep::Level6Need
                            },
                        },
                    ),
                }
            },
            InitiatorPhase::Meta => match resp {
                ResponseMessage::SnapshotSyncNeedMeta { sync_id, buckets } => {
                    if sync_id != self.sync_id {
                        Err(SessionError::SyncIdMismatch { got: sync_id, expected: self.sync_id })
                    } else if buckets.len() == 0 {
                        self.phase = InitiatorPhase::Finished;
                        Ok(InitiatorTask::Finish)
                    } else {
                        Ok(InitiatorTask::CollectMeta { buckets })
                    }
                },
                _ => Err(
                    SessionError::ExpectedMessage {
                        sync_id: self.sync_id,
                        step: SyncStep::MetadataNeed,
                    },
                ),
            },
            InitiatorPhase::Ids => match resp {
                ResponseMessage::SnapshotSyncNeed { sync_id, ids } => {
                    if sync_id != self.sync_id {
                        Err(SessionError::SyncIdMismatch { got: sync_id, expected: self.sync_id })
                    } else if ids.len() == 0 {
                        self.phase = InitiatorPhase::Finished;
                        Ok(InitiatorTask::Finish)
                    } else {
                        Ok(InitiatorTask::CollectEntries { ids })
                    }
                },
                _ => Err(
                    SessionError::ExpectedMessage { sync_id: self.sync_id, step: SyncStep::EntryNeed },
                ),
            },
            InitiatorPhase::Ack | InitiatorPhase::Finished => {
                self.phase = InitiatorPhase::Finished;
                Ok(InitiatorTask::Finish)
            },
        }
    }

    /// Sends the local bucket summaries at `level` (5 or 6); the next finer
    /// need is awaited (the level 6 bucket need after level 5, the listing
    /// need after level 6).
    pub fn send_buckets(&mut self, from: String, level: u8, buckets: Vec<SnapshotBucketSummary>) -> (r:
        RequestMessage)
        ensures
            *final(self) == (Initiator {
                phase: if level == 5 {
                    InitiatorPhase::Level6
                } else {
                    InitiatorPhase::Meta
                },
                ..*old(self)
            }),
            r == (RequestMessage::SnapshotSyncBuckets {
                from: from,
                sync_id: old(self).sync_id,
                level: level,
                buckets: buckets,
            }),
    {
        self.phase = if level == 5 {
            InitiatorPhase::Level6
        } else {
            InitiatorPhase::Meta
        };
        RequestMessage::SnapshotSyncBuckets { from, sync_id: self.sync_id, level, buckets }
    }

    /// Sends the listing of the local entries asked for; the entry need is
    /// awaited next.
    pub fn send_meta(&mut self, from: String, entries: Vec<SnapshotMetaEntry>) -> (r: RequestMessage)
        ensures
            *final(self) == (Initiator { phase: InitiatorPhase::Ids, ..*old(self) }),
            r == (RequestMessage::SnapshotSyncMeta {
                from: from,
                sync_id: old(self).sync_id,
                entries: entries,
            }),
    {
        self.phase = InitiatorPhase::Ids;
        RequestMessage::SnapshotSyncMeta { from, sync_id: self.sync_id, entries }
    }

    /// Sends the entries asked for; the acknowledgement is awaited next.
    pub fn send_entries(&mut self, from: String, entries: Vec<ReplicatedEntry>) -> (r: RequestMessage)
        ensures
            *final(self) == (Initiator { phase: InitiatorPhase::Ack, ..*old(self) }),
            r == (RequestMessage::SnapshotSyncEntries {
                from: from,
                sync_id: old(self).sync_id,
                entries: entries,
            }),
    {
        self.phase = InitiatorPhase::Ack;
        RequestMessage::SnapshotSyncEntries { from, sync_id: self.sync_id, entries }
    }
}

// ---------------------------------------------------------------------------
// Frames
// ---------------------------------------------------------------------------

/// A frame: the payload's length as a big-endian `u32` (cut to 32 bits as
/// `as u32` does), then the payload.
pub open spec fn frame_spec(payload: Seq<u8>) -> Seq<u8> {
    let n = payload.len() % 0x1_0000_0000;
    seq![
        (n / 0x100_0000) as u8,
        ((n / 0x1_0000) % 0x100) as u8,
        ((n / 0x100) % 0x100) as u8,
        (n % 0x100) as u8,
    ] + payload
}

/// The frame that carries `payload`.
pub fn frame(payload: &Vec<u8>) -> (r: Vec<u8>)
    ensures
        r@ == frame_spec(payload@),
{
    let n: u64 = payload.len() as u64 % 0x1_0000_0000;
    let mut out: Vec<u8> = Vec::new();
    out.push((n / 0x100_0000) as u8);
    out.push(((n / 0x1_0000) % 0x100) as u8);
    out.push(((n / 0x100) % 0x100) as u8);
    out.push((n % 0x100) as u8);
    let mut i: usize = 0;
    while i < payload.len()
        invariant
            i <= payload.len(),
            out@.len() == 4 + i,
            out@.subrange(0, 4) == frame_spec(payload@).subrange(0, 4),
            forall|j: int| 0 <= j < i ==> out@[4 + j] == payload@[j],
        decreases payload.len() - i,
    {
        out.push(payload[i]);
        i += 1;
    }
    let ghost f = frame_spec(payload@);
    assert forall|j: int| 0 <= j < out@.len() implies out@[j] == f[j] by {
        if j < 4 {
            assert(out@.subrange(0, 4)[j] == f.subrange(0, 4)[j]);
        } else {
            assert(out@[4 + (j - 4)] == payload@[j - 4]);
        }
    }
    assert(out@ =~= f);
    out
}

/// The payload length that a frame header announces.
pub fn frame_len(header: [u8; 4]) -> (r: u32)
    ensures
        r == header@[0] * 0x100_0000 + header@[1] * 0x1_0000 + header@[2] * 0x100 + header@[3],
{
    header[0] as u32 * 0x100_0000 + header[1] as u32 * 0x1_0000 + header[2] as u32 * 0x100
        + header[3] as u32
}

/// The keys of a list of peers, as byte sequences.
pub open spec fn key_views(keys: Seq<[u8; 32]>) -> Seq<Seq<u8>> {
    keys.map_values(|k: [u8; 32]| k@)
}

/// Whether a connecting peer (by its 32-byte public key) is one the daemon
/// talks to: a conversation with any other peer is dropped unanswered.
#[verifier::rlimit(50)]
pub fn peer_allowed(allowlist: &Vec<[u8; 32]>, peer: &[u8; 32]) -> (r: bool)
    ensures
        r == key_views(allowlist@).contains(peer@),
{
    let mut i: usize = 0;
    while i < allowlist.len()
        invariant
            i <= allowlist.len(),
            forall|j: int| 0 <= j < i ==> allowlist@[j]@ != peer@,
        decreases allowlist.len() - i,
    {
        if crate::snapshot::hash_eq(&allowlist[i], peer) {
            assert(key_views(allowlist@)[i as int] == peer@);
            return true;
        }
        i += 1;
    }
    proof {
        if key_views(allowlist@).contains(peer@) {
            let j = choose|j: int| 0 <= j < key_views(allowlist@).len() && key_views(allowlist@)[j] == peer@;
            assert(allowlist@[j]@ == peer@);
        }
    }
    false
}

} // verus!
