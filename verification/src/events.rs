//! Which file-system events the sync daemon acts on.
use vstd::prelude::*;

verus! {

/// The kind of a file-system event, as the watcher reports it.
#[derive(Clone, Copy, Debug, PartialEq, Eq, Structural)]
pub enum FsEventKind {
    /// Some event whose kind is not known.
    Any,
    /// A kind the watcher reports without detail.
    Other,
    /// An access (open, read, close).
    Access,
    /// Something was created, of unknown type.
    CreateAny,
    /// A file was created.
    CreateFile,
    /// A directory or another kind of object was created.
    CreateOther,
    /// Something changed, in an unknown way.
    ModifyAny,
    /// The contents changed.
    ModifyData,
    /// Metadata (times, permissions, ...) changed.
    ModifyMetadata,
    /// Something was renamed.
    ModifyName,
    /// Another kind of change.
    ModifyOther,
    /// Something was removed, of unknown type.
    RemoveAny,
    /// A file was removed.
    RemoveFile,
    /// A directory or another kind of object was removed.
    RemoveOther,
}

/// The kinds that can change an attribute file: unknown events, file
/// creation and removal (or of unknown type), and changes to contents,
/// metadata or names.
pub open spec fn processes_kind(k: FsEventKind) -> bool {
    match k {
        FsEventKind::Any | FsEventKind::Other => true,
        FsEventKind::CreateAny | FsEventKind::CreateFile => true,
        FsEventKind::ModifyAny | FsEventKind::ModifyData | FsEventKind::ModifyMetadata
        | FsEventKind::ModifyName => true,
        FsEventKind::RemoveAny | FsEventKind::RemoveFile => true,
        _ => false,
    }
}

/// Whether an event of kind `kind` can change an attribute file (see
/// [`processes_kind`]).
pub fn should_process_event_kind(kind: FsEventKind) -> (r: bool)
    ensures
        r == processes_kind(kind),
{
    match kind {
        FsEventKind::Any | FsEventKind::Other => true,
        FsEventKind::CreateAny | FsEventKind::CreateFile => true,
        FsEventKind::ModifyAny | FsEventKind::ModifyData | FsEventKind::ModifyMetadata
        | FsEventKind::ModifyName => true,
        FsEventKind::RemoveAny | FsEventKind::RemoveFile => true,
        _ => false,
    }
}

/// What the daemon does with a local event.
#[derive(Clone, Copy, Debug, PartialEq, Eq, Structural)]
pub enum LocalEventAction {
    /// Nothing: the event cannot change an attribute file.
    Ignore,
    /// Scan the whole attribute directory again: the event names the
    /// directory itself.
    Rescan,
    /// Look at each attribute file the event names.
    Observe,
}

/// What the daemon does with an event of kind `kind`, where
/// `names_attr_dir` tells whether one of its paths is the attribute
/// directory itself.
pub fn local_event_action(kind: FsEventKind, names_attr_dir: bool) -> (r: LocalEventAction)
    ensures
        r == (if !processes_kind(kind) {
            LocalEventAction::Ignore
        } else if names_attr_dir {
            LocalEventAction::Rescan
        } else {
            LocalEventAction::Observe
        }),
{
    if !should_process_event_kind(kind) {
        LocalEventAction::Ignore
    } else if names_attr_dir {
        LocalEventAction::Rescan
    } else {
        LocalEventAction::Observe
    }
}

} // verus!
