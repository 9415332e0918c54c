//! Saving an entry while its data is read: what is kept for the preview,
//! the running size, and what happens when reading stops early (by a
//! signal, a read error, or a failing copy to standard output).
use vstd::prelude::*;

use crate::meta::{AttrMap, Meta, MetaView};
use crate::preview::{build_preview_data, preview_limit, text_preview_spec, utf8_lossy};
use crate::text::{lower_seq, push_str, to_lower};

verus! {

/// Bytes of the data kept for the preview.
pub const SAMPLE_LEN: usize = 512;

/// What has been read so far.
pub struct ReadLoop {
    /// The first bytes of the data (at most [`SAMPLE_LEN`]).
    pub sample: Vec<u8>,
    /// Bytes read in all.
    pub total: i64,
}

impl ReadLoop {
    /// Nothing read yet.
    pub fn new() -> (r: ReadLoop)
        ensures
            r.sample@ == Seq::<u8>::empty(),
            r.total == 0,
    {
        ReadLoop { sample: Vec::new(), total: 0 }
    }

    /// Records a chunk that was read and stored: the sample takes bytes
    /// from it until it holds [`SAMPLE_LEN`], and the total grows by its
    /// length.
    pub fn record_chunk(&mut self, chunk: &[u8])
        requires
            old(self).total + chunk@.len() <= i64::MAX,
            old(self).total >= 0,
            old(self).sample@.len() <= SAMPLE_LEN,
        ensures
            final(self).total == old(self).total + chunk@.len(),
            final(self).sample@ == old(self).sample@ + chunk@.take(
                if SAMPLE_LEN - old(self).sample@.len() < chunk@.len() {
                    SAMPLE_LEN - old(self).sample@.len()
                } else {
                    chunk@.len() as int
                },
            ),
            final(self).sample@.len() <= SAMPLE_LEN,
    {
        let have = self.sample.len();
        let n = chunk.len();
        let need = if SAMPLE_LEN - have < n {
            SAMPLE_LEN - have
        } else {
            n
        };
        let ghost before = self.sample@;
        let mut i: usize = 0;
        while i < need
            invariant
                i <= need <= n,
                n == chunk@.len(),
                self.total == old(self).total,
                old(self).total + chunk@.len() <= i64::MAX,
                old(self).total >= 0,
                self.sample@ == before + chunk@.take(i as int),
            decreases need - i,
        {
            self.sample.push(chunk[i]);
            i += 1;
            assert(self.sample@ =~= before + chunk@.take(i as int));
        }
        self.total = self.total + n as i64;
    }
}

/// Whether an entry cut short is kept: only when keeping is asked for, and
/// not when nothing was read unless the cut was a signal (`save_empty`).
pub open spec fn keeps_partial(save_on_error: bool, total: i64, save_empty: bool) -> bool {
    save_on_error && !(total == 0 && !save_empty)
}

/// Whether an entry cut short is kept (see [`keeps_partial`]).
pub fn save_or_abort_partial(save_on_error: bool, total: i64, save_empty: bool) -> (r: bool)
    ensures
        r == keeps_partial(save_on_error, total, save_empty),
{
    !(!save_on_error || (total == 0 && !save_empty))
}

/// Something that happened while reading an entry's data.
#[derive(Clone, Copy, Debug, PartialEq, Eq, Structural)]
pub enum ReadEvent {
    /// A signal arrived (before a read, or at the end of the data).
    Interrupted { signal: i32 },
    /// Reading failed.
    ReadFailed,
    /// A chunk was read, stored and copied.
    Data,
    /// The data ended.
    Eof,
    /// Storing a chunk failed.
    StoreFailed,
    /// Copying a chunk to standard output failed; `broken_pipe` when the
    /// reader went away.
    TeeFailed { broken_pipe: bool },
}

/// What to do after an event.
#[derive(Clone, Copy, Debug, PartialEq, Eq, Structural)]
pub enum ReadStep {
    /// Read on.
    Continue,
    /// Save the entry as complete.
    Finalize,
    /// Drop the data and report the error.
    Discard,
    /// Save the entry marked partial and report that, with the signal if
    /// one cut it.
    SavePartial { signal: Option<i32> },
}

/// The step that follows an event while reading (see [`read_loop_step`]).
pub open spec fn read_step_spec(save_on_error: bool, total: i64, event: ReadEvent) -> ReadStep {
    match event {
        ReadEvent::Interrupted { signal } => if keeps_partial(save_on_error, total, true) {
            ReadStep::SavePartial { signal: Some(signal) }
        } else {
            ReadStep::Discard
        },
        ReadEvent::ReadFailed => if keeps_partial(save_on_error, total, false) {
            ReadStep::SavePartial { signal: None }
        } else {
            ReadStep::Discard
        },
        ReadEvent::Data => ReadStep::Continue,
        ReadEvent::Eof => ReadStep::Finalize,
        ReadEvent::StoreFailed => ReadStep::Discard,
        ReadEvent::TeeFailed { broken_pipe } => if broken_pipe {
            ReadStep::Finalize
        } else if keeps_partial(save_on_error, total, false) {
            ReadStep::SavePartial { signal: None }
        } else {
            ReadStep::Discard
        },
    }
}

/// Decides what follows an event while an entry's data is read: a signal
/// keeps what was read (even nothing) when partial entries are kept; a
/// read error or a failed copy keeps it only if something was read; the
/// reader of standard output going away ends the entry normally.
pub fn read_loop_step(save_on_error: bool, total: i64, event: ReadEvent) -> (r: ReadStep)
    ensures
        r == read_step_spec(save_on_error, total, event),
{
    match event {
        ReadEvent::Interrupted { signal } => {
            if save_or_abort_partial(save_on_error, total, true) {
                ReadStep::SavePartial { signal: Some(signal) }
            } else {
                ReadStep::Discard
            }
        },
        ReadEvent::ReadFailed => {
            if save_or_abort_partial(save_on_error, total, false) {
                ReadStep::SavePartial { signal: None }
            } else {
                ReadStep::Discard
            }
        },
        ReadEvent::Data => ReadStep::Continue,
        ReadEvent::Eof => ReadStep::Finalize,
        ReadEvent::StoreFailed => ReadStep::Discard,
        ReadEvent::TeeFailed { broken_pipe } => {
            if broken_pipe {
                ReadStep::Finalize
            } else if save_or_abort_partial(save_on_error, total, false) {
                ReadStep::SavePartial { signal: None }
            } else {
                ReadStep::Discard
            }
        },
    }
}

/// Marks an entry as cut short: attribute `partial` becomes `true`.
pub fn mark_partial(attrs: &mut AttrMap)
    requires
        old(attrs).wf(),
    ensures
        final(attrs).wf(),
        final(attrs)@ == old(attrs)@.insert("partial"@, "true"@),
{
    attrs.insert("partial".to_owned(), "true".to_owned());
}

/// The metadata saved for a finished entry: its id, timestamp, size,
/// attributes, and the preview of its first bytes.
pub fn finalize_meta(id: String, ts: String, sample: &[u8], total: i64, attrs: AttrMap) -> (r: Meta)
    requires
        attrs.wf(),
    ensures
        r.wf(),
        r@ == (MetaView {
            id: id@,
            ts: ts@,
            size: total,
            preview: if sample@.len() == 0 {
                Seq::empty()
            } else {
                text_preview_spec(utf8_lossy(sample@), preview_limit(sample@.len()))
            },
            attrs: attrs@,
        }),
{
    let preview = build_preview_data(sample, sample.len());
    Meta { id, ts, size: total, preview, attrs }
}

/// An entry was saved although reading its data failed or was cut short.
pub struct PartialSavedError {
    /// The id of the saved entry.
    pub id: String,
    /// What cut the reading short.
    pub cause: String,
    /// The signal that cut it, if one did.
    pub signal: Option<i32>,
}

impl PartialSavedError {
    /// `partial entry saved as "<id>": <cause>`, with the id lower-cased.
    pub fn message(&self) -> (r: String)
        ensures
            r@ == "partial entry saved as \""@ + lower_seq(self.id@) + "\": "@ + self.cause@,
    {
        let mut out = String::new();
        push_str(&mut out, "partial entry saved as \"");
        let id = to_lower(self.id.as_str());
        push_str(&mut out, id.as_str());
        push_str(&mut out, "\": ");
        push_str(&mut out, self.cause.as_str());
        out
    }
}

/// The number of the interrupt signal (`SIGINT`) on Unix.
pub const SIGNAL_INTERRUPT: i32 = 2;

/// The number of the termination signal (`SIGTERM`) on Unix.
pub const SIGNAL_TERMINATE: i32 = 15;

/// How a run of the program failed, as far as its exit status goes.
#[derive(Clone, Copy, Debug, PartialEq, Eq, Structural)]
pub enum RunFailure {
    /// Writing to standard output failed because the reader went away.
    BrokenPipe,
    /// A partial entry was saved; the signal that cut the reading, if any.
    PartialSaved { signal: Option<i32> },
    /// Any other error, which is reported.
    Other,
}

/// The exit status of a failed run: 0 for a broken pipe, 130 or 143 for a
/// partial save cut by an interrupt or a termination signal, 1 otherwise.
pub open spec fn exit_status_spec(f: RunFailure) -> i32 {
    match f {
        RunFailure::BrokenPipe => 0,
        RunFailure::PartialSaved { signal } => match signal {
            Some(s) => if s == SIGNAL_INTERRUPT {
                130
            } else if s == SIGNAL_TERMINATE {
                143
            } else {
                1
            },
            None => 1,
        },
        RunFailure::Other => 1,
    }
}

/// The exit status of a failed run (see [`exit_status_spec`]).
pub fn exit_status(f: RunFailure) -> (r: i32)
    ensures
        r == exit_status_spec(f),
{
    match f {
        RunFailure::BrokenPipe => 0,
        RunFailure::PartialSaved { signal } => match signal {
            Some(s) => if s == SIGNAL_INTERRUPT {
                130
            } else if s == SIGNAL_TERMINATE {
                143
            } else {
                1
            },
            None => 1,
        },
        RunFailure::Other => 1,
    }
}

/// Whether a failed run prints its error: only an error that is neither a
/// broken pipe nor a partial save (which was reported when it happened).
pub fn reports_error(f: RunFailure) -> (r: bool)
    ensures
        r == (f == RunFailure::Other),
{
    match f {
        RunFailure::Other => true,
        _ => false,
    }
}

} // verus!
