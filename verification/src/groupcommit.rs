//! Group commit: one sync for everything that was asked for meanwhile.
//!
//! Appenders write to the file themselves and then ask for an
//! acknowledgement. The flusher of a file waits for the first request, takes
//! everything that is queued behind it, syncs once, and acknowledges the lot.
//! In interval mode it acknowledges without a sync, and syncs on a timer.

use crate::config::FsyncMode;
use crate::error::{refused, Error, Fault, Result};
use crate::text::concat;
use crate::time::Duration;
use vstd::prelude::*;

verus! {

/// A request to the flusher.
#[derive(Clone, Copy, Debug, PartialEq, Eq, Structural)]
pub enum Job {
    /// Acknowledge once everything written so far is durable.
    Sync,
    /// The same, and exit: the file is sealed.
    Seal,
}

/// What the flusher waited for.
#[derive(Debug)]
pub enum Event {
    /// A request, and those that were queued behind it.
    Jobs(Vec<Job>),
    /// The interval went by without a request.
    Timeout,
    /// Nobody can ask any more.
    Disconnected,
}

/// What the flusher does about it: perhaps a sync, then the acknowledgements
/// (with the sync's outcome, if there was one), then perhaps its exit.
#[derive(Clone, Copy, Debug, PartialEq, Eq, Structural)]
pub struct Action {
    pub sync: bool,
    pub exit: bool,
}

/// The flusher of one file.
#[derive(Clone, Copy, Debug, PartialEq, Eq, Structural)]
pub struct GroupCommit {
    /// How long to wait for a request; without one, for ever.
    pub interval: Option<Duration>,
    /// Whether something was acknowledged that is not synced yet.
    pub dirty: bool,
}

/// Whether a list of requests asks for the seal.
pub open spec fn seals(jobs: Seq<Job>) -> bool {
    jobs.contains(Job::Seal)
}

/// What the flusher does about an event.
pub open spec fn action(flusher: GroupCommit, event: Event) -> Action {
    match event {
        Event::Jobs(jobs) => Action {
            sync: flusher.interval is None || seals(jobs@),
            exit: seals(jobs@),
        },
        Event::Timeout => Action { sync: flusher.dirty, exit: false },
        Event::Disconnected => Action { sync: flusher.dirty, exit: true },
    }
}

/// The flusher after an event.
pub open spec fn after(flusher: GroupCommit, event: Event) -> GroupCommit {
    GroupCommit {
        dirty: event matches Event::Jobs(jobs) && !action(flusher, event).sync,
        ..flusher
    }
}

impl GroupCommit {
    /// A flusher with nothing to do.
    pub fn new(mode: FsyncMode) -> (flusher: Self)
        ensures
            flusher == (GroupCommit {
                interval: match mode {
                    FsyncMode::Always => None,
                    FsyncMode::Interval(interval) => Some(interval),
                },
                dirty: false,
            }),
    {
        GroupCommit {
            interval: match mode {
                FsyncMode::Always => None,
                FsyncMode::Interval(interval) => Some(interval),
            },
            dirty: false,
        }
    }

    /// Decides what to do about an event. A mode without an interval syncs for
    /// every request; one with an interval syncs for seals, and otherwise
    /// leaves it to the timer.
    pub fn run(&mut self, event: &Event) -> (next: Action)
        ensures
            next == action(*old(self), *event),
            *final(self) == after(*old(self), *event),
    {
        match event {
            Event::Jobs(jobs) => {
                let mut has_seal: bool = false;
                let mut i: usize = 0;
                while i < jobs.len()
                    invariant
                        i <= jobs@.len(),
                        has_seal <==> exists|j: int| 0 <= j < i && #[trigger] jobs@[j] == Job::Seal,
                    decreases jobs@.len() - i,
                {
                    if jobs[i] == Job::Seal {
                        has_seal = true;
                        assert(jobs@[i as int] == Job::Seal);
                    }
                    i += 1;
                }
                let sync = self.interval.is_none() || has_seal;
                self.dirty = !sync;
                Action { sync, exit: has_seal }
            },
            Event::Timeout => {
                let sync = self.dirty;
                self.dirty = false;
                Action { sync, exit: false }
            },
            Event::Disconnected => {
                let sync = self.dirty;
                self.dirty = false;
                Action { sync, exit: true }
            },
        }
    }
}

/// What is said of a sync that failed.
pub fn sync_error(err: &str) -> (error: Error)
    ensures
        error@ == Fault::Message("nvme fdatasync: "@ + err@),
{
    Error::Message(concat("nvme fdatasync: ", err))
}

/// What every request of a batch is answered, given how the sync went, if
/// there was one.
pub fn outcome(synced: Option<core::result::Result<(), String>>) -> (result: Result<()>)
    ensures
        match synced {
            Some(Err(err)) => refused(result, Fault::Message("nvme fdatasync: "@ + err@)),
            _ => result is Ok,
        },
{
    match synced {
        Some(Err(err)) => Err(sync_error(err.as_str())),
        _ => Ok(()),
    }
}

/// Without an interval no request is acknowledged before a sync: each batch of
/// requests is synced, and nothing is ever left unsynced.
pub proof fn law_always_syncs_before_ack(flusher: GroupCommit, event: Event)
    requires
        flusher.interval is None,
        !flusher.dirty,
    ensures
        event is Jobs ==> action(flusher, event).sync,
        !after(flusher, event).dirty,
{
}

/// A seal is synced in either mode, and the flusher exits with nothing left
/// unsynced.
pub proof fn law_seal_syncs(flusher: GroupCommit, jobs: Vec<Job>)
    requires
        seals(jobs@),
    ensures
        action(flusher, Event::Jobs(jobs)) == (Action { sync: true, exit: true }),
        !after(flusher, Event::Jobs(jobs)).dirty,
{
}

/// What was acknowledged without a sync is synced the next time the timer
/// fires, or when nobody can ask any more.
pub proof fn law_unsynced_is_synced_later(flusher: GroupCommit, jobs: Vec<Job>, later: Event)
    requires
        !action(flusher, Event::Jobs(jobs)).sync,
        later is Timeout || later is Disconnected,
    ensures
        action(after(flusher, Event::Jobs(jobs)), later).sync,
{
}

/// With an interval, requests without a seal among them are acknowledged
/// without a sync, and that is left to the timer. The timer syncs if and only
/// if something is unsynced, and then nothing is. The flusher exits for a seal
/// and when nobody can ask any more, and for nothing else.
pub proof fn law_timer_syncs_what_is_left(flusher: GroupCommit, event: Event)
    ensures
        ({
            let next = action(flusher, event);
            let left = after(flusher, event);
            &&& left.interval == flusher.interval
            &&& match event {
                Event::Jobs(jobs) => {
                    &&& next.exit <==> jobs@.contains(Job::Seal)
                    &&& next.sync <==> flusher.interval is None || jobs@.contains(Job::Seal)
                    &&& left.dirty <==> !next.sync
                },
                Event::Timeout => {
                    &&& !next.exit
                    &&& next.sync == flusher.dirty
                    &&& !left.dirty
                },
                Event::Disconnected => {
                    &&& next.exit
                    &&& next.sync == flusher.dirty
                    &&& !left.dirty
                },
            }
        }),
{
}

} // verus!
