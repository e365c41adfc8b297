//! The hand-off between the polling task and the display: a one-slot mailbox
//! that keeps only the newest snapshot, and the decisions of each side.
use vstd::prelude::*;
use crate::process::{SnapshotError, SysStats};

verus! {

/// Time between two polls of the process source, in milliseconds.
pub const POLL_INTERVAL_MS: u64 = 1000;

/// A single slot between one producer and one consumer. A snapshot not yet
/// taken is dropped when a newer one arrives, so memory stays bounded however
/// slowly the consumer runs.
pub struct Mailbox {
    /// The newest snapshot not yet taken.
    pub latest: Option<SysStats>,
    /// Set once the consumer has gone away.
    pub closed: bool,
}

impl Mailbox {
    /// An empty, open mailbox.
    pub fn new() -> (r: Mailbox)
        ensures
            r.latest is None,
            !r.closed,
    {
        Mailbox { latest: None, closed: false }
    }

    /// Leaves `s` for the consumer in place of any snapshot not yet taken.
    /// Returns `false`, and leaves the mailbox as it was, once it is closed.
    pub fn offer(&mut self, s: SysStats) -> (delivered: bool)
        ensures
            delivered == !old(self).closed,
            final(self).closed == old(self).closed,
            delivered ==> final(self).latest == Some(s),
            !delivered ==> final(self).latest == old(self).latest,
    {
        if self.closed {
            false
        } else {
            self.latest = Some(s);
            true
        }
    }

    /// Takes the newest snapshot, if one arrived since the last take; never waits.
    pub fn take_latest(&mut self) -> (r: Option<SysStats>)
        ensures
            r == old(self).latest,
            final(self).latest is None,
            final(self).closed == old(self).closed,
    {
        self.latest.take()
    }

    /// Marks the consumer as gone and drops any snapshot left.
    pub fn close(&mut self)
        ensures
            final(self).closed,
            final(self).latest is None,
    {
        self.closed = true;
        self.latest = None;
    }
}

/// What the polling task does after one cycle.
#[derive(Debug, Clone, Copy, PartialEq, Eq, Structural)]
pub enum Next {
    /// Sleep for the interval, then poll again.
    SleepThenPoll,
    /// The consumer is gone: end the loop.
    Stop,
}

/// One cycle of the polling task, once the snapshot was built or failed:
/// a snapshot is offered, a failure skips the cycle. The loop ends only when
/// the consumer has gone away.
pub fn poll_cycle(mailbox: &mut Mailbox, built: Result<SysStats, SnapshotError>) -> (r: Next)
    ensures
        r == (if old(mailbox).closed {
            Next::Stop
        } else {
            Next::SleepThenPoll
        }),
        final(mailbox).closed == old(mailbox).closed,
        match built {
            Ok(st) => !old(mailbox).closed ==> final(mailbox).latest == Some(st),
            Err(_) => final(mailbox).latest == old(mailbox).latest,
        },
        old(mailbox).closed ==> final(mailbox).latest == old(mailbox).latest,
{
    match built {
        Ok(st) => {
            if mailbox.offer(st) {
                Next::SleepThenPoll
            } else {
                Next::Stop
            }
        },
        Err(_) => {
            if mailbox.closed {
                Next::Stop
            } else {
                Next::SleepThenPoll
            }
        },
    }
}

/// The display's refresh: a snapshot that arrived replaces the one held;
/// with none, the held one stays.
pub fn refresh_held(held: &mut SysStats, arrived: Option<SysStats>)
    ensures
        match arrived {
            Some(s) => *final(held) == s,
            None => *final(held) == *old(held),
        },
{
    match arrived {
        Some(s) => {
            *held = s;
        },
        None => {},
    }
}

} // verus!
