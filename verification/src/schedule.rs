//! When to look at the files.
//!
//! Times are counted in nanoseconds from one moment on, which is the same for all of them.

use vstd::prelude::*;

use crate::error;
use crate::error::{reconcile_result_or_exit, Error};

verus! {

/// The time between two passes while no event tells of a change: a second.
pub const RECONCILIATION_INTERVAL: u64 = 1_000_000_000;

/// The time after a pass that an event set off, and the longest time for which events go unnoticed:
/// a quarter of a second.
pub const EVENT_RECONCILIATION_INTERVAL: u64 = 250_000_000;

/// The time from a pass to the next one that no event sets off.
pub open spec fn interval(event_pending: bool) -> u64 {
    if event_pending {
        EVENT_RECONCILIATION_INTERVAL
    } else {
        RECONCILIATION_INTERVAL
    }
}

/// When the next pass is due though no event has set it off.
#[derive(Clone, Copy, Debug, PartialEq, Eq, Structural)]
pub struct Schedule {
    pub next_reconcile: u64,
}

impl Schedule {
    /// How long to wait at a time: until the next pass is due, but never longer than events may go
    /// unnoticed.
    pub open spec fn wait_at(self, now: u64) -> u64 {
        let left = self.next_reconcile - now;
        if left <= 0 {
            0
        } else if left < EVENT_RECONCILIATION_INTERVAL {
            left as u64
        } else {
            EVENT_RECONCILIATION_INTERVAL
        }
    }

    /// Whether a pass is due at a time.
    pub open spec fn due_at(self, event_pending: bool, now: u64) -> bool {
        event_pending || self.next_reconcile <= now
    }

    /// The schedule once the files have been looked at for the first time.
    pub fn start(now: u64) -> (schedule: Schedule)
        requires
            now + RECONCILIATION_INTERVAL <= u64::MAX,
        ensures
            schedule.next_reconcile == now + RECONCILIATION_INTERVAL,
    {
        Schedule { next_reconcile: now + RECONCILIATION_INTERVAL }
    }

    /// How long to wait.
    pub fn wait(&self, now: u64) -> (wait: u64)
        ensures
            wait == self.wait_at(now),
    {
        if self.next_reconcile <= now {
            0
        } else if self.next_reconcile - now < EVENT_RECONCILIATION_INTERVAL {
            self.next_reconcile - now
        } else {
            EVENT_RECONCILIATION_INTERVAL
        }
    }

    /// Whether a pass is due.
    pub fn is_due(&self, event_pending: bool, now: u64) -> (due: bool)
        ensures
            due == self.due_at(event_pending, now),
    {
        event_pending || now >= self.next_reconcile
    }

    /// Takes how a pass ended, whether an event set it off, and the time at its end. Says whether to
    /// go on: then the next pass is due after the interval that belongs to this one.
    pub fn settle(
        &mut self,
        event_pending: bool,
        result: Result<(), Error>,
        now: u64,
    ) -> (next: Result<bool, Error>)
        requires
            now + RECONCILIATION_INTERVAL <= u64::MAX,
        ensures
            next == error::exit_of(result),
            final(self).next_reconcile == (if result is Ok {
                now + interval(event_pending)
            } else {
                old(self).next_reconcile as int
            }),
    {
        let next: Result<bool, Error> = reconcile_result_or_exit(result);
        if let Ok(true) = next {
            let interval: u64 = if event_pending {
                EVENT_RECONCILIATION_INTERVAL
            } else {
                RECONCILIATION_INTERVAL
            };
            self.next_reconcile = now + interval;
        }
        next
    }
}

/// No wait is longer than events may go unnoticed, and none goes past the time at which a pass is
/// due.
pub proof fn law_waits_are_short(schedule: Schedule, now: u64)
    ensures
        schedule.wait_at(now) <= EVENT_RECONCILIATION_INTERVAL,
        now <= schedule.next_reconcile ==> now + schedule.wait_at(now) <= schedule.next_reconcile,
{
}

/// There is nothing to wait for exactly when a pass is due without an event.
pub proof fn law_no_wait_when_a_pass_is_due(schedule: Schedule, now: u64)
    ensures
        schedule.wait_at(now) == 0 <==> schedule.due_at(false, now),
{
}

/// An event makes a pass due at once.
pub proof fn law_events_set_off_passes(schedule: Schedule, now: u64)
    ensures
        schedule.due_at(true, now),
{
}

/// The time after a number of waits, one right after the other.
pub open spec fn after_waits(schedule: Schedule, now: u64, count: nat) -> u64
    decreases count,
{
    if count == 0 {
        now
    } else {
        let before = after_waits(schedule, now, (count - 1) as nat);
        (before + schedule.wait_at(before)) as u64
    }
}

/// While no event comes, a pass is due an interval after the one before and no sooner: after a pass
/// that an event set off it takes one wait, after any other four.
pub proof fn law_passes_come_at_intervals(schedule: Schedule, now: u64, event_pending: bool)
    requires
        now + RECONCILIATION_INTERVAL <= u64::MAX,
        schedule.next_reconcile == now + interval(event_pending),
    ensures
        ({
            let count: nat = if event_pending {
                1
            } else {
                4
            };
            &&& after_waits(schedule, now, count) == now + interval(event_pending)
            &&& schedule.due_at(false, after_waits(schedule, now, count))
            &&& forall|i: nat|
                i < count ==> !schedule.due_at(false, #[trigger] after_waits(schedule, now, i))
        }),
{
    reveal_with_fuel(after_waits, 5);
    let count: nat = if event_pending {
        1
    } else {
        4
    };
    assert forall|i: nat| i < count implies !schedule.due_at(
        false,
        #[trigger] after_waits(schedule, now, i),
    ) by {
        assert(i == 0 || i == 1 || i == 2 || i == 3);
    }
}

} // verus!
