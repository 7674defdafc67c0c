//! When passes are made, and when the program ends.

use vstd::prelude::*;

use crate::error::{reconcile_result_or_exit, Error, IoError, IoErrorKind, NotifyError};
use crate::event::{event_requires_reconciliation, EventKind};
use crate::schedule::Schedule;

verus! {

/// The first pass comes a second after the start.
pub proof fn law_first_pass_comes_after_a_second(now: u64, schedule: Schedule)
    requires
        call_ensures(Schedule::start, (now,), schedule),
    ensures
        schedule.next_reconcile == now + 1_000_000_000,
{
}

/// A pass is due from its time on, however late it has become, and with an event at any time; before
/// its time it is due with an event only.
pub proof fn law_pass_is_due_from_its_time_on(
    schedule: Schedule,
    event_pending: bool,
    now: u64,
    due: bool,
)
    requires
        call_ensures(Schedule::is_due, (&schedule, event_pending, now), due),
    ensures
        schedule.next_reconcile <= now ==> due,
        event_pending ==> due,
        now < schedule.next_reconcile && !event_pending ==> !due,
{
}

/// A pass that is due stays due as time goes on.
pub proof fn law_pass_stays_due(
    schedule: Schedule,
    event_pending: bool,
    now: u64,
    later: u64,
    due: bool,
    due_later: bool,
)
    requires
        now <= later,
        call_ensures(Schedule::is_due, (&schedule, event_pending, now), due),
        call_ensures(Schedule::is_due, (&schedule, event_pending, later), due_later),
    ensures
        due ==> due_later,
{
}

/// One waits up to the time of the next pass or for a quarter of a second, whichever is shorter, and
/// not at all once that time has come or gone by.
pub proof fn law_wait_ends_with_the_next_pass(schedule: Schedule, now: u64, wait: u64)
    requires
        call_ensures(Schedule::wait, (&schedule, now), wait),
    ensures
        schedule.next_reconcile <= now ==> wait == 0,
        now < schedule.next_reconcile ==> 0 < wait && now + wait <= schedule.next_reconcile,
        wait <= 250_000_000,
        now < schedule.next_reconcile ==> wait == 250_000_000 || now + wait
            == schedule.next_reconcile,
{
}

/// One waits exactly while no pass is due without an event.
pub proof fn law_wait_and_due_agree(schedule: Schedule, now: u64, wait: u64, due: bool)
    requires
        call_ensures(Schedule::wait, (&schedule, now), wait),
        call_ensures(Schedule::is_due, (&schedule, false, now), due),
    ensures
        wait == 0 <==> due,
{
}

/// After a pass that went well the program goes on: the next one is due a quarter of a second later if
/// an event set this one off, and a second later if none did. After a failure the schedule stays.
pub proof fn law_next_pass_follows_a_success(
    schedule: &mut Schedule,
    event_pending: bool,
    result: Result<(), Error>,
    now: u64,
    next: Result<bool, Error>,
)
    requires
        call_ensures(Schedule::settle, (schedule, event_pending, result, now), next),
    ensures
        result is Ok && event_pending ==> final(schedule).next_reconcile == now + 250_000_000,
        result is Ok && !event_pending ==> final(schedule).next_reconcile == now + 1_000_000_000,
        result is Err ==> final(schedule).next_reconcile == old(schedule).next_reconcile,
{
}

/// The program goes on after a pass that went well, ends in good order where the output was closed,
/// and hands on every other error as it is.
pub proof fn law_program_ends_with_its_reader(
    schedule: &mut Schedule,
    event_pending: bool,
    result: Result<(), Error>,
    now: u64,
    next: Result<bool, Error>,
)
    requires
        call_ensures(Schedule::settle, (schedule, event_pending, result, now), next) || call_ensures(
            reconcile_result_or_exit,
            (result,),
            next,
        ),
    ensures
        result is Ok ==> next == Ok::<bool, Error>(true),
        result matches Err(error) ==> (error matches Error::Io(io) && io.kind
            == IoErrorKind::BrokenPipe ==> next == Ok::<bool, Error>(false)),
        result matches Err(error) ==> (error matches Error::Io(io) && io.kind
            != IoErrorKind::BrokenPipe ==> next == Err::<bool, Error>(error)),
        result matches Err(error) ==> (error !is Io ==> next == Err::<bool, Error>(error)),
{
}

/// An access and a change of metadata call for no pass; a directory that comes or goes does where
/// directories are searched; every other event does.
pub proof fn law_events_that_can_change_the_output_call_for_a_pass(
    kind: EventKind,
    recursive: bool,
    required: bool,
)
    requires
        call_ensures(event_requires_reconciliation, (kind, recursive), required),
    ensures
        kind is Any || kind is Other ==> required,
        kind is Access ==> !required,
        kind matches EventKind::Modify(change) ==> (required <==> !(change is Metadata)),
        kind matches EventKind::Create(made) ==> (required <==> (recursive || !(made is Folder))),
        kind matches EventKind::Remove(gone) ==> (required <==> (recursive || !(gone is Folder))),
{
}

/// What can be told of an error is what the system, the watcher or the refusal says.
pub proof fn law_errors_speak_their_own_words(error: Error, message: String)
    requires
        call_ensures(Error::message, (&error,), message),
    ensures
        error matches Error::Io(io) ==> message@ == io.message@,
        error matches Error::Notify(watcher) ==> message@ == watcher.message@,
        error matches Error::InvalidOperand(words) ==> message@ == words@,
        error matches Error::InvalidPattern(words) ==> message@ == words@,
{
}

/// A failed system call and a failure of the watcher become errors as they are.
pub proof fn law_failures_become_errors(io: IoError, watcher: NotifyError, first: Error, second: Error)
    requires
        call_ensures(<Error as From<IoError>>::from, (io,), first),
        call_ensures(<Error as From<NotifyError>>::from, (watcher,), second),
    ensures
        first == Error::Io(io),
        second == Error::Notify(watcher),
{
}

} // verus!
