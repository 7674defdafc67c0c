//! When passes are made, and when the program ends.

use tailfall::error::{reconcile_result_or_exit, Error, IoError, IoErrorKind, NotifyError};
use tailfall::event::{
    event_requires_reconciliation, CreateKind, EventKind, ModifyKind, RemoveKind,
};
use tailfall::schedule::{Schedule, EVENT_RECONCILIATION_INTERVAL, RECONCILIATION_INTERVAL};

fn failure(kind: IoErrorKind) -> Error {
    Error::Io(IoError {
        kind,
        message: "words".to_owned(),
    })
}

#[test]
fn intervals_are_as_documented() {
    assert_eq!(
        std::time::Duration::from_nanos(RECONCILIATION_INTERVAL),
        std::time::Duration::from_secs(1)
    );
    assert_eq!(
        std::time::Duration::from_nanos(EVENT_RECONCILIATION_INTERVAL),
        std::time::Duration::from_millis(250)
    );
}

#[test]
fn waits_are_short_and_end_when_a_pass_is_due() {
    let schedule = Schedule::start(5);
    assert_eq!(schedule.next_reconcile, 1_000_000_005);
    assert_eq!(schedule.wait(5), 250_000_000);
    assert_eq!(schedule.wait(750_000_005), 250_000_000);
    assert_eq!(schedule.wait(1_000_000_000), 5);
    assert_eq!(schedule.wait(1_000_000_005), 0);
    assert_eq!(schedule.wait(u64::MAX), 0);
    assert!(!schedule.is_due(false, 1_000_000_004));
    assert!(schedule.is_due(false, 1_000_000_005));
    assert!(schedule.is_due(true, 6));
}

#[test]
fn four_waits_lead_to_the_next_pass() {
    let schedule = Schedule::start(100);
    let mut now = 100;
    for _ in 0..4 {
        assert!(!schedule.is_due(false, now));
        now += schedule.wait(now);
    }
    assert!(schedule.is_due(false, now));
    assert_eq!(now, 100 + RECONCILIATION_INTERVAL);
}

#[test]
fn next_pass_depends_on_what_set_off_this_one() {
    let mut schedule = Schedule::start(0);
    assert!(schedule.settle(true, Ok(()), 10).unwrap());
    assert_eq!(schedule.next_reconcile, 250_000_010);
    assert!(schedule.settle(false, Ok(()), 20).unwrap());
    assert_eq!(schedule.next_reconcile, 1_000_000_020);
    assert!(!schedule
        .settle(true, Err(failure(IoErrorKind::BrokenPipe)), 30)
        .unwrap());
    assert!(schedule
        .settle(true, Err(failure(IoErrorKind::Other)), 40)
        .is_err());
    assert_eq!(schedule.next_reconcile, 1_000_000_020);
}

#[test]
fn closed_output_ends_the_program_in_good_order() {
    assert!(matches!(reconcile_result_or_exit(Ok(())), Ok(true)));
    assert!(matches!(
        reconcile_result_or_exit(Err(failure(IoErrorKind::BrokenPipe))),
        Ok(false)
    ));
    assert!(matches!(
        reconcile_result_or_exit(Err(failure(IoErrorKind::NotFound))),
        Err(Error::Io(_))
    ));
    assert!(matches!(
        reconcile_result_or_exit(Err(Error::InvalidOperand("x".to_owned()))),
        Err(Error::InvalidOperand(_))
    ));
}

#[test]
fn errors_are_told_in_their_own_words() {
    assert_eq!(failure(IoErrorKind::Other).message(), "words");
    let watcher = Error::from(NotifyError {
        message: "watcher".to_owned(),
    });
    assert!(matches!(watcher, Error::Notify(_)));
    assert_eq!(watcher.message(), "watcher");
    let system = Error::from(IoError {
        kind: IoErrorKind::Other,
        message: "system".to_owned(),
    });
    assert!(matches!(system, Error::Io(_)));
    assert_eq!(system.message(), "system");
    assert_eq!(Error::InvalidOperand("a".to_owned()).message(), "a");
    assert_eq!(Error::InvalidPattern("b".to_owned()).message(), "b");
}

#[test]
fn every_kind_of_event_is_decided() {
    for recursive in [false, true] {
        assert!(event_requires_reconciliation(EventKind::Any, recursive));
        assert!(event_requires_reconciliation(EventKind::Other, recursive));
        assert!(!event_requires_reconciliation(EventKind::Access, recursive));
        for kind in [CreateKind::Any, CreateKind::File, CreateKind::Other] {
            assert!(event_requires_reconciliation(
                EventKind::Create(kind),
                recursive
            ));
        }
        for kind in [RemoveKind::Any, RemoveKind::File, RemoveKind::Other] {
            assert!(event_requires_reconciliation(
                EventKind::Remove(kind),
                recursive
            ));
        }
        for kind in [
            ModifyKind::Any,
            ModifyKind::Data,
            ModifyKind::Name,
            ModifyKind::Other,
        ] {
            assert!(event_requires_reconciliation(
                EventKind::Modify(kind),
                recursive
            ));
        }
        assert!(!event_requires_reconciliation(
            EventKind::Modify(ModifyKind::Metadata),
            recursive
        ));
        assert_eq!(
            event_requires_reconciliation(EventKind::Create(CreateKind::Folder), recursive),
            recursive
        );
        assert_eq!(
            event_requires_reconciliation(EventKind::Remove(RemoveKind::Folder), recursive),
            recursive
        );
    }
}
