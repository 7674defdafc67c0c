//! The engine, one event at a time.

use tailfall::engine::{Action, Event, TailEngine};
use tailfall::error::{Error, IoError, IoErrorKind};
use tailfall::follow::{
    header, open_at_end, report_opening, start_offset, FileIdentity, FileState, Opening, OutputMode,
    READ_BUFFER_SIZE,
};
use tailfall::path::FilePath;
use tailfall::report::report_path_error;
use tailfall::watch::WatchSpec;

fn path(text: &str) -> FilePath {
    FilePath::new(text.as_bytes().to_vec())
}

fn failure(message: &str) -> IoError {
    IoError {
        kind: IoErrorKind::Other,
        message: message.to_owned(),
    }
}

fn identity(inode: u64) -> FileIdentity {
    FileIdentity { device: 7, inode }
}

fn opened(inode: u64, length: u64) -> Event {
    Event::Opened(Opening::Opened {
        identity: identity(inode),
        length,
    })
}

fn engine(mode: OutputMode, verbose: bool) -> TailEngine {
    TailEngine::new(WatchSpec::Directory { root: path("/d") }, mode, verbose)
}

fn state(inode: u64, offset: u64) -> FileState {
    FileState {
        identity: identity(inode),
        offset,
    }
}

#[test]
fn reading_begins_where_it_should() {
    let known = state(1, 10);
    assert_eq!(start_offset(None, false, identity(1), 5), 0);
    assert_eq!(start_offset(None, true, identity(1), 5), 5);
    assert_eq!(start_offset(Some(&known), true, identity(1), 10), 10);
    assert_eq!(start_offset(Some(&known), false, identity(1), 12), 10);
    assert_eq!(start_offset(Some(&known), true, identity(1), 9), 0);
    assert_eq!(start_offset(Some(&known), true, identity(2), 12), 0);
    let other_device = FileIdentity {
        device: 8,
        inode: 1,
    };
    assert_eq!(start_offset(Some(&known), true, other_device, 12), 0);
}

#[test]
fn header_names_the_file() {
    assert_eq!(header(&path("/d/a.log")), b"==> /d/a.log <==\n".to_vec());
    // What is no UTF-8 is shown as the replacement character.
    let odd = FilePath::new(vec![b'/', 0xff, b'x']);
    assert_eq!(header(&odd), "==> /\u{fffd}x <==\n".as_bytes().to_vec());
    assert_eq!(READ_BUFFER_SIZE, 64 * 1024);
}

#[test]
fn failures_are_put_into_words() {
    assert_eq!(
        report_path_error(true, &path("/d/a"), "seek", &failure("why")),
        Some("tailfall: cannot seek /d/a: why".to_owned())
    );
    assert_eq!(
        report_path_error(false, &path("/d/a"), "seek", &failure("why")),
        None
    );
}

#[test]
fn openings_are_told_unless_nothing_is_there() {
    let a = path("/d/a");
    let absent = Opening::OpenFailed(IoError {
        kind: IoErrorKind::NotFound,
        message: "gone".to_owned(),
    });
    let denied = Opening::OpenFailed(failure("denied"));
    let blind = Opening::InspectFailed(failure("blind"));
    let fine = Opening::Opened {
        identity: identity(1),
        length: 3,
    };
    assert_eq!(report_opening(true, &a, &absent), None);
    assert_eq!(
        report_opening(true, &a, &denied),
        Some("tailfall: cannot open /d/a: denied".to_owned())
    );
    assert_eq!(report_opening(false, &a, &denied), None);
    assert_eq!(
        open_at_end(true, &a, &blind),
        (None, Some("tailfall: cannot inspect /d/a: blind".to_owned()))
    );
    assert_eq!(open_at_end(true, &a, &fine), (Some(state(1, 3)), None));
}

#[test]
fn pass_goes_step_by_step() {
    let mut engine = engine(OutputMode::Headers, false);
    assert!(matches!(engine.action(), Action::Rest));
    engine.begin(vec![path("/d/a")], true);
    match engine.action() {
        Action::Open(path) => assert_eq!(path.text(), b"/d/a"),
        other => panic!("{other:?}"),
    }
    engine.resolve(opened(1, 3));
    assert!(matches!(engine.action(), Action::Seek(0)));
    engine.resolve(Event::Positioned);
    assert!(matches!(engine.action(), Action::Read));
    engine.resolve(Event::Data(b"abc".to_vec()));
    assert!(matches!(engine.action(), Action::Write(b"==> /d/a <==\n")));
    engine.resolve(Event::Written);
    assert!(matches!(engine.action(), Action::Write(b"abc")));
    engine.resolve(Event::Written);
    assert!(matches!(engine.action(), Action::Read));
    assert_eq!(engine.file_state(&path("/d/a")), None);
    engine.resolve(Event::Data(Vec::new()));
    assert_eq!(engine.file_state(&path("/d//a")), Some(state(1, 3)));
    assert!(matches!(engine.action(), Action::Flush));
    let end = engine.resolve(Event::Flushed);
    assert!(matches!(end.finished, Some(Ok(()))));
    assert!(matches!(engine.action(), Action::Rest));
}

#[test]
fn event_that_was_not_asked_for_changes_nothing() {
    let mut engine = engine(OutputMode::Raw, true);
    let nothing = engine.resolve(Event::Written);
    assert!(nothing.report.is_none() && nothing.finished.is_none());
    engine.begin(vec![path("/d/a")], true);
    engine.resolve(Event::Data(b"abc".to_vec()));
    assert!(matches!(engine.action(), Action::Open(_)));
}

#[test]
fn failed_seek_and_read_keep_what_is_known() {
    let mut engine = engine(OutputMode::Raw, true);
    engine.initialize(vec![(
        path("/d/a"),
        Opening::Opened {
            identity: identity(1),
            length: 4,
        },
    )]);
    engine.begin(vec![path("/d/a")], true);
    engine.resolve(opened(1, 9));
    assert!(matches!(engine.action(), Action::Seek(4)));
    let told = engine.resolve(Event::SeekFailed(failure("no"))).report;
    assert_eq!(told, Some("tailfall: cannot seek /d/a: no".to_owned()));
    assert!(matches!(engine.action(), Action::Flush));
    engine.resolve(Event::Flushed);

    engine.begin(vec![path("/d/a")], true);
    engine.resolve(opened(1, 9));
    engine.resolve(Event::Positioned);
    engine.resolve(Event::Data(b"xyz".to_vec()));
    engine.resolve(Event::Written);
    let told = engine.resolve(Event::ReadFailed(failure("bad"))).report;
    assert_eq!(told, Some("tailfall: cannot read /d/a: bad".to_owned()));
    // The place is as it was before the pass, so the data comes again.
    assert_eq!(engine.file_state(&path("/d/a")), Some(state(1, 4)));
}

#[test]
fn failed_write_ends_the_pass() {
    for in_header in [true, false] {
        let mode = if in_header {
            OutputMode::Headers
        } else {
            OutputMode::Raw
        };
        let mut engine = engine(mode, false);
        engine.begin(vec![path("/d/a"), path("/d/b")], true);
        engine.resolve(opened(1, 3));
        engine.resolve(Event::Positioned);
        engine.resolve(Event::Data(b"abc".to_vec()));
        let end = engine.resolve(Event::WriteFailed(failure("full")));
        match end.finished {
            Some(Err(Error::Io(error))) => assert_eq!(error.message, "full"),
            other => panic!("{other:?}"),
        }
        assert!(matches!(engine.action(), Action::Rest));
    }
}

#[test]
fn failed_flush_is_handed_on() {
    let mut engine = engine(OutputMode::Raw, false);
    engine.begin(Vec::new(), true);
    assert!(matches!(engine.action(), Action::Flush));
    let end = engine.resolve(Event::FlushFailed(failure("pipe")));
    assert!(matches!(end.finished, Some(Err(Error::Io(_)))));
}

#[test]
fn room_ends_with_the_range_of_places() {
    let mut engine = engine(OutputMode::Raw, false);
    engine.initialize(vec![(
        path("/d/a"),
        Opening::Opened {
            identity: identity(1),
            length: u64::MAX - 2,
        },
    )]);
    engine.begin(vec![path("/d/a")], true);
    assert!(engine.has_room(5));
    engine.resolve(opened(1, u64::MAX));
    engine.resolve(Event::Positioned);
    assert!(engine.has_room(2));
    assert!(!engine.has_room(3));
}
