//! Following the files of a disk that is kept in memory.

use std::collections::{BTreeMap, BTreeSet};

use tailfall::engine::{Action, Event, TailEngine};
use tailfall::error::{Error, IoError, IoErrorKind};
use tailfall::event::{
    event_requires_reconciliation, CreateKind, EventKind, ModifyKind, RemoveKind,
};
use tailfall::follow::{FileIdentity, FileState, Opening, OutputMode};
use tailfall::path::FilePath;
use tailfall::walk::{FileKind, Walk, WalkAction, WalkEvent};
use tailfall::watch::WatchSpec;

const ROOT: &str = "/watched";

fn path(text: &str) -> FilePath {
    FilePath::new(text.as_bytes().to_vec())
}

fn text_of(path: &FilePath) -> String {
    String::from_utf8(path.text().to_vec()).expect("UTF-8 path")
}

fn failure(kind: IoErrorKind, message: &str) -> IoError {
    IoError {
        kind,
        message: message.to_owned(),
    }
}

#[derive(Clone, Debug)]
struct Content {
    inode: u64,
    bytes: Vec<u8>,
}

/// Directories and files under their full paths.
#[derive(Default)]
struct Disk {
    directories: BTreeSet<String>,
    files: BTreeMap<String, Content>,
    links: BTreeSet<String>,
    forbidden: BTreeSet<String>,
    broken: BTreeSet<String>,
    inodes: u64,
}

impl Disk {
    fn new() -> Disk {
        let mut disk = Disk::default();
        disk.directories.insert("/".to_owned());
        disk.directories.insert(ROOT.to_owned());
        disk
    }

    fn make_directory(&mut self, name: &str) {
        self.directories.insert(format!("{ROOT}/{name}"));
    }

    /// Writes a file anew: the same file if there is one, as a shell redirection does.
    fn write(&mut self, name: &str, bytes: &[u8]) {
        let full = format!("{ROOT}/{name}");
        if let Some(content) = self.files.get_mut(&full) {
            content.bytes = bytes.to_vec();
            return;
        }
        self.inodes += 1;
        let inode = self.inodes;
        self.files.insert(
            full,
            Content {
                inode,
                bytes: bytes.to_vec(),
            },
        );
    }

    fn append(&mut self, name: &str, bytes: &[u8]) {
        let full = format!("{ROOT}/{name}");
        let content = self.files.get_mut(&full).expect("a file to append to");
        content.bytes.extend_from_slice(bytes);
    }

    fn remove(&mut self, name: &str) {
        self.files.remove(&format!("{ROOT}/{name}"));
    }

    fn spec(&self, operand: &str) -> Result<WatchSpec, Error> {
        let directories = self.directories.clone();
        let probe = move |path: &FilePath| directories.contains(&text_of(path));
        WatchSpec::from_operand(Some(path(operand)), Ok(path("/")), &probe)
    }

    fn names_in(&self, directory: &str) -> Vec<(String, Result<FileKind, IoError>)> {
        let lead = format!("{directory}/");
        let mut found = Vec::new();
        let direct = |full: &String| {
            full.strip_prefix(lead.as_str())
                .filter(|rest| !rest.contains('/'))
                .map(str::to_owned)
        };
        // Not in order on purpose.
        for full in self.files.keys().rev() {
            if let Some(name) = direct(full) {
                let kind = if self.broken.contains(full) {
                    Err(failure(IoErrorKind::Other, "stale"))
                } else if self.links.contains(full) {
                    Ok(FileKind::Other)
                } else {
                    Ok(FileKind::File)
                };
                found.push((name, kind));
            }
        }
        for full in &self.directories {
            if let Some(name) = direct(full) {
                found.push((name, Ok(FileKind::Directory)));
            }
        }
        found
    }

    fn matching_paths(&self, spec: &WatchSpec, verbose: bool) -> (Vec<FilePath>, Vec<String>) {
        let (paths, _, reports) = self.search(spec, verbose);
        (paths, reports)
    }

    /// The paths that are found, whether the search was complete, and what is told about it.
    fn search(&self, spec: &WatchSpec, verbose: bool) -> (Vec<FilePath>, bool, Vec<String>) {
        let mut walk = Walk::new(spec, verbose);
        let mut reports = Vec::new();
        let mut listings: Vec<Vec<(String, Result<FileKind, IoError>)>> = Vec::new();
        loop {
            let event = match walk.action() {
                WalkAction::Finished => break,
                WalkAction::ReadDirectory(directory) => {
                    let directory = text_of(directory);
                    if self.forbidden.contains(&directory) {
                        WalkEvent::DirectoryFailed(failure(IoErrorKind::Other, "denied"))
                    } else {
                        listings.push(self.names_in(&directory));
                        WalkEvent::DirectoryOpened
                    }
                }
                WalkAction::NextEntry => {
                    let listing = listings.last_mut().expect("an open listing");
                    match listing.pop() {
                        Some((name, kind)) => WalkEvent::Entry {
                            name: name.into_bytes(),
                            kind,
                        },
                        None => {
                            listings.pop();
                            WalkEvent::DirectoryEnd
                        }
                    }
                }
            };
            reports.extend(walk.resolve(event));
        }
        let complete = walk.is_complete();
        (walk.matching_paths(), complete, reports)
    }

    fn open(&self, path: &FilePath) -> Opening {
        let full = text_of(path);
        if self.forbidden.contains(&full) {
            return Opening::OpenFailed(failure(IoErrorKind::Other, "denied"));
        }
        match self.files.get(&full) {
            Some(content) => Opening::Opened {
                identity: FileIdentity {
                    device: 1,
                    inode: content.inode,
                },
                length: content.bytes.len() as u64,
            },
            None => Opening::OpenFailed(failure(IoErrorKind::NotFound, "no such file")),
        }
    }
}

struct Follower {
    engine: TailEngine,
    output: Vec<u8>,
    reports: Vec<String>,
    chunk: usize,
}

impl Follower {
    fn new(disk: &Disk, operand: &str, mode: OutputMode) -> Follower {
        Follower::with(disk, operand, mode, false)
    }

    fn with(disk: &Disk, operand: &str, mode: OutputMode, verbose: bool) -> Follower {
        let spec = disk.spec(operand).expect("a valid operand");
        Follower {
            engine: TailEngine::new(spec, mode, verbose),
            output: Vec::new(),
            reports: Vec::new(),
            chunk: 4,
        }
    }

    fn initialize(&mut self, disk: &Disk) {
        let (paths, reports) = disk.matching_paths(self.engine.spec(), false);
        assert!(reports.is_empty());
        let found = paths
            .into_iter()
            .map(|path| {
                let opening = disk.open(&path);
                (path, opening)
            })
            .collect();
        let reports = self.engine.initialize(found);
        self.reports.extend(reports);
    }

    fn reconcile(&mut self, disk: &Disk) -> Result<(), Error> {
        let (paths, complete, _) = disk.search(self.engine.spec(), false);
        self.engine.begin(paths, complete);
        let mut current = String::new();
        let mut position: usize = 0;
        loop {
            let event = match self.engine.action() {
                Action::Rest => panic!("the pass has no end"),
                Action::Open(path) => {
                    current = text_of(path);
                    Event::Opened(disk.open(path))
                }
                Action::Seek(place) => {
                    position = place as usize;
                    Event::Positioned
                }
                Action::Read => {
                    let bytes = &disk.files[&current].bytes;
                    let end = bytes.len().min(position + self.chunk);
                    let chunk = bytes[position..end].to_vec();
                    position = end;
                    assert!(self.engine.has_room(chunk.len()));
                    Event::Data(chunk)
                }
                Action::Write(bytes) => {
                    self.output.extend_from_slice(bytes);
                    Event::Written
                }
                Action::Flush => Event::Flushed,
            };
            let consequence = self.engine.resolve(event);
            self.reports.extend(consequence.report);
            if let Some(result) = consequence.finished {
                return result;
            }
        }
    }

    fn text(&self) -> String {
        String::from_utf8(self.output.clone()).expect("UTF-8 test output")
    }
}

#[test]
fn irrelevant_watcher_events_are_filtered() {
    assert!(!event_requires_reconciliation(EventKind::Access, false));
    assert!(!event_requires_reconciliation(
        EventKind::Modify(ModifyKind::Metadata),
        false,
    ));
    assert!(!event_requires_reconciliation(
        EventKind::Create(CreateKind::Folder),
        false,
    ));
    assert!(!event_requires_reconciliation(
        EventKind::Remove(RemoveKind::Folder),
        false,
    ));
    assert!(event_requires_reconciliation(
        EventKind::Create(CreateKind::Folder),
        true,
    ));
    assert!(event_requires_reconciliation(
        EventKind::Modify(ModifyKind::Data),
        false,
    ));
    assert!(event_requires_reconciliation(
        EventKind::Modify(ModifyKind::Name),
        false,
    ));
    assert!(event_requires_reconciliation(EventKind::Other, false));
}

#[test]
fn existing_file_starts_at_end_and_appends_are_emitted() {
    let mut disk = Disk::new();
    disk.write("application.log", b"old\n");
    let mut follower = Follower::new(&disk, ROOT, OutputMode::Raw);

    follower.initialize(&disk);
    assert!(follower.output.is_empty());

    disk.append("application.log", b"new\n");
    follower.reconcile(&disk).unwrap();
    assert_eq!(follower.text(), "new\n");
}

#[test]
fn new_file_is_read_from_the_beginning() {
    let mut disk = Disk::new();
    let mut follower = Follower::new(&disk, ROOT, OutputMode::Raw);
    follower.initialize(&disk);

    disk.write("new.log", b"created\n");
    follower.reconcile(&disk).unwrap();
    assert_eq!(follower.text(), "created\n");
}

#[test]
fn startup_file_that_could_not_be_opened_starts_at_end() {
    let mut disk = Disk::new();
    disk.write("existing.log", b"old\n");
    disk.forbidden.insert(format!("{ROOT}/existing.log"));

    let mut follower = Follower::new(&disk, "/watched/*.log", OutputMode::Raw);
    follower.initialize(&disk);
    assert_eq!(
        follower.engine.file_state(&path("/watched/existing.log")),
        None
    );
    disk.forbidden.clear();
    follower.reconcile(&disk).unwrap();

    assert!(follower.output.is_empty());
}

#[test]
fn headers_can_be_disabled() {
    let mut disk = Disk::new();
    disk.write("application.log", b"old");
    let mut follower = Follower::new(&disk, ROOT, OutputMode::Headers);
    follower.initialize(&disk);
    disk.write("application.log", b"oldnew");
    follower.reconcile(&disk).unwrap();

    assert!(follower.text().contains("==> "));
    assert!(follower.text().ends_with("new"));
    assert_eq!(follower.text(), "==> /watched/application.log <==\nnew");

    let mut raw = Follower::new(&disk, ROOT, OutputMode::Raw);
    raw.initialize(&disk);
    disk.append("application.log", b"er");
    raw.reconcile(&disk).unwrap();
    assert_eq!(raw.text(), "er");
}

#[test]
fn headers_are_repeated_only_when_output_switches_files() {
    let mut disk = Disk::new();
    disk.write("first.log", b"old");
    disk.write("second.log", b"old");
    let mut follower = Follower::new(&disk, ROOT, OutputMode::Headers);
    follower.initialize(&disk);

    disk.append("first.log", b"first\n");
    follower.reconcile(&disk).unwrap();
    disk.append("first.log", b"second\n");
    follower.reconcile(&disk).unwrap();
    assert_eq!(follower.text().matches("==> ").count(), 1);

    disk.append("second.log", b"other\n");
    follower.reconcile(&disk).unwrap();
    assert_eq!(follower.text().matches("==> ").count(), 2);

    disk.append("first.log", b"third\n");
    follower.reconcile(&disk).unwrap();
    assert_eq!(follower.text().matches("==> ").count(), 3);
    assert_eq!(
        follower.text(),
        "==> /watched/first.log <==\nfirst\nsecond\n\
         ==> /watched/second.log <==\nother\n\
         ==> /watched/first.log <==\nthird\n"
    );
}

#[test]
fn truncation_resets_the_offset() {
    let mut disk = Disk::new();
    disk.write("application.log", b"old contents");
    let mut follower = Follower::new(&disk, ROOT, OutputMode::Raw);
    follower.initialize(&disk);

    disk.write("application.log", b"replacement");
    follower.reconcile(&disk).unwrap();
    assert_eq!(follower.text(), "replacement");
}

#[test]
fn replacement_file_is_followed_from_zero() {
    let mut disk = Disk::new();
    disk.write("application.log", b"old contents");
    let mut follower = Follower::new(&disk, ROOT, OutputMode::Raw);
    follower.initialize(&disk);

    disk.remove("application.log");
    disk.write("application.log", b"replacement");
    follower.reconcile(&disk).unwrap();
    assert_eq!(follower.text(), "replacement");
}

#[test]
fn longer_replacement_is_followed_from_zero() {
    let mut disk = Disk::new();
    disk.write("application.log", b"old");
    let mut follower = Follower::new(&disk, ROOT, OutputMode::Raw);
    follower.initialize(&disk);

    disk.remove("application.log");
    disk.write("application.log", b"old and longer");
    follower.reconcile(&disk).unwrap();
    assert_eq!(follower.text(), "old and longer");
}

#[test]
fn glob_matches_only_requested_files() {
    let mut disk = Disk::new();
    disk.write("one.log", b"one");
    disk.write("two.txt", b"two");
    let mut follower = Follower::new(&disk, "/watched/*.log", OutputMode::Raw);
    follower.initialize(&disk);

    disk.append("one.log", b"-new");
    disk.append("two.txt", b"-new");
    follower.reconcile(&disk).unwrap();
    assert_eq!(follower.text(), "-new");
}

#[test]
fn explicit_recursive_glob_reaches_nested_files() {
    let mut disk = Disk::new();
    disk.make_directory("nested");
    disk.write("nested/application.log", b"old");
    let mut follower = Follower::new(&disk, "/watched/**/*.log", OutputMode::Raw);
    follower.initialize(&disk);

    disk.write("nested/application.log", b"oldnew");
    follower.reconcile(&disk).unwrap();
    assert_eq!(follower.text(), "new");
}

#[test]
fn directory_operand_does_not_recurse() {
    let mut disk = Disk::new();
    disk.make_directory("nested");
    disk.write("nested/application.log", b"old");
    let mut follower = Follower::new(&disk, ROOT, OutputMode::Raw);
    follower.initialize(&disk);

    disk.write("nested/application.log", b"oldnew");
    follower.reconcile(&disk).unwrap();
    assert!(follower.output.is_empty());
}

#[test]
fn inaccessible_recursive_directory_is_skipped() {
    let mut disk = Disk::new();
    disk.write("accessible.log", b"accessible");
    disk.make_directory("inaccessible");
    disk.write("inaccessible/hidden.log", b"hidden");
    disk.forbidden.insert(format!("{ROOT}/inaccessible"));

    let spec = disk.spec("/watched/**/*.log").unwrap();
    let (paths, reports) = disk.matching_paths(&spec, false);
    let paths: Vec<String> = paths.iter().map(text_of).collect();

    assert!(paths.iter().any(|path| path.ends_with("accessible.log")));
    assert!(!paths.iter().any(|path| path.ends_with("hidden.log")));
    assert!(reports.is_empty());

    let (_, reports) = disk.matching_paths(&spec, true);
    assert_eq!(
        reports,
        ["tailfall: cannot read directory /watched/inaccessible: denied"]
    );
}

#[test]
fn walk_sorts_and_leaves_links_alone() {
    let mut disk = Disk::new();
    disk.make_directory("b");
    disk.write("c", b"");
    disk.write("b/z", b"");
    disk.write("b.a", b"");
    disk.write("link", b"");
    disk.links.insert(format!("{ROOT}/link"));
    let spec = disk.spec("/watched/**").unwrap();
    let (paths, _) = disk.matching_paths(&spec, false);
    let paths: Vec<String> = paths.iter().map(text_of).collect();
    // By component: `b` comes before `b.a`, so what lies in `b` comes first.
    assert_eq!(paths, ["/watched/b/z", "/watched/b.a", "/watched/c"]);
}

#[test]
fn entry_of_unknown_kind_is_skipped() {
    let mut disk = Disk::new();
    disk.write("good", b"");
    disk.write("odd", b"");
    disk.broken.insert(format!("{ROOT}/odd"));
    let spec = disk.spec(ROOT).unwrap();
    let (paths, reports) = disk.matching_paths(&spec, true);
    let paths: Vec<String> = paths.iter().map(text_of).collect();
    assert_eq!(paths, ["/watched/good"]);
    assert_eq!(reports, ["tailfall: cannot inspect /watched/odd: stale"]);
}

#[test]
fn appended_data_is_written_once_over_many_passes() {
    let mut disk = Disk::new();
    disk.write("a.log", b"before");
    let mut follower = Follower::new(&disk, ROOT, OutputMode::Raw);
    follower.initialize(&disk);
    let mut expected = String::new();
    for round in 0..20 {
        if round % 3 != 2 {
            let line = format!("line {round} of the log\n");
            disk.append("a.log", line.as_bytes());
            expected.push_str(&line);
        }
        follower.chunk = 1 + round;
        follower.reconcile(&disk).unwrap();
        assert_eq!(follower.text(), expected);
    }
    assert_eq!(
        follower.engine.file_state(&path("/watched/a.log")),
        Some(FileState {
            identity: FileIdentity {
                device: 1,
                inode: 1
            },
            offset: disk.files["/watched/a.log"].bytes.len() as u64,
        })
    );
}

#[test]
fn file_that_comes_back_is_read_from_the_beginning() {
    let mut disk = Disk::new();
    disk.write("old.log", b"old");
    let mut follower = Follower::new(&disk, ROOT, OutputMode::Raw);
    follower.initialize(&disk);
    disk.write("late.log", b"late");
    follower.reconcile(&disk).unwrap();
    assert_eq!(follower.text(), "late");

    disk.remove("old.log");
    disk.remove("late.log");
    follower.reconcile(&disk).unwrap();
    assert_eq!(follower.engine.file_state(&path("/watched/old.log")), None);
    assert_eq!(follower.engine.file_state(&path("/watched/late.log")), None);

    disk.write("old.log", b"-first");
    disk.write("late.log", b"-second");
    follower.reconcile(&disk).unwrap();
    assert_eq!(follower.text(), "late-second-first");
}

#[test]
fn rotated_startup_file_is_read_from_the_beginning() {
    let mut disk = Disk::new();
    disk.write("a.log", b"old\n");
    let mut follower = Follower::new(&disk, ROOT, OutputMode::Raw);
    follower.initialize(&disk);
    disk.remove("a.log");
    follower.reconcile(&disk).unwrap();
    disk.write("a.log", b"new\n");
    follower.reconcile(&disk).unwrap();
    assert_eq!(follower.text(), "new\n");
}

#[test]
fn failed_listing_replays_nothing() {
    let mut disk = Disk::new();
    disk.write("a.log", b"old");
    disk.write("b.log", b"old");
    let mut follower = Follower::new(&disk, ROOT, OutputMode::Raw);
    follower.initialize(&disk);

    disk.forbidden.insert(ROOT.to_owned());
    follower.reconcile(&disk).unwrap();
    disk.forbidden.clear();
    follower.reconcile(&disk).unwrap();
    assert!(follower.output.is_empty());

    disk.append("a.log", b"-new");
    follower.reconcile(&disk).unwrap();
    assert_eq!(follower.text(), "-new");

    // Once a complete search misses it, the path is a new one.
    disk.remove("b.log");
    follower.reconcile(&disk).unwrap();
    disk.write("b.log", b"-again");
    follower.reconcile(&disk).unwrap();
    assert_eq!(follower.text(), "-new-again");
}

#[test]
fn failed_listing_of_a_nested_directory_replays_nothing() {
    let mut disk = Disk::new();
    disk.make_directory("nested");
    disk.write("nested/a.log", b"old");
    let mut follower = Follower::new(&disk, "/watched/**/*.log", OutputMode::Raw);
    follower.initialize(&disk);
    disk.forbidden.insert(format!("{ROOT}/nested"));
    follower.reconcile(&disk).unwrap();
    disk.forbidden.clear();
    follower.reconcile(&disk).unwrap();
    assert!(follower.output.is_empty());
}

#[test]
fn entry_whose_kind_is_lost_for_a_pass_is_not_replayed() {
    let mut disk = Disk::new();
    disk.write("a.log", b"old");
    let mut follower = Follower::new(&disk, ROOT, OutputMode::Raw);
    follower.initialize(&disk);
    disk.broken.insert(format!("{ROOT}/a.log"));
    follower.reconcile(&disk).unwrap();
    disk.broken.clear();
    follower.reconcile(&disk).unwrap();
    assert!(follower.output.is_empty());
}

#[test]
fn search_is_complete_unless_something_cannot_be_read() {
    let mut disk = Disk::new();
    disk.make_directory("nested");
    disk.write("a.log", b"");
    let all = disk.spec("/watched/**").unwrap();
    let direct = disk.spec(ROOT).unwrap();
    assert!(disk.search(&all, false).1);

    disk.forbidden.insert(format!("{ROOT}/nested"));
    assert!(!disk.search(&all, false).1);
    // Nothing is looked for there.
    assert!(disk.search(&direct, false).1);

    disk.forbidden.clear();
    disk.broken.insert(format!("{ROOT}/a.log"));
    assert!(!disk.search(&direct, false).1);

    let mut walk = Walk::new(&direct, true);
    walk.resolve(WalkEvent::DirectoryOpened);
    assert!(walk.is_complete());
    let told = walk.resolve(WalkEvent::EntryFailed(failure(IoErrorKind::Other, "lost")));
    assert_eq!(
        told,
        Some("tailfall: cannot inspect directory entry /watched: lost".to_owned())
    );
    assert!(!walk.is_complete());
    walk.resolve(WalkEvent::DirectoryEnd);
    assert!(!walk.is_complete());
    assert!(matches!(walk.action(), WalkAction::Finished));
}

#[test]
fn startup_file_stays_unread_while_it_cannot_be_opened() {
    let mut disk = Disk::new();
    disk.write("a.log", b"old");
    disk.forbidden.insert(format!("{ROOT}/a.log"));
    let mut follower = Follower::new(&disk, ROOT, OutputMode::Raw);
    follower.initialize(&disk);
    follower.reconcile(&disk).unwrap();
    follower.reconcile(&disk).unwrap();
    disk.forbidden.clear();
    follower.reconcile(&disk).unwrap();
    disk.append("a.log", b"-new");
    follower.reconcile(&disk).unwrap();
    assert_eq!(follower.text(), "-new");
}

#[test]
fn unreadable_files_are_told_only_on_demand() {
    let mut disk = Disk::new();
    disk.write("a.log", b"a");
    disk.write("b.log", b"b");
    disk.forbidden.insert(format!("{ROOT}/a.log"));
    for verbose in [false, true] {
        let mut follower = Follower::with(&disk, ROOT, OutputMode::Raw, verbose);
        follower.initialize(&disk);
        follower.reconcile(&disk).unwrap();
        assert!(follower.output.is_empty());
        let line = "tailfall: cannot open /watched/a.log: denied";
        if verbose {
            assert_eq!(follower.reports, [line, line]);
        } else {
            assert!(follower.reports.is_empty());
        }
    }
}

#[test]
fn pass_writes_every_file_in_order() {
    let mut disk = Disk::new();
    let mut follower = Follower::new(&disk, ROOT, OutputMode::Headers);
    follower.initialize(&disk);
    disk.write("b", b"of b");
    disk.write("a", b"of a\n");
    disk.write("empty", b"");
    disk.write("c", b"of c, long enough for chunks");
    follower.reconcile(&disk).unwrap();
    assert_eq!(
        follower.text(),
        "==> /watched/a <==\nof a\n==> /watched/b <==\nof b\
         ==> /watched/c <==\nof c, long enough for chunks"
    );
}
