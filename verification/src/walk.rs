//! The walk through the directories in which files are watched.
//!
//! The walk performs no system call. It says what to do next, and is told what came of it.

use vstd::prelude::*;

use crate::error::IoError;
use crate::order;
use crate::order::sort_paths;
use crate::path;
use crate::path::FilePath;
use crate::report;
use crate::report::report_path_error;
use crate::watch::WatchSpec;

verus! {

/// What an entry of a directory is. A symbolic link is neither a file nor a directory.
#[derive(Clone, Copy, Debug, PartialEq, Eq, Structural)]
pub enum FileKind {
    File,
    Directory,
    Other,
}

/// What the walk asks for.
#[derive(Debug)]
pub enum WalkAction<'a> {
    /// To start listing a directory.
    ReadDirectory(&'a FilePath),
    /// To take the next entry of the directory whose listing was started last.
    NextEntry,
    /// Nothing more.
    Finished,
}

/// What came of it.
#[derive(Debug)]
pub enum WalkEvent {
    /// The listing of the directory has been started.
    DirectoryOpened,
    /// The directory cannot be listed.
    DirectoryFailed(IoError),
    /// An entry with the given name, and its kind if that can be told.
    Entry { name: Vec<u8>, kind: Result<FileKind, IoError> },
    /// An entry cannot be read.
    EntryFailed(IoError),
    /// The directory has no more entries.
    DirectoryEnd,
}

/// An event without the words that come with failures.
pub enum Seen {
    Opened,
    Unreadable,
    Entry { name: Seq<u8>, kind: Option<FileKind> },
    Broken,
    End,
}

impl View for WalkEvent {
    type V = Seen;

    open spec fn view(&self) -> Seen {
        match self {
            WalkEvent::DirectoryOpened => Seen::Opened,
            WalkEvent::DirectoryFailed(_) => Seen::Unreadable,
            WalkEvent::Entry { name, kind } => Seen::Entry {
                name: name@,
                kind: match kind {
                    Ok(known) => Some(*known),
                    Err(_) => None,
                },
            },
            WalkEvent::EntryFailed(_) => Seen::Broken,
            WalkEvent::DirectoryEnd => Seen::End,
        }
    }
}

/// How far a walk has come: the directory that is to be listed next, the directories that are being
/// listed from the outermost to the innermost, the paths that were found, and whether everything that
/// was asked for could be read.
#[verifier::ext_equal]
pub struct Progress {
    pub opening: Option<Seq<u8>>,
    pub open: Seq<Seq<u8>>,
    pub found: Seq<Seq<u8>>,
    pub complete: bool,
}

/// How an event moves a walk on. An event that does not answer what the walk asked for moves
/// nothing.
pub open spec fn advanced(spec: WatchSpec, before: Progress, seen: Seen) -> Progress {
    if let Some(directory) = before.opening {
        match seen {
            Seen::Opened => Progress { opening: None, open: before.open.push(directory), ..before },
            Seen::Unreadable => Progress { opening: None, complete: false, ..before },
            _ => before,
        }
    } else if before.open.len() > 0 {
        match seen {
            Seen::Entry { name, kind } => {
                let path = path::join(before.open.last(), name);
                if kind == Some(FileKind::File) && spec.accepts(path) {
                    Progress { found: before.found.push(path), ..before }
                } else if kind == Some(FileKind::Directory) && spec.is_recursive() {
                    Progress { opening: Some(path), ..before }
                } else if kind is None {
                    Progress { complete: false, ..before }
                } else {
                    before
                }
            },
            Seen::Broken => Progress { complete: false, ..before },
            Seen::End => Progress { open: before.open.drop_last(), ..before },
            _ => before,
        }
    } else {
        before
    }
}

/// What is told about an event: the failures that answer what the walk asked for.
pub open spec fn told(before: Progress, event: WalkEvent) -> Option<Seq<char>> {
    match event {
        WalkEvent::DirectoryFailed(error) => match before.opening {
            Some(directory) => Some(
                report::report_text(directory, "read directory"@, error.message@),
            ),
            None => None,
        },
        WalkEvent::EntryFailed(error) => if before.opening is None && before.open.len() > 0 {
            Some(
                report::report_text(
                    before.open.last(),
                    "inspect directory entry"@,
                    error.message@,
                ),
            )
        } else {
            None
        },
        WalkEvent::Entry { name, kind: Err(error) } => if before.opening is None
            && before.open.len() > 0 {
            Some(
                report::report_text(
                    path::join(before.open.last(), name@),
                    "inspect"@,
                    error.message@,
                ),
            )
        } else {
            None
        },
        _ => None,
    }
}

/// A walk through the directories in which files are watched.
#[derive(Debug)]
pub struct Walk<'a> {
    spec: &'a WatchSpec,
    verbose: bool,
    opening: Option<FilePath>,
    open: Vec<FilePath>,
    found: Vec<FilePath>,
    complete: bool,
}

impl<'a> View for Walk<'a> {
    type V = Progress;

    closed spec fn view(&self) -> Progress {
        Progress {
            opening: match self.opening {
                Some(directory) => Some(directory@),
                None => None,
            },
            open: order::texts(self.open@),
            found: order::texts(self.found@),
            complete: self.complete,
        }
    }
}

impl<'a> Walk<'a> {
    /// What the walk looks for.
    pub closed spec fn target(self) -> WatchSpec {
        *self.spec
    }

    /// Whether failures are told.
    pub closed spec fn is_verbose(self) -> bool {
        self.verbose
    }

    /// A walk that starts at the root of what is watched.
    pub fn new(spec: &'a WatchSpec, verbose: bool) -> (walk: Walk<'a>)
        ensures
            walk.target() == *spec,
            walk.is_verbose() == verbose,
            walk@ == (Progress {
                opening: Some(spec.root_text()),
                open: Seq::empty(),
                found: Seq::empty(),
                complete: true,
            }),
    {
        let walk: Walk<'a> = Walk {
            spec,
            verbose,
            opening: Some(spec.root().clone()),
            open: Vec::new(),
            found: Vec::new(),
            complete: true,
        };
        assert(walk@.open =~= Seq::empty());
        assert(walk@.found =~= Seq::empty());
        walk
    }

    /// What to do next.
    pub fn action(&self) -> (action: WalkAction<'_>)
        ensures
            match self@.opening {
                Some(directory) => action matches WalkAction::ReadDirectory(path) && path@
                    == directory,
                None => if self@.open.len() > 0 {
                    action is NextEntry
                } else {
                    action is Finished
                },
            },
    {
        match &self.opening {
            Some(directory) => WalkAction::ReadDirectory(directory),
            None => if self.open.len() > 0 {
                WalkAction::NextEntry
            } else {
                WalkAction::Finished
            },
        }
    }

    /// Takes what came of the last action. What it gives back is to be told.
    pub fn resolve(&mut self, event: WalkEvent) -> (report: Option<String>)
        ensures
            final(self).target() == old(self).target(),
            final(self).is_verbose() == old(self).is_verbose(),
            final(self)@ == advanced(old(self).target(), old(self)@, event@),
            report is Some <==> old(self).is_verbose() && told(old(self)@, event) is Some,
            report matches Some(line) ==> Some(line@) == told(old(self)@, event),
    {
        let ghost before = self@;
        if self.opening.is_some() {
            return self.resolve_opening(event);
        }
        let depth: usize = self.open.len();
        if depth == 0 {
            return None;
        }
        match event {
            WalkEvent::Entry { name, kind } => {
                let path: FilePath = self.open[depth - 1].join(name.as_slice());
                assert(path@ == path::join(before.open.last(), name@));
                match kind {
                    Ok(FileKind::File) => {
                        if self.spec.is_match(&path) {
                            self.found.push(path);
                            assert(self@.found =~= before.found.push(path@));
                        }
                        None
                    },
                    Ok(FileKind::Directory) => {
                        if self.spec.searches_below() {
                            self.opening = Some(path);
                        }
                        None
                    },
                    Ok(FileKind::Other) => None,
                    Err(error) => {
                        self.complete = false;
                        report_path_error(self.verbose, &path, "inspect", &error)
                    },
                }
            },
            WalkEvent::EntryFailed(error) => {
                assert(self.open@[depth - 1]@ == before.open.last());
                self.complete = false;
                report_path_error(
                    self.verbose,
                    &self.open[depth - 1],
                    "inspect directory entry",
                    &error,
                )
            },
            WalkEvent::DirectoryEnd => {
                let _ = self.open.pop();
                assert(self@.open =~= before.open.drop_last());
                None
            },
            _ => None,
        }
    }

    fn resolve_opening(&mut self, event: WalkEvent) -> (report: Option<String>)
        requires
            old(self)@.opening is Some,
        ensures
            final(self).target() == old(self).target(),
            final(self).is_verbose() == old(self).is_verbose(),
            final(self)@ == advanced(old(self).target(), old(self)@, event@),
            report is Some <==> old(self).is_verbose() && told(old(self)@, event) is Some,
            report matches Some(line) ==> Some(line@) == told(old(self)@, event),
    {
        let ghost before = self@;
        match event {
            WalkEvent::DirectoryOpened => {
                match self.opening.take() {
                    Some(directory) => {
                        self.open.push(directory);
                        assert(self@.open =~= before.open.push(before.opening->0));
                    },
                    None => {},
                }
                None
            },
            WalkEvent::DirectoryFailed(error) => match self.opening.take() {
                Some(directory) => {
                    self.complete = false;
                    report_path_error(self.verbose, &directory, "read directory", &error)
                },
                None => None,
            },
            _ => None,
        }
    }

    /// Whether everything that was asked for could be read. Otherwise files may be there that were
    /// not found.
    pub fn is_complete(&self) -> (complete: bool)
        ensures
            complete == self@.complete,
    {
        self.complete
    }

    /// The paths that were found, in order.
    pub fn matching_paths(self) -> (paths: Vec<FilePath>)
        ensures
            order::is_sorted(order::texts(paths@)),
            order::texts(paths@).to_multiset() == self@.found.to_multiset(),
    {
        sort_paths(self.found)
    }
}

} // verus!
