//! The engine that follows files.
//!
//! The engine performs no system call. During a pass it says what to do next, and is told what came
//! of it.

use vstd::prelude::*;

use crate::error::{Error, IoError};
use crate::follow;
use crate::follow::{
    header,
    open_at_end,
    report_opening,
    start_offset,
    FileIdentity,
    FileState,
    Opening,
    OutputMode,
};
use crate::order;
use crate::path;
use crate::path::FilePath;
use crate::report;
use crate::report::report_path_error;
use crate::table;
use crate::table::PathMap;
use crate::watch::WatchSpec;

verus! {

/// What the engine asks for.
#[derive(Debug)]
pub enum Action<'a> {
    /// To open a file and look at it.
    Open(&'a FilePath),
    /// To go to a place in the file that was opened last.
    Seek(u64),
    /// To read on from there.
    Read,
    /// To write bytes out.
    Write(&'a [u8]),
    /// To hand on what was written.
    Flush,
    /// Nothing: no pass is under way.
    Rest,
}

/// What came of it.
#[derive(Debug)]
pub enum Event {
    Opened(Opening),
    Positioned,
    SeekFailed(IoError),
    /// Bytes that were read; none at the end of the file.
    Data(Vec<u8>),
    ReadFailed(IoError),
    Written,
    WriteFailed(IoError),
    Flushed,
    FlushFailed(IoError),
}

/// What follows from an event besides the next action: what is to be told, and how the pass ended
/// if it has.
#[derive(Debug)]
pub struct Consequence {
    pub report: Option<String>,
    pub finished: Option<Result<(), Error>>,
}

/// Where the work on a file of a pass stands.
#[derive(Debug)]
enum Step {
    Open,
    Seek { identity: FileIdentity, offset: u64 },
    Read { identity: FileIdentity, offset: u64 },
    Header { identity: FileIdentity, offset: u64, header: Vec<u8>, chunk: Vec<u8> },
    Chunk { identity: FileIdentity, offset: u64, chunk: Vec<u8> },
    Flush,
}

/// A pass over the files that were found: whether everything could be looked through for them, the
/// number of the file that is worked on, and the step.
#[derive(Debug)]
enum Pass {
    Idle,
    Busy { paths: Vec<FilePath>, complete: bool, next: usize, step: Step },
}

/// The step of a pass, without the header's text, which its path tells.
pub enum StepModel {
    Open,
    Seek { identity: FileIdentity, offset: u64 },
    Read { identity: FileIdentity, offset: u64 },
    Header { identity: FileIdentity, offset: u64, chunk: Seq<u8> },
    Chunk { identity: FileIdentity, offset: u64, chunk: Seq<u8> },
    Flush,
}

pub enum PassModel {
    Idle,
    Busy { paths: Seq<Seq<u8>>, complete: bool, next: int, step: StepModel },
}

/// An event without the words that come with failures.
pub enum Happened {
    Opened { identity: FileIdentity, length: u64 },
    NotOpened,
    Positioned,
    NotPositioned,
    Data(Seq<u8>),
    NotRead,
    Written,
    NotWritten,
    Flushed,
    NotFlushed,
}

impl View for Event {
    type V = Happened;

    open spec fn view(&self) -> Happened {
        match self {
            Event::Opened(Opening::Opened { identity, length }) => Happened::Opened {
                identity: *identity,
                length: *length,
            },
            Event::Opened(_) => Happened::NotOpened,
            Event::Positioned => Happened::Positioned,
            Event::SeekFailed(_) => Happened::NotPositioned,
            Event::Data(bytes) => Happened::Data(bytes@),
            Event::ReadFailed(_) => Happened::NotRead,
            Event::Written => Happened::Written,
            Event::WriteFailed(_) => Happened::NotWritten,
            Event::Flushed => Happened::Flushed,
            Event::FlushFailed(_) => Happened::NotFlushed,
        }
    }
}

/// What the engine knows: the state of the files that are followed, and the paths that were there at
/// the start and have not been found missing since, both under their components; the path whose data
/// was written last; and the pass.
pub struct EngineModel {
    pub output_mode: OutputMode,
    pub files: Map<Seq<Seq<u8>>, FileState>,
    pub startup: Set<Seq<Seq<u8>>>,
    pub last: Option<Seq<Seq<u8>>>,
    pub pass: PassModel,
}

impl EngineModel {
    /// The engine at the step that comes first for the file with the given number, or at the end of
    /// the pass: then the files that were not found are forgotten. So is that their paths were there
    /// at the start, unless they may be there still, since not everything could be looked through.
    pub open spec fn turned_to(
        self,
        paths: Seq<Seq<u8>>,
        complete: bool,
        next: int,
    ) -> EngineModel {
        if next < paths.len() {
            EngineModel {
                pass: PassModel::Busy { paths, complete, next, step: StepModel::Open },
                ..self
            }
        } else {
            EngineModel {
                files: self.files.restrict(table::keys(paths)),
                startup: if complete {
                    self.startup.intersect(table::keys(paths))
                } else {
                    self.startup
                },
                pass: PassModel::Busy { paths, complete, next, step: StepModel::Flush },
                ..self
            }
        }
    }

    /// What is known of the file with the given path.
    pub open spec fn known(self, path: Seq<u8>) -> Option<FileState> {
        if self.files.contains_key(path::components(path)) {
            Some(self.files[path::components(path)])
        } else {
            None
        }
    }

    /// Whether data of the file with the given path has to be preceded by its name: where names are
    /// asked for, and the data that was written last is that of another file.
    pub open spec fn needs_header(self, path: Seq<u8>) -> bool {
        self.output_mode == OutputMode::Headers && self.last != Some(path::components(path))
    }

    /// How an event moves the engine on. An event that does not answer what the engine asked for
    /// moves nothing.
    pub open spec fn moved(self, happened: Happened) -> EngineModel {
        match self.pass {
            PassModel::Idle => self,
            PassModel::Busy { paths, complete, next, step } => {
                let path = paths[next];
                match (step, happened) {
                    (StepModel::Open, Happened::Opened { identity, length }) => self.at(
                        StepModel::Seek {
                            identity,
                            offset: follow::start_of(
                                self.known(path),
                                self.startup.contains(path::components(path)),
                                identity,
                                length,
                            ),
                        },
                    ),
                    (StepModel::Open, Happened::NotOpened) => self.turned_to(paths, complete, next + 1),
                    (StepModel::Seek { identity, offset }, Happened::Positioned) => self.at(
                        StepModel::Read { identity, offset },
                    ),
                    (StepModel::Seek { .. }, Happened::NotPositioned) => self.turned_to(paths, complete, next + 1),
                    (StepModel::Read { identity, offset }, Happened::Data(chunk)) => {
                        if chunk.len() == 0 {
                            EngineModel {
                                files: self.files.insert(
                                    path::components(path),
                                    FileState { identity, offset },
                                ),
                                ..self
                            }.turned_to(paths, complete, next + 1)
                        } else if self.needs_header(path) {
                            self.at(StepModel::Header { identity, offset, chunk })
                        } else {
                            self.at(StepModel::Chunk { identity, offset, chunk })
                        }
                    },
                    (StepModel::Read { .. }, Happened::NotRead) => self.turned_to(paths, complete, next + 1),
                    (StepModel::Header { identity, offset, chunk }, Happened::Written) => {
                        EngineModel { last: Some(path::components(path)), ..self }.at(
                            StepModel::Chunk { identity, offset, chunk },
                        )
                    },
                    (StepModel::Chunk { identity, offset, chunk }, Happened::Written) => self.at(
                        StepModel::Read { identity, offset: (offset + chunk.len()) as u64 },
                    ),
                    (StepModel::Header { .. }, Happened::NotWritten) => self.at_rest(),
                    (StepModel::Chunk { .. }, Happened::NotWritten) => self.at_rest(),
                    (StepModel::Flush, Happened::Flushed) => self.at_rest(),
                    (StepModel::Flush, Happened::NotFlushed) => self.at_rest(),
                    _ => self,
                }
            },
        }
    }

    /// The engine at another step for the same file.
    pub open spec fn at(self, step: StepModel) -> EngineModel {
        match self.pass {
            PassModel::Busy { paths, complete, next, .. } => EngineModel {
                pass: PassModel::Busy { paths, complete, next, step },
                ..self
            },
            PassModel::Idle => self,
        }
    }

    /// The engine without a pass.
    pub open spec fn at_rest(self) -> EngineModel {
        EngineModel { pass: PassModel::Idle, ..self }
    }

    /// Whether the place behind data that was read is a place in a file.
    pub open spec fn has_room(self, happened: Happened) -> bool {
        self.pass matches PassModel::Busy { step: StepModel::Read { offset, .. }, .. } ==> (
        happened matches Happened::Data(chunk) ==> offset + chunk.len() <= u64::MAX)
    }

    /// The path of the file that is worked on.
    pub open spec fn current(self) -> Seq<u8> {
        match self.pass {
            PassModel::Busy { paths, next, .. } => paths[next],
            PassModel::Idle => Seq::empty(),
        }
    }

    pub open spec fn is_at_open(self) -> bool {
        self.pass matches PassModel::Busy { step: StepModel::Open, .. }
    }

    pub open spec fn is_at_seek(self) -> bool {
        self.pass matches PassModel::Busy { step: StepModel::Seek { .. }, .. }
    }

    pub open spec fn is_at_read(self) -> bool {
        self.pass matches PassModel::Busy { step: StepModel::Read { .. }, .. }
    }

    pub open spec fn is_at_write(self) -> bool {
        ||| self.pass matches PassModel::Busy { step: StepModel::Header { .. }, .. }
        ||| self.pass matches PassModel::Busy { step: StepModel::Chunk { .. }, .. }
    }

    pub open spec fn is_at_flush(self) -> bool {
        self.pass matches PassModel::Busy { step: StepModel::Flush, .. }
    }

    /// What can be told about an event: the failures to open, look at, position and read a file.
    pub open spec fn told(self, event: Event) -> Option<Seq<char>> {
        match event {
            Event::Opened(opening) => if self.is_at_open() {
                follow::opening_report(self.current(), opening)
            } else {
                None
            },
            Event::SeekFailed(error) => if self.is_at_seek() {
                Some(report::report_text(self.current(), "seek"@, error.message@))
            } else {
                None
            },
            Event::ReadFailed(error) => if self.is_at_read() {
                Some(report::report_text(self.current(), "read"@, error.message@))
            } else {
                None
            },
            _ => None,
        }
    }

    /// How the pass ends with an event: well once everything was handed on, and at once where
    /// writing fails.
    pub open spec fn ended(self, event: Event) -> Option<Result<(), Error>> {
        match event {
            Event::WriteFailed(error) => if self.is_at_write() {
                Some(Err(Error::Io(error)))
            } else {
                None
            },
            Event::Flushed => if self.is_at_flush() {
                Some(Ok(()))
            } else {
                None
            },
            Event::FlushFailed(error) => if self.is_at_flush() {
                Some(Err(Error::Io(error)))
            } else {
                None
            },
            _ => None,
        }
    }
}

/// The files that are followed after a start: those that could be opened, from their ends on.
pub open spec fn started(
    files: Map<Seq<Seq<u8>>, FileState>,
    found: Seq<(FilePath, Opening)>,
) -> Map<Seq<Seq<u8>>, FileState>
    decreases found.len(),
{
    if found.len() == 0 {
        files
    } else {
        let before = started(files, found.drop_last());
        match follow::state_at_end(found.last().1) {
            Some(state) => before.insert(path::components(found.last().0@), state),
            None => before,
        }
    }
}

/// What can be told about a start.
pub open spec fn start_reports(found: Seq<(FilePath, Opening)>) -> Seq<Seq<char>>
    decreases found.len(),
{
    if found.len() == 0 {
        Seq::empty()
    } else {
        let before = start_reports(found.drop_last());
        match follow::opening_report(found.last().0@, found.last().1) {
            Some(line) => before.push(line),
            None => before,
        }
    }
}

/// The paths of a list of files that were opened.
pub open spec fn found_texts(found: Seq<(FilePath, Opening)>) -> Seq<Seq<u8>> {
    found.map_values(|pair: (FilePath, Opening)| pair.0@)
}

/// The words of a list of lines.
pub open spec fn lines(list: Seq<String>) -> Seq<Seq<char>> {
    list.map_values(|line: String| line@)
}

/// The engine that follows the files that a specification names.
#[derive(Debug)]
pub struct TailEngine {
    spec: WatchSpec,
    output_mode: OutputMode,
    verbose: bool,
    files: PathMap<FileState>,
    startup_paths: PathMap<()>,
    last_output_path: Option<FilePath>,
    pass: Pass,
}

spec fn step_model(step: Step) -> StepModel {
    match step {
        Step::Open => StepModel::Open,
        Step::Seek { identity, offset } => StepModel::Seek { identity, offset },
        Step::Read { identity, offset } => StepModel::Read { identity, offset },
        Step::Header { identity, offset, header, chunk } => StepModel::Header {
            identity,
            offset,
            chunk: chunk@,
        },
        Step::Chunk { identity, offset, chunk } => StepModel::Chunk {
            identity,
            offset,
            chunk: chunk@,
        },
        Step::Flush => StepModel::Flush,
    }
}

spec fn pass_model(pass: Pass) -> PassModel {
    match pass {
        Pass::Idle => PassModel::Idle,
        Pass::Busy { paths, complete, next, step } => PassModel::Busy {
            paths: order::texts(paths@),
            complete,
            next: next as int,
            step: step_model(step),
        },
    }
}

/// What holds of a pass between two events.
spec fn pass_well_formed(pass: Pass) -> bool {
    match pass {
        Pass::Idle => true,
        Pass::Busy { paths, next, step, .. } => match step {
            Step::Flush => next == paths@.len(),
            Step::Header { offset, header, chunk, .. } => next < paths@.len() && header@
                == follow::header_of(paths@[next as int]@) && offset + chunk@.len() <= u64::MAX,
            Step::Chunk { offset, chunk, .. } => next < paths@.len() && offset + chunk@.len()
                <= u64::MAX,
            _ => next < paths@.len(),
        },
    }
}

impl TailEngine {
    pub closed spec fn view(&self) -> EngineModel {
        EngineModel {
            output_mode: self.output_mode,
            files: self.files@,
            startup: self.startup_paths@.dom(),
            last: match self.last_output_path {
                Some(path) => Some(path::components(path@)),
                None => None,
            },
            pass: pass_model(self.pass),
        }
    }

    /// What the engine follows.
    pub closed spec fn target(&self) -> WatchSpec {
        self.spec
    }

    /// Whether failures are told.
    pub closed spec fn is_verbose(&self) -> bool {
        self.verbose
    }

    /// What holds of an engine between two calls.
    pub closed spec fn well_formed(&self) -> bool {
        self.files.well_formed() && self.startup_paths.well_formed() && pass_well_formed(self.pass)
    }

    /// An engine that follows no file yet.
    pub fn new(spec: WatchSpec, output_mode: OutputMode, verbose: bool) -> (engine: TailEngine)
        ensures
            engine.well_formed(),
            engine.target() == spec,
            engine.is_verbose() == verbose,
            engine@ == (EngineModel {
                output_mode,
                files: Map::empty(),
                startup: Set::empty(),
                last: None,
                pass: PassModel::Idle,
            }),
    {
        let engine: TailEngine = TailEngine {
            spec,
            output_mode,
            verbose,
            files: PathMap::new(),
            startup_paths: PathMap::new(),
            last_output_path: None,
            pass: Pass::Idle,
        };
        assert(engine@.startup =~= Set::empty());
        engine
    }

    /// What the engine follows.
    pub fn spec(&self) -> (spec: &WatchSpec)
        ensures
            *spec == self.target(),
    {
        &self.spec
    }

    /// What is known of a file that is followed.
    pub fn file_state(&self, path: &FilePath) -> (state: Option<FileState>)
        requires
            self.well_formed(),
        ensures
            state == self@.known(path@),
    {
        match self.files.get(path) {
            Some(state) => Some(*state),
            None => None,
        }
    }

    /// Takes the files that are there at the start, and what came of opening each of them. Each is
    /// followed from its end on. What is given back is to be told.
    pub fn initialize(&mut self, found: Vec<(FilePath, Opening)>) -> (reports: Vec<String>)
        requires
            old(self).well_formed(),
        ensures
            final(self).well_formed(),
            final(self).target() == old(self).target(),
            final(self).is_verbose() == old(self).is_verbose(),
            final(self)@ == (EngineModel {
                files: started(old(self)@.files, found@),
                startup: old(self)@.startup.union(table::keys(found_texts(found@))),
                ..old(self)@
            }),
            lines(reports@) == (if old(self).is_verbose() {
                start_reports(found@)
            } else {
                Seq::empty()
            }),
    {
        let ghost before = self@;
        let ghost told = self.verbose;
        let mut paths: Vec<FilePath> = Vec::new();
        let mut index: usize = 0;
        while index < found.len()
            invariant
                index <= found@.len(),
                paths@.len() == index,
                forall|i: int| 0 <= i < index ==> (#[trigger] paths@[i])@ == found@[i].0@,
            decreases found@.len() - index,
        {
            paths.push(found[index].0.clone());
            index = index + 1;
        }
        assert(order::texts(paths@) =~= found_texts(found@));
        self.startup_paths.extend(&paths);
        let mut reports: Vec<String> = Vec::new();
        let mut index: usize = 0;
        assert(found@.take(0) =~= Seq::empty());
        assert(lines(reports@) =~= Seq::empty());
        while index < found.len()
            invariant
                index <= found@.len(),
                self.well_formed(),
                self.spec == old(self).spec,
                self.verbose == told,
                self@ == (EngineModel {
                    files: started(before.files, found@.take(index as int)),
                    startup: before.startup.union(table::keys(found_texts(found@))),
                    ..before
                }),
                lines(reports@) == (if told {
                    start_reports(found@.take(index as int))
                } else {
                    Seq::empty()
                }),
            decreases found@.len() - index,
        {
            let ghost sofar = found@.take(index + 1);
            assert(sofar.drop_last() =~= found@.take(index as int));
            assert(sofar.last() == found@[index as int]);
            let ghost earlier = reports@;
            let result: (Option<FileState>, Option<String>) = open_at_end(
                self.verbose,
                &found[index].0,
                &found[index].1,
            );
            match result.0 {
                Some(state) => {
                    self.files.insert(found[index].0.clone(), state);
                },
                None => {},
            }
            match result.1 {
                Some(line) => {
                    reports.push(line);
                    assert(lines(reports@) =~= lines(earlier).push(line@));
                },
                None => {},
            }
            index = index + 1;
        }
        assert(found@.take(index as int) =~= found@);
        reports
    }

    /// Starts a pass over the files that were found now, and takes whether everything could be looked
    /// through for them.
    pub fn begin(&mut self, paths: Vec<FilePath>, complete: bool)
        requires
            old(self).well_formed(),
        ensures
            final(self).well_formed(),
            final(self).target() == old(self).target(),
            final(self).is_verbose() == old(self).is_verbose(),
            final(self)@ == old(self)@.turned_to(order::texts(paths@), complete, 0),
    {
        self.turn_to(paths, complete, 0);
    }

    fn turn_to(&mut self, paths: Vec<FilePath>, complete: bool, next: usize)
        requires
            old(self).files.well_formed(),
            old(self).startup_paths.well_formed(),
            next <= paths@.len(),
        ensures
            final(self).well_formed(),
            final(self).target() == old(self).target(),
            final(self).is_verbose() == old(self).is_verbose(),
            final(self)@ == old(self)@.turned_to(order::texts(paths@), complete, next as int),
    {
        if next < paths.len() {
            self.pass = Pass::Busy { paths, complete, next, step: Step::Open };
        } else {
            let mut present: PathMap<()> = PathMap::new();
            present.extend(&paths);
            assert(present@.dom() =~= table::keys(order::texts(paths@)));
            self.files.retain(&present);
            if complete {
                self.startup_paths.retain(&present);
                assert(self.startup_paths@.dom() =~= old(self)@.startup.intersect(
                    table::keys(order::texts(paths@)),
                ));
            }
            self.pass = Pass::Busy { paths, complete, next, step: Step::Flush };
        }
    }

    /// What to do next.
    pub fn action(&self) -> (action: Action<'_>)
        requires
            self.well_formed(),
        ensures
            match self@.pass {
                PassModel::Idle => action is Rest,
                PassModel::Busy { paths, next, step, .. } => match step {
                    StepModel::Open => action matches Action::Open(path) && path@ == paths[next],
                    StepModel::Seek { offset, .. } => action matches Action::Seek(place) && place
                        == offset,
                    StepModel::Read { .. } => action is Read,
                    StepModel::Header { .. } => action matches Action::Write(bytes) && bytes@
                        == follow::header_of(paths[next]),
                    StepModel::Chunk { chunk, .. } => action matches Action::Write(bytes)
                        && bytes@ == chunk,
                    StepModel::Flush => action is Flush,
                },
            },
    {
        match &self.pass {
            Pass::Idle => Action::Rest,
            Pass::Busy { paths, next, step, .. } => match step {
                Step::Open => Action::Open(&paths[*next]),
                Step::Seek { offset, .. } => Action::Seek(*offset),
                Step::Read { .. } => Action::Read,
                Step::Header { header, .. } => Action::Write(header.as_slice()),
                Step::Chunk { chunk, .. } => Action::Write(chunk.as_slice()),
                Step::Flush => Action::Flush,
            },
        }
    }

    /// Whether data of the given length can be taken: whether the place behind it is a place in a
    /// file.
    pub fn has_room(&self, length: usize) -> (room: bool)
        requires
            self.well_formed(),
        ensures
            room == (self@.pass matches PassModel::Busy { step: StepModel::Read { offset, .. }, .. }
                ==> offset + length <= u64::MAX),
    {
        match &self.pass {
            Pass::Busy { step: Step::Read { offset, .. }, .. } => length as u64 <= u64::MAX
                - *offset,
            _ => true,
        }
    }

    /// Takes what came of the last action.
    pub fn resolve(&mut self, event: Event) -> (consequence: Consequence)
        requires
            old(self).well_formed(),
            old(self)@.has_room(event@),
        ensures
            final(self).well_formed(),
            final(self).target() == old(self).target(),
            final(self).is_verbose() == old(self).is_verbose(),
            final(self)@ == old(self)@.moved(event@),
            consequence.finished == old(self)@.ended(event),
            consequence.report is Some <==> old(self).is_verbose() && old(self)@.told(event) is Some,
            consequence.report matches Some(line) ==> Some(line@) == old(self)@.told(event),
    {
        let mut report: Option<String> = None;
        let mut finished: Option<Result<(), Error>> = None;
        let mut pass: Pass = Pass::Idle;
        std::mem::swap(&mut self.pass, &mut pass);
        match pass {
            Pass::Idle => {},
            Pass::Busy { paths, complete, next, step } => {
                assert(paths@.len() == paths.len());
                assert(step !is Flush ==> order::texts(paths@)[next as int] == paths@[next as int]@);
                match (step, event) {
                    (Step::Open, Event::Opened(opening)) => {
                        report = report_opening(self.verbose, &paths[next], &opening);
                        match opening {
                            Opening::Opened { identity, length } => {
                                let offset: u64 = start_offset(
                                    self.files.get(&paths[next]),
                                    self.startup_paths.contains(&paths[next]),
                                    identity,
                                    length,
                                );
                                let step: Step = Step::Seek { identity, offset };
                                self.pass = Pass::Busy { paths, complete, next, step };
                            },
                            _ => {
                                self.turn_to(paths, complete, next + 1);
                            },
                        }
                    },
                    (Step::Seek { identity, offset }, Event::Positioned) => {
                        let step: Step = Step::Read { identity, offset };
                        self.pass = Pass::Busy { paths, complete, next, step };
                    },
                    (Step::Seek { .. }, Event::SeekFailed(error)) => {
                        report = report_path_error(self.verbose, &paths[next], "seek", &error);
                        self.turn_to(paths, complete, next + 1);
                    },
                    (Step::Read { identity, offset }, Event::Data(chunk)) => {
                        if chunk.len() == 0 {
                            self.files.insert(paths[next].clone(), FileState { identity, offset });
                            self.turn_to(paths, complete, next + 1);
                        } else if self.wants_header(&paths[next]) {
                            let header: Vec<u8> = header(&paths[next]);
                            let step: Step = Step::Header { identity, offset, header, chunk };
                            self.pass = Pass::Busy { paths, complete, next, step };
                        } else {
                            let step: Step = Step::Chunk { identity, offset, chunk };
                            self.pass = Pass::Busy { paths, complete, next, step };
                        }
                    },
                    (Step::Read { .. }, Event::ReadFailed(error)) => {
                        report = report_path_error(self.verbose, &paths[next], "read", &error);
                        self.turn_to(paths, complete, next + 1);
                    },
                    (Step::Header { identity, offset, chunk, .. }, Event::Written) => {
                        self.last_output_path = Some(paths[next].clone());
                        let step: Step = Step::Chunk { identity, offset, chunk };
                        self.pass = Pass::Busy { paths, complete, next, step };
                    },
                    (Step::Chunk { identity, offset, chunk }, Event::Written) => {
                        let offset: u64 = offset + chunk.len() as u64;
                        let step: Step = Step::Read { identity, offset };
                        self.pass = Pass::Busy { paths, complete, next, step };
                    },
                    (Step::Header { .. }, Event::WriteFailed(error)) => {
                        finished = Some(Err(Error::Io(error)));
                    },
                    (Step::Chunk { .. }, Event::WriteFailed(error)) => {
                        finished = Some(Err(Error::Io(error)));
                    },
                    (Step::Flush, Event::Flushed) => {
                        finished = Some(Ok(()));
                    },
                    (Step::Flush, Event::FlushFailed(error)) => {
                        finished = Some(Err(Error::Io(error)));
                    },
                    (step, _) => {
                        self.pass = Pass::Busy { paths, complete, next, step };
                    },
                }
            },
        }
        Consequence { report, finished }
    }

    /// Whether data of a file has to be preceded by its name.
    fn wants_header(&self, path: &FilePath) -> (wanted: bool)
        ensures
            wanted == self@.needs_header(path@),
    {
        self.output_mode == OutputMode::Headers && match &self.last_output_path {
            Some(last) => !last.same_components(path),
            None => true,
        }
    }
}

} // verus!
