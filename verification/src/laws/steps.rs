//! What the engine asks for, step by step, and how a pass ends.

use vstd::prelude::*;

use crate::engine;
use crate::engine::{Action, Consequence, Event, PassModel, StepModel, TailEngine};
use crate::error::{reconcile_result_or_exit, Error, IoError, IoErrorKind};
use crate::follow;
use crate::follow::{header, report_opening, start_offset};
use crate::follow::{FileIdentity, FileState, Opening, OutputMode};
use crate::laws::words;
use crate::order;
use crate::path;
use crate::path::FilePath;
use crate::watch::WatchSpec;

verus! {

/// Reading goes on where it stopped if the file is the same and has not become shorter, and begins
/// anew if it is another or has; a file that is not known is read from its beginning, or from its end
/// if it was there at the start.
pub proof fn law_reading_begins_where_it_stopped(
    previous: Option<FileState>,
    was_present_at_startup: bool,
    identity: FileIdentity,
    length: u64,
    offset: u64,
)
    requires
        call_ensures(
            start_offset,
            (
                match previous {
                    Some(state) => Some(&state),
                    None => None,
                },
                was_present_at_startup,
                identity,
                length,
            ),
            offset,
        ),
    ensures
        offset <= length,
        previous matches Some(state) ==> (state.identity == identity && state.offset <= length
            ==> offset == state.offset),
        previous matches Some(state) ==> (state.identity != identity || length < state.offset
            ==> offset == 0),
        previous is None && was_present_at_startup ==> offset == length,
        previous is None && !was_present_at_startup ==> offset == 0,
{
}

/// A new engine asks for nothing and knows no file, and it keeps what it is given.
pub proof fn law_new_engine_rests(
    spec: WatchSpec,
    mode: OutputMode,
    verbose: bool,
    engine: TailEngine,
    action: Action,
    path: FilePath,
    state: Option<FileState>,
    target: &WatchSpec,
)
    requires
        call_ensures(TailEngine::new, (spec, mode, verbose), engine),
        call_ensures(TailEngine::action, (&engine,), action),
        call_ensures(TailEngine::file_state, (&engine, &path), state),
        call_ensures(TailEngine::spec, (&engine,), target),
    ensures
        action is Rest,
        state is None,
        *target == spec,
        engine@.output_mode == mode,
        engine@.last is None,
        engine.is_verbose() == verbose,
        forall|key: Seq<Seq<u8>>| !(#[trigger] engine@.startup.contains(key)),
{
}

/// At the start every file that was found counts as there, each that could be opened is known with its
/// length for its place, and what is known of other files stays.
pub proof fn law_start_takes_files_at_their_ends(
    engine: &mut TailEngine,
    found: Vec<(FilePath, Opening)>,
    reports: Vec<String>,
    index: int,
    state: Option<FileState>,
    before: Option<FileState>,
)
    requires
        call_ensures(TailEngine::initialize, (engine, found), reports),
        0 <= index < found@.len(),
        forall|i: int, j: int|
            0 <= i < j < found@.len() ==> path::components((#[trigger] found@[i]).0@)
                != path::components((#[trigger] found@[j]).0@),
        call_ensures(TailEngine::file_state, (&*old(engine), &found@[index].0), before),
        call_ensures(TailEngine::file_state, (&*final(engine), &found@[index].0), state),
    ensures
        found@[index].1 matches Opening::Opened { identity, length } ==> (state matches Some(known)
            && known.identity == identity && known.offset == length),
        !(found@[index].1 is Opened) ==> state == before,
        final(engine)@.startup.contains(path::components(found@[index].0@)),
        final(engine)@.output_mode == old(engine)@.output_mode,
        final(engine)@.last == old(engine)@.last,
        final(engine)@.pass == old(engine)@.pass,
        final(engine).is_verbose() == old(engine).is_verbose(),
        final(engine).target() == old(engine).target(),
{
    lemma_started(old(engine)@.files, found@, index);
    let texts = engine::found_texts(found@);
    assert(texts[index] == found@[index].0@);
}

proof fn lemma_started(
    files: Map<Seq<Seq<u8>>, FileState>,
    found: Seq<(FilePath, Opening)>,
    index: int,
)
    requires
        0 <= index < found.len(),
        forall|i: int, j: int|
            0 <= i < j < found.len() ==> path::components((#[trigger] found[i]).0@)
                != path::components((#[trigger] found[j]).0@),
    ensures
        ({
            let key = path::components(found[index].0@);
            let after = engine::started(files, found);
            match found[index].1 {
                Opening::Opened { identity, length } => after.contains_pair(
                    key,
                    FileState { identity, offset: length },
                ),
                _ => after.contains_key(key) == files.contains_key(key) && after[key] == files[key],
            }
        }),
    decreases found.len(),
{
    let earlier = found.drop_last();
    let key = path::components(found[index].0@);
    if index < earlier.len() {
        assert forall|i: int, j: int| 0 <= i < j < earlier.len() implies path::components(
            (#[trigger] earlier[i]).0@,
        ) != path::components((#[trigger] earlier[j]).0@) by {
            assert(earlier[i] == found[i] && earlier[j] == found[j]);
        }
        lemma_started(files, earlier, index);
        assert(earlier[index] == found[index]);
        assert(path::components(found[index].0@) != path::components(found[found.len() - 1].0@));
    } else {
        lemma_other_started(files, earlier, key);
    }
}

proof fn lemma_other_started(
    files: Map<Seq<Seq<u8>>, FileState>,
    found: Seq<(FilePath, Opening)>,
    key: Seq<Seq<u8>>,
)
    requires
        forall|i: int| 0 <= i < found.len() ==> path::components((#[trigger] found[i]).0@) != key,
    ensures
        engine::started(files, found).contains_key(key) == files.contains_key(key),
        engine::started(files, found)[key] == files[key],
    decreases found.len(),
{
    if found.len() > 0 {
        let earlier = found.drop_last();
        assert forall|i: int| 0 <= i < earlier.len() implies path::components(
            (#[trigger] earlier[i]).0@,
        ) != key by {
            assert(earlier[i] == found[i]);
        }
        lemma_other_started(files, earlier, key);
        assert(path::components(found[found.len() - 1].0@) != key);
    }
}

/// What is known of a file that was not found at the start stays, and so does whether its path counts
/// as there.
pub proof fn law_start_leaves_other_files_alone(
    engine: &mut TailEngine,
    found: Vec<(FilePath, Opening)>,
    reports: Vec<String>,
    path: FilePath,
    before: Option<FileState>,
    state: Option<FileState>,
)
    requires
        call_ensures(TailEngine::initialize, (engine, found), reports),
        forall|i: int|
            0 <= i < found@.len() ==> path::components((#[trigger] found@[i]).0@)
                != path::components(path@),
        call_ensures(TailEngine::file_state, (&*old(engine), &path), before),
        call_ensures(TailEngine::file_state, (&*final(engine), &path), state),
    ensures
        state == before,
        final(engine)@.startup.contains(path::components(path@)) <==> old(
            engine,
        )@.startup.contains(path::components(path@)),
{
    let key = path::components(path@);
    lemma_other_started(old(engine)@.files, found@, key);
    let texts = engine::found_texts(found@);
    assert forall|i: int| 0 <= i < texts.len() implies path::components(#[trigger] texts[i])
        != key by {
        assert(texts[i] == found@[i].0@);
    }
}

/// At the start each failure is told that would be told of its file alone, and nothing else is, and
/// nothing at all unless that is asked for.
pub proof fn law_start_tells_failures(
    engine: &mut TailEngine,
    found: Vec<(FilePath, Opening)>,
    reports: Vec<String>,
    index: int,
    report: Option<String>,
)
    requires
        call_ensures(TailEngine::initialize, (engine, found), reports),
        0 <= index < found@.len(),
        call_ensures(
            report_opening,
            (old(engine).is_verbose(), &found@[index].0, &found@[index].1),
            report,
        ),
    ensures
        !old(engine).is_verbose() ==> reports@.len() == 0,
        reports@.len() <= found@.len(),
        report matches Some(line) ==> exists|k: int|
            0 <= k < reports@.len() && (#[trigger] reports@[k])@ == line@,
        forall|k: int|
            0 <= k < reports@.len() ==> exists|i: int|
                0 <= i < found@.len() && follow::opening_report(
                    (#[trigger] found@[i]).0@,
                    found@[i].1,
                ) == Some((#[trigger] reports@[k])@),
{
    let words = engine::lines(reports@);
    assert(words.len() == reports@.len());
    assert forall|k: int| 0 <= k < reports@.len() implies #[trigger] words[k] == reports@[k]@ by {}
    if old(engine).is_verbose() {
        lemma_start_reports(found@, index);
        if let Some(line) = report {
            let k = choose|k: int|
                0 <= k < engine::start_reports(found@).len() && #[trigger] engine::start_reports(
                    found@,
                )[k] == line@;
            assert(words[k] == line@);
            assert(reports@[k]@ == line@);
        }
        assert forall|k: int| 0 <= k < reports@.len() implies exists|i: int|
            0 <= i < found@.len() && follow::opening_report(
                (#[trigger] found@[i]).0@,
                found@[i].1,
            ) == Some((#[trigger] reports@[k])@) by {
            assert(words[k] == engine::start_reports(found@)[k]);
        }
    }
}

proof fn lemma_start_reports(found: Seq<(FilePath, Opening)>, index: int)
    requires
        0 <= index < found.len(),
    ensures
        engine::start_reports(found).len() <= found.len(),
        follow::opening_report(found[index].0@, found[index].1) matches Some(line) ==> exists|
            k: int,
        |
            0 <= k < engine::start_reports(found).len() && #[trigger] engine::start_reports(
                found,
            )[k] == line,
        forall|k: int|
            0 <= k < engine::start_reports(found).len() ==> exists|i: int|
                0 <= i < found.len() && follow::opening_report(
                    (#[trigger] found[i]).0@,
                    found[i].1,
                ) == Some(#[trigger] engine::start_reports(found)[k]),
    decreases found.len(),
{
    let earlier = found.drop_last();
    let before = engine::start_reports(earlier);
    let all = engine::start_reports(found);
    if earlier.len() > 0 {
        let place: int = if index < earlier.len() {
            index
        } else {
            0
        };
        lemma_start_reports(earlier, place);
        if index < earlier.len() {
            assert(earlier[index] == found[index]);
            if let Some(line) = follow::opening_report(found[index].0@, found[index].1) {
                let k = choose|k: int| 0 <= k < before.len() && #[trigger] before[k] == line;
                assert(all[k] == line);
            }
        }
    }
    if index == earlier.len() {
        if let Some(line) = follow::opening_report(found[index].0@, found[index].1) {
            assert(all[all.len() - 1] == line);
        }
    }
    assert forall|k: int| 0 <= k < all.len() implies exists|i: int|
        0 <= i < found.len() && follow::opening_report((#[trigger] found[i]).0@, found[i].1)
            == Some(#[trigger] all[k]) by {
        if k < before.len() {
            assert(all[k] == before[k]);
            let i = choose|i: int|
                0 <= i < earlier.len() && follow::opening_report(
                    (#[trigger] earlier[i]).0@,
                    earlier[i].1,
                ) == Some(before[k]);
            assert(earlier[i] == found[i]);
        } else {
            assert(found[found.len() - 1] == found.last());
        }
    }
}

/// A pass begins with its first file, and a pass over no file with the end.
pub proof fn law_pass_begins_with_its_first_file(
    engine: &mut TailEngine,
    paths: Vec<FilePath>,
    complete: bool,
    action: Action,
)
    requires
        call_ensures(TailEngine::begin, (engine, paths, complete), ()),
        call_ensures(TailEngine::action, (&*final(engine),), action),
    ensures
        paths@.len() > 0 ==> (action matches Action::Open(path) && path@ == paths@[0]@),
        paths@.len() == 0 ==> action is Flush,
        final(engine)@.pass matches PassModel::Busy { paths: texts, complete: kept, next, .. } && {
            &&& kept == complete
            &&& next == 0
            &&& texts.len() == paths@.len()
            &&& forall|i: int| 0 <= i < texts.len() ==> #[trigger] texts[i] == paths@[i]@
        },
        final(engine)@.output_mode == old(engine)@.output_mode,
        final(engine)@.last == old(engine)@.last,
        paths@.len() > 0 ==> final(engine)@.files == old(engine)@.files && final(engine)@.startup
            == old(engine)@.startup,
        final(engine).is_verbose() == old(engine).is_verbose(),
        final(engine).target() == old(engine).target(),
{
    if paths@.len() > 0 {
        assert(order::texts(paths@)[0] == paths@[0]@);
    }
}

/// Whether the engine is at a step for the file with the given number of a pass.
pub open spec fn stands_at(
    engine: TailEngine,
    paths: Seq<Seq<u8>>,
    complete: bool,
    next: int,
    step: StepModel,
) -> bool {
    engine@.pass == (PassModel::Busy { paths, complete, next, step })
}

/// Whether an engine has kept everything but its pass.
pub open spec fn knows_the_same(engine: TailEngine, other: TailEngine) -> bool {
    &&& engine@.files == other@.files
    &&& engine@.startup == other@.startup
    &&& engine@.last == other@.last
    &&& engine@.output_mode == other@.output_mode
    &&& engine.is_verbose() == other.is_verbose()
    &&& engine.target() == other.target()
}

/// Once a file is open, the engine asks for the place where reading goes on: what is known of the file
/// tells it, and whether it was there at the start.
pub proof fn law_opened_file_is_positioned(
    engine: &mut TailEngine,
    paths: Seq<Seq<u8>>,
    complete: bool,
    next: int,
    path: FilePath,
    identity: FileIdentity,
    length: u64,
    state: Option<FileState>,
    consequence: Consequence,
    action: Action,
)
    requires
        stands_at(*old(engine), paths, complete, next, StepModel::Open),
        path@ == paths[next],
        call_ensures(TailEngine::file_state, (&*old(engine), &path), state),
        call_ensures(
            TailEngine::resolve,
            (engine, Event::Opened(Opening::Opened { identity, length })),
            consequence,
        ),
        call_ensures(TailEngine::action, (&*final(engine),), action),
    ensures
        consequence.report is None,
        consequence.finished is None,
        knows_the_same(*final(engine), *old(engine)),
        action matches Action::Seek(place) && {
            &&& stands_at(
                *final(engine),
                paths,
                complete,
                next,
                StepModel::Seek { identity, offset: place },
            )
            &&& state matches Some(known) ==> (known.identity == identity && known.offset <= length
                ==> place == known.offset)
            &&& state matches Some(known) ==> (known.identity != identity || length < known.offset
                ==> place == 0)
            &&& state is None ==> (old(engine)@.startup.contains(path::components(path@))
                ==> place == length)
            &&& state is None ==> (!old(engine)@.startup.contains(path::components(path@))
                ==> place == 0)
        },
{
}

/// Once it is positioned, the engine asks to read.
pub proof fn law_positioned_file_is_read(
    engine: &mut TailEngine,
    paths: Seq<Seq<u8>>,
    complete: bool,
    next: int,
    identity: FileIdentity,
    offset: u64,
    consequence: Consequence,
    action: Action,
)
    requires
        stands_at(*old(engine), paths, complete, next, StepModel::Seek { identity, offset }),
        call_ensures(TailEngine::resolve, (engine, Event::Positioned), consequence),
        call_ensures(TailEngine::action, (&*final(engine),), action),
    ensures
        action is Read,
        stands_at(*final(engine), paths, complete, next, StepModel::Read { identity, offset }),
        knows_the_same(*final(engine), *old(engine)),
        consequence.report is None,
        consequence.finished is None,
{
}

/// Data that was read is to be written as it is, at once or behind the header of the file: behind it
/// where headers are asked for and the data before it is not of the same file.
pub proof fn law_data_is_written_as_it_is(
    engine: &mut TailEngine,
    paths: Seq<Seq<u8>>,
    complete: bool,
    next: int,
    path: FilePath,
    identity: FileIdentity,
    offset: u64,
    chunk: Vec<u8>,
    name: Vec<u8>,
    consequence: Consequence,
    action: Action,
)
    requires
        stands_at(*old(engine), paths, complete, next, StepModel::Read { identity, offset }),
        path@ == paths[next],
        chunk@.len() > 0,
        call_ensures(header, (&path,), name),
        call_ensures(TailEngine::resolve, (engine, Event::Data(chunk)), consequence),
        call_ensures(TailEngine::action, (&*final(engine),), action),
    ensures
        consequence.report is None,
        consequence.finished is None,
        knows_the_same(*final(engine), *old(engine)),
        old(engine)@.output_mode == OutputMode::Raw || old(engine)@.last == Some(
            path::components(path@),
        ) ==> (action matches Action::Write(bytes) && bytes@ == chunk@) && stands_at(
            *final(engine),
            paths,
            complete,
            next,
            StepModel::Chunk { identity, offset, chunk: chunk@ },
        ),
        old(engine)@.output_mode == OutputMode::Headers && old(engine)@.last != Some(
            path::components(path@),
        ) ==> (action matches Action::Write(bytes) && bytes@ == name@) && stands_at(
            *final(engine),
            paths,
            complete,
            next,
            StepModel::Header { identity, offset, chunk: chunk@ },
        ),
{
}

/// Behind the header comes the data, and the file counts as the one that was written last.
pub proof fn law_data_follows_its_header(
    engine: &mut TailEngine,
    paths: Seq<Seq<u8>>,
    complete: bool,
    next: int,
    identity: FileIdentity,
    offset: u64,
    chunk: Seq<u8>,
    consequence: Consequence,
    action: Action,
)
    requires
        stands_at(
            *old(engine),
            paths,
            complete,
            next,
            StepModel::Header { identity, offset, chunk },
        ),
        call_ensures(TailEngine::resolve, (engine, Event::Written), consequence),
        call_ensures(TailEngine::action, (&*final(engine),), action),
    ensures
        action matches Action::Write(bytes) && bytes@ == chunk,
        stands_at(
            *final(engine),
            paths,
            complete,
            next,
            StepModel::Chunk { identity, offset, chunk },
        ),
        final(engine)@.last == Some(path::components(paths[next])),
        final(engine)@.files == old(engine)@.files,
        final(engine)@.startup == old(engine)@.startup,
        final(engine)@.output_mode == old(engine)@.output_mode,
        consequence.report is None,
        consequence.finished is None,
{
}

/// Once data is written, reading goes on right behind it.
pub proof fn law_reading_goes_on_behind_the_data(
    engine: &mut TailEngine,
    paths: Seq<Seq<u8>>,
    complete: bool,
    next: int,
    identity: FileIdentity,
    offset: u64,
    chunk: Seq<u8>,
    consequence: Consequence,
    action: Action,
)
    requires
        stands_at(*old(engine), paths, complete, next, StepModel::Chunk { identity, offset, chunk }),
        offset + chunk.len() <= u64::MAX,
        call_ensures(TailEngine::resolve, (engine, Event::Written), consequence),
        call_ensures(TailEngine::action, (&*final(engine),), action),
    ensures
        action is Read,
        stands_at(
            *final(engine),
            paths,
            complete,
            next,
            StepModel::Read { identity, offset: (offset + chunk.len()) as u64 },
        ),
        knows_the_same(*final(engine), *old(engine)),
        consequence.report is None,
        consequence.finished is None,
{
}

/// Whether the engine asks for the file with the given number, or for the end of the pass.
pub open spec fn asks_for(action: Action, paths: Seq<Seq<u8>>, number: int) -> bool {
    &&& number < paths.len() ==> (action matches Action::Open(path) && path@ == paths[number])
    &&& number >= paths.len() ==> action is Flush
}

/// Whether an engine is in the same pass, at the file with the given number.
pub open spec fn goes_on(
    engine: TailEngine,
    paths: Seq<Seq<u8>>,
    complete: bool,
    number: int,
) -> bool {
    engine@.pass matches PassModel::Busy { paths: same, complete: kept, next, .. } && same == paths
        && kept == complete && next == number
}

/// Whether a pass has found a file.
pub open spec fn is_found(paths: Seq<Seq<u8>>, path: Seq<u8>) -> bool {
    exists|i: int| 0 <= i < paths.len() && path::components(#[trigger] paths[i]) == path::components(
        path,
    )
}

/// At the end of a file its identity and the place behind the last byte that was read are known, the
/// pass goes on with the next file, and what is known of every other file that was found stays.
pub proof fn law_file_is_known_at_its_end(
    engine: &mut TailEngine,
    paths: Seq<Seq<u8>>,
    complete: bool,
    next: int,
    identity: FileIdentity,
    offset: u64,
    chunk: Vec<u8>,
    path: FilePath,
    before: Option<FileState>,
    state: Option<FileState>,
    consequence: Consequence,
    action: Action,
)
    requires
        stands_at(*old(engine), paths, complete, next, StepModel::Read { identity, offset }),
        0 <= next < paths.len(),
        chunk@.len() == 0,
        is_found(paths, path@),
        call_ensures(TailEngine::file_state, (&*old(engine), &path), before),
        call_ensures(TailEngine::resolve, (engine, Event::Data(chunk)), consequence),
        call_ensures(TailEngine::file_state, (&*final(engine), &path), state),
        call_ensures(TailEngine::action, (&*final(engine),), action),
    ensures
        path::components(path@) == path::components(paths[next]) ==> (state matches Some(known)
            && known.identity == identity && known.offset == offset),
        path::components(path@) != path::components(paths[next]) ==> state == before,
        asks_for(action, paths, next + 1),
        goes_on(*final(engine), paths, complete, next + 1),
        final(engine)@.last == old(engine)@.last,
        final(engine)@.output_mode == old(engine)@.output_mode,
        consequence.report is None,
        consequence.finished is None,
{
}

/// A file that cannot be opened, looked at, positioned or read is passed over: the pass goes on with
/// the next file, what is known of the files that were found stays, and it is told which file it was
/// and why, where that is asked for; of a file that is not there nothing is told.
pub proof fn law_failing_file_is_passed_over(
    engine: &mut TailEngine,
    paths: Seq<Seq<u8>>,
    complete: bool,
    next: int,
    step: StepModel,
    event: Event,
    error: IoError,
    operation: Seq<char>,
    path: FilePath,
    before: Option<FileState>,
    state: Option<FileState>,
    consequence: Consequence,
    action: Action,
)
    requires
        stands_at(*old(engine), paths, complete, next, step),
        is_found(paths, path@),
        ({
            ||| step is Open && event == Event::Opened(Opening::OpenFailed(error)) && operation
                == "open"@
            ||| step is Open && event == Event::Opened(Opening::InspectFailed(error)) && operation
                == "inspect"@
            ||| step is Seek && event == Event::SeekFailed(error) && operation == "seek"@
            ||| step is Read && event == Event::ReadFailed(error) && operation == "read"@
        }),
        call_ensures(TailEngine::file_state, (&*old(engine), &path), before),
        call_ensures(TailEngine::resolve, (engine, event), consequence),
        call_ensures(TailEngine::file_state, (&*final(engine), &path), state),
        call_ensures(TailEngine::action, (&*final(engine),), action),
    ensures
        state == before,
        asks_for(action, paths, next + 1),
        goes_on(*final(engine), paths, complete, next + 1),
        consequence.finished is None,
        final(engine)@.last == old(engine)@.last,
        !old(engine).is_verbose() ==> consequence.report is None,
        operation == "open"@ && step is Open && event == Event::Opened(Opening::OpenFailed(error))
            && error.kind == IoErrorKind::NotFound ==> consequence.report is None,
        old(engine).is_verbose() && !(event == Event::Opened(Opening::OpenFailed(error))
            && error.kind == IoErrorKind::NotFound) ==> (consequence.report matches Some(line)
            && words::is_line(line@, operation, paths[next], error.message@)),
{
}

/// When a pass comes to its end, nothing is known of a file that it did not find. Its path no longer
/// counts as there since the start if everything could be looked through; otherwise, and for every
/// file that was found, that stays as it was.
pub proof fn law_end_of_a_pass_forgets_what_is_missing(
    engine: &mut TailEngine,
    paths: Seq<Seq<u8>>,
    complete: bool,
    next: int,
    step: StepModel,
    event: Event,
    path: FilePath,
    state: Option<FileState>,
    consequence: Consequence,
    action: Action,
)
    requires
        stands_at(*old(engine), paths, complete, next, step),
        !(step is Flush),
        call_ensures(TailEngine::resolve, (engine, event), consequence),
        call_ensures(TailEngine::action, (&*final(engine),), action),
        action is Flush,
        call_ensures(TailEngine::file_state, (&*final(engine), &path), state),
    ensures
        !is_found(paths, path@) ==> state is None,
        !is_found(paths, path@) && complete ==> !final(engine)@.startup.contains(
            path::components(path@),
        ),
        is_found(paths, path@) || !complete ==> (final(engine)@.startup.contains(
            path::components(path@),
        ) <==> old(engine)@.startup.contains(path::components(path@))),
{
}

/// The same holds of a pass that finds no file at all.
pub proof fn law_empty_pass_forgets_what_is_missing(
    engine: &mut TailEngine,
    paths: Vec<FilePath>,
    complete: bool,
    path: FilePath,
    state: Option<FileState>,
)
    requires
        call_ensures(TailEngine::begin, (engine, paths, complete), ()),
        paths@.len() == 0,
        call_ensures(TailEngine::file_state, (&*final(engine), &path), state),
    ensures
        state is None,
        complete ==> !final(engine)@.startup.contains(path::components(path@)),
        !complete ==> (final(engine)@.startup.contains(path::components(path@)) <==> old(
            engine,
        )@.startup.contains(path::components(path@))),
{
    assert(order::texts(paths@).len() == 0);
}

/// A pass ends well exactly where everything was handed on, when the engine had asked for that; and it
/// ends badly exactly where it had asked to write or to hand on and that failed, with that failure.
pub proof fn law_pass_ends_as_its_output_does(
    engine: &mut TailEngine,
    event: Event,
    consequence: Consequence,
    before: Action,
)
    requires
        call_ensures(TailEngine::action, (&*old(engine),), before),
        call_ensures(TailEngine::resolve, (engine, event), consequence),
    ensures
        consequence.finished == Some(Ok::<(), Error>(())) <==> before is Flush && event is Flushed,
        before is Write ==> (event matches Event::WriteFailed(error) ==> consequence.finished
            == Some(Err::<(), Error>(Error::Io(error)))),
        before is Flush ==> (event matches Event::FlushFailed(error) ==> consequence.finished
            == Some(Err::<(), Error>(Error::Io(error)))),
        consequence.finished matches Some(Err(_)) ==> (before is Write && event is WriteFailed)
            || (before is Flush && event is FlushFailed),
{
}

/// A pass that has ended asks for nothing, and one that has not goes on asking.
pub proof fn law_ended_pass_rests(
    engine: &mut TailEngine,
    event: Event,
    consequence: Consequence,
    before: Action,
    action: Action,
)
    requires
        call_ensures(TailEngine::action, (&*old(engine),), before),
        call_ensures(TailEngine::resolve, (engine, event), consequence),
        call_ensures(TailEngine::action, (&*final(engine),), action),
    ensures
        consequence.finished is Some ==> action is Rest && knows_the_same(
            *final(engine),
            *old(engine),
        ),
        !(before is Rest) && consequence.finished is None ==> !(action is Rest),
        before is Rest ==> action is Rest && consequence.finished is None && consequence.report
            is None && knows_the_same(*final(engine), *old(engine)),
{
}

/// Where the reader of the output is gone, the program ends in good order, whether that shows in a
/// writing or in handing on.
pub proof fn law_closed_output_ends_the_program(
    engine: &mut TailEngine,
    event: Event,
    error: IoError,
    consequence: Consequence,
    before: Action,
    result: Result<(), Error>,
    next: Result<bool, Error>,
)
    requires
        call_ensures(TailEngine::action, (&*old(engine),), before),
        (before is Write && event == Event::WriteFailed(error)) || (before is Flush && event
            == Event::FlushFailed(error)),
        error.kind == IoErrorKind::BrokenPipe,
        call_ensures(TailEngine::resolve, (engine, event), consequence),
        consequence.finished == Some(result),
        call_ensures(reconcile_result_or_exit, (result,), next),
    ensures
        next == Ok::<bool, Error>(false),
{
}

/// There is room for data exactly as far as the place behind it can be counted.
pub proof fn law_room_ends_with_the_numbers(
    engine: TailEngine,
    paths: Seq<Seq<u8>>,
    complete: bool,
    next: int,
    identity: FileIdentity,
    offset: u64,
    length: usize,
    room: bool,
)
    requires
        stands_at(engine, paths, complete, next, StepModel::Read { identity, offset }),
        call_ensures(TailEngine::has_room, (&engine, length), room),
    ensures
        room <==> offset + length <= 0xffff_ffff_ffff_ffff,
{
}

/// Nothing that happens changes what is followed, whether headers are asked for and whether failures
/// are told.
pub proof fn law_settings_stay(
    engine: &mut TailEngine,
    event: Event,
    consequence: Consequence,
    before: &WatchSpec,
    after: &WatchSpec,
)
    requires
        call_ensures(TailEngine::spec, (&*old(engine),), before),
        call_ensures(TailEngine::resolve, (engine, event), consequence),
        call_ensures(TailEngine::spec, (&*final(engine),), after),
    ensures
        *after == *before,
        final(engine).is_verbose() == old(engine).is_verbose(),
        final(engine)@.output_mode == old(engine)@.output_mode,
{
}

/// Where the engine does not read there is always room.
pub proof fn law_room_matters_for_reading_only(
    engine: TailEngine,
    length: usize,
    room: bool,
    action: Action,
)
    requires
        call_ensures(TailEngine::action, (&engine,), action),
        !(action is Read),
        call_ensures(TailEngine::has_room, (&engine, length), room),
    ensures
        room,
{
}

/// The failures of the start are told in the order of the files.
pub proof fn law_start_tells_failures_in_order(
    engine: &mut TailEngine,
    found: Vec<(FilePath, Opening)>,
    reports: Vec<String>,
)
    requires
        call_ensures(TailEngine::initialize, (engine, found), reports),
        old(engine).is_verbose(),
    ensures
        reports@.map_values(|line: String| line@) == found@.filter(
            |pair: (FilePath, Opening)| follow::opening_report(pair.0@, pair.1) is Some,
        ).map_values(
            |pair: (FilePath, Opening)| follow::opening_report(pair.0@, pair.1)->0,
        ),
{
    lemma_reports_in_order(found@);
    assert(reports@.map_values(|line: String| line@) =~= engine::lines(reports@));
}

proof fn lemma_reports_in_order(found: Seq<(FilePath, Opening)>)
    ensures
        engine::start_reports(found) == found.filter(
            |pair: (FilePath, Opening)| follow::opening_report(pair.0@, pair.1) is Some,
        ).map_values(
            |pair: (FilePath, Opening)| follow::opening_report(pair.0@, pair.1)->0,
        ),
    decreases found.len(),
{
    reveal(Seq::filter);
    let is_told = |pair: (FilePath, Opening)| follow::opening_report(pair.0@, pair.1) is Some;
    let words = |pair: (FilePath, Opening)| follow::opening_report(pair.0@, pair.1)->0;
    if found.len() > 0 {
        lemma_reports_in_order(found.drop_last());
        let before = found.drop_last().filter(is_told);
        if is_told(found.last()) {
            assert(before.push(found.last()).map_values(words) =~= before.map_values(words).push(
                words(found.last()),
            ));
        }
    }
    assert(engine::start_reports(found) =~= found.filter(is_told).map_values(words));
}

/// An event that does not answer what the engine asked for changes nothing and says nothing.
pub proof fn law_stray_event_changes_nothing(
    engine: &mut TailEngine,
    event: Event,
    consequence: Consequence,
    before: Action,
)
    requires
        call_ensures(TailEngine::action, (&*old(engine),), before),
        call_ensures(TailEngine::resolve, (engine, event), consequence),
        !(before is Open && event is Opened),
        !(before is Seek && (event is Positioned || event is SeekFailed)),
        !(before is Read && (event is Data || event is ReadFailed)),
        !(before is Write && (event is Written || event is WriteFailed)),
        !(before is Flush && (event is Flushed || event is FlushFailed)),
    ensures
        final(engine)@ == old(engine)@,
        consequence.report is None,
        consequence.finished is None,
{
}

} // verus!
