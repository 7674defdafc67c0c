//! What passes write, and what they leave the engine with.

use vstd::prelude::*;

use crate::engine;
use crate::engine::{EngineModel, Happened, PassModel, StepModel};
use crate::follow;
use crate::follow::{FileIdentity, FileState, Opening, OutputMode};
use crate::order;
use crate::path;
use crate::path::FilePath;
use crate::table;

verus! {

/// The engine after a number of events.
pub open spec fn after(model: EngineModel, events: Seq<Happened>) -> EngineModel
    decreases events.len(),
{
    if events.len() == 0 {
        model
    } else {
        after(model, events.drop_last()).moved(events.last())
    }
}

/// The bytes that the engine asks to write.
pub open spec fn pending(model: EngineModel) -> Seq<u8> {
    match model.pass {
        PassModel::Busy { paths, next, step: StepModel::Header { .. }, .. } => follow::header_of(
            paths[next],
        ),
        PassModel::Busy { step: StepModel::Chunk { chunk, .. }, .. } => chunk,
        _ => Seq::empty(),
    }
}

/// The bytes that are written in the course of events: those that the engine asked for each time
/// that a writing is reported.
pub open spec fn output(model: EngineModel, events: Seq<Happened>) -> Seq<u8>
    decreases events.len(),
{
    if events.len() == 0 {
        Seq::empty()
    } else {
        output(model, events.drop_last()) + match events.last() {
            Happened::Written => pending(after(model, events.drop_last())),
            _ => Seq::empty(),
        }
    }
}

pub proof fn lemma_after_add(model: EngineModel, first: Seq<Happened>, second: Seq<Happened>)
    ensures
        after(model, first + second) == after(after(model, first), second),
        output(model, first + second) == output(model, first) + output(after(model, first), second),
    decreases second.len(),
{
    if second.len() == 0 {
        assert(first + second =~= first);
        assert(output(model, first) + Seq::<u8>::empty() =~= output(model, first));
    } else {
        let shorter = second.drop_last();
        lemma_after_add(model, first, shorter);
        assert((first + second).drop_last() =~= first + shorter);
        assert((first + second).last() == second.last());
        assert(output(model, first + second) =~= output(model, first) + output(
            after(model, first),
            second,
        ));
    }
}

proof fn lemma_after_one(model: EngineModel, event: Happened)
    ensures
        after(model, seq![event]) == model.moved(event),
        output(model, seq![event]) == (match event {
            Happened::Written => pending(model),
            _ => Seq::empty(),
        }),
{
    assert(seq![event].drop_last() =~= Seq::<Happened>::empty());
    assert(after(model, Seq::empty()) == model);
    assert(output(model, Seq::empty()) =~= Seq::<u8>::empty());
    assert(output(model, seq![event]) =~= match event {
        Happened::Written => pending(model),
        _ => Seq::empty(),
    });
}

/// The events of reading one chunk and writing it, behind the name of the file if that is asked for.
pub open spec fn one_chunk(chunk: Seq<u8>, named: bool) -> Seq<Happened> {
    if named {
        seq![Happened::Data(chunk), Happened::Written, Happened::Written]
    } else {
        seq![Happened::Data(chunk), Happened::Written]
    }
}

/// The events of reading a file in chunks and writing them, the first one behind the name of the
/// file if that is asked for.
pub open spec fn chunk_events(chunks: Seq<Seq<u8>>, named: bool) -> Seq<Happened>
    decreases chunks.len(),
{
    if chunks.len() == 0 {
        Seq::empty()
    } else {
        chunk_events(chunks.drop_last(), named) + one_chunk(
            chunks.last(),
            named && chunks.len() == 1,
        )
    }
}

/// Whether the engine is about to read the current file from the given place.
pub open spec fn reads(model: EngineModel, identity: FileIdentity, offset: int) -> bool {
    model.pass matches PassModel::Busy { step: StepModel::Read { identity: i, offset: o }, .. } && i
        == identity && o == offset
}

/// The path whose data was written last, once data of `path` has been written.
pub open spec fn last_after(model: EngineModel, path: Seq<u8>) -> Option<Seq<Seq<u8>>> {
    if model.output_mode == OutputMode::Headers {
        Some(path::components(path))
    } else {
        model.last
    }
}

proof fn lemma_one_chunk(
    model: EngineModel,
    identity: FileIdentity,
    offset: int,
    chunk: Seq<u8>,
)
    requires
        reads(model, identity, offset),
        0 < chunk.len(),
        offset + chunk.len() <= u64::MAX,
    ensures
        ({
            let path = model.current();
            let named = model.needs_header(path);
            let events = one_chunk(chunk, named);
            &&& output(model, events) == (if named {
                follow::header_of(path)
            } else {
                Seq::empty()
            }) + chunk
            &&& after(model, events) == (EngineModel {
                last: last_after(model, path),
                ..model
            }).at(StepModel::Read { identity, offset: (offset + chunk.len()) as u64 })
        }),
{
    let path = model.current();
    let data = seq![Happened::Data(chunk)];
    let done = seq![Happened::Written];
    let read = model.moved(Happened::Data(chunk));
    lemma_after_one(model, Happened::Data(chunk));
    lemma_after_one(read, Happened::Written);
    lemma_after_add(model, data, done);
    if model.needs_header(path) {
        lemma_after_one(read.moved(Happened::Written), Happened::Written);
        lemma_after_add(model, data + done, done);
        assert(one_chunk(chunk, true) =~= data + done + done);
        assert(output(model, one_chunk(chunk, true)) =~= follow::header_of(path) + chunk);
    } else {
        assert(one_chunk(chunk, false) =~= data + done);
        assert(output(model, one_chunk(chunk, false)) =~= Seq::empty() + chunk);
    }
}

/// Chunks that are read from a file are written as they are, one behind the other; where names are
/// asked for and other data was written last, the name of the file precedes them, once.
pub proof fn law_chunks_are_written(
    model: EngineModel,
    identity: FileIdentity,
    offset: int,
    chunks: Seq<Seq<u8>>,
)
    requires
        reads(model, identity, offset),
        offset + chunks.flatten().len() <= u64::MAX,
        forall|i: int| 0 <= i < chunks.len() ==> (#[trigger] chunks[i]).len() > 0,
    ensures
        ({
            let path = model.current();
            let named = model.needs_header(path);
            let events = chunk_events(chunks, named);
            &&& output(model, events) == (if named && chunks.len() > 0 {
                follow::header_of(path)
            } else {
                Seq::empty()
            }) + chunks.flatten()
            &&& after(model, events) == (EngineModel {
                last: if chunks.len() > 0 {
                    last_after(model, path)
                } else {
                    model.last
                },
                ..model
            }).at(
                StepModel::Read { identity, offset: (offset + chunks.flatten().len()) as u64 },
            )
        }),
    decreases chunks.len(),
{
    let path = model.current();
    let named = model.needs_header(path);
    let events = chunk_events(chunks, named);
    let lead = if named && chunks.len() > 0 {
        follow::header_of(path)
    } else {
        Seq::empty()
    };
    if chunks.len() == 0 {
        assert(chunks.flatten() =~= Seq::<u8>::empty());
        assert(output(model, events) =~= lead + chunks.flatten());
        assert(after(model, events) == model);
    } else {
        let first = chunks.drop_last();
        let chunk = chunks.last();
        assert(chunks =~= first.push(chunk));
        first.lemma_flatten_push(chunk);
        assert(chunks[chunks.len() - 1].len() > 0);
        assert forall|i: int| 0 <= i < first.len() implies (#[trigger] first[i]).len() > 0 by {
            assert(first[i] == chunks[i]);
        }
        law_chunks_are_written(model, identity, offset, first);
        let middle = after(model, chunk_events(first, named));
        let place: int = offset + first.flatten().len();
        assert(middle.current() == path);
        assert(middle.needs_header(path) == (named && chunks.len() == 1));
        if chunks.len() == 1 {
            assert(first.flatten() =~= Seq::<u8>::empty());
        }
        lemma_one_chunk(middle, identity, place, chunk);
        lemma_after_add(
            model,
            chunk_events(first, named),
            one_chunk(chunk, named && chunks.len() == 1),
        );
        assert(output(model, events) =~= lead + chunks.flatten());
    }
}

/// The events of following a file to its end.
pub open spec fn file_events(
    identity: FileIdentity,
    length: u64,
    chunks: Seq<Seq<u8>>,
    named: bool,
) -> Seq<Happened> {
    seq![Happened::Opened { identity, length }, Happened::Positioned] + chunk_events(chunks, named)
        + seq![Happened::Data(Seq::empty())]
}

/// Where the engine begins to read the current file, once it is known which file that is and how
/// long it is.
pub open spec fn start_in(model: EngineModel, identity: FileIdentity, length: u64) -> u64 {
    start_for(model, model.current(), identity, length)
}

/// Where the engine begins to read the file with a path.
pub open spec fn start_for(
    model: EngineModel,
    path: Seq<u8>,
    identity: FileIdentity,
    length: u64,
) -> u64 {
    follow::start_of(
        model.known(path),
        model.startup.contains(path::components(path)),
        identity,
        length,
    )
}

/// A pass over a file writes its content from the start on, in whatever chunks it is read, behind
/// its name where that is due; then the file is known to have been read to its end, and the pass
/// goes on to the next one.
pub proof fn law_file_is_followed_to_its_end(
    model: EngineModel,
    identity: FileIdentity,
    content: Seq<u8>,
    chunks: Seq<Seq<u8>>,
)
    requires
        model.is_at_open(),
        content.len() <= u64::MAX,
        chunks.flatten() == content.skip(start_in(model, identity, content.len() as u64) as int),
        forall|i: int| 0 <= i < chunks.len() ==> (#[trigger] chunks[i]).len() > 0,
    ensures
        ({
            let path = model.current();
            let start = start_in(model, identity, content.len() as u64);
            let named = model.needs_header(path);
            let events = file_events(identity, content.len() as u64, chunks, named);
            &&& start <= content.len()
            &&& output(model, events) == (if named && start < content.len() {
                follow::header_of(path)
            } else {
                Seq::empty()
            }) + content.skip(start as int)
            &&& model.pass matches PassModel::Busy { paths, complete, next, .. } && after(model, events)
                == (
            EngineModel {
                files: model.files.insert(
                    path::components(path),
                    FileState { identity, offset: content.len() as u64 },
                ),
                last: if start < content.len() {
                    last_after(model, path)
                } else {
                    model.last
                },
                ..model
            }).turned_to(paths, complete, next + 1)
        }),
{
    let path = model.current();
    let length = content.len() as u64;
    let start = start_in(model, identity, length);
    let named = model.needs_header(path);
    let opened = model.moved(Happened::Opened { identity, length });
    let placed = opened.moved(Happened::Positioned);
    let head = seq![Happened::Opened { identity, length }, Happened::Positioned];
    let body = chunk_events(chunks, named);
    let end = seq![Happened::Data(Seq::empty())];
    lemma_after_one(model, Happened::Opened { identity, length });
    lemma_after_one(opened, Happened::Positioned);
    lemma_after_add(
        model,
        seq![Happened::Opened { identity, length }],
        seq![Happened::Positioned],
    );
    assert(head =~= seq![Happened::Opened { identity, length }] + seq![Happened::Positioned]);
    assert(output(model, head) =~= Seq::<u8>::empty());
    law_chunks_are_written(placed, identity, start as int, chunks);
    lemma_after_add(model, head, body);
    lemma_after_add(model, head + body, end);
    let read = after(placed, body);
    lemma_after_one(read, Happened::Data(Seq::empty()));
    assert(chunks.len() > 0 <==> start < content.len()) by {
        if chunks.len() > 0 {
            chunks.lemma_flatten_length_ge_single_element_length(0);
            assert(chunks[0].len() > 0);
        } else {
            assert(chunks.flatten() =~= Seq::<u8>::empty());
        }
    }
    let lead = if named && start < content.len() {
        follow::header_of(path)
    } else {
        Seq::empty()
    };
    assert(output(model, file_events(identity, length, chunks, named)) =~= lead + content.skip(
        start as int,
    ));
}

/// The events of a pass over a single file.
pub open spec fn pass_events(
    model: EngineModel,
    path: Seq<u8>,
    identity: FileIdentity,
    content: Seq<u8>,
    chunks: Seq<Seq<u8>>,
) -> Seq<Happened> {
    file_events(identity, content.len() as u64, chunks, model.needs_header(path)) + seq![
        Happened::Flushed,
    ]
}

/// What passes over a single file write, one after the other, where they find the given contents and
/// read them in the given chunks, and could or could not look everywhere; and the engine after them.
pub open spec fn followed(
    model: EngineModel,
    path: Seq<u8>,
    identity: FileIdentity,
    contents: Seq<Seq<u8>>,
    reads: Seq<Seq<Seq<u8>>>,
    searches: Seq<bool>,
) -> (Seq<u8>, EngineModel)
    decreases contents.len(),
{
    if contents.len() == 0 {
        (Seq::empty(), model)
    } else {
        let before = followed(
            model,
            path,
            identity,
            contents.drop_last(),
            reads.drop_last(),
            searches.drop_last(),
        );
        let begun = before.1.turned_to(seq![path], searches.last(), 0);
        let events = pass_events(begun, path, identity, contents.last(), reads.last());
        (before.0 + output(begun, events), after(begun, events))
    }
}

/// What a file holds that was last seen with the last of the given contents, if any, and with
/// `initial` before.
pub open spec fn latest(initial: Seq<u8>, contents: Seq<Seq<u8>>) -> Seq<u8> {
    if contents.len() == 0 {
        initial
    } else {
        contents.last()
    }
}

/// Whether a file only grows, and each pass reads what has been added since the one before.
pub open spec fn only_grows(
    initial: Seq<u8>,
    contents: Seq<Seq<u8>>,
    reads: Seq<Seq<Seq<u8>>>,
) -> bool
    decreases contents.len(),
{
    contents.len() == reads.len() && (contents.len() > 0 ==> {
        let before = latest(initial, contents.drop_last());
        &&& only_grows(initial, contents.drop_last(), reads.drop_last())
        &&& before.is_prefix_of(contents.last())
        &&& contents.last().len() <= u64::MAX
        &&& reads.last().flatten() == contents.last().skip(before.len() as int)
        &&& forall|i: int|
            0 <= i < reads.last().len() ==> (#[trigger] reads.last()[i]).len() > 0
    })
}

/// While a file only grows, all that is appended to it is written, in order, and nothing twice:
/// however many passes there are, wherever they fall and in whatever chunks they read, together they
/// write what lies between the end of the file before the first pass and its end at the last one,
/// behind the name of the file at most once.
pub proof fn law_appended_data_is_written_once(
    model: EngineModel,
    path: Seq<u8>,
    identity: FileIdentity,
    initial: Seq<u8>,
    contents: Seq<Seq<u8>>,
    reads: Seq<Seq<Seq<u8>>>,
    searches: Seq<bool>,
)
    requires
        initial.len() <= u64::MAX,
        model.known(path) == Some(FileState { identity, offset: initial.len() as u64 }),
        only_grows(initial, contents, reads),
    ensures
        ({
            let reached = latest(initial, contents);
            let written = followed(model, path, identity, contents, reads, searches);
            &&& initial.is_prefix_of(reached)
            &&& reached.len() <= u64::MAX
            &&& written.0 == (if model.needs_header(path) && initial.len() < reached.len() {
                follow::header_of(path)
            } else {
                Seq::empty()
            }) + reached.skip(initial.len() as int)
            &&& written.1.known(path) == Some(
                FileState { identity, offset: reached.len() as u64 },
            )
            &&& written.1.output_mode == model.output_mode
            &&& written.1.last == (if initial.len() < reached.len() {
                last_after(model, path)
            } else {
                model.last
            })
        }),
    decreases contents.len(),
{
    let reached = latest(initial, contents);
    let lead = if model.needs_header(path) && initial.len() < reached.len() {
        follow::header_of(path)
    } else {
        Seq::empty()
    };
    if contents.len() == 0 {
        assert(lead + reached.skip(initial.len() as int) =~= Seq::<u8>::empty());
    } else {
        let earlier = contents.drop_last();
        let content = contents.last();
        let chunks = reads.last();
        law_appended_data_is_written_once(
            model,
            path,
            identity,
            initial,
            earlier,
            reads.drop_last(),
            searches.drop_last(),
        );
        let middle = latest(initial, earlier);
        let before = followed(
            model,
            path,
            identity,
            earlier,
            reads.drop_last(),
            searches.drop_last(),
        );
        let begun = before.1.turned_to(seq![path], searches.last(), 0);
        assert(begun.current() == path);
        assert(begun.known(path) == before.1.known(path));
        assert(start_in(begun, identity, content.len() as u64) == middle.len());
        law_file_is_followed_to_its_end(begun, identity, content, chunks);
        let events = file_events(
            identity,
            content.len() as u64,
            chunks,
            begun.needs_header(path),
        );
        let read = after(begun, events);
        lemma_after_one(read, Happened::Flushed);
        lemma_after_add(begun, events, seq![Happened::Flushed]);
        assert(table::keys(seq![path]).contains(path::components(path))) by {
            assert(seq![path][0] == path);
        }
        assert(middle =~= content.take(middle.len() as int));
        assert(middle.skip(initial.len() as int) + content.skip(middle.len() as int)
            =~= content.skip(initial.len() as int));
        assert(followed(model, path, identity, contents, reads, searches).0 =~= lead + reached.skip(
            initial.len() as int,
        ));
    }
}

/// What is known of a file that the pass found does not change by what happens to others.
pub proof fn law_files_do_not_affect_each_other(
    model: EngineModel,
    happened: Happened,
    path: Seq<u8>,
)
    requires
        path::components(path) != path::components(model.current()),
        model.pass matches PassModel::Busy { paths, .. } && table::keys(paths).contains(
            path::components(path),
        ),
    ensures
        model.moved(happened).known(path) == model.known(path),
{
}

/// A file that is discovered is read from its beginning: one of which nothing is known, and whose path
/// has not been there since the start.
pub proof fn law_new_file_is_read_from_the_beginning(
    model: EngineModel,
    identity: FileIdentity,
    length: u64,
)
    requires
        model.known(model.current()) is None,
        !model.startup.contains(path::components(model.current())),
    ensures
        start_in(model, identity, length) == 0,
{
}

/// A file that is not known though its path has been there since the start, as far as could be seen, is
/// read from the end that it has when it can be opened: it could not be read before, or it was out
/// of sight.
pub proof fn law_startup_file_is_read_from_its_end(
    model: EngineModel,
    identity: FileIdentity,
    length: u64,
)
    requires
        model.known(model.current()) is None,
        model.startup.contains(path::components(model.current())),
    ensures
        start_in(model, identity, length) == length,
{
}

/// As long as the files are looked for everywhere, only a file that could not be read so far is unknown
/// though its path has been there since the start: a file that is known stays known, in whatever
/// state, while its path counts as there since the start.
pub proof fn law_known_startup_file_stays_known(
    model: EngineModel,
    happened: Happened,
    paths: Seq<Seq<u8>>,
    path: Seq<u8>,
)
    requires
        model.known(path) is Some,
    ensures
        (model.pass matches PassModel::Busy { complete, .. } ==> complete) && model.moved(
            happened,
        ).startup.contains(path::components(path)) ==> model.moved(happened).known(path) is Some,
        model.turned_to(paths, true, 0).startup.contains(path::components(path))
            ==> model.turned_to(paths, true, 0).known(path) is Some,
{
}

/// A file that has become shorter than what was read of it is read from its beginning.
pub proof fn law_truncated_file_is_read_from_the_beginning(
    model: EngineModel,
    state: FileState,
    identity: FileIdentity,
    length: u64,
)
    requires
        model.known(model.current()) == Some(state),
        length < state.offset,
    ensures
        start_in(model, identity, length) == 0,
{
}

/// A file that has taken the path of another is read from its beginning.
pub proof fn law_replaced_file_is_read_from_the_beginning(
    model: EngineModel,
    state: FileState,
    identity: FileIdentity,
    length: u64,
)
    requires
        model.known(model.current()) == Some(state),
        identity != state.identity,
    ensures
        start_in(model, identity, length) == 0,
{
}

/// Each file that could be opened at the start is followed from its end on.
pub proof fn law_opened_files_start_at_their_ends(
    files: Map<Seq<Seq<u8>>, FileState>,
    found: Seq<(FilePath, Opening)>,
    index: int,
)
    requires
        0 <= index < found.len(),
        order::are_apart(engine::found_texts(found)),
    ensures
        found[index].1 matches Opening::Opened { identity, length } ==> engine::started(
            files,
            found,
        ).contains_pair(
            path::components(found[index].0@),
            FileState { identity, offset: length },
        ),
    decreases found.len(),
{
    let earlier = found.drop_last();
    let texts = engine::found_texts(found);
    if index < earlier.len() {
        assert(engine::found_texts(earlier) =~= texts.drop_last());
        law_opened_files_start_at_their_ends(files, earlier, index);
        assert(earlier[index] == found[index]);
        assert(path::components(texts[index]) != path::components(texts[found.len() - 1]));
    }
}

/// A name is due before the data of a file exactly where names are asked for and the data that was
/// written last is that of another file; and none is due before more data of the same file.
pub proof fn law_names_are_due_on_a_switch(model: EngineModel, path: Seq<u8>, other: Seq<u8>)
    ensures
        model.output_mode == OutputMode::Raw ==> !model.needs_header(path),
        !(EngineModel { last: last_after(model, path), ..model }).needs_header(path),
        model.output_mode == OutputMode::Headers && path::components(other) != path::components(
            path,
        ) ==> (EngineModel { last: last_after(model, path), ..model }).needs_header(other),
{
}

/// Whether a file that cannot be read is what an event tells of.
pub open spec fn is_skip(model: EngineModel, happened: Happened) -> bool {
    match happened {
        Happened::NotOpened => model.is_at_open(),
        Happened::NotPositioned => model.is_at_seek(),
        Happened::NotRead => model.is_at_read(),
        _ => false,
    }
}

/// A file that cannot be opened, positioned or read is passed over: the pass goes on to the next
/// one, and what is known of every file that is there stays.
pub proof fn law_unreadable_file_is_passed_over(
    model: EngineModel,
    happened: Happened,
    path: Seq<u8>,
)
    requires
        is_skip(model, happened),
    ensures
        model.pass matches PassModel::Busy { paths, complete, next, .. } && model.moved(happened)
            == model.turned_to(paths, complete, next + 1) && (table::keys(paths).contains(
            path::components(path),
        ) ==> model.moved(happened).known(path) == model.known(path)),
{
}

/// Whether only files that the pass found are known once it comes to its end, and only their paths
/// count as there since the start if everything was looked through.
pub open spec fn forgets(model: EngineModel) -> bool {
    model.pass matches PassModel::Busy { paths, complete, step: StepModel::Flush, .. } ==> {
        &&& forall|key: Seq<Seq<u8>>| #[trigger]
            model.files.contains_key(key) ==> table::keys(paths).contains(key)
        &&& complete ==> forall|key: Seq<Seq<u8>>| #[trigger]
            model.startup.contains(key) ==> table::keys(paths).contains(key)
    }
}

/// When a pass is over, every file that it did not find has been forgotten.
pub proof fn law_missing_files_are_forgotten(
    model: EngineModel,
    paths: Seq<Seq<u8>>,
    complete: bool,
    happened: Happened,
)
    ensures
        forgets(model.turned_to(paths, complete, 0)),
        forgets(model) ==> forgets(model.moved(happened)),
{
}

/// Whether a pass has come to its end without finding a file.
pub open spec fn has_missed(model: EngineModel, path: Seq<u8>, everywhere: bool) -> bool {
    model.pass matches PassModel::Busy { paths, complete, step: StepModel::Flush, .. } && complete
        == everywhere && !table::keys(paths).contains(path::components(path))
}

/// Whether nothing is known of a file, and its path has not been there since the start.
pub open spec fn is_unseen(model: EngineModel, path: Seq<u8>) -> bool {
    model.known(path) is None && !model.startup.contains(path::components(path))
}

/// A file that a finished pass did not find though it looked everywhere is read from its beginning
/// when a later pass finds it again, whether its path was there at the start or not.
pub proof fn law_file_that_comes_back_is_read_from_the_beginning(
    model: EngineModel,
    path: Seq<u8>,
    again: Seq<Seq<u8>>,
    complete: bool,
    identity: FileIdentity,
    length: u64,
)
    requires
        forgets(model),
        has_missed(model, path, true),
    ensures
        ({
            let begun = model.moved(Happened::Flushed).turned_to(again, complete, 0);
            is_unseen(begun, path) && start_for(begun, path, identity, length) == 0
        }),
{
}

/// A path that was there at the start still counts as there since then after a pass that could not
/// look everywhere, whatever it found and whatever happens in it.
pub proof fn law_incomplete_listing_keeps_what_was_there(
    model: EngineModel,
    paths: Seq<Seq<u8>>,
    happened: Happened,
)
    ensures
        model.turned_to(paths, false, 0).startup == model.startup,
        (model.pass matches PassModel::Busy { complete, .. } ==> !complete) ==> model.moved(
            happened,
        ).startup == model.startup,
{
}

/// So a file that was there at the start, and that a pass did not find since it could not look
/// everywhere, is read from the end that it has when a later pass finds it again: nothing of what it
/// held is written.
pub proof fn law_file_that_was_out_of_sight_is_read_from_its_end(
    model: EngineModel,
    path: Seq<u8>,
    again: Seq<Seq<u8>>,
    complete: bool,
    identity: FileIdentity,
    length: u64,
)
    requires
        forgets(model),
        has_missed(model, path, false),
        model.startup.contains(path::components(path)),
        table::keys(again).contains(path::components(path)),
    ensures
        start_for(
            model.moved(Happened::Flushed).turned_to(again, complete, 0),
            path,
            identity,
            length,
        ) == length,
{
}

/// A file that has not been seen stays so, whatever happens, until it has itself been read to its
/// end.
pub proof fn law_unseen_file_stays_unseen(
    model: EngineModel,
    happened: Happened,
    paths: Seq<Seq<u8>>,
    complete: bool,
    path: Seq<u8>,
)
    requires
        is_unseen(model, path),
    ensures
        is_unseen(model.turned_to(paths, complete, 0), path),
        is_unseen(model.moved(happened), path) || (model.is_at_read() && happened
            == Happened::Data(Seq::empty()) && path::components(model.current())
            == path::components(path)),
{
    if let Happened::Data(chunk) = happened {
        if chunk.len() == 0 {
            assert(chunk =~= Seq::empty());
        }
    }
}

} // verus!
