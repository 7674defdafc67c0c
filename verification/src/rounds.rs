//! What a whole pass writes.

use vstd::prelude::*;

use crate::engine::{EngineModel, Happened, PassModel, StepModel};
use crate::follow;
use crate::follow::{FileIdentity, FileState, OutputMode};
use crate::order;
use crate::passes;
use crate::path;
use crate::table;

verus! {

/// A file as a pass finds it: its path, which file it is and what it holds; where reading begins, and
/// the chunks in which it is read.
pub struct Visit {
    pub path: Seq<u8>,
    pub identity: FileIdentity,
    pub content: Seq<u8>,
    pub start: int,
    pub chunks: Seq<Seq<u8>>,
}

impl Visit {
    /// What is read.
    pub open spec fn fresh(self) -> Seq<u8> {
        self.content.skip(self.start)
    }

    pub open spec fn length(self) -> u64 {
        self.content.len() as u64
    }

    /// Whether the file is read from where the engine begins, and to its end.
    pub open spec fn is_complete(self, model: EngineModel) -> bool {
        &&& self.content.len() <= u64::MAX
        &&& self.start == follow::start_of(
            model.known(self.path),
            model.startup.contains(path::components(self.path)),
            self.identity,
            self.length(),
        )
        &&& self.chunks.flatten() == self.fresh()
        &&& forall|i: int| 0 <= i < self.chunks.len() ==> (#[trigger] self.chunks[i]).len() > 0
    }

    /// What is known of the file once it has been read.
    pub open spec fn state(self) -> FileState {
        FileState { identity: self.identity, offset: self.length() }
    }
}

/// The output of visits, one after the other: what is read of each file, behind its name where that
/// is asked for, there is something to read, and the data before it is that of another file.
pub open spec fn output_of(
    mode: OutputMode,
    last: Option<Seq<Seq<u8>>>,
    visits: Seq<Visit>,
) -> Seq<u8>
    decreases visits.len(),
{
    if visits.len() == 0 {
        Seq::empty()
    } else {
        let visit = visits[0];
        let key = Some(path::components(visit.path));
        let rest = visits.drop_first();
        if visit.fresh().len() == 0 {
            output_of(mode, last, rest)
        } else if mode == OutputMode::Raw {
            visit.fresh() + output_of(mode, last, rest)
        } else if last == key {
            visit.fresh() + output_of(mode, key, rest)
        } else {
            follow::header_of(visit.path) + visit.fresh() + output_of(mode, key, rest)
        }
    }
}

/// The path whose data was written last, after visits.
pub open spec fn last_of(
    mode: OutputMode,
    last: Option<Seq<Seq<u8>>>,
    visits: Seq<Visit>,
) -> Option<Seq<Seq<u8>>>
    decreases visits.len(),
{
    if visits.len() == 0 {
        last
    } else if mode == OutputMode::Headers && visits[0].fresh().len() > 0 {
        last_of(mode, Some(path::components(visits[0].path)), visits.drop_first())
    } else {
        last_of(mode, last, visits.drop_first())
    }
}

/// The events of visits, one after the other.
pub open spec fn events_of(model: EngineModel, visits: Seq<Visit>) -> Seq<Happened>
    decreases visits.len(),
{
    if visits.len() == 0 {
        Seq::empty()
    } else {
        let first = visit_events(model, visits[0]);
        first + events_of(passes::after(model, first), visits.drop_first())
    }
}

pub open spec fn visit_events(model: EngineModel, visit: Visit) -> Seq<Happened> {
    passes::file_events(
        visit.identity,
        visit.length(),
        visit.chunks,
        model.needs_header(model.current()),
    )
}

/// Whether a pass has come to the first of the visits, which are all that is left of it.
pub open spec fn stands_before(model: EngineModel, visits: Seq<Visit>) -> bool {
    model.pass matches PassModel::Busy { paths, next, step, .. } && {
        &&& 0 <= next <= paths.len()
        &&& visits.len() == paths.len() - next
        &&& forall|i: int|
            0 <= i < visits.len() ==> (#[trigger] visits[i]).path == paths[next + i]
        &&& step == if visits.len() > 0 {
            StepModel::Open
        } else {
            StepModel::Flush
        }
    }
}

/// The paths of visits.
pub open spec fn paths_of(visits: Seq<Visit>) -> Seq<Seq<u8>> {
    visits.map_values(|visit: Visit| visit.path)
}

spec fn are_distinct(visits: Seq<Visit>) -> bool {
    forall|i: int, j: int|
        0 <= i < j < visits.len() ==> path::components((#[trigger] visits[i]).path)
            != path::components((#[trigger] visits[j]).path)
}

/// Whether two states of the engine are of the same pass: over the same files, found in a search that
/// was complete in both or in neither.
pub open spec fn is_same_pass(model: EngineModel, other: EngineModel) -> bool {
    model.pass matches PassModel::Busy { paths, complete, .. } && (
    other.pass matches PassModel::Busy { paths: paths_there, complete: complete_there, .. }
        && paths_there == paths && complete_there == complete)
}

/// The paths that count as there since the start once a pass is over.
pub open spec fn startup_after(model: EngineModel) -> Set<Seq<Seq<u8>>> {
    match model.pass {
        PassModel::Busy { paths, complete: true, .. } => model.startup.intersect(
            table::keys(paths),
        ),
        _ => model.startup,
    }
}

/// The engine after a first visit, which touches only what is known of the file visited.
proof fn lemma_first_visit(model: EngineModel, visits: Seq<Visit>)
    requires
        stands_before(model, visits),
        visits.len() > 0,
        visits[0].is_complete(model),
    ensures
        ({
            let visit = visits[0];
            let events = visit_events(model, visit);
            let next = passes::after(model, events);
            &&& passes::output(model, events) == (if model.needs_header(visit.path)
                && visit.fresh().len() > 0 {
                follow::header_of(visit.path)
            } else {
                Seq::empty()
            }) + visit.fresh()
            &&& stands_before(next, visits.drop_first())
            &&& is_same_pass(model, next)
            &&& next.output_mode == model.output_mode
            &&& next.startup == (if visits.len() == 1 {
                startup_after(model)
            } else {
                model.startup
            })
            &&& next.last == (if visit.fresh().len() > 0 {
                passes::last_after(model, visit.path)
            } else {
                model.last
            })
            &&& next.known(visit.path) == Some(visit.state())
            &&& model.pass matches PassModel::Busy { paths, .. } ==> forall|path: Seq<u8>|
                #![trigger next.known(path)]
                path::components(path) != path::components(visit.path) && table::keys(
                    paths,
                ).contains(path::components(path)) ==> next.known(path) == model.known(path)
            &&& visits.len() == 1 ==> passes::forgets(next)
        }),
{
    let visit = visits[0];
    let rest = visits.drop_first();
    assert(visits[0].path == model.current());
    passes::law_file_is_followed_to_its_end(model, visit.identity, visit.content, visit.chunks);
    let next = passes::after(model, visit_events(model, visit));
    if let PassModel::Busy { paths, next: number, .. } = model.pass {
        assert(table::keys(paths).contains(path::components(visit.path))) by {
            assert(paths[number] == visit.path);
        }
        assert forall|i: int| 0 <= i < rest.len() implies (#[trigger] rest[i]).path == paths[number
            + 1 + i] by {
            assert(rest[i] == visits[i + 1]);
        }
    }
    assert(visit.fresh().len() == visit.content.len() - visit.start);
}

/// A pass over files that can all be read writes what is new in each of them, in the order of the
/// pass, and a name exactly where the output turns to another file; then each of them is known to
/// have been read to its end, and what was known of other files is forgotten. What was there at the
/// start is forgotten with it, unless not everything could be looked through.
pub proof fn law_pass_writes_what_is_new(model: EngineModel, visits: Seq<Visit>)
    requires
        stands_before(model, visits),
        order::are_apart(paths_of(visits)),
        passes::forgets(model),
        forall|i: int| 0 <= i < visits.len() ==> (#[trigger] visits[i]).is_complete(model),
    ensures
        ({
            let end = passes::after(model, events_of(model, visits));
            &&& passes::output(model, events_of(model, visits)) == output_of(
                model.output_mode,
                model.last,
                visits,
            )
            &&& end.is_at_flush()
            &&& end.output_mode == model.output_mode
            &&& end.last == last_of(model.output_mode, model.last, visits)
            &&& is_same_pass(model, end)
            &&& end.startup == startup_after(model)
            &&& passes::forgets(end)
            &&& forall|i: int|
                0 <= i < visits.len() ==> end.known((#[trigger] visits[i]).path) == Some(
                    visits[i].state(),
                )
        }),
{
    assert(are_distinct(visits)) by {
        assert forall|i: int, j: int| 0 <= i < j < visits.len() implies path::components(
            (#[trigger] visits[i]).path,
        ) != path::components((#[trigger] visits[j]).path) by {
            assert(paths_of(visits)[i] == visits[i].path && paths_of(visits)[j] == visits[j].path);
        }
    }
    lemma_pass(model, visits);
}

/// The same, and that what is known of the other files of the pass stays.
proof fn lemma_pass(model: EngineModel, visits: Seq<Visit>)
    requires
        stands_before(model, visits),
        are_distinct(visits),
        passes::forgets(model),
        forall|i: int| 0 <= i < visits.len() ==> (#[trigger] visits[i]).is_complete(model),
    ensures
        ({
            let end = passes::after(model, events_of(model, visits));
            &&& passes::output(model, events_of(model, visits)) == output_of(
                model.output_mode,
                model.last,
                visits,
            )
            &&& end.is_at_flush()
            &&& end.output_mode == model.output_mode
            &&& end.last == last_of(model.output_mode, model.last, visits)
            &&& is_same_pass(model, end)
            &&& end.startup == startup_after(model)
            &&& passes::forgets(end)
            &&& forall|i: int|
                0 <= i < visits.len() ==> end.known((#[trigger] visits[i]).path) == Some(
                    visits[i].state(),
                )
            &&& model.pass matches PassModel::Busy { paths, .. } ==> forall|path: Seq<u8>|
                #![trigger end.known(path)]
                table::keys(paths).contains(path::components(path)) && (forall|i: int|
                    0 <= i < visits.len() ==> path::components((#[trigger] visits[i]).path)
                        != path::components(path)) ==> end.known(path) == model.known(path)
        }),
    decreases visits.len(),
{
    if visits.len() == 0 {
        assert(startup_after(model) =~= model.startup);
    } else {
        let visit = visits[0];
        let rest = visits.drop_first();
        let first = visit_events(model, visit);
        let next = passes::after(model, first);
        lemma_first_visit(model, visits);
        assert(are_distinct(rest)) by {
            assert forall|i: int, j: int| 0 <= i < j < rest.len() implies path::components(
                (#[trigger] rest[i]).path,
            ) != path::components((#[trigger] rest[j]).path) by {
                assert(rest[i] == visits[i + 1] && rest[j] == visits[j + 1]);
            }
        }
        assert forall|i: int| 0 <= i < rest.len() implies (#[trigger] rest[i]).is_complete(
            next,
        ) by {
            assert(rest[i] == visits[i + 1]);
            assert(path::components(visits[0].path) != path::components(visits[i + 1].path));
            if let PassModel::Busy { paths, next: number, .. } = model.pass {
                assert(paths[number + i + 1] == rest[i].path);
                assert(table::keys(paths).contains(path::components(rest[i].path)));
            }
            assert(next.known(rest[i].path) == model.known(rest[i].path));
        }
        lemma_pass(next, rest);
        passes::lemma_after_add(model, first, events_of(next, rest));
        if let PassModel::Busy { paths, .. } = model.pass {
            let kept = table::keys(paths);
            assert(model.startup.intersect(kept).intersect(kept) =~= model.startup.intersect(kept));
        }
        let end = passes::after(model, events_of(model, visits));
        assert(passes::output(model, events_of(model, visits)) =~= output_of(
            model.output_mode,
            model.last,
            visits,
        ));
        assert forall|i: int| 0 <= i < visits.len() implies end.known((#[trigger] visits[i]).path)
            == Some(visits[i].state()) by {
            if i > 0 {
                assert(visits[i] == rest[i - 1]);
            } else {
                assert forall|j: int| 0 <= j < rest.len() implies path::components(
                    (#[trigger] rest[j]).path,
                ) != path::components(visit.path) by {
                    assert(rest[j] == visits[j + 1]);
                    assert(path::components(visits[0].path) != path::components(
                        visits[j + 1].path,
                    ));
                }
                if let PassModel::Busy { paths, next: number, .. } = model.pass {
                    assert(paths[number] == visit.path);
                    assert(table::keys(paths).contains(path::components(visit.path)));
                }
                assert(end.known(visit.path) == next.known(visit.path));
            }
        }
        if let PassModel::Busy { paths, .. } = model.pass {
            assert forall|path: Seq<u8>|
                #![trigger end.known(path)]
                table::keys(paths).contains(path::components(path)) && (forall|i: int|
                    0 <= i < visits.len() ==> path::components((#[trigger] visits[i]).path)
                        != path::components(path)) implies end.known(path) == model.known(path) by {
                assert(path::components(visits[0].path) != path::components(path));
                assert forall|j: int| 0 <= j < rest.len() implies path::components(
                    (#[trigger] rest[j]).path,
                ) != path::components(path) by {
                    assert(rest[j] == visits[j + 1]);
                }
                assert(end.known(path) == next.known(path));
            }
        }
    }
}

/// Raw output is the new data of the files and nothing else.
pub proof fn law_raw_output_is_the_data(last: Option<Seq<Seq<u8>>>, visits: Seq<Visit>)
    ensures
        output_of(OutputMode::Raw, last, visits) == visits.map_values(
            |visit: Visit| visit.fresh(),
        ).flatten(),
    decreases visits.len(),
{
    let data = visits.map_values(|visit: Visit| visit.fresh());
    if visits.len() > 0 {
        let rest = visits.drop_first();
        law_raw_output_is_the_data(last, rest);
        assert(data.drop_first() =~= rest.map_values(|visit: Visit| visit.fresh()));
        assert(output_of(OutputMode::Raw, last, visits) =~= data.flatten());
    } else {
        assert(data =~= Seq::empty());
    }
}

} // verus!
