//! Which files a walk finds, and what it does with each thing that it is told.

use vstd::prelude::*;

use crate::glob;
use crate::laws::words;
use crate::order;
use crate::order::{compare_paths, Side};
use crate::path;
use crate::path::FilePath;
use crate::tree;
use crate::tree::{Item, Listing};
use crate::walk::{FileKind, Walk, WalkAction, WalkEvent};
use crate::watch::{RecursiveMode, WatchSpec};

verus! {

/// Whether one comes from a directory with the given listing along names to a regular file.
pub open spec fn holds(listing: Listing, names: Seq<Seq<u8>>) -> bool
    decreases names.len(),
{
    listing matches Listing::Entries(items) && if names.len() == 0 {
        false
    } else if names.len() == 1 {
        exists|k: int| 0 <= k < items.len() && #[trigger] items[k] == Item::File(names[0])
    } else {
        exists|k: int|
            0 <= k < items.len() && (#[trigger] items[k] matches Item::Directory(name, inner)
                && name == names[0] && holds(inner, names.drop_first()))
    }
}

/// The path that one comes to from a directory along names.
pub open spec fn reached(directory: Seq<u8>, names: Seq<Seq<u8>>) -> Seq<u8>
    decreases names.len(),
{
    if names.len() == 0 {
        directory
    } else {
        reached(path::join(directory, names[0]), names.drop_first())
    }
}

proof fn lemma_item_is_listed(spec: WatchSpec, directory: Seq<u8>, items: Seq<Item>, k: int, path: Seq<u8>)
    requires
        0 <= k < items.len(),
        tree::item_files(spec, directory, items[k]).contains(path),
    ensures
        tree::items_files(spec, directory, items).contains(path),
    decreases items.len(),
{
    let first = items.drop_last();
    let earlier = tree::items_files(spec, directory, first);
    let added = tree::item_files(spec, directory, items.last());
    let all = tree::items_files(spec, directory, items);
    if k < first.len() {
        assert(first[k] == items[k]);
        lemma_item_is_listed(spec, directory, first, k, path);
        let i = choose|i: int| 0 <= i < earlier.len() && earlier[i] == path;
        assert(all[i] == path);
    } else {
        let i = choose|i: int| 0 <= i < added.len() && added[i] == path;
        assert(all[earlier.len() + i] == path);
    }
}

/// Every watched file that lies in the directory is found, and every one that lies below it too where
/// directories are searched.
pub proof fn law_every_watched_file_is_found(
    spec: WatchSpec,
    directory: Seq<u8>,
    listing: Listing,
    names: Seq<Seq<u8>>,
)
    requires
        holds(listing, names),
        names.len() == 1 || spec.is_recursive(),
        spec.accepts(reached(directory, names)),
    ensures
        tree::listing_files(spec, directory, listing).contains(reached(directory, names)),
    decreases names.len(),
{
    let path = reached(directory, names);
    if let Listing::Entries(items) = listing {
        let rest = names.drop_first();
        if names.len() == 1 {
            let k = choose|k: int| 0 <= k < items.len() && #[trigger] items[k] == Item::File(
                names[0],
            );
            assert(reached(path::join(directory, names[0]), rest) == path::join(
                directory,
                names[0],
            ));
            let files = tree::item_files(spec, directory, items[k]);
            assert(files[0] == path);
            lemma_item_is_listed(spec, directory, items, k, path);
        } else {
            let k = choose|k: int|
                0 <= k < items.len() && (#[trigger] items[k] matches Item::Directory(name, inner)
                    && name == names[0] && holds(inner, rest));
            if let Item::Directory(name, inner) = items[k] {
                law_every_watched_file_is_found(spec, path::join(directory, name), inner, rest);
                lemma_item_is_listed(spec, directory, items, k, path);
            }
        }
    }
}

/// Whether a path is that of a watched file that one comes to from a directory, and that is looked for.
pub open spec fn is_there(
    spec: WatchSpec,
    directory: Seq<u8>,
    listing: Listing,
    path: Seq<u8>,
    names: Seq<Seq<u8>>,
) -> bool {
    &&& holds(listing, names)
    &&& path == reached(directory, names)
    &&& spec.accepts(path)
    &&& names.len() == 1 || spec.is_recursive()
}

/// Nothing else is found.
pub proof fn law_only_watched_files_are_found(
    spec: WatchSpec,
    directory: Seq<u8>,
    listing: Listing,
    path: Seq<u8>,
)
    requires
        tree::listing_files(spec, directory, listing).contains(path),
    ensures
        exists|names: Seq<Seq<u8>>| #[trigger] is_there(spec, directory, listing, path, names),
    decreases listing, 1int,
{
    if let Listing::Entries(items) = listing {
        let k = lemma_listed_item(spec, directory, items, path);
        lemma_listed_is_there(spec, directory, listing, items, k, path);
    }
}

proof fn lemma_listed_is_there(
    spec: WatchSpec,
    directory: Seq<u8>,
    listing: Listing,
    items: Seq<Item>,
    k: int,
    path: Seq<u8>,
)
    requires
        listing == Listing::Entries(items),
        0 <= k < items.len(),
        tree::item_files(spec, directory, items[k]).contains(path),
    ensures
        exists|names: Seq<Seq<u8>>| #[trigger] is_there(spec, directory, listing, path, names),
    decreases listing, 0int,
{
    match items[k] {
        Item::File(name) => {
            let names = seq![name];
            assert(names.drop_first() =~= Seq::empty());
            let above = path::join(directory, name);
            assert(reached(above, Seq::empty()) == above);
            assert(reached(directory, names) == reached(above, names.drop_first()));
            assert(items[k] == Item::File(names[0]));
            assert(holds(listing, names));
            assert(is_there(spec, directory, listing, path, names));
        },
        Item::Directory(name, inner) => {
            let below = path::join(directory, name);
            assert(decreases_to!(listing => listing->Entries_0));
            assert(decreases_to!(items => items[k]));
            assert(decreases_to!(items[k] => items[k]->Directory_1));
            law_only_watched_files_are_found(spec, below, inner, path);
            let rest = choose|names: Seq<Seq<u8>>| #[trigger]
                is_there(spec, below, inner, path, names);
            let names = seq![name] + rest;
            assert(names.drop_first() =~= rest);
            assert(names[0] == name);
            assert(rest.len() > 0);
            assert(items[k] matches Item::Directory(found, deeper) && found == names[0] && holds(
                deeper,
                names.drop_first(),
            ));
            assert(holds(listing, names));
            assert(is_there(spec, directory, listing, path, names));
        },
        _ => {},
    }
}

proof fn lemma_listed_item(
    spec: WatchSpec,
    directory: Seq<u8>,
    items: Seq<Item>,
    path: Seq<u8>,
) -> (k: int)
    requires
        tree::items_files(spec, directory, items).contains(path),
    ensures
        0 <= k < items.len(),
        tree::item_files(spec, directory, items[k]).contains(path),
    decreases items.len(),
{
    let first = items.drop_last();
    let earlier = tree::items_files(spec, directory, first);
    let all = tree::items_files(spec, directory, items);
    let i = choose|i: int| 0 <= i < all.len() && all[i] == path;
    if i < earlier.len() {
        assert(earlier[i] == path);
        let k = lemma_listed_item(spec, directory, first, path);
        assert(first[k] == items[k]);
        k
    } else {
        let added = tree::item_files(spec, directory, items.last());
        assert(added[i - earlier.len()] == path);
        items.len() - 1
    }
}

/// A walk starts with the root of what is watched, with nothing found and nothing missed.
pub proof fn law_walk_starts_at_the_root<'a>(
    spec: &'a WatchSpec,
    verbose: bool,
    walk: Walk<'a>,
    root: &FilePath,
    action: WalkAction,
    complete: bool,
)
    requires
        call_ensures(Walk::new, (spec, verbose), walk),
        call_ensures(WatchSpec::root, (spec,), root),
        call_ensures(Walk::action, (&walk,), action),
        call_ensures(Walk::is_complete, (&walk,), complete),
    ensures
        action matches WalkAction::ReadDirectory(path) && path@ == root@,
        walk@.open.len() == 0,
        walk@.found.len() == 0,
        complete,
        walk.target() == *spec,
        walk.is_verbose() == verbose,
{
}

/// A directory that is asked for is listed next if it can be, and passed over if it cannot: then the
/// walk is not complete, and the failure is told where that is asked for. What was found stays.
pub proof fn law_directories_are_listed_or_passed_over<'a>(
    walk: &mut Walk<'a>,
    directory: FilePath,
    event: WalkEvent,
    before: WalkAction,
    after: WalkAction,
    complete: bool,
    report: Option<String>,
)
    requires
        call_ensures(Walk::action, (&*old(walk),), before),
        before matches WalkAction::ReadDirectory(path) && path@ == directory@,
        call_ensures(Walk::resolve, (walk, event), report),
        call_ensures(Walk::action, (&*final(walk),), after),
        call_ensures(Walk::is_complete, (&*final(walk),), complete),
    ensures
        final(walk)@.found == old(walk)@.found,
        final(walk).target() == old(walk).target(),
        final(walk).is_verbose() == old(walk).is_verbose(),
        event is DirectoryOpened ==> after is NextEntry && final(walk)@.open == old(
            walk,
        )@.open.push(directory@) && complete == old(walk)@.complete,
        event is DirectoryFailed ==> final(walk)@.open == old(walk)@.open && !complete && (
        after is NextEntry <==> old(walk)@.open.len() > 0) && (after is Finished <==> old(
            walk,
        )@.open.len() == 0),
        event matches WalkEvent::DirectoryFailed(error) ==> if old(walk).is_verbose() {
            report matches Some(line) && words::is_line(
                line@,
                "read directory"@,
                directory@,
                error.message@,
            )
        } else {
            report is None
        },
        !(event is DirectoryFailed) ==> report is None,
        !(event is DirectoryOpened || event is DirectoryFailed) ==> final(walk)@ == old(walk)@,
{
}

/// Of the entries of the innermost open directory, a regular file is found if it is watched, a
/// directory is asked for next where directories are searched, and everything else is passed over. One
/// that cannot be read or whose kind cannot be told makes the walk incomplete, and is told where that
/// is asked for. At its end the directory is closed.
pub proof fn law_entries_are_sorted_out<'a>(
    walk: &mut Walk<'a>,
    event: WalkEvent,
    before: WalkAction,
    after: WalkAction,
    complete: bool,
    report: Option<String>,
    path: FilePath,
    watched: bool,
    below: bool,
)
    requires
        call_ensures(Walk::action, (&*old(walk),), before),
        before is NextEntry,
        event matches WalkEvent::Entry { name, .. } ==> path@ == path::join(
            old(walk)@.open.last(),
            name@,
        ),
        call_ensures(WatchSpec::is_match, (&old(walk).target(), &path), watched),
        call_ensures(WatchSpec::searches_below, (&old(walk).target(),), below),
        call_ensures(Walk::resolve, (walk, event), report),
        call_ensures(Walk::action, (&*final(walk),), after),
        call_ensures(Walk::is_complete, (&*final(walk),), complete),
    ensures
        final(walk).target() == old(walk).target(),
        final(walk).is_verbose() == old(walk).is_verbose(),
        final(walk)@.found == (if watched && (event matches WalkEvent::Entry {
            kind: Ok(FileKind::File),
            ..
        }) {
            old(walk)@.found.push(path@)
        } else {
            old(walk)@.found
        }),
        below && (event matches WalkEvent::Entry { kind: Ok(FileKind::Directory), .. }) ==> (
        after matches WalkAction::ReadDirectory(next) && next@ == path@),
        !(below && (event matches WalkEvent::Entry { kind: Ok(FileKind::Directory), .. }))
            && !(event is DirectoryEnd) ==> after is NextEntry,
        event is DirectoryEnd ==> final(walk)@.open == old(walk)@.open.drop_last() && (
        after is Finished <==> old(walk)@.open.len() == 1) && (after is NextEntry <==> old(
            walk,
        )@.open.len() > 1),
        !(event is DirectoryEnd) ==> final(walk)@.open == old(walk)@.open,
        complete == (old(walk)@.complete && !(event is EntryFailed) && !(event matches WalkEvent::Entry {
            kind: Err(_),
            ..
        })),
        event matches WalkEvent::Entry { kind: Err(error), .. } ==> if old(walk).is_verbose() {
            report matches Some(line) && words::is_line(line@, "inspect"@, path@, error.message@)
        } else {
            report is None
        },
        event matches WalkEvent::EntryFailed(error) ==> if old(walk).is_verbose() {
            report matches Some(line) && words::is_line(
                line@,
                "inspect directory entry"@,
                old(walk)@.open.last(),
                error.message@,
            )
        } else {
            report is None
        },
        !(event is EntryFailed) && !(event matches WalkEvent::Entry { kind: Err(_), .. })
            ==> report is None,
{
}

/// A walk that is over stays over, whatever it is told.
pub proof fn law_finished_walk_stays_finished<'a>(
    walk: &mut Walk<'a>,
    event: WalkEvent,
    before: WalkAction,
    report: Option<String>,
)
    requires
        call_ensures(Walk::action, (&*old(walk),), before),
        before is Finished,
        call_ensures(Walk::resolve, (walk, event), report),
    ensures
        final(walk)@ == old(walk)@,
        final(walk).target() == old(walk).target(),
        report is None,
{
}

/// The paths that a walk gives are those that it found, each as often, and none comes after one that
/// stands behind it.
pub proof fn law_walk_gives_what_it_found<'a>(
    walk: Walk<'a>,
    paths: Vec<FilePath>,
    i: int,
    j: int,
    side: Side,
)
    requires
        call_ensures(Walk::matching_paths, (walk,), paths),
        0 <= i < j < paths@.len(),
        call_ensures(compare_paths, (&paths@[i], &paths@[j]), side),
    ensures
        !(side is After),
        paths@.len() == walk@.found.len(),
        paths@.map_values(|path: FilePath| path@).to_multiset() == walk@.found.to_multiset(),
{
    let texts = order::texts(paths@);
    assert(texts[i] == paths@[i]@ && texts[j] == paths@[j]@);
    texts.to_multiset_ensures();
    walk@.found.to_multiset_ensures();
    assert(paths@.map_values(|path: FilePath| path@) =~= texts);
}

/// A directory is watched below its root without a search, and every file in it is watched; a glob is
/// watched below its root as deep as it says, and a file is watched exactly where the pattern matches
/// what is left of its path below the root.
pub proof fn law_what_is_watched(
    spec: WatchSpec,
    path: FilePath,
    root: &FilePath,
    mode: RecursiveMode,
    below: bool,
    watched: bool,
    rest: Option<FilePath>,
)
    requires
        call_ensures(WatchSpec::root, (&spec,), root),
        call_ensures(WatchSpec::recursive_mode, (&spec,), mode),
        call_ensures(WatchSpec::searches_below, (&spec,), below),
        call_ensures(WatchSpec::is_match, (&spec, &path), watched),
        call_ensures(FilePath::strip_prefix, (&path, root), rest),
    ensures
        below <==> mode is Recursive,
        below == spec.is_recursive(),
        spec matches WatchSpec::Directory { root: held } ==> root@ == held@ && !below && watched,
        spec matches WatchSpec::Glob { root: held, matcher, recursive } ==> root@ == held@ && below
            == recursive && (watched <==> (rest matches Some(relative) && glob::matched_paths(
            matcher,
        ).contains(relative@))),
{
}

} // verus!
