//! What a walk finds in a tree of directories.

use vstd::prelude::*;

use crate::glob;
use crate::order;
use crate::path;
use crate::path::SEPARATOR;
use crate::prefix;
use crate::walk;
use crate::walk::{FileKind, Progress, Seen};
use crate::watch::WatchSpec;

verus! {

/// What listing a directory gives: its entries, or a refusal.
pub enum Listing {
    Unreadable,
    Entries(Seq<Item>),
}

/// An entry of a directory. One may not be readable, and the kind of one may not be known.
pub enum Item {
    Broken,
    Unknown(Seq<u8>),
    File(Seq<u8>),
    Directory(Seq<u8>, Listing),
    Other(Seq<u8>),
}

/// The events that a walk is told about a listing, if it goes below it or not.
pub open spec fn listing_events(listing: Listing, below: bool) -> Seq<Seen>
    decreases listing,
{
    match listing {
        Listing::Unreadable => seq![Seen::Unreadable],
        Listing::Entries(items) => seq![Seen::Opened] + items_events(items, below)
            + seq![Seen::End],
    }
}

pub open spec fn items_events(items: Seq<Item>, below: bool) -> Seq<Seen>
    decreases items,
{
    if items.len() == 0 {
        Seq::empty()
    } else {
        items_events(items.drop_last(), below) + item_events(items.last(), below)
    }
}

pub open spec fn item_events(item: Item, below: bool) -> Seq<Seen>
    decreases item,
{
    match item {
        Item::Broken => seq![Seen::Broken],
        Item::Unknown(name) => seq![Seen::Entry { name, kind: None }],
        Item::File(name) => seq![Seen::Entry { name, kind: Some(FileKind::File) }],
        Item::Other(name) => seq![Seen::Entry { name, kind: Some(FileKind::Other) }],
        Item::Directory(name, listing) => seq![
            Seen::Entry { name, kind: Some(FileKind::Directory) },
        ] + if below {
            listing_events(listing, below)
        } else {
            Seq::empty()
        },
    }
}

/// The watched files of a listing: the regular files that are accepted, and those of the
/// directories in it where these are searched.
pub open spec fn listing_files(spec: WatchSpec, directory: Seq<u8>, listing: Listing) -> Seq<
    Seq<u8>,
>
    decreases listing,
{
    match listing {
        Listing::Unreadable => Seq::empty(),
        Listing::Entries(items) => items_files(spec, directory, items),
    }
}

pub open spec fn items_files(spec: WatchSpec, directory: Seq<u8>, items: Seq<Item>) -> Seq<Seq<u8>>
    decreases items,
{
    if items.len() == 0 {
        Seq::empty()
    } else {
        items_files(spec, directory, items.drop_last()) + item_files(spec, directory, items.last())
    }
}

pub open spec fn item_files(spec: WatchSpec, directory: Seq<u8>, item: Item) -> Seq<Seq<u8>>
    decreases item,
{
    match item {
        Item::File(name) => if spec.accepts(path::join(directory, name)) {
            seq![path::join(directory, name)]
        } else {
            Seq::empty()
        },
        Item::Directory(name, listing) => if spec.is_recursive() {
            listing_files(spec, path::join(directory, name), listing)
        } else {
            Seq::empty()
        },
        _ => Seq::empty(),
    }
}

/// Whether everything in a listing can be read, and below it where that is searched.
pub open spec fn is_readable(listing: Listing, below: bool) -> bool
    decreases listing,
{
    match listing {
        Listing::Unreadable => false,
        Listing::Entries(items) => are_readable(items, below),
    }
}

pub open spec fn are_readable(items: Seq<Item>, below: bool) -> bool
    decreases items,
{
    items.len() == 0 || (are_readable(items.drop_last(), below) && is_readable_item(
        items.last(),
        below,
    ))
}

pub open spec fn is_readable_item(item: Item, below: bool) -> bool
    decreases item,
{
    match item {
        Item::Broken => false,
        Item::Unknown(_) => false,
        Item::Directory(_, listing) => below ==> is_readable(listing, below),
        _ => true,
    }
}

/// Where a walk stands after a number of events.
pub open spec fn walked(spec: WatchSpec, start: Progress, events: Seq<Seen>) -> Progress
    decreases events.len(),
{
    if events.len() == 0 {
        start
    } else {
        walk::advanced(spec, walked(spec, start, events.drop_last()), events.last())
    }
}

proof fn lemma_walked_add(spec: WatchSpec, start: Progress, first: Seq<Seen>, second: Seq<Seen>)
    ensures
        walked(spec, start, first + second) == walked(spec, walked(spec, start, first), second),
    decreases second.len(),
{
    if second.len() == 0 {
        assert(first + second =~= first);
    } else {
        lemma_walked_add(spec, start, first, second.drop_last());
        assert((first + second).drop_last() =~= first + second.drop_last());
        assert((first + second).last() == second.last());
    }
}

proof fn lemma_walked_one(spec: WatchSpec, start: Progress, event: Seen)
    ensures
        walked(spec, start, seq![event]) == walk::advanced(spec, start, event),
{
    assert(seq![event].drop_last() =~= Seq::<Seen>::empty());
    assert(seq![event].last() == event);
    assert(walked(spec, start, Seq::empty()) == start);
}

/// A walk that is about to list a directory comes back with the watched files of that directory, and
/// with nothing else changed but that it is not complete if something could not be read.
pub proof fn law_listing_is_walked(
    spec: WatchSpec,
    start: Progress,
    directory: Seq<u8>,
    listing: Listing,
)
    requires
        start.opening == Some(directory),
    ensures
        walked(spec, start, listing_events(listing, spec.is_recursive())) == (Progress {
            opening: None,
            open: start.open,
            found: start.found + listing_files(spec, directory, listing),
            complete: start.complete && is_readable(listing, spec.is_recursive()),
        }),
    decreases listing,
{
    let below = spec.is_recursive();
    match listing {
        Listing::Unreadable => {
            lemma_walked_one(spec, start, Seen::Unreadable);
            assert(start.found + Seq::<Seq<u8>>::empty() =~= start.found);
        },
        Listing::Entries(items) => {
            let opened = Progress {
                opening: None,
                open: start.open.push(directory),
                found: start.found,
                complete: start.complete,
            };
            lemma_walked_one(spec, start, Seen::Opened);
            lemma_walked_add(spec, start, seq![Seen::Opened], items_events(items, below));
            lemma_items_are_walked(spec, opened, directory, items);
            lemma_walked_add(
                spec,
                start,
                seq![Seen::Opened] + items_events(items, below),
                seq![Seen::End],
            );
            let listed = Progress {
                found: start.found + items_files(spec, directory, items),
                complete: start.complete && are_readable(items, below),
                ..opened
            };
            lemma_walked_one(spec, listed, Seen::End);
            assert(listed.open.drop_last() =~= start.open);
        },
    }
}

proof fn lemma_items_are_walked(
    spec: WatchSpec,
    start: Progress,
    directory: Seq<u8>,
    items: Seq<Item>,
)
    requires
        start.opening is None,
        start.open.len() > 0,
        start.open.last() == directory,
    ensures
        walked(spec, start, items_events(items, spec.is_recursive())) == (Progress {
            found: start.found + items_files(spec, directory, items),
            complete: start.complete && are_readable(items, spec.is_recursive()),
            ..start
        }),
    decreases items,
{
    let below = spec.is_recursive();
    if items.len() == 0 {
        assert(start.found + Seq::<Seq<u8>>::empty() =~= start.found);
    } else {
        let first = items.drop_last();
        let last = items.last();
        lemma_items_are_walked(spec, start, directory, first);
        let middle = Progress {
            found: start.found + items_files(spec, directory, first),
            complete: start.complete && are_readable(first, below),
            ..start
        };
        lemma_walked_add(spec, start, items_events(first, below), item_events(last, below));
        lemma_item_is_walked(spec, middle, directory, last);
        assert(middle.found + item_files(spec, directory, last) =~= start.found + items_files(
            spec,
            directory,
            items,
        ));
    }
}

proof fn lemma_item_is_walked(spec: WatchSpec, start: Progress, directory: Seq<u8>, item: Item)
    requires
        start.opening is None,
        start.open.len() > 0,
        start.open.last() == directory,
    ensures
        walked(spec, start, item_events(item, spec.is_recursive())) == (Progress {
            found: start.found + item_files(spec, directory, item),
            complete: start.complete && is_readable_item(item, spec.is_recursive()),
            ..start
        }),
    decreases item,
{
    let below = spec.is_recursive();
    let first = match item {
        Item::Broken => Seen::Broken,
        Item::Unknown(name) => Seen::Entry { name, kind: None },
        Item::File(name) => Seen::Entry { name, kind: Some(FileKind::File) },
        Item::Other(name) => Seen::Entry { name, kind: Some(FileKind::Other) },
        Item::Directory(name, _) => Seen::Entry { name, kind: Some(FileKind::Directory) },
    };
    lemma_walked_one(spec, start, first);
    assert(start.found + Seq::<Seq<u8>>::empty() =~= start.found);
    match item {
        Item::File(name) => {
            let path = path::join(directory, name);
            assert(start.found + seq![path] =~= start.found.push(path));
        },
        Item::Directory(name, listing) => {
            if below {
                let path = path::join(directory, name);
                let opening = Progress { opening: Some(path), ..start };
                lemma_walked_add(spec, start, seq![first], listing_events(listing, below));
                law_listing_is_walked(spec, opening, path, listing);
            } else {
                assert(item_events(item, below) =~= seq![first]);
            }
        },
        _ => {},
    }
}

/// A whole walk, from its start to its end, finds the watched files of the tree below the root, and is
/// complete exactly where everything in it could be read.
pub proof fn law_walk_finds_the_watched_files(spec: WatchSpec, listing: Listing)
    ensures
        walked(
            spec,
            Progress {
                opening: Some(spec.root_text()),
                open: Seq::empty(),
                found: Seq::empty(),
                complete: true,
            },
            listing_events(listing, spec.is_recursive()),
        ) == (Progress {
            opening: None,
            open: Seq::empty(),
            found: listing_files(spec, spec.root_text(), listing),
            complete: is_readable(listing, spec.is_recursive()),
        }),
{
    let start = Progress {
        opening: Some(spec.root_text()),
        open: Seq::empty(),
        found: Seq::empty(),
        complete: true,
    };
    law_listing_is_walked(spec, start, spec.root_text(), listing);
    assert(start.found + listing_files(spec, spec.root_text(), listing) =~= listing_files(
        spec,
        spec.root_text(),
        listing,
    ));
}

/// The paths of the regular files that lie directly in a directory.
pub open spec fn direct_files(directory: Seq<u8>, items: Seq<Item>) -> Seq<Seq<u8>>
    decreases items.len(),
{
    if items.len() == 0 {
        Seq::empty()
    } else {
        direct_files(directory, items.drop_last()) + match items.last() {
            Item::File(name) => seq![path::join(directory, name)],
            _ => Seq::empty(),
        }
    }
}

/// A directory that is watched as such gives its direct regular files and no others.
pub proof fn law_directory_gives_its_direct_files(
    spec: WatchSpec,
    directory: Seq<u8>,
    items: Seq<Item>,
)
    requires
        spec is Directory,
    ensures
        listing_files(spec, directory, Listing::Entries(items)) == direct_files(directory, items),
    decreases items.len(),
{
    if items.len() > 0 {
        law_directory_gives_its_direct_files(spec, directory, items.drop_last());
    }
}

/// Without a search below, what lies in a directory of the listing is not found, whatever it is.
pub proof fn law_no_search_below(
    spec: WatchSpec,
    directory: Seq<u8>,
    name: Seq<u8>,
    listing: Listing,
)
    requires
        !spec.is_recursive(),
    ensures
        item_files(spec, directory, Item::Directory(name, listing)) == Seq::<Seq<u8>>::empty(),
{
}

/// The name of an entry, if it could be read.
pub open spec fn item_name(item: Item) -> Option<Seq<u8>> {
    match item {
        Item::Broken => None,
        Item::Unknown(name) => Some(name),
        Item::File(name) => Some(name),
        Item::Directory(name, _) => Some(name),
        Item::Other(name) => Some(name),
    }
}

/// Whether the entries of a listing have names, no two the same, and so on below.
pub open spec fn is_tidy(listing: Listing) -> bool
    decreases listing,
{
    match listing {
        Listing::Unreadable => true,
        Listing::Entries(items) => are_tidy(items),
    }
}

pub open spec fn are_tidy(items: Seq<Item>) -> bool
    decreases items,
{
    items.len() == 0 || {
        &&& are_tidy(items.drop_last())
        &&& is_tidy_item(items.last())
        &&& forall|i: int|
            0 <= i < items.len() - 1 && item_name(#[trigger] items[i]) is Some ==> item_name(
                items[i],
            ) != item_name(items.last())
    }
}

pub open spec fn is_tidy_item(item: Item) -> bool
    decreases item,
{
    &&& item_name(item) matches Some(name) ==> prefix::is_name(name)
    &&& item matches Item::Directory(_, listing) ==> is_tidy(listing)
}

/// Whether a path lies below the given components, at the given name.
pub open spec fn lies_at(path: Seq<u8>, above: Seq<Seq<u8>>, name: Seq<u8>) -> bool {
    above.push(name).is_prefix_of(path::components(path))
}

proof fn lemma_join_name(directory: Seq<u8>, name: Seq<u8>)
    requires
        prefix::is_name(name),
    ensures
        path::components(path::join(directory, name)) == path::components(directory).push(name),
{
    prefix::lemma_name_components(name);
    if directory.len() > 0 {
        path::lemma_join_components(directory, name);
    } else {
        assert(path::spans(directory) =~= Seq::empty());
        assert(path::components(directory) =~= Seq::empty());
    }
    assert(path::components(directory) + seq![name] =~= path::components(directory).push(name));
}

proof fn lemma_item_files(spec: WatchSpec, directory: Seq<u8>, item: Item)
    requires
        is_tidy_item(item),
    ensures
        ({
            let files = item_files(spec, directory, item);
            &&& order::are_apart(files)
            &&& forall|i: int|
                0 <= i < files.len() ==> (item_name(item) matches Some(name) && lies_at(
                    #[trigger] files[i],
                    path::components(directory),
                    name,
                ))
        }),
    decreases item,
{
    let files = item_files(spec, directory, item);
    match item {
        Item::File(name) => {
            lemma_join_name(directory, name);
        },
        Item::Directory(name, listing) => {
            if spec.is_recursive() {
                let inner = path::join(directory, name);
                lemma_join_name(directory, name);
                lemma_listing_files(spec, inner, listing);
            }
        },
        _ => {},
    }
}

proof fn lemma_items_files(spec: WatchSpec, directory: Seq<u8>, items: Seq<Item>)
    requires
        are_tidy(items),
    ensures
        ({
            let files = items_files(spec, directory, items);
            &&& order::are_apart(files)
            &&& forall|i: int|
                0 <= i < files.len() ==> exists|k: int|
                    0 <= k < items.len() && (item_name(#[trigger] items[k]) matches Some(name)
                        && lies_at(#[trigger] files[i], path::components(directory), name))
        }),
    decreases items,
{
    let files = items_files(spec, directory, items);
    let above = path::components(directory);
    if items.len() > 0 {
        let first = items.drop_last();
        let last = items.last();
        let earlier = items_files(spec, directory, first);
        let added = item_files(spec, directory, last);
        lemma_items_files(spec, directory, first);
        lemma_item_files(spec, directory, last);
        assert forall|i: int| 0 <= i < files.len() implies exists|k: int|
            0 <= k < items.len() && (item_name(#[trigger] items[k]) matches Some(name) && lies_at(
                #[trigger] files[i],
                above,
                name,
            )) by {
            if i < earlier.len() {
                assert(files[i] == earlier[i]);
                let k = choose|k: int|
                    0 <= k < first.len() && (item_name(#[trigger] first[k]) matches Some(name)
                        && lies_at(earlier[i], above, name));
                assert(items[k] == first[k]);
            } else {
                assert(files[i] == added[i - earlier.len()]);
                assert(items[items.len() - 1] == last);
            }
        }
        assert forall|i: int, j: int| 0 <= i < j < files.len() implies path::components(
            #[trigger] files[i],
        ) != path::components(#[trigger] files[j]) by {
            if j < earlier.len() {
                assert(files[i] == earlier[i] && files[j] == earlier[j]);
            } else if i >= earlier.len() {
                assert(files[i] == added[i - earlier.len()] && files[j] == added[j
                    - earlier.len()]);
            } else {
                assert(files[i] == earlier[i] && files[j] == added[j - earlier.len()]);
                let k = choose|k: int|
                    0 <= k < first.len() && (item_name(#[trigger] first[k]) matches Some(name)
                        && lies_at(earlier[i], above, name));
                assert(items[k] == first[k]);
                let low = item_name(items[k])->0;
                let high = item_name(last)->0;
                assert(above.push(low)[above.len() as int] == low);
                assert(above.push(high)[above.len() as int] == high);
                assert(path::components(files[i])[above.len() as int] == low);
                assert(path::components(files[j])[above.len() as int] == high);
            }
        }
    }
}

proof fn lemma_listing_files(spec: WatchSpec, directory: Seq<u8>, listing: Listing)
    requires
        is_tidy(listing),
    ensures
        ({
            let files = listing_files(spec, directory, listing);
            &&& order::are_apart(files)
            &&& forall|i: int|
                0 <= i < files.len() ==> path::components(directory).is_prefix_of(
                    path::components(#[trigger] files[i]),
                )
        }),
    decreases listing,
{
    if let Listing::Entries(items) = listing {
        lemma_items_files(spec, directory, items);
        let files = items_files(spec, directory, items);
        let above = path::components(directory);
        assert forall|i: int| 0 <= i < files.len() implies above.is_prefix_of(
            path::components(#[trigger] files[i]),
        ) by {
            let k = choose|k: int|
                0 <= k < items.len() && (item_name(#[trigger] items[k]) matches Some(name)
                    && lies_at(files[i], above, name));
            let longer = above.push(item_name(items[k])->0);
            assert(longer.subrange(0, above.len() as int) =~= above);
            assert(above =~= path::components(files[i]).subrange(0, above.len() as int));
        }
    }
}

/// A walk finds no file twice: where the entries of every directory have names, no two the same, the
/// paths that are found have different components.
pub proof fn law_no_file_is_found_twice(spec: WatchSpec, directory: Seq<u8>, listing: Listing)
    requires
        is_tidy(listing),
    ensures
        order::are_apart(listing_files(spec, directory, listing)),
{
    lemma_listing_files(spec, directory, listing);
}

/// The paths of a walk, put in order, are strictly ascending.
pub proof fn law_matching_paths_ascend(
    spec: WatchSpec,
    listing: Listing,
    sorted: Seq<Seq<u8>>,
)
    requires
        is_tidy(listing),
        order::is_sorted(sorted),
        sorted.to_multiset() == listing_files(spec, spec.root_text(), listing).to_multiset(),
    ensures
        order::are_apart(sorted),
        order::is_ascending(sorted),
{
    law_no_file_is_found_twice(spec, spec.root_text(), listing);
    order::law_different_paths_ascend(listing_files(spec, spec.root_text(), listing), sorted);
}

/// The path that one reaches from a directory by going down along names.
pub open spec fn below(directory: Seq<u8>, names: Seq<Seq<u8>>) -> Seq<u8>
    decreases names.len(),
{
    if names.len() == 0 {
        directory
    } else {
        path::join(below(directory, names.drop_last()), names.last())
    }
}

/// Going down from a directory along names is joining the path of the names onto the directory.
proof fn lemma_below(directory: Seq<u8>, names: Seq<Seq<u8>>)
    requires
        directory.len() > 0,
        names.len() > 0,
        forall|k: int| 0 <= k < names.len() ==> prefix::is_name(#[trigger] names[k]),
    ensures
        below(directory, names) == path::join(directory, prefix::joined(names)),
        path::is_downward(prefix::joined(names)),
        path::is_trimmed(prefix::joined(names)),
        prefix::joined(names).last() != SEPARATOR,
    decreases names.len(),
{
    let last = names.last();
    let above = names.drop_last();
    assert(prefix::is_name(names[names.len() - 1]));
    prefix::lemma_name_components(last);
    assert(last[last.len() - 1] != SEPARATOR);
    if above.len() == 0 {
        assert(below(directory, above) == directory);
        assert(prefix::joined(above) =~= Seq::empty());
        assert(prefix::joined(names) == last);
    } else {
        assert forall|k: int| 0 <= k < above.len() implies prefix::is_name(#[trigger] above[k]) by {
            assert(above[k] == names[k]);
        }
        lemma_below(directory, above);
        let upper = prefix::joined(above);
        let whole = prefix::joined(names);
        assert(whole == path::join(upper, last));
        path::lemma_join_spans(upper, last);
        assert(whole =~= upper.push(SEPARATOR) + last);
        assert(whole[0] == upper[0]);
        assert(!path::starts_in_current(whole)) by {
            if upper.len() == 1 {
                assert(upper[0] != path::DOT);
            } else {
                assert(whole[1] == upper[1]);
            }
        }
        assert(path::spans(whole).last() == path::shifted(
            path::spans(last),
            path::joint(upper),
        ).last());
        assert(below(directory, names) =~= path::join(directory, whole));
    }
}

/// A file that lies below the root of a glob is watched if and only if the pattern matches the
/// names that lead from the root to it, with one separator between them.
pub proof fn law_pattern_sees_the_path_below_the_root(spec: WatchSpec, names: Seq<Seq<u8>>)
    requires
        spec.root_text().len() > 0,
        names.len() > 0,
        forall|k: int| 0 <= k < names.len() ==> prefix::is_name(#[trigger] names[k]),
    ensures
        spec matches WatchSpec::Glob { matcher, .. } ==> (spec.accepts(
            below(spec.root_text(), names),
        ) <==> glob::matched_paths(matcher).contains(prefix::joined(names))),
{
    lemma_below(spec.root_text(), names);
    path::law_strip_prefix_undoes_join(spec.root_text(), prefix::joined(names));
}

} // verus!
