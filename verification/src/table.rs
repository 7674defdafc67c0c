//! Values kept under paths.

use vstd::prelude::*;

use crate::order;
use crate::order::{compare_paths, Side};
use crate::path;
use crate::path::FilePath;

verus! {

/// Values kept under paths. Paths with the same components are one key.
#[derive(Debug)]
pub struct PathMap<V> {
    entries: Vec<(FilePath, V)>,
}

/// Whether the entry with the given number is kept under the path with these components.
spec fn holds<V>(entries: Seq<(FilePath, V)>, index: int, key: Seq<Seq<u8>>) -> bool {
    0 <= index < entries.len() && path::components(entries[index].0@) == key
}

/// The entries stand in the order of their paths, and no two under the same.
spec fn in_order<V>(entries: Seq<(FilePath, V)>) -> bool {
    forall|i: int, j: int|
        0 <= i < j < entries.len() ==> order::path_side(
            (#[trigger] entries[i]).0@,
            (#[trigger] entries[j]).0@,
        ) == Side::Before
}

spec fn content<V>(entries: Seq<(FilePath, V)>) -> Map<Seq<Seq<u8>>, V> {
    Map::new(
        |key: Seq<Seq<u8>>| exists|i: int| holds(entries, i, key),
        |key: Seq<Seq<u8>>| entries[choose|i: int| holds(entries, i, key)].1,
    )
}

/// Each entry is what the content says of its path.
proof fn lemma_content<V>(entries: Seq<(FilePath, V)>)
    requires
        in_order(entries),
    ensures
        forall|i: int|
            0 <= i < entries.len() ==> content(entries).contains_key(
                path::components((#[trigger] entries[i]).0@),
            ) && content(entries)[path::components(entries[i].0@)] == entries[i].1,
        forall|key: Seq<Seq<u8>>| #[trigger]
            content(entries).contains_key(key) ==> exists|i: int| holds(entries, i, key),
        forall|i: int, j: int|
            0 <= i < entries.len() && 0 <= j < entries.len() && path::components(
                (#[trigger] entries[i]).0@,
            ) == path::components((#[trigger] entries[j]).0@) ==> i == j,
{
    assert forall|i: int, j: int|
        0 <= i < entries.len() && 0 <= j < entries.len() && path::components(
            (#[trigger] entries[i]).0@,
        ) == path::components((#[trigger] entries[j]).0@) implies i == j by {
        order::law_parts_side(
            path::components(entries[i].0@),
            path::components(entries[j].0@),
        );
    }
    assert forall|i: int| 0 <= i < entries.len() implies content(entries).contains_key(
        path::components((#[trigger] entries[i]).0@),
    ) && content(entries)[path::components(entries[i].0@)] == entries[i].1 by {
        let key = path::components(entries[i].0@);
        assert(holds(entries, i, key));
        let found = choose|k: int| holds(entries, k, key);
        assert(holds(entries, found, key));
        assert(entries[found].0 == entries[found].0);
    }
}

proof fn lemma_replaced<V>(before: Seq<(FilePath, V)>, at: int, entry: (FilePath, V))
    requires
        in_order(before),
        holds(before, at, path::components(entry.0@)),
    ensures
        in_order(before.update(at, entry)),
        content(before.update(at, entry)) == content(before).insert(
            path::components(entry.0@),
            entry.1,
        ),
{
    let key = path::components(entry.0@);
    let after = before.update(at, entry);
    assert forall|i: int| 0 <= i < after.len() implies path::components((#[trigger] after[i]).0@)
        == path::components(before[i].0@) by {}
    assert forall|i: int, j: int| 0 <= i < j < after.len() implies order::path_side(
        (#[trigger] after[i]).0@,
        (#[trigger] after[j]).0@,
    ) == Side::Before by {
        assert(order::path_side(before[i].0@, before[j].0@) == Side::Before);
    }
    lemma_content(before);
    lemma_content(after);
    let wanted = content(before).insert(key, entry.1);
    assert forall|k: Seq<Seq<u8>>| #[trigger] content(after).contains_key(k) <==> wanted.contains_key(
        k,
    ) by {
        if content(before).contains_key(k) {
            let i = choose|i: int| holds(before, i, k);
            assert(holds(after, i, k));
        }
        if content(after).contains_key(k) {
            let i = choose|i: int| holds(after, i, k);
            assert(holds(before, i, k));
        }
        if k == key {
            assert(holds(after, at, k));
        }
    }
    assert forall|k: Seq<Seq<u8>>| #[trigger] content(after).contains_key(k) implies content(
        after,
    )[k] == wanted[k] by {
        let i = choose|i: int| holds(after, i, k);
        assert(content(after)[path::components(after[i].0@)] == after[i].1);
        if i != at {
            assert(content(before)[path::components(before[i].0@)] == before[i].1);
            assert(k != key) by {
                if k == key {
                    assert(path::components(before[i].0@) == path::components(before[at].0@));
                }
            }
        }
    }
    assert(content(after) =~= wanted);
}

proof fn lemma_inserted<V>(before: Seq<(FilePath, V)>, at: int, entry: (FilePath, V))
    requires
        in_order(before),
        0 <= at <= before.len(),
        forall|i: int|
            0 <= i < at ==> order::path_side((#[trigger] before[i]).0@, entry.0@) == Side::Before,
        forall|i: int|
            at <= i < before.len() ==> order::path_side(entry.0@, (#[trigger] before[i]).0@)
                == Side::Before,
    ensures
        in_order(before.insert(at, entry)),
        content(before.insert(at, entry)) == content(before).insert(
            path::components(entry.0@),
            entry.1,
        ),
{
    let key = path::components(entry.0@);
    let after = before.insert(at, entry);
    assert forall|i: int| 0 <= i < after.len() implies #[trigger] after[i] == (if i < at {
        before[i]
    } else if i == at {
        entry
    } else {
        before[i - 1]
    }) by {}
    assert forall|i: int, j: int| 0 <= i < j < after.len() implies order::path_side(
        (#[trigger] after[i]).0@,
        (#[trigger] after[j]).0@,
    ) == Side::Before by {}
    lemma_content(before);
    lemma_content(after);
    let wanted = content(before).insert(key, entry.1);
    assert forall|k: Seq<Seq<u8>>| #[trigger] content(after).contains_key(k) <==> wanted.contains_key(
        k,
    ) by {
        if content(before).contains_key(k) {
            let i = choose|i: int| holds(before, i, k);
            let moved: int = if i < at {
                i
            } else {
                i + 1
            };
            assert(after[moved] == before[i]);
            assert(holds(after, moved, k));
        }
        if content(after).contains_key(k) {
            let i = choose|i: int| holds(after, i, k);
            assert(after[i] == after[i]);
            if i < at {
                assert(holds(before, i, k));
            } else if i > at {
                assert(holds(before, i - 1, k));
            }
        }
        if k == key {
            assert(after[at] == entry);
            assert(holds(after, at, k));
        }
    }
    assert forall|k: Seq<Seq<u8>>| #[trigger] content(after).contains_key(k) implies content(
        after,
    )[k] == wanted[k] by {
        let i = choose|i: int| holds(after, i, k);
        assert(content(after)[path::components(after[i].0@)] == after[i].1);
        assert(after[at] == entry);
        if i != at {
            let earlier: int = if i < at {
                i
            } else {
                i - 1
            };
            assert(after[i] == before[earlier]);
            assert(content(before)[path::components(before[earlier].0@)] == before[earlier].1);
            assert(k != key) by {
                if k == key {
                    assert(path::components(after[i].0@) == path::components(after[at].0@));
                }
            }
        }
    }
    assert(content(after) =~= wanted);
}

impl<V> PathMap<V> {
    /// The values, each under the components of its path.
    pub closed spec fn view(&self) -> Map<Seq<Seq<u8>>, V> {
        content(self.entries@)
    }

    /// Whether the map can be searched.
    pub closed spec fn well_formed(&self) -> bool {
        in_order(self.entries@)
    }

    /// A map without values.
    pub fn new() -> (map: PathMap<V>)
        ensures
            map.well_formed(),
            map@ == Map::<Seq<Seq<u8>>, V>::empty(),
    {
        let map: PathMap<V> = PathMap { entries: Vec::new() };
        assert(map@ =~= Map::<Seq<Seq<u8>>, V>::empty());
        map
    }

    /// Where the path stands among the entries, or where it would have to stand.
    fn find(&self, path: &FilePath) -> (place: (bool, usize))
        requires
            self.well_formed(),
        ensures
            place.0 ==> holds(self.entries@, place.1 as int, path::components(path@)),
            !place.0 ==> place.1 <= self.entries@.len() && (forall|i: int|
                0 <= i < place.1 ==> order::path_side(
                    (#[trigger] self.entries@[i]).0@,
                    path@,
                ) == Side::Before) && (forall|i: int|
                place.1 <= i < self.entries@.len() ==> order::path_side(
                    path@,
                    (#[trigger] self.entries@[i]).0@,
                ) == Side::Before),
    {
        let ghost parts = path::components(path@);
        let mut low: usize = 0;
        let mut high: usize = self.entries.len();
        while low < high
            invariant
                low <= high <= self.entries@.len(),
                in_order(self.entries@),
                parts == path::components(path@),
                forall|i: int|
                    0 <= i < low ==> order::path_side((#[trigger] self.entries@[i]).0@, path@)
                        == Side::Before,
                forall|i: int|
                    high <= i < self.entries@.len() ==> order::path_side(
                        path@,
                        (#[trigger] self.entries@[i]).0@,
                    ) == Side::Before,
            decreases high - low,
        {
            let middle: usize = low + (high - low) / 2;
            let side: Side = compare_paths(&self.entries[middle].0, path);
            let ghost there = path::components(self.entries@[middle as int].0@);
            proof {
                order::law_parts_side(there, parts);
            }
            match side {
                Side::Same => {
                    return (true, middle);
                },
                Side::Before => {
                    proof {
                        assert forall|i: int| 0 <= i < middle + 1 implies order::path_side(
                            (#[trigger] self.entries@[i]).0@,
                            path@,
                        ) == Side::Before by {
                            if i < middle {
                                let entry = self.entries@[middle as int];
                                assert(order::path_side(self.entries@[i].0@, entry.0@)
                                    == Side::Before);
                                order::law_parts_side_transitive(
                                    path::components(self.entries@[i].0@),
                                    there,
                                    parts,
                                );
                            }
                        }
                    }
                    low = middle + 1;
                },
                Side::After => {
                    proof {
                        assert forall|i: int|
                            middle <= i < self.entries@.len() implies order::path_side(
                            path@,
                            (#[trigger] self.entries@[i]).0@,
                        ) == Side::Before by {
                            if middle < i {
                                let entry = self.entries@[middle as int];
                                assert(order::path_side(entry.0@, self.entries@[i].0@)
                                    == Side::Before);
                                order::law_parts_side_transitive(
                                    parts,
                                    there,
                                    path::components(self.entries@[i].0@),
                                );
                            }
                        }
                    }
                    high = middle;
                },
            }
        }
        (false, low)
    }

    /// A path that stands nowhere among the entries is no key.
    proof fn lemma_absent(&self, path: Seq<u8>, place: int)
        requires
            self.well_formed(),
            0 <= place <= self.entries@.len(),
            forall|i: int|
                0 <= i < place ==> order::path_side((#[trigger] self.entries@[i]).0@, path)
                    == Side::Before,
            forall|i: int|
                place <= i < self.entries@.len() ==> order::path_side(
                    path,
                    (#[trigger] self.entries@[i]).0@,
                ) == Side::Before,
        ensures
            !self@.contains_key(path::components(path)),
    {
        let key = path::components(path);
        assert forall|i: int| !holds(self.entries@, i, key) by {
            if holds(self.entries@, i, key) {
                order::law_parts_side(path::components(self.entries@[i].0@), key);
            }
        }
    }

    /// The value under a path.
    pub fn get(&self, path: &FilePath) -> (value: Option<&V>)
        requires
            self.well_formed(),
        ensures
            value is Some <==> self@.contains_key(path::components(path@)),
            value matches Some(kept) ==> *kept == self@[path::components(path@)],
    {
        let place: (bool, usize) = self.find(path);
        proof {
            lemma_content(self.entries@);
            if !place.0 {
                self.lemma_absent(path@, place.1 as int);
            }
        }
        if place.0 {
            Some(&self.entries[place.1].1)
        } else {
            None
        }
    }

    /// Whether there is a value under a path.
    pub fn contains(&self, path: &FilePath) -> (found: bool)
        requires
            self.well_formed(),
        ensures
            found == self@.contains_key(path::components(path@)),
    {
        self.get(path).is_some()
    }

    /// Keeps a value under a path, in place of the one that was there.
    pub fn insert(&mut self, path: FilePath, value: V)
        requires
            old(self).well_formed(),
        ensures
            final(self).well_formed(),
            final(self)@ == old(self)@.insert(path::components(path@), value),
    {
        let place: (bool, usize) = self.find(&path);
        let ghost before = self.entries@;
        if place.0 {
            proof {
                lemma_replaced(before, place.1 as int, (path, value));
            }
            self.entries[place.1] = (path, value);
        } else {
            proof {
                lemma_inserted(before, place.1 as int, (path, value));
            }
            self.entries.insert(place.1, (path, value));
        }
    }

    /// Lets go of the values whose paths are not among `paths`.
    pub fn retain(&mut self, paths: &PathMap<()>)
        requires
            old(self).well_formed(),
            paths.well_formed(),
        ensures
            final(self).well_formed(),
            final(self)@ == old(self)@.restrict(paths@.dom()),
    {
        let ghost all = self@;
        let ghost wanted = paths@.dom();
        let mut index: usize = 0;
        proof {
            lemma_content(self.entries@);
            assert(all.restrict(wanted) =~= self@.restrict(wanted));
        }
        while index < self.entries.len()
            invariant
                paths.well_formed(),
                wanted == paths@.dom(),
                index <= self.entries@.len(),
                in_order(self.entries@),
                self@.restrict(wanted) == all.restrict(wanted),
                forall|i: int|
                    0 <= i < index ==> wanted.contains(
                        path::components((#[trigger] self.entries@[i]).0@),
                    ),
            decreases self.entries@.len() - index,
        {
            let ghost before = self.entries@;
            let ghost key = path::components(before[index as int].0@);
            if paths.contains(&self.entries[index].0) {
                index = index + 1;
            } else {
                let _ = self.entries.remove(index);
                proof {
                    let after = self.entries@;
                    let at = index as int;
                    assert(after =~= before.remove(at));
                    assert forall|i: int, j: int|
                        0 <= i < j < after.len() implies order::path_side(
                        (#[trigger] after[i]).0@,
                        (#[trigger] after[j]).0@,
                    ) == Side::Before by {
                        let k: int = if i < at {
                            i
                        } else {
                            i + 1
                        };
                        let l: int = if j < at {
                            j
                        } else {
                            j + 1
                        };
                        assert(after[i] == before[k] && after[j] == before[l]);
                    }
                    lemma_content(before);
                    lemma_content(after);
                    assert(content(after).restrict(wanted) =~= content(before).restrict(wanted))
                        by {
                        assert forall|k: Seq<Seq<u8>>| wanted.contains(k) implies (content(
                            after,
                        ).contains_key(k) <==> content(before).contains_key(k)) && (content(
                            after,
                        ).contains_key(k) ==> content(after)[k] == content(before)[k]) by {
                            if content(before).contains_key(k) {
                                let i = choose|i: int| holds(before, i, k);
                                assert(i != at);
                                if i < at {
                                    assert(after[i] == before[i]);
                                } else {
                                    assert(after[i - 1] == before[i]);
                                }
                            }
                            if content(after).contains_key(k) {
                                let i = choose|i: int| holds(after, i, k);
                                if i < at {
                                    assert(after[i] == before[i]);
                                } else {
                                    assert(after[i] == before[i + 1]);
                                }
                            }
                        }
                    }
                }
            }
        }
        proof {
            lemma_content(self.entries@);
            assert forall|k: Seq<Seq<u8>>| #[trigger] self@.contains_key(k) implies wanted.contains(
                k,
            ) by {
                let i = choose|i: int| holds(self.entries@, i, k);
                assert(path::components(self.entries@[i].0@) == k);
            }
            assert(self@ =~= self@.restrict(wanted));
        }
    }
}

/// The components of the paths with these texts.
pub open spec fn keys(list: Seq<Seq<u8>>) -> Set<Seq<Seq<u8>>> {
    Set::new(|key: Seq<Seq<u8>>| exists|i: int| 0 <= i < list.len() && path::components(#[trigger] list[i]) == key)
}

impl PathMap<()> {
    /// Adds paths to a set of paths.
    pub fn extend(&mut self, paths: &Vec<FilePath>)
        requires
            old(self).well_formed(),
        ensures
            final(self).well_formed(),
            final(self)@.dom() == old(self)@.dom().union(keys(order::texts(paths@))),
    {
        let ghost list = order::texts(paths@);
        let ghost start = self@.dom();
        let mut index: usize = 0;
        assert(keys(list.take(0)) =~= Set::empty());
        assert(self@.dom() =~= start.union(keys(list.take(0))));
        while index < paths.len()
            invariant
                list == order::texts(paths@),
                index <= paths@.len(),
                self.well_formed(),
                self@.dom() == start.union(keys(list.take(index as int))),
            decreases paths@.len() - index,
        {
            let ghost before = self@.dom();
            self.insert(paths[index].clone(), ());
            proof {
                let shorter = list.take(index as int);
                let longer = list.take(index + 1);
                let key = path::components(list[index as int]);
                assert(keys(longer) =~= keys(shorter).insert(key)) by {
                    assert forall|k: Seq<Seq<u8>>| keys(longer).contains(k) <==> keys(
                        shorter,
                    ).insert(key).contains(k) by {
                        if keys(longer).contains(k) {
                            let i = choose|i: int|
                                0 <= i < longer.len() && path::components(#[trigger] longer[i])
                                    == k;
                            if i < index {
                                assert(shorter[i] == longer[i]);
                            }
                        }
                        if keys(shorter).contains(k) {
                            let i = choose|i: int|
                                0 <= i < shorter.len() && path::components(#[trigger] shorter[i])
                                    == k;
                            assert(longer[i] == shorter[i]);
                        }
                        if k == key {
                            assert(path::components(longer[index as int]) == k);
                        }
                    }
                }
                assert(self@.dom() =~= start.union(keys(longer)));
            }
            index = index + 1;
        }
        assert(list.take(index as int) =~= list);
    }
}

} // verus!
