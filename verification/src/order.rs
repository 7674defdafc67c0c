//! The order of paths, and lists of paths put in that order.

use vstd::prelude::*;

use crate::path;
use crate::path::{FilePath, DOT, SEPARATOR};

verus! {

/// On which side of another value a value lies.
#[derive(Clone, Copy, Debug, PartialEq, Eq, Structural)]
pub enum Side {
    Before,
    Same,
    After,
}

impl Side {
    /// Where the other value lies, seen from this one.
    pub open spec fn flip(self) -> Side {
        match self {
            Side::Before => Side::After,
            Side::Same => Side::Same,
            Side::After => Side::Before,
        }
    }
}

/// The order of two numbers.
pub open spec fn number_side(left: int, right: int) -> Side {
    if left < right {
        Side::Before
    } else if right < left {
        Side::After
    } else {
        Side::Same
    }
}

/// Bytes are ordered by the first one that differs; a part of the beginning comes first.
pub open spec fn bytes_side(left: Seq<u8>, right: Seq<u8>) -> Side
    decreases left.len(),
{
    if left.len() == 0 || right.len() == 0 {
        number_side(left.len() as int, right.len() as int)
    } else if left[0] != right[0] {
        number_side(left[0] as int, right[0] as int)
    } else {
        bytes_side(left.drop_first(), right.drop_first())
    }
}

/// The root comes before the current directory, that before the parent directory, and that before
/// every name.
pub open spec fn rank(part: Seq<u8>) -> int {
    if part == seq![SEPARATOR] {
        0
    } else if part == seq![DOT] {
        1
    } else if part == seq![DOT, DOT] {
        2
    } else {
        3
    }
}

/// The order of two components.
pub open spec fn part_side(left: Seq<u8>, right: Seq<u8>) -> Side {
    if rank(left) != rank(right) {
        number_side(rank(left), rank(right))
    } else {
        bytes_side(left, right)
    }
}

/// Paths are ordered by the first component that differs; what lies above comes first.
pub open spec fn parts_side(left: Seq<Seq<u8>>, right: Seq<Seq<u8>>) -> Side
    decreases left.len(),
{
    if left.len() == 0 || right.len() == 0 {
        number_side(left.len() as int, right.len() as int)
    } else if left[0] != right[0] {
        part_side(left[0], right[0])
    } else {
        parts_side(left.drop_first(), right.drop_first())
    }
}

/// The order of the paths with two texts.
pub open spec fn path_side(left: Seq<u8>, right: Seq<u8>) -> Side {
    parts_side(path::components(left), path::components(right))
}

proof fn lemma_bytes_side(left: Seq<u8>, right: Seq<u8>)
    ensures
        bytes_side(left, right) == Side::Same <==> left == right,
        bytes_side(right, left) == bytes_side(left, right).flip(),
    decreases left.len(),
{
    if left.len() > 0 && right.len() > 0 && left[0] == right[0] {
        lemma_bytes_side(left.drop_first(), right.drop_first());
        if left.drop_first() == right.drop_first() {
            assert(left =~= seq![left[0]] + left.drop_first());
            assert(right =~= seq![right[0]] + right.drop_first());
        }
    } else if left.len() == 0 && right.len() == 0 {
        assert(left =~= right);
    }
}

proof fn lemma_bytes_side_transitive(low: Seq<u8>, middle: Seq<u8>, high: Seq<u8>)
    requires
        bytes_side(low, middle) == Side::Before,
        bytes_side(middle, high) == Side::Before,
    ensures
        bytes_side(low, high) == Side::Before,
    decreases low.len(),
{
    if low.len() > 0 && middle.len() > 0 && high.len() > 0 && low[0] == middle[0] && middle[0]
        == high[0] {
        lemma_bytes_side_transitive(low.drop_first(), middle.drop_first(), high.drop_first());
    }
}

proof fn lemma_part_side(left: Seq<u8>, right: Seq<u8>)
    ensures
        part_side(left, right) == Side::Same <==> left == right,
        part_side(right, left) == part_side(left, right).flip(),
{
    lemma_bytes_side(left, right);
}

proof fn lemma_part_side_transitive(low: Seq<u8>, middle: Seq<u8>, high: Seq<u8>)
    requires
        part_side(low, middle) == Side::Before,
        part_side(middle, high) == Side::Before,
    ensures
        part_side(low, high) == Side::Before,
{
    if rank(low) == rank(middle) && rank(middle) == rank(high) {
        lemma_bytes_side_transitive(low, middle, high);
    }
}

/// Paths on the same side of each other have the same components, and the order read the other way
/// round is the order turned round.
pub proof fn law_parts_side(left: Seq<Seq<u8>>, right: Seq<Seq<u8>>)
    ensures
        parts_side(left, right) == Side::Same <==> left == right,
        parts_side(right, left) == parts_side(left, right).flip(),
    decreases left.len(),
{
    if left.len() > 0 && right.len() > 0 {
        if left[0] == right[0] {
            law_parts_side(left.drop_first(), right.drop_first());
            if left.drop_first() == right.drop_first() {
                assert(left =~= seq![left[0]] + left.drop_first());
                assert(right =~= seq![right[0]] + right.drop_first());
            }
        } else {
            lemma_part_side(left[0], right[0]);
        }
    } else if left.len() == 0 && right.len() == 0 {
        assert(left =~= right);
    }
}

/// What comes before a path that comes before another comes before that one too.
pub proof fn law_parts_side_transitive(
    low: Seq<Seq<u8>>,
    middle: Seq<Seq<u8>>,
    high: Seq<Seq<u8>>,
)
    requires
        parts_side(low, middle) == Side::Before,
        parts_side(middle, high) == Side::Before,
    ensures
        parts_side(low, high) == Side::Before,
    decreases low.len(),
{
    if low.len() > 0 && middle.len() > 0 && high.len() > 0 {
        if low[0] == middle[0] && middle[0] == high[0] {
            law_parts_side_transitive(low.drop_first(), middle.drop_first(), high.drop_first());
        } else if low[0] != middle[0] && middle[0] != high[0] {
            lemma_part_side_transitive(low[0], middle[0], high[0]);
            lemma_part_side(low[0], high[0]);
        }
    }
}

fn compare_bytes(left: &[u8], right: &[u8]) -> (side: Side)
    ensures
        side == bytes_side(left@, right@),
{
    let mut index: usize = 0;
    assert(left@.skip(0) =~= left@);
    assert(right@.skip(0) =~= right@);
    while index < left.len() && index < right.len() && left[index] == right[index]
        invariant
            index <= left@.len(),
            index <= right@.len(),
            bytes_side(left@, right@) == bytes_side(
                left@.skip(index as int),
                right@.skip(index as int),
            ),
        decreases left@.len() - index,
    {
        assert(left@.skip(index as int).drop_first() =~= left@.skip(index + 1));
        assert(right@.skip(index as int).drop_first() =~= right@.skip(index + 1));
        index = index + 1;
    }
    if index < left.len() && index < right.len() {
        if left[index] < right[index] {
            Side::Before
        } else {
            Side::After
        }
    } else if index < right.len() {
        Side::Before
    } else if index < left.len() {
        Side::After
    } else {
        Side::Same
    }
}

fn component_rank(part: &[u8]) -> (found: u8)
    ensures
        found == rank(part@),
{
    if part.len() == 1 && part[0] == SEPARATOR {
        assert(part@ =~= seq![SEPARATOR]);
        0
    } else if part.len() == 1 && part[0] == DOT {
        assert(part@ =~= seq![DOT]);
        assert(seq![SEPARATOR][0] != seq![DOT][0]);
        1
    } else if part.len() == 2 && part[0] == DOT && part[1] == DOT {
        assert(part@ =~= seq![DOT, DOT]);
        2
    } else {
        assert(seq![DOT, DOT][0] == DOT && seq![DOT, DOT][1] == DOT);
        3
    }
}

fn compare_components(left: &[u8], right: &[u8]) -> (side: Side)
    ensures
        side == part_side(left@, right@),
{
    let left_rank: u8 = component_rank(left);
    let right_rank: u8 = component_rank(right);
    if left_rank < right_rank {
        Side::Before
    } else if right_rank < left_rank {
        Side::After
    } else {
        compare_bytes(left, right)
    }
}

/// The order of two paths.
pub fn compare_paths(left: &FilePath, right: &FilePath) -> (side: Side)
    ensures
        side == path_side(left@, right@),
{
    let ghost low = path::components(left@);
    let ghost high = path::components(right@);
    let left_count: usize = left.component_count();
    let right_count: usize = right.component_count();
    let mut index: usize = 0;
    assert(low.skip(0) =~= low);
    assert(high.skip(0) =~= high);
    while index < left_count && index < right_count
        invariant
            low == path::components(left@),
            high == path::components(right@),
            left_count == low.len(),
            right_count == high.len(),
            index <= left_count,
            index <= right_count,
            parts_side(low, high) == parts_side(low.skip(index as int), high.skip(index as int)),
        decreases left_count - index,
    {
        let side: Side = compare_components(left.component(index), right.component(index));
        proof {
            lemma_part_side(low[index as int], high[index as int]);
            assert(low.skip(index as int)[0] == low[index as int]);
            assert(high.skip(index as int)[0] == high[index as int]);
            assert(low.skip(index as int).drop_first() =~= low.skip(index + 1));
            assert(high.skip(index as int).drop_first() =~= high.skip(index + 1));
        }
        if side != Side::Same {
            return side;
        }
        index = index + 1;
    }
    if left_count < right_count {
        Side::Before
    } else if right_count < left_count {
        Side::After
    } else {
        Side::Same
    }
}

/// The texts of a list of paths.
pub open spec fn texts(paths: Seq<FilePath>) -> Seq<Seq<u8>> {
    paths.map_values(|path: FilePath| path@)
}

/// Whether paths with these texts are in order.
pub open spec fn is_sorted(list: Seq<Seq<u8>>) -> bool {
    forall|i: int, j: int|
        0 <= i < j < list.len() ==> path_side(#[trigger] list[i], #[trigger] list[j]) != Side::After
}

proof fn lemma_not_after_transitive(low: Seq<u8>, middle: Seq<u8>, high: Seq<u8>)
    requires
        path_side(low, middle) != Side::After,
        path_side(middle, high) != Side::After,
    ensures
        path_side(low, high) != Side::After,
{
    let a = path::components(low);
    let b = path::components(middle);
    let c = path::components(high);
    law_parts_side(a, b);
    law_parts_side(b, c);
    if parts_side(a, b) == Side::Before && parts_side(b, c) == Side::Before {
        law_parts_side_transitive(a, b, c);
    }
}

/// Whether every path of one list may stand before every path of another.
spec fn all_before(low: Seq<Seq<u8>>, high: Seq<Seq<u8>>) -> bool {
    forall|i: int, j: int|
        0 <= i < low.len() && 0 <= j < high.len() ==> path_side(
            #[trigger] low[i],
            #[trigger] high[j],
        ) != Side::After
}

proof fn lemma_pop(paths: Seq<FilePath>, rest: Seq<FilePath>, last: FilePath)
    requires
        paths.len() > 0,
        rest == paths.subrange(0, paths.len() - 1),
        last == paths[paths.len() - 1],
    ensures
        texts(paths) == texts(rest).push(last@),
        texts(paths).to_multiset() == texts(rest).to_multiset().insert(last@),
{
    broadcast use vstd::seq_lib::group_to_multiset_ensures;

    assert(texts(paths) =~= texts(rest).push(last@));
}

proof fn lemma_push(paths: Seq<FilePath>, path: FilePath)
    ensures
        texts(paths.push(path)) == texts(paths).push(path@),
        texts(paths.push(path)).to_multiset() == texts(paths).to_multiset().insert(path@),
{
    broadcast use vstd::seq_lib::group_to_multiset_ensures;

    assert(texts(paths.push(path)) =~= texts(paths).push(path@));
}

/// The list the other way round.
fn reversed(paths: Vec<FilePath>) -> (turned: Vec<FilePath>)
    ensures
        texts(turned@) == texts(paths@).reverse(),
        texts(turned@).to_multiset() == texts(paths@).to_multiset(),
{
    let ghost all = paths@;
    let mut rest: Vec<FilePath> = paths;
    let mut turned: Vec<FilePath> = Vec::new();
    proof {
        assert(texts(turned@) =~= Seq::empty());
        assert(rest@ =~= all.take(all.len() as int));
        texts(turned@).to_multiset_ensures();
        assert(texts(rest@).to_multiset().add(texts(turned@).to_multiset()) =~= texts(
            all,
        ).to_multiset());
    }
    while rest.len() > 0
        invariant
            rest@.len() + turned@.len() == all.len(),
            rest@ == all.take(rest@.len() as int),
            forall|i: int|
                0 <= i < turned@.len() ==> (#[trigger] turned@[i])@ == all[all.len() - 1 - i]@,
            texts(rest@).to_multiset().add(texts(turned@).to_multiset()) == texts(
                all,
            ).to_multiset(),
        decreases rest@.len(),
    {
        let ghost old_rest = rest@;
        let ghost old_turned = turned@;
        match rest.pop() {
            Some(path) => {
                proof {
                    lemma_pop(old_rest, rest@, path);
                    lemma_push(old_turned, path);
                    assert(rest@ =~= all.take(rest@.len() as int));
                    assert(path@ == all[all.len() - 1 - old_turned.len()]@);
                }
                turned.push(path);
                assert(texts(rest@).to_multiset().add(texts(turned@).to_multiset()) =~= texts(
                    all,
                ).to_multiset());
            },
            None => {},
        }
    }
    proof {
        assert(texts(rest@) =~= Seq::empty());
        texts(rest@).to_multiset_ensures();
        assert(texts(turned@).to_multiset() =~= texts(all).to_multiset());
        assert(texts(turned@) =~= texts(all).reverse());
    }
    turned
}

/// Two lists in order, made one.
fn merged(left: Vec<FilePath>, right: Vec<FilePath>) -> (whole: Vec<FilePath>)
    requires
        is_sorted(texts(left@)),
        is_sorted(texts(right@)),
    ensures
        is_sorted(texts(whole@)),
        texts(whole@).to_multiset() == texts(left@).to_multiset().add(texts(right@).to_multiset()),
{
    let ghost total = texts(left@).to_multiset().add(texts(right@).to_multiset());
    let mut left: Vec<FilePath> = left;
    let mut right: Vec<FilePath> = right;
    let mut tail: Vec<FilePath> = Vec::new();
    proof {
        assert(texts(tail@) =~= Seq::empty());
        texts(tail@).to_multiset_ensures();
        assert(texts(left@).to_multiset().add(texts(right@).to_multiset()).add(
            texts(tail@).to_multiset(),
        ) =~= total);
    }
    while left.len() > 0 || right.len() > 0
        invariant
            is_sorted(texts(left@)),
            is_sorted(texts(right@)),
            is_sorted(texts(tail@).reverse()),
            all_before(texts(left@), texts(tail@)),
            all_before(texts(right@), texts(tail@)),
            texts(left@).to_multiset().add(texts(right@).to_multiset()).add(
                texts(tail@).to_multiset(),
            ) == total,
        decreases left@.len() + right@.len(),
    {
        let ghost old_left = left@;
        let ghost old_right = right@;
        let ghost old_tail = tail@;
        let from_left: bool = if left.len() == 0 {
            false
        } else if right.len() == 0 {
            true
        } else {
            compare_paths(&left[left.len() - 1], &right[right.len() - 1]) == Side::After
        };
        let next: Option<FilePath> = if from_left {
            left.pop()
        } else {
            right.pop()
        };
        match next {
            Some(path) => {
                proof {
                    lemma_push(old_tail, path);
                    if from_left {
                        lemma_pop(old_left, left@, path);
                    } else {
                        lemma_pop(old_right, right@, path);
                    }
                    lemma_taken(
                        texts(old_left),
                        texts(old_right),
                        texts(old_tail),
                        path@,
                        from_left,
                    );
                    assert(texts(left@) =~= if from_left {
                        texts(old_left).drop_last()
                    } else {
                        texts(old_left)
                    });
                    assert(texts(right@) =~= if from_left {
                        texts(old_right)
                    } else {
                        texts(old_right).drop_last()
                    });
                }
                tail.push(path);
                assert(texts(left@).to_multiset().add(texts(right@).to_multiset()).add(
                    texts(tail@).to_multiset(),
                ) =~= total);
            },
            None => {},
        }
    }
    proof {
        assert(texts(left@) =~= Seq::empty());
        assert(texts(right@) =~= Seq::empty());
        texts(left@).to_multiset_ensures();
        assert(texts(tail@).to_multiset() =~= total);
    }
    reversed(tail)
}

/// Taking the greater of the last paths of two lists keeps what merging rests on.
proof fn lemma_taken(
    left: Seq<Seq<u8>>,
    right: Seq<Seq<u8>>,
    tail: Seq<Seq<u8>>,
    taken: Seq<u8>,
    from_left: bool,
)
    requires
        is_sorted(left),
        is_sorted(right),
        is_sorted(tail.reverse()),
        all_before(left, tail),
        all_before(right, tail),
        from_left ==> left.len() > 0 && taken == left.last() && (right.len() > 0 ==> path_side(
            left.last(),
            right.last(),
        ) == Side::After),
        !from_left ==> right.len() > 0 && taken == right.last() && (left.len() > 0 ==> path_side(
            left.last(),
            right.last(),
        ) != Side::After),
    ensures
        ({
            let new_left = if from_left {
                left.drop_last()
            } else {
                left
            };
            let new_right = if from_left {
                right
            } else {
                right.drop_last()
            };
            &&& is_sorted(new_left)
            &&& is_sorted(new_right)
            &&& is_sorted(tail.push(taken).reverse())
            &&& all_before(new_left, tail.push(taken))
            &&& all_before(new_right, tail.push(taken))
        }),
{
    let new_left = if from_left {
        left.drop_last()
    } else {
        left
    };
    let new_right = if from_left {
        right
    } else {
        right.drop_last()
    };
    if left.len() > 0 && right.len() > 0 {
        law_parts_side(path::components(left.last()), path::components(right.last()));
    }
    let longer = tail.push(taken);
    assert forall|i: int, j: int|
        0 <= i < new_left.len() && 0 <= j < longer.len() implies path_side(
        #[trigger] new_left[i],
        #[trigger] longer[j],
    ) != Side::After by {
        assert(new_left[i] == left[i]);
        if j == tail.len() {
            if from_left {
                assert(i < left.len() - 1);
            } else {
                if i < left.len() - 1 {
                    assert(path_side(left[i], left[left.len() - 1]) != Side::After);
                    lemma_not_after_transitive(left[i], left.last(), right.last());
                }
            }
        } else {
            assert(longer[j] == tail[j]);
        }
    }
    assert forall|i: int, j: int|
        0 <= i < new_right.len() && 0 <= j < longer.len() implies path_side(
        #[trigger] new_right[i],
        #[trigger] longer[j],
    ) != Side::After by {
        assert(new_right[i] == right[i]);
        if j == tail.len() {
            if !from_left {
                assert(i < right.len() - 1);
            } else {
                if i < right.len() - 1 {
                    assert(path_side(right[i], right[right.len() - 1]) != Side::After);
                    lemma_not_after_transitive(right[i], right.last(), left.last());
                }
            }
        } else {
            assert(longer[j] == tail[j]);
        }
    }
    let turned = longer.reverse();
    let before = tail.reverse();
    assert forall|i: int, j: int| 0 <= i < j < turned.len() implies path_side(
        #[trigger] turned[i],
        #[trigger] turned[j],
    ) != Side::After by {
        assert(turned[j] == before[j - 1]);
        assert(before[j - 1] == tail[tail.len() - j]);
        if i == 0 {
            assert(turned[0] == taken);
            if from_left {
                assert(path_side(left[left.len() - 1], tail[tail.len() - j]) != Side::After);
            } else {
                assert(path_side(right[right.len() - 1], tail[tail.len() - j]) != Side::After);
            }
        } else {
            assert(turned[i] == before[i - 1]);
        }
    }
}

/// Whether no two of the paths have the same components.
pub open spec fn are_apart(paths: Seq<Seq<u8>>) -> bool {
    forall|i: int, j: int|
        0 <= i < j < paths.len() ==> path::components(#[trigger] paths[i]) != path::components(
            #[trigger] paths[j],
        )
}

/// Whether each path comes before those behind it.
pub open spec fn is_ascending(paths: Seq<Seq<u8>>) -> bool {
    forall|i: int, j: int|
        0 <= i < j < paths.len() ==> path_side(#[trigger] paths[i], #[trigger] paths[j])
            == Side::Before
}

/// Different paths, put in order, are strictly ascending.
pub proof fn law_different_paths_ascend(paths: Seq<Seq<u8>>, sorted: Seq<Seq<u8>>)
    requires
        are_apart(paths),
        is_sorted(sorted),
        sorted.to_multiset() == paths.to_multiset(),
    ensures
        are_apart(sorted),
        is_ascending(sorted),
{
    assert(paths.no_duplicates()) by {
        assert forall|i: int, j: int|
            0 <= i < paths.len() && 0 <= j < paths.len() && i != j implies paths[i] != paths[j] by {
            if i < j {
                assert(path::components(paths[i]) != path::components(paths[j]));
            } else {
                assert(path::components(paths[j]) != path::components(paths[i]));
            }
        }
    }
    paths.lemma_multiset_has_no_duplicates();
    sorted.lemma_multiset_has_no_duplicates_conv();
    sorted.to_multiset_ensures();
    paths.to_multiset_ensures();
    assert forall|i: int, j: int| 0 <= i < j < sorted.len() implies path::components(
        #[trigger] sorted[i],
    ) != path::components(#[trigger] sorted[j]) by {
        assert(sorted.contains(sorted[i]) && sorted.contains(sorted[j]));
        assert(sorted.to_multiset().count(sorted[i]) > 0);
        assert(sorted.to_multiset().count(sorted[j]) > 0);
        assert(paths.contains(sorted[i]) && paths.contains(sorted[j]));
        let k = choose|k: int| 0 <= k < paths.len() && paths[k] == sorted[i];
        let l = choose|l: int| 0 <= l < paths.len() && paths[l] == sorted[j];
        assert(sorted[i] != sorted[j]);
        if k < l {
            assert(path::components(paths[k]) != path::components(paths[l]));
        } else {
            assert(path::components(paths[l]) != path::components(paths[k]));
        }
    }
    assert forall|i: int, j: int| 0 <= i < j < sorted.len() implies path_side(
        #[trigger] sorted[i],
        #[trigger] sorted[j],
    ) == Side::Before by {
        law_parts_side(path::components(sorted[i]), path::components(sorted[j]));
    }
}

/// The same paths in order.
pub fn sort_paths(paths: Vec<FilePath>) -> (sorted: Vec<FilePath>)
    ensures
        is_sorted(texts(sorted@)),
        texts(sorted@).to_multiset() == texts(paths@).to_multiset(),
    decreases paths@.len(),
{
    if paths.len() < 2 {
        return paths;
    }
    let ghost all = paths@;
    let mut left: Vec<FilePath> = paths;
    let half: usize = left.len() / 2;
    let right: Vec<FilePath> = left.split_off(half);
    proof {
        assert(texts(left@) + texts(right@) =~= texts(all));
        vstd::seq_lib::lemma_multiset_commutative(texts(left@), texts(right@));
    }
    merged(sort_paths(left), sort_paths(right))
}

} // verus!
