//! Paths as their texts show them, their order, and tables under them.

use vstd::prelude::*;

use crate::order;
use crate::order::{compare_paths, sort_paths, Side};
use crate::path;
use crate::path::{same_bytes, FilePath};
use crate::table::PathMap;

verus! {

/// A name: not empty, without `/`, and not `.`.
pub open spec fn is_plain(name: Seq<u8>) -> bool {
    &&& name.len() > 0
    &&& name != seq![46u8]
    &&& forall|i: int| 0 <= i < name.len() ==> #[trigger] name[i] != 47
}

/// Names with one `/` between each two.
pub open spec fn slashed(names: Seq<Seq<u8>>) -> Seq<u8>
    decreases names.len(),
{
    if names.len() == 0 {
        Seq::empty()
    } else if names.len() == 1 {
        names[0]
    } else {
        slashed(names.drop_last()) + seq![47u8] + names.last()
    }
}

/// The components that lie in a text that follows a `/`.
spec fn pieces(text: Seq<u8>) -> Seq<Seq<u8>> {
    path::body(text, 0).map_values(|span: (int, int)| text.subrange(span.0, span.1))
}

/// The components of a path are those up to a `/` and those behind it.
proof fn lemma_around(front: Seq<u8>, back: Seq<u8>)
    ensures
        front.len() > 0 ==> path::components(front + seq![47u8] + back) == path::components(front)
            + pieces(back),
        path::components(seq![47u8] + back) == seq![seq![47u8]] + pieces(back),
{
    let first = front + seq![47u8];
    let whole = first + back;
    let at: int = front.len() as int;
    assert(whole.take(at) =~= front);
    assert(whole[at] == 47);
    path::lemma_body_split(whole, 0, at);
    path::lemma_body_shift(first, back, 0);
    path::lemma_body(front, 0);
    path::lemma_body(back, 0);
    let inner = path::body(front, 0);
    let outer = path::body(back, 0);
    if front.len() > 0 {
        assert(whole[0] == front[0]);
        assert(front.len() > 1 ==> whole[1] == front[1]);
        assert(path::head(whole) =~= path::head(front));
        let all = path::components(whole);
        let parts = path::components(front) + pieces(back);
        assert(path::spans(whole) =~= path::spans(front) + path::shifted(outer, at + 1));
        path::lemma_spans(front);
        assert forall|k: int| 0 <= k < parts.len() implies all[k] == #[trigger] parts[k] by {
            let n = path::spans(front).len();
            if k < n {
                let span = path::spans(front)[k];
                assert(path::spans(whole)[k] == span);
                assert(whole.subrange(span.0, span.1) =~= front.subrange(span.0, span.1));
            } else {
                let span = outer[k - n];
                assert(path::spans(whole)[k] == (span.0 + at + 1, span.1 + at + 1));
                assert(whole.subrange(span.0 + at + 1, span.1 + at + 1) =~= back.subrange(
                    span.0,
                    span.1,
                ));
            }
        }
        assert(all =~= parts);
    }
    let root = seq![47u8] + back;
    let nothing = Seq::<u8>::empty();
    assert(root.take(0) =~= nothing);
    path::lemma_body_split(root, 0, 0);
    path::lemma_body_shift(seq![47u8], back, 0);
    assert(path::body(nothing, 0) =~= Seq::empty());
    assert(path::spans(root) =~= seq![(0int, 1int)] + path::shifted(outer, 1));
    let all = path::components(root);
    let parts = seq![seq![47u8]] + pieces(back);
    assert forall|k: int| 0 <= k < parts.len() implies all[k] == #[trigger] parts[k] by {
        if k == 0 {
            assert(root.subrange(0, 1) =~= seq![47u8]);
        } else {
            let span = outer[k - 1];
            assert(path::spans(root)[k] == (span.0 + 1, span.1 + 1));
            assert(root.subrange(span.0 + 1, span.1 + 1) =~= back.subrange(span.0, span.1));
        }
    }
    assert(all =~= parts);
}

/// A `/` or a `./` more in front changes nothing.
proof fn lemma_pieces(text: Seq<u8>)
    ensures
        pieces(seq![47u8] + text) == pieces(text),
        pieces(seq![46u8, 47u8] + text) == pieces(text),
        pieces(Seq::empty()) == Seq::<Seq<u8>>::empty(),
        pieces(seq![46u8]) == Seq::<Seq<u8>>::empty(),
        path::is_downward(text) ==> pieces(text) == path::components(text),
{
    let inner = path::body(text, 0);
    path::lemma_body(text, 0);
    let one = seq![47u8] + text;
    path::lemma_body_shift(seq![47u8], text, 0);
    assert(path::piece_end(one, 0) == 0);
    assert(path::body(one, 0) == path::body(one, 1));
    assert(path::body(one, 0) == path::shifted(inner, 1));
    assert forall|k: int| 0 <= k < inner.len() implies #[trigger] pieces(one)[k] == pieces(
        text,
    )[k] by {
        assert(one.subrange(inner[k].0 + 1, inner[k].1 + 1) =~= text.subrange(
            inner[k].0,
            inner[k].1,
        ));
    }
    assert(pieces(one) =~= pieces(text));
    let two = seq![46u8, 47u8] + text;
    path::lemma_body_shift(seq![46u8, 47u8], text, 0);
    assert(two[0] == 46 && two[1] == 47);
    assert(path::piece_end(two, 1) == 1);
    assert(path::piece_end(two, 0) == 1);
    assert(two.subrange(0, 1) =~= seq![46u8]);
    assert(path::body(two, 0) == path::body(two, 2));
    assert forall|k: int| 0 <= k < inner.len() implies #[trigger] pieces(two)[k] == pieces(
        text,
    )[k] by {
        assert(two.subrange(inner[k].0 + 2, inner[k].1 + 2) =~= text.subrange(
            inner[k].0,
            inner[k].1,
        ));
    }
    assert(pieces(two) =~= pieces(text));
    let dot = seq![46u8];
    assert(path::piece_end(dot, 1) == 1);
    assert(path::piece_end(dot, 0) == 1);
    assert(dot.subrange(0, 1) =~= seq![46u8]);
    assert(path::body(dot, 2) =~= Seq::empty());
    assert(pieces(dot) =~= Seq::empty());
    assert(pieces(Seq::empty()) =~= Seq::empty());
    if path::is_downward(text) {
        assert(path::spans(text) =~= path::body(text, 0));
    }
}

/// Names with `/` between them are a path with these components.
pub proof fn lemma_slashed(names: Seq<Seq<u8>>)
    requires
        names.len() > 0,
        forall|i: int| 0 <= i < names.len() ==> is_plain(#[trigger] names[i]),
    ensures
        path::components(slashed(names)) == names,
        path::is_downward(slashed(names)),
        slashed(names).len() > 0,
        slashed(names).last() != 47,
        path::is_trimmed(slashed(names)),
    decreases names.len(),
{
    let last = names.last();
    assert(is_plain(names[names.len() - 1]));
    path::lemma_piece_end(last, 0);
    let end: int = path::piece_end(last, 0);
    assert(end == last.len());
    assert(last.subrange(0, end) =~= last);
    assert(path::body(last, end + 1) =~= Seq::empty());
    assert(path::body(last, 0) =~= seq![(0int, end)]);
    assert(last[0] != 47);
    if path::starts_in_current(last) {
        assert(last.len() == 1 ==> last =~= seq![46u8]);
        assert(last.len() > 1 ==> last[1] != 47);
    }
    assert(pieces(last) =~= seq![last]);
    lemma_pieces(last);
    assert(last[last.len() - 1] != 47);
    assert(path::spans(last) =~= seq![(0int, end)]);
    if names.len() == 1 {
        assert(names =~= seq![last]);
    } else {
        let first = names.drop_last();
        assert forall|i: int| 0 <= i < first.len() implies is_plain(#[trigger] first[i]) by {
            assert(first[i] == names[i]);
        }
        lemma_slashed(first);
        let front = slashed(first);
        let whole = slashed(names);
        lemma_around(front, last);
        assert(first + seq![last] =~= names);
        assert(path::join(front, last) =~= whole);
        path::lemma_join_spans(front, last);
        assert(path::spans(whole).last() == path::shifted(
            path::spans(last),
            path::joint(front),
        ).last());
        assert(whole[0] == front[0]);
        assert(!path::starts_in_current(whole)) by {
            if front.len() == 1 {
                assert(front[0] != 46);
            } else {
                assert(whole[1] == front[1]);
            }
        }
    }
}

/// The components of a path are the names between its separators; an absolute path has the component
/// `/` before them, and one that starts with `./` the component `.`.
pub proof fn law_components_are_the_names(
    names: Seq<Seq<u8>>,
    path: FilePath,
    count: usize,
    index: usize,
    component: &[u8],
)
    requires
        names.len() > 0,
        forall|i: int| 0 <= i < names.len() ==> is_plain(#[trigger] names[i]),
        call_ensures(FilePath::component_count, (&path,), count),
        call_ensures(FilePath::component, (&path, index), component),
    ensures
        path@ == slashed(names) ==> count == names.len() && (index < count ==> component@
            == names[index as int]),
        path@ == seq![47u8] + slashed(names) ==> count == names.len() + 1 && (index < count
            ==> component@ == (if index == 0 {
            seq![47u8]
        } else {
            names[index - 1]
        })),
        path@ == seq![46u8, 47u8] + slashed(names) ==> count == names.len() + 1 && (index < count
            ==> component@ == (if index == 0 {
            seq![46u8]
        } else {
            names[index - 1]
        })),
{
    let text = slashed(names);
    lemma_slashed(names);
    lemma_pieces(text);
    lemma_around(seq![46u8], text);
    assert(seq![46u8] + seq![47u8] + text =~= seq![46u8, 47u8] + text);
    lemma_root();
}

pub proof fn lemma_root()
    ensures
        path::components(seq![46u8]) == seq![seq![46u8]],
        path::components(Seq::<u8>::empty()) == Seq::<Seq<u8>>::empty(),
        path::components(seq![47u8]) == seq![seq![47u8]],
{
    let dot = seq![46u8];
    assert(path::piece_end(dot, 1) == 1);
    assert(path::piece_end(dot, 0) == 1);
    assert(dot.subrange(0, 1) =~= seq![46u8]);
    assert(path::body(dot, 2) =~= Seq::empty());
    assert(path::body(dot, 0) =~= Seq::empty());
    assert(path::spans(dot) =~= seq![(0int, 1int)]);
    assert(path::components(dot) =~= seq![seq![46u8]]);
    assert(path::spans(Seq::<u8>::empty()) =~= Seq::empty());
    assert(path::components(Seq::<u8>::empty()) =~= Seq::empty());
    lemma_around(Seq::empty(), Seq::empty());
    lemma_pieces(Seq::empty());
    assert(seq![47u8] + Seq::<u8>::empty() =~= seq![47u8]);
    assert(seq![seq![47u8]] + Seq::<Seq<u8>>::empty() =~= seq![seq![47u8]]);
}

/// A `/` behind another, a `./` behind a `/`, and a `/` or a `/.` at the end of a path do not make it
/// another one.
pub proof fn law_empty_components_do_not_count(
    front: Seq<u8>,
    back: Seq<u8>,
    path: FilePath,
    other: FilePath,
    same: bool,
)
    requires
        call_ensures(FilePath::same_components, (&path, &other), same),
        ({
            ||| path@ == front + seq![47u8] + back && other@ == front + seq![47u8, 47u8] + back
            ||| path@ == front + seq![47u8] + back && other@ == front + seq![47u8, 46u8, 47u8]
                + back
            ||| front.len() > 0 && path@ == front && other@ == front + seq![47u8]
            ||| front.len() > 0 && path@ == front && other@ == front + seq![47u8, 46u8]
        }),
    ensures
        same,
{
    lemma_pieces(back);
    lemma_around(front, back);
    lemma_around(front, seq![47u8] + back);
    lemma_around(front, seq![46u8, 47u8] + back);
    lemma_around(front, Seq::empty());
    lemma_around(front, seq![46u8]);
    assert(front + seq![47u8, 47u8] + back =~= front + seq![47u8] + (seq![47u8] + back));
    assert(front + seq![47u8, 46u8, 47u8] + back =~= front + seq![47u8] + (seq![46u8, 47u8]
        + back));
    assert(front + seq![47u8] + Seq::<u8>::empty() =~= front + seq![47u8]);
    assert(front + seq![47u8, 46u8] =~= front + seq![47u8] + seq![46u8]);
    assert(path::components(front) + Seq::<Seq<u8>>::empty() =~= path::components(front));
    if front.len() == 0 {
        assert(front + seq![47u8] + back =~= seq![47u8] + back);
        assert(front + seq![47u8] + (seq![47u8] + back) =~= seq![47u8] + (seq![47u8] + back));
        assert(front + seq![47u8] + (seq![46u8, 47u8] + back) =~= seq![47u8] + (seq![46u8, 47u8]
            + back));
    }
}

/// Paths are the same exactly where their components are, one by one.
pub proof fn law_same_paths_have_the_same_components(
    path: FilePath,
    other: FilePath,
    same: bool,
    leads: bool,
    count: usize,
    other_count: usize,
    index: usize,
    component: &[u8],
    other_component: &[u8],
)
    requires
        call_ensures(FilePath::same_components, (&path, &other), same),
        call_ensures(FilePath::starts_with, (&path, &other), leads),
        call_ensures(FilePath::component_count, (&path,), count),
        call_ensures(FilePath::component_count, (&other,), other_count),
        index < count,
        index < other_count,
        call_ensures(FilePath::component, (&path, index), component),
        call_ensures(FilePath::component, (&other, index), other_component),
    ensures
        same ==> count == other_count && component@ == other_component@,
        leads ==> other_count <= count && component@ == other_component@,
        same ==> leads,
        leads && count == other_count ==> same,
{
    if leads {
        let parts = path::components(path@);
        let others = path::components(other@);
        assert(others[index as int] == parts.subrange(0, others.len() as int)[index as int]);
        if count == other_count {
            assert(parts.subrange(0, others.len() as int) =~= parts);
        }
    }
    if same {
        let parts = path::components(path@);
        assert(parts.subrange(0, parts.len() as int) =~= parts);
    }
}

/// Bytes are the same exactly where each of them is.
pub proof fn law_same_bytes_are_equal(left: &[u8], right: &[u8], same: bool)
    requires
        call_ensures(same_bytes, (left, right), same),
    ensures
        same <==> left@ =~= right@,
{
}

/// A path keeps its text, and is absolute exactly where that begins with `/`.
pub proof fn law_path_keeps_its_text(text: Vec<u8>, path: FilePath, kept: &[u8], absolute: bool)
    requires
        call_ensures(FilePath::new, (text,), path),
        call_ensures(FilePath::text, (&path,), kept),
        call_ensures(FilePath::is_absolute, (&path,), absolute),
    ensures
        kept@ == text@,
        path@ == text@,
        absolute <==> text@.len() > 0 && text@[0] == 47,
{
}

/// A copy of a path is the same path, with the same text.
pub proof fn law_copy_is_the_same_path(path: FilePath, copy: FilePath)
    requires
        call_ensures(<FilePath as Clone>::clone, (&path,), copy),
    ensures
        copy@ == path@,
{
}

/// An absolute path, and one behind the empty path, stays as it is; any other is put behind the base,
/// with a `/` between them where the base does not end with one.
pub proof fn law_join_puts_one_path_behind_another(base: FilePath, path: &[u8], joined: FilePath)
    requires
        call_ensures(FilePath::join, (&base, path), joined),
    ensures
        path@.len() > 0 && path@[0] == 47 ==> joined@ == path@,
        base@.len() == 0 ==> joined@ == path@,
        base@.len() > 0 && !(path@.len() > 0 && path@[0] == 47) ==> joined@ == (
        if base@[base@.len() - 1] == 47 {
            base@ + path@
        } else {
            base@ + seq![47u8] + path@
        }),
{
    if base@.len() > 0 {
        assert(base@.push(47u8) =~= base@ + seq![47u8]);
    }
}

/// The parent of a path is a beginning of its text with all components but the last. Only the empty
/// path and the root have none.
pub proof fn law_parent_lies_above(path: FilePath, above: Option<FilePath>)
    requires
        call_ensures(FilePath::parent, (&path,), above),
    ensures
        above matches Some(upper) ==> {
            &&& path::components(path@).len() > 0
            &&& path::components(upper@) == path::components(path@).drop_last()
            &&& upper@.len() < path@.len()
            &&& upper@ == path@.take(upper@.len() as int)
            &&& upper@.len() > 0 && upper@[upper@.len() - 1] == 47 ==> upper@ == seq![47u8]
        },
        above is None <==> path@.len() == 0 || path::components(path@) == seq![seq![47u8]],
{
    path::law_parent_drops_the_last_component(path@);
    path::lemma_spans(path@);
    if let Some(upper) = above {
        assert(upper@ =~= path@.take(upper@.len() as int));
        let all = path::spans(path@);
        if all.len() > 1 {
            let span = all[all.len() - 2];
            assert(upper@[upper@.len() - 1] == path@[span.1 - 1]);
            if all.len() == 2 && path::is_absolute(path@) {
                assert(span == (0int, 1int));
                assert(upper@ =~= seq![47u8]);
            } else {
                assert(span.0 <= span.1 - 1 < span.1);
            }
        }
    }
}

/// The parent of a name behind a directory is the directory.
pub proof fn law_parent_undoes_join(
    directory: FilePath,
    name: &[u8],
    joined: FilePath,
    above: Option<FilePath>,
)
    requires
        is_plain(name@),
        call_ensures(FilePath::join, (&directory, name), joined),
        call_ensures(FilePath::parent, (&joined,), above),
    ensures
        above matches Some(upper) && path::components(upper@) == path::components(directory@),
{
    lemma_joined_name(directory@, name@);
    path::law_parent_drops_the_last_component(joined@);
    let parts = path::components(directory@);
    assert((parts + seq![name@]).drop_last() =~= parts);
    assert((parts + seq![name@]).last() == name@);
    if joined@.len() == 0 {
        lemma_root();
        assert(path::components(joined@).len() == 0);
    }
    if path::components(joined@) == seq![seq![47u8]] {
        assert(path::components(joined@).last() == seq![47u8]);
        assert(name@[0] == 47);
    }
}

/// Joining a name onto a directory puts it behind the components of the directory.
pub proof fn lemma_joined_name(directory: Seq<u8>, name: Seq<u8>)
    requires
        is_plain(name),
    ensures
        path::components(path::join(directory, name)) == path::components(directory) + seq![name],
{
    lemma_slashed(seq![name]);
    lemma_pieces(name);
    assert(name[0] != 47);
    if directory.len() == 0 {
        lemma_root();
        assert(Seq::<Seq<u8>>::empty() + seq![name] =~= seq![name]);
    } else {
        path::lemma_join_components(directory, name);
    }
}

/// Where a component begins that is not the first, a `/` lies before it.
proof fn lemma_starts(text: Seq<u8>, from: int)
    requires
        0 <= from,
    ensures
        forall|k: int|
            0 <= k < path::body(text, from).len() ==> (#[trigger] path::body(text, from)[k]).0
                == from || (path::body(text, from)[k].0 > from && text[path::body(text, from)[k].0
                - 1] == 47),
    decreases text.len() + 1 - from,
{
    if from < text.len() {
        let end: int = path::piece_end(text, from);
        path::lemma_piece_end(text, from);
        lemma_starts(text, end + 1);
        path::lemma_body(text, end + 1);
        let all = path::body(text, from);
        let rest = path::body(text, end + 1);
        assert forall|k: int| 0 <= k < all.len() implies (#[trigger] all[k]).0 == from || (
        all[k].0 > from && text[all[k].0 - 1] == 47) by {
            let b: int = if path::is_piece(text.subrange(from, end)) {
                k - 1
            } else {
                k
            };
            if b >= 0 {
                assert(all[k] == rest[b]);
            }
        }
    }
}

/// What is left below a base that leads a path has the components that the base does not.
pub proof fn lemma_stripped(text: Seq<u8>, base: Seq<u8>)
    ensures
        path::strip_prefix(text, base) matches Some(rest) ==> {
            &&& path::components(base).len() <= path::components(text).len()
            &&& path::components(rest) == path::components(text).skip(
                path::components(base).len() as int,
            )
            &&& exists|a: int, b: int|
                0 <= a <= b <= text.len() && rest == #[trigger] text.subrange(a, b)
            &&& path::components(base).len() > 0 && rest.len() > 0 ==> rest[0] != 47
                && rest[rest.len() - 1] != 47
        },
{
    if let Some(rest) = path::strip_prefix(text, base) {
        let all = path::spans(text);
        let parts = path::components(text);
        let count = path::components(base).len();
        path::lemma_spans(text);
        assert(path::components(base).len() <= parts.len());
        if count == all.len() {
            lemma_root();
            assert(parts.skip(count as int) =~= Seq::empty());
            assert(text.subrange(0, 0) =~= rest);
        } else {
            let s: int = all[count as int].0;
            let e: int = all[all.len() - 1].1;
            assert(count < all.len() - 1 ==> all[count as int].1 <= all[all.len() - 1].0);
            assert(rest == text.subrange(s, e));
            let cut = text.take(e);
            path::lemma_take_components(text, all.len() as int);
            assert(parts.take(all.len() as int) =~= parts);
            assert(path::components(cut) == parts);
            if count == 0 {
                assert(rest =~= cut);
                assert(parts.skip(0) =~= parts);
            } else {
                lemma_starts(text, 0);
                let k = count - path::head(text).len();
                assert(all[count as int] == path::body(text, 0)[k]);
                assert(all[0].1 <= s);
                assert(s > 0 && text[s - 1] == 47);
                let front = cut.take(s - 1);
                assert(cut =~= front + seq![47u8] + rest);
                lemma_around(front, rest);
                if front.len() == 0 {
                    assert(cut =~= seq![47u8] + rest);
                }
                let piece = text.subrange(s, all[count as int].1);
                assert(path::is_piece(piece));
                assert(rest[0] == text[s] && text[s] != 47);
                assert(rest[rest.len() - 1] == text[e - 1]);
                assert(all[all.len() - 1].0 <= e - 1 < all[all.len() - 1].1);
                assert(!path::starts_in_current(rest)) by {
                    if path::starts_in_current(rest) {
                        if piece.len() == 1 {
                            assert(piece =~= seq![46u8]);
                        } else {
                            assert(rest[1] == text[s + 1]);
                            assert(text[s + 1] != 47);
                        }
                    }
                }
                lemma_pieces(rest);
                let lead = if front.len() == 0 {
                    seq![seq![47u8]]
                } else {
                    path::components(front)
                };
                assert(parts == lead + path::components(rest));
                lemma_lead_count(text, cut, front, rest, count as int);
                assert(parts.skip(count as int) =~= path::components(rest));
            }
        }
    }
}

proof fn lemma_lead_count(text: Seq<u8>, cut: Seq<u8>, front: Seq<u8>, rest: Seq<u8>, count: int)
    requires
        0 < count < path::spans(text).len(),
        cut == text.take(path::spans(text).last().1),
        cut == front + seq![47u8] + rest,
        path::spans(text)[count].0 == front.len() + 1,
    ensures
        count == (if front.len() == 0 {
            1
        } else {
            path::components(front).len() as int
        }),
{
    let all = path::spans(text);
    let s: int = front.len() as int + 1;
    path::lemma_spans(text);
    path::lemma_take_components(text, all.len() as int);
    let own = path::spans(cut);
    assert(own.len() == path::components(cut).len());
    assert(own.len() == all.len());
    lemma_same_spans(text, all.last().1);
    path::lemma_body_split(cut, 0, s - 1);
    assert(cut.take(s - 1) =~= front);
    path::lemma_body(cut, s);
    path::lemma_spans(front);
    let tail = path::body(cut, s);
    let lead = if front.len() == 0 {
        seq![(0int, 1int)]
    } else {
        path::spans(front)
    };
    if front.len() == 0 {
        assert(path::body(front, 0) =~= Seq::empty());
        assert(cut[0] == 47);
    } else {
        assert(cut[0] == front[0]);
        assert(front.len() > 1 ==> cut[1] == front[1]);
        assert(path::head(cut) =~= path::head(front));
    }
    assert(own =~= lead + tail);
    if count < lead.len() {
        assert(own[count] == lead[count]);
    }
    if lead.len() < count {
        assert(own[lead.len() as int] == tail[0]);
        assert(all[lead.len() as int].1 <= all[count].0);
    }
}

/// Cutting a path behind its last component moves none.
proof fn lemma_same_spans(text: Seq<u8>, end: int)
    requires
        path::spans(text).len() > 0,
        end == path::spans(text).last().1,
    ensures
        path::spans(text.take(end)) == path::spans(text),
{
    let all = path::spans(text);
    let cut = text.take(end);
    path::lemma_spans(text);
    if end == text.len() {
        assert(cut =~= text);
    } else if all.len() == 1 && path::is_absolute(text) {
        assert(end == 1);
        assert(path::piece_end(cut, 0) == 0);
        assert(path::body(cut, 1) =~= Seq::empty());
        assert(path::spans(cut) =~= all);
    } else {
        assert(all.len() > 1 ==> all[0].1 <= all[all.len() - 1].0);
        assert(text[end] == 47);
        path::lemma_body_split(text, 0, end);
        path::lemma_body(text, end + 1);
        let rest = path::body(text, end + 1);
        if rest.len() > 0 {
            assert(path::body(text, 0).last() == rest.last());
            assert(all.last() == rest.last());
        }
        assert(cut[0] == text[0]);
        assert(cut.len() > 1 ==> cut[1] == text[1]);
        assert(path::head(cut) =~= path::head(text));
        assert(path::spans(cut) =~= all);
    }
}

/// A path can be seen from a base exactly where the components of the base lead it; what is left is a
/// stretch of its text, with the other components.
pub proof fn law_strip_prefix_leaves_the_rest(path: FilePath, base: FilePath, rest: Option<FilePath>)
    requires
        call_ensures(FilePath::strip_prefix, (&path, &base), rest),
    ensures
        rest is Some <==> path::components(base@).is_prefix_of(path::components(path@)),
        rest matches Some(below) ==> {
            &&& path::components(base@) + path::components(below@) == path::components(path@)
            &&& exists|a: int, b: int|
                0 <= a <= b <= path@.len() && below@ == #[trigger] path@.subrange(a, b)
            &&& path::components(base@).len() > 0 && below@.len() > 0 ==> below@[0] != 47
                && below@[below@.len() - 1] != 47
        },
{
    lemma_stripped(path@, base@);
    if let Some(below) = rest {
        let parts = path::components(path@);
        let lead = path::components(base@);
        assert(lead =~= parts.subrange(0, lead.len() as int));
        assert(lead + parts.skip(lead.len() as int) =~= parts);
    }
}

/// Paths are on the same place exactly where they have the same components, and what comes before a
/// path is what that path comes after.
pub proof fn law_order_goes_by_components(
    left: FilePath,
    right: FilePath,
    side: Side,
    other_side: Side,
)
    requires
        call_ensures(compare_paths, (&left, &right), side),
        call_ensures(compare_paths, (&right, &left), other_side),
    ensures
        side is Same <==> path::components(left@) == path::components(right@),
        side is Before <==> other_side is After,
{
    order::law_parts_side(path::components(left@), path::components(right@));
}

/// A path comes before everything that lies below it.
pub proof fn law_path_comes_before_what_lies_below(left: FilePath, right: FilePath, side: Side)
    requires
        call_ensures(compare_paths, (&left, &right), side),
        path::components(left@).is_prefix_of(path::components(right@)),
        path::components(left@).len() < path::components(right@).len(),
    ensures
        side is Before,
{
    lemma_prefix_first(path::components(left@), path::components(right@));
}

proof fn lemma_prefix_first(left: Seq<Seq<u8>>, right: Seq<Seq<u8>>)
    requires
        left.is_prefix_of(right),
        left.len() < right.len(),
    ensures
        order::parts_side(left, right) is Before,
    decreases left.len(),
{
    if left.len() > 0 {
        let low = left.drop_first();
        let high = right.drop_first();
        assert(left[0] == right.subrange(0, left.len() as int)[0]);
        assert(low =~= high.subrange(0, low.len() as int)) by {
            assert forall|i: int| 0 <= i < low.len() implies low[i] == #[trigger] high.subrange(
                0,
                low.len() as int,
            )[i] by {
                assert(left[i + 1] == right.subrange(0, left.len() as int)[i + 1]);
            }
        }
        lemma_prefix_first(low, high);
    }
}

/// Otherwise the first component that differs decides. Names go by the first byte that differs, and a
/// name comes before those that it begins.
pub proof fn law_first_difference_decides(
    left: FilePath,
    right: FilePath,
    level: int,
    place: int,
    side: Side,
)
    requires
        call_ensures(compare_paths, (&left, &right), side),
        0 <= level < path::components(left@).len(),
        level < path::components(right@).len(),
        forall|k: int|
            0 <= k < level ==> #[trigger] path::components(left@)[k] == path::components(right@)[k],
        is_plain(path::components(left@)[level]),
        is_plain(path::components(right@)[level]),
        path::components(left@)[level] != seq![46u8, 46u8],
        path::components(right@)[level] != seq![46u8, 46u8],
        0 <= place <= path::components(left@)[level].len(),
        place < path::components(right@)[level].len(),
        forall|i: int|
            0 <= i < place ==> #[trigger] path::components(left@)[level][i] == path::components(
                right@,
            )[level][i],
        place < path::components(left@)[level].len() ==> path::components(left@)[level][place]
            < path::components(right@)[level][place],
    ensures
        side is Before,
{
    let low = path::components(left@);
    let high = path::components(right@);
    assert(low[level] != seq![47u8]) by {
        assert(low[level][0] != 47);
    }
    assert(high[level] != seq![47u8]) by {
        assert(high[level][0] != 47);
    }
    lemma_bytes_differ(low[level], high[level], place);
    lemma_level(low, high, level);
}

/// The root comes before the current directory, that before the parent directory, and that before
/// every name.
pub proof fn law_special_components_come_first(
    left: FilePath,
    right: FilePath,
    level: int,
    side: Side,
)
    requires
        call_ensures(compare_paths, (&left, &right), side),
        0 <= level < path::components(left@).len(),
        level < path::components(right@).len(),
        forall|k: int|
            0 <= k < level ==> #[trigger] path::components(left@)[k] == path::components(right@)[k],
        path::components(left@)[level] != path::components(right@)[level],
        ({
            let low = path::components(left@)[level];
            let high = path::components(right@)[level];
            ||| low == seq![47u8]
            ||| low == seq![46u8] && high != seq![47u8]
            ||| low == seq![46u8, 46u8] && is_plain(high)
        }),
    ensures
        side is Before,
{
    let low = path::components(left@);
    let high = path::components(right@);
    assert(seq![47u8] != seq![46u8]) by {
        assert(seq![47u8][0] != seq![46u8][0]);
    }
    assert(seq![46u8, 46u8] != seq![46u8] && seq![46u8, 46u8] != seq![47u8]) by {
        assert(seq![46u8, 46u8].len() == 2);
    }
    if is_plain(high[level]) {
        assert(high[level] != seq![47u8]) by {
            assert(high[level][0] != 47);
        }
    }
    lemma_level(low, high, level);
}

proof fn lemma_bytes_differ(left: Seq<u8>, right: Seq<u8>, place: int)
    requires
        0 <= place <= left.len(),
        place < right.len(),
        forall|i: int| 0 <= i < place ==> #[trigger] left[i] == right[i],
        place < left.len() ==> left[place] < right[place],
    ensures
        order::bytes_side(left, right) is Before,
        left != right,
    decreases place,
{
    if place > 0 {
        let low = left.drop_first();
        let high = right.drop_first();
        assert(left[0] == right[0]);
        assert forall|i: int| 0 <= i < place - 1 implies #[trigger] low[i] == high[i] by {
            assert(left[i + 1] == right[i + 1]);
        }
        lemma_bytes_differ(low, high, place - 1);
    }
}

proof fn lemma_level(left: Seq<Seq<u8>>, right: Seq<Seq<u8>>, level: int)
    requires
        0 <= level < left.len(),
        level < right.len(),
        forall|k: int| 0 <= k < level ==> #[trigger] left[k] == right[k],
        left[level] != right[level],
    ensures
        order::parts_side(left, right) == order::part_side(left[level], right[level]),
    decreases level,
{
    if level > 0 {
        let low = left.drop_first();
        let high = right.drop_first();
        assert(left[0] == right[0]);
        assert forall|k: int| 0 <= k < level - 1 implies #[trigger] low[k] == high[k] by {
            assert(left[k + 1] == right[k + 1]);
        }
        lemma_level(low, high, level - 1);
    }
}

/// Paths that are put in order are the same paths, as often as before, and none comes after one that
/// stands behind it.
pub proof fn law_sorting_keeps_the_paths(
    paths: Vec<FilePath>,
    sorted: Vec<FilePath>,
    i: int,
    j: int,
    side: Side,
)
    requires
        call_ensures(sort_paths, (paths,), sorted),
        0 <= i < j < sorted@.len(),
        call_ensures(compare_paths, (&sorted@[i], &sorted@[j]), side),
    ensures
        !(side is After),
        sorted@.len() == paths@.len(),
        sorted@.map_values(|path: FilePath| path@).to_multiset() == paths@.map_values(
            |path: FilePath| path@,
        ).to_multiset(),
{
    let texts = order::texts(sorted@);
    let all = order::texts(paths@);
    assert(texts[i] == sorted@[i]@ && texts[j] == sorted@[j]@);
    texts.to_multiset_ensures();
    all.to_multiset_ensures();
    assert(sorted@.map_values(|path: FilePath| path@) =~= texts);
    assert(paths@.map_values(|path: FilePath| path@) =~= all);
}

/// A value that is put under a path is found there, under whatever text the path is written, and what
/// is found under every other path stays.
pub proof fn law_table_gives_back_what_was_put_in(
    table: &mut PathMap<u64>,
    path: FilePath,
    value: u64,
    other: FilePath,
    before: Option<&u64>,
    after: Option<&u64>,
)
    requires
        call_ensures(PathMap::<u64>::get, (&*old(table), &other), before),
        call_ensures(PathMap::<u64>::insert, (table, path, value), ()),
        call_ensures(PathMap::<u64>::get, (&*final(table), &other), after),
    ensures
        path::components(other@) == path::components(path@) ==> (after matches Some(found)
            && *found == value),
        path::components(other@) != path::components(path@) ==> (after is Some <==> before is Some)
            && (after matches Some(found) ==> (before matches Some(kept) && *found == *kept)),
{
}

/// A new table is empty; a table that is cut down to some paths keeps what is under them and nothing
/// else; and a set of paths has those that it had and those that are added.
pub proof fn law_tables_keep_what_is_asked_for(
    table: &mut PathMap<u64>,
    wanted: PathMap<()>,
    path: FilePath,
    before: Option<&u64>,
    after: Option<&u64>,
    is_wanted: bool,
    fresh: PathMap<u64>,
    nothing: Option<&u64>,
)
    requires
        call_ensures(PathMap::<u64>::get, (&*old(table), &path), before),
        call_ensures(PathMap::<()>::contains, (&wanted, &path), is_wanted),
        call_ensures(PathMap::<u64>::retain, (table, &wanted), ()),
        call_ensures(PathMap::<u64>::get, (&*final(table), &path), after),
        call_ensures(PathMap::<u64>::new, (), fresh),
        call_ensures(PathMap::<u64>::get, (&fresh, &path), nothing),
    ensures
        after is Some <==> before is Some && is_wanted,
        after matches Some(found) ==> (before matches Some(kept) && *found == *kept),
        nothing is None,
{
}

/// Paths that are added to a set are in it, and nothing else is that was not.
pub proof fn law_sets_grow_by_what_is_added(
    set: &mut PathMap<()>,
    paths: Vec<FilePath>,
    path: FilePath,
    before: bool,
    after: bool,
)
    requires
        call_ensures(PathMap::<()>::contains, (&*old(set), &path), before),
        call_ensures(PathMap::<()>::extend, (set, &paths), ()),
        call_ensures(PathMap::<()>::contains, (&*final(set), &path), after),
    ensures
        after <==> before || exists|i: int|
            0 <= i < paths@.len() && path::components((#[trigger] paths@[i])@) == path::components(
                path@,
            ),
{
    let texts = order::texts(paths@);
    assert forall|i: int| 0 <= i < paths@.len() implies #[trigger] texts[i] == paths@[i]@ by {}
    assert(final(set)@.dom().contains(path::components(path@)) <==> after);
    assert(old(set)@.dom().contains(path::components(path@)) <==> before);
    if exists|i: int|
        0 <= i < paths@.len() && path::components((#[trigger] paths@[i])@) == path::components(
            path@,
        ) {
        let i = choose|i: int|
            0 <= i < paths@.len() && path::components((#[trigger] paths@[i])@) == path::components(
                path@,
            );
        assert(path::components(texts[i]) == path::components(path@));
    }
}

} // verus!
