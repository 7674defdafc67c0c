//! What an operand means: where to look, how deep, and for what.

use vstd::prelude::*;
use vstd::utf8::*;

use crate::error::{Error, IoError};
use crate::glob;
use crate::glob::{nests_shallowly, Place};
use crate::laws::finding;
use crate::laws::paths;
use crate::laws::words;
use crate::path;
use crate::path::FilePath;
use crate::prefix;
use crate::prefix::{
    component_has_magic,
    existing_directory_ancestor,
    make_absolute,
    pattern_has_magic,
    static_prefix,
};
use crate::tree;
use crate::tree::Listing;
use crate::watch;
use crate::watch::WatchSpec;

verus! {

/// Whether bytes are a plain name: without `*`, `?`, `[` and `{`.
pub open spec fn has_no_magic(bytes: Seq<u8>) -> bool {
    forall|i: int|
        0 <= i < bytes.len() ==> ({
            let byte = #[trigger] bytes[i];
            byte != 42 && byte != 63 && byte != 91 && byte != 123
        })
}

/// Whether a text is a plain name.
pub open spec fn has_no_magic_character(text: Seq<char>) -> bool {
    forall|i: int|
        0 <= i < text.len() ==> ({
            let character = #[trigger] text[i];
            character != '*' && character != '?' && character != '[' && character != '{'
        })
}

/// Whether `**` stands somewhere in bytes.
pub open spec fn has_two_stars(bytes: Seq<u8>) -> bool {
    exists|i: int| 0 <= i && i + 1 < bytes.len() && #[trigger] bytes[i] == 42 && bytes[i + 1] == 42
}

/// A text or a component has to be matched exactly where it holds `*`, `?`, `[` or `{`.
pub proof fn law_magic_is_four_characters(
    pattern: &str,
    magic: bool,
    component: &[u8],
    component_magic: bool,
)
    requires
        call_ensures(pattern_has_magic, (pattern,), magic),
        call_ensures(component_has_magic, (component,), component_magic),
    ensures
        magic <==> !has_no_magic_character(pattern@),
        component_magic <==> !has_no_magic(component@),
{
    if !has_no_magic_character(pattern@) {
        let i = choose|i: int|
            0 <= i < pattern@.len() && ({
                let character = #[trigger] pattern@[i];
                character == '*' || character == '?' || character == '[' || character == '{'
            });
        assert(prefix::is_magic_char(pattern@[i]));
    }
    lemma_magic(component@);
}

proof fn lemma_magic(bytes: Seq<u8>)
    ensures
        path::has_magic(bytes) <==> !has_no_magic(bytes),
{
    if !has_no_magic(bytes) {
        let i = choose|i: int|
            0 <= i < bytes.len() && ({
                let byte = #[trigger] bytes[i];
                byte == 42 || byte == 63 || byte == 91 || byte == 123
            });
        assert(path::is_magic(bytes[i]));
    }
}

/// Whether the first `count` components are plain names, and the next has to be matched if there is
/// one.
pub open spec fn is_plain_up_to(parts: Seq<Seq<u8>>, count: int) -> bool {
    &&& 0 <= count <= parts.len()
    &&& forall|k: int| 0 <= k < count ==> has_no_magic(#[trigger] parts[k])
    &&& count < parts.len() ==> !has_no_magic(parts[count])
}

proof fn lemma_lead(parts: Seq<Seq<u8>>, count: int)
    requires
        is_plain_up_to(parts, count),
    ensures
        prefix::plain_lead(parts) == parts.take(count),
{
    assert forall|k: int| 0 <= k < count implies !path::has_magic(#[trigger] parts[k]) by {
        lemma_magic(parts[k]);
    }
    if count < parts.len() {
        lemma_magic(parts[count]);
    }
    prefix::lemma_plain_lead(parts, count);
}

proof fn lemma_static_prefix(text: Seq<u8>, count: int)
    requires
        is_plain_up_to(path::components(text), count),
    ensures
        count > 0 ==> path::components(prefix::static_prefix_text(text)) == path::components(
            text,
        ).take(count),
        count == 0 ==> prefix::static_prefix_text(text) == seq![47u8],
{
    let parts = path::components(text);
    lemma_lead(parts, count);
    if count > 0 {
        prefix::law_static_prefix_leads_the_path(text);
    } else {
        assert(parts.take(0) =~= Seq::empty());
        assert(prefix::joined(Seq::empty()) =~= Seq::empty());
    }
}

/// The part of a path that can be looked up has all its components up to the first that has to be
/// matched; if that is the very first, it is the root.
pub proof fn law_static_prefix_ends_before_the_pattern(path: FilePath, lead: FilePath, count: int)
    requires
        call_ensures(static_prefix, (&path,), lead),
        is_plain_up_to(path::components(path@), count),
    ensures
        count > 0 ==> path::components(lead@) == path::components(path@).take(count),
        count == 0 ==> lead@ == seq![47u8],
{
    lemma_static_prefix(path@, count);
}

/// The operand as it is seen from the root: as it is if it begins with `/`, and otherwise behind the
/// current directory, with a `/` between them where there is none yet. Without an operand, `.` is
/// meant.
pub open spec fn seen_from_the_root(operand: Option<FilePath>, directory: Seq<u8>) -> Seq<u8> {
    let text = match operand {
        Some(path) => path@,
        None => seq![46u8],
    };
    if text.len() > 0 && text[0] == 47 {
        text
    } else if directory.len() == 0 {
        text
    } else if directory[directory.len() - 1] == 47 {
        directory + text
    } else {
        directory + seq![47u8] + text
    }
}

proof fn lemma_seen(operand: Option<FilePath>, directory: Seq<u8>)
    ensures
        ({
            let text = watch::operand_text(
                match operand {
                    Some(path) => Some(path@),
                    None => None,
                },
            );
            seen_from_the_root(operand, directory) == if path::is_absolute(text) {
                text
            } else {
                path::join(directory, text)
            }
        }),
{
    if directory.len() > 0 {
        assert(directory.push(47u8) =~= directory + seq![47u8]);
    }
}

/// A path is made absolute by the current directory, and an absolute one needs none; where the current
/// directory is not known, that is the error.
pub proof fn law_paths_are_made_absolute(
    path: FilePath,
    current_dir: Result<FilePath, IoError>,
    absolute: Result<FilePath, Error>,
)
    requires
        call_ensures(make_absolute, (&path, current_dir), absolute),
    ensures
        path@.len() > 0 && path@[0] == 47 ==> (absolute matches Ok(same) && same@ == path@),
        current_dir matches Ok(directory) ==> (absolute matches Ok(found) && found@
            == seen_from_the_root(Some(path), directory@)),
        !(path@.len() > 0 && path@[0] == 47) ==> (current_dir matches Err(error) ==> absolute
            == Err::<FilePath, Error>(Error::Io(error))),
{
    if let Ok(directory) = current_dir {
        lemma_seen(Some(path), directory@);
    }
}

/// Whether a directory was denied that has the given components.
pub open spec fn was_denied<F: Fn(&FilePath) -> bool>(probe: F, parts: Seq<Seq<u8>>) -> bool {
    exists|text: Seq<u8>|
        path::components(text) == parts && #[trigger] prefix::answers(probe, text, false)
}

/// Whether every lead of a path with more than `count` components was denied.
pub open spec fn were_denied<F: Fn(&FilePath) -> bool>(
    probe: F,
    parts: Seq<Seq<u8>>,
    count: int,
) -> bool {
    forall|m: int|
        count < m <= parts.len() ==> was_denied(probe, #[trigger] parts.take(m))
}

proof fn lemma_denied<F: Fn(&FilePath) -> bool>(probe: F, text: Seq<u8>, up: nat, count: int)
    requires
        prefix::denied_below(probe, text, up),
        count == path::components(text).len() - up,
        forall|k: nat| k < up ==> #[trigger] prefix::ancestor(text, k) is Some,
    ensures
        were_denied(probe, path::components(text), count),
{
    let parts = path::components(text);
    assert forall|m: int| count < m <= parts.len() implies was_denied(
        probe,
        #[trigger] parts.take(m),
    ) by {
        let k: nat = (parts.len() - m) as nat;
        prefix::law_ancestors_lead_the_path(text, k);
        assert(prefix::ancestor(text, k) is Some);
        let above = prefix::ancestor(text, k)->0;
        assert(prefix::answers(probe, above, false));
        assert(path::components(above) == parts.take(m));
    }
}

proof fn lemma_ancestors(text: Seq<u8>, up: nat, k: nat)
    requires
        k <= up,
        prefix::ancestor(text, up) is Some,
    ensures
        prefix::ancestor(text, k) is Some,
    decreases up,
{
    if k < up {
        lemma_ancestors(text, (up - 1) as nat, k);
    }
}

/// Where one starts to look is a directory that leads the path, and no longer lead of it is one; a path
/// that is not denied is taken itself. Only where every lead with a component was denied there is
/// none, and then the error names the path.
pub proof fn law_lowest_directory_is_taken<F: Fn(&FilePath) -> bool>(
    path: FilePath,
    probe: F,
    directory: Result<FilePath, Error>,
)
    requires
        call_ensures(existing_directory_ancestor::<F>, (&path, &probe), directory),
    ensures
        !prefix::answers(probe, path@, false) ==> (directory matches Ok(found) && found@ == path@),
        directory matches Ok(found) ==> {
            &&& prefix::answers(probe, found@, true)
            &&& path::components(found@).is_prefix_of(path::components(path@))
            &&& were_denied(
                probe,
                path::components(path@),
                path::components(found@).len() as int,
            )
        },
        directory matches Err(error) ==> {
            &&& prefix::answers(probe, path@, false)
            &&& error matches Error::InvalidOperand(message) && message@
                == "no existing directory for "@ + words::name_of(path@)
            &&& were_denied(probe, path::components(path@), 0)
        },
{
    assert(prefix::ancestor(path@, 0) == Some(path@));
    if let Ok(found) = directory {
        let up = choose|up: nat| #[trigger]
            prefix::ancestor(path@, up) == Some(found@) && prefix::denied_below(probe, path@, up);
        lemma_lowest(probe, path@, found@, up);
        if up > 0 {
            assert(prefix::answers(probe, path@, false));
        }
    } else {
        lemma_none(probe, path@);
    }
}

/// Where a path and all that lies above it were denied, so was every lead of it with more than one
/// component; a lead of one is the root, or a name in a directory without one.
proof fn lemma_none<F: Fn(&FilePath) -> bool>(probe: F, text: Seq<u8>)
    requires
        watch::has_no_directory(probe, text),
    ensures
        prefix::answers(probe, text, false),
        were_denied(probe, path::components(text), 0),
{
    let up = choose|up: nat| #[trigger]
        prefix::ancestor(text, up) is None && prefix::denied_below(probe, text, up);
    lemma_first_none(probe, text, up);
}

/// The first of the ancestors that is not there lies above the root or above the empty path.
proof fn lemma_first_none<F: Fn(&FilePath) -> bool>(probe: F, text: Seq<u8>, up: nat)
    requires
        prefix::ancestor(text, up) is None,
        prefix::denied_below(probe, text, up),
    ensures
        prefix::answers(probe, text, false),
        were_denied(probe, path::components(text), 0),
    decreases up,
{
    let parts = path::components(text);
    assert(prefix::ancestor(text, 0) == Some(text));
    assert(up > 0);
    assert(prefix::answers(probe, text, false));
    let lower = (up - 1) as nat;
    if prefix::ancestor(text, lower) is None {
        assert(prefix::denied_below(probe, text, lower));
        lemma_first_none(probe, text, lower);
    } else {
        let top = prefix::ancestor(text, lower)->0;
        prefix::law_ancestors_lead_the_path(text, lower);
        path::law_parent_drops_the_last_component(top);
        paths::lemma_root();
        assert(path::components(top).len() <= 1);
        assert forall|k: nat| k < up implies #[trigger] prefix::ancestor(text, k) is Some by {
            lemma_ancestors(text, lower, k);
        }
        lemma_denied(probe, text, up, parts.len() - up);
        assert(parts.len() - up <= 0);
    }
}

proof fn lemma_lowest<F: Fn(&FilePath) -> bool>(probe: F, text: Seq<u8>, found: Seq<u8>, up: nat)
    requires
        prefix::ancestor(text, up) == Some(found),
        prefix::denied_below(probe, text, up),
    ensures
        path::components(found).is_prefix_of(path::components(text)),
        were_denied(probe, path::components(text), path::components(found).len() as int),
{
    let parts = path::components(text);
    prefix::law_ancestors_lead_the_path(text, up);
    assert forall|k: nat| k < up implies #[trigger] prefix::ancestor(text, k) is Some by {
        lemma_ancestors(text, up, k);
    }
    lemma_denied(probe, text, up, parts.len() - up);
    assert(parts.take(parts.len() - up) =~= parts.subrange(0, parts.len() - up));
}

/// Whether a call of `from_operand` may come out like this, where the operand is seen from the root as
/// `absolute`.
pub open spec fn comes_out<F: Fn(&FilePath) -> bool>(
    operand: Option<FilePath>,
    directory: FilePath,
    probe: F,
    absolute: FilePath,
    outcome: Result<WatchSpec, Error>,
) -> bool {
    &&& call_ensures(WatchSpec::from_operand::<F>, (operand, Ok(directory), &probe), outcome)
    &&& absolute@ == seen_from_the_root(operand, directory@)
}

/// An operand that is a directory is watched as such, and nothing else is.
pub proof fn law_directory_operand_is_watched_as_such<F: Fn(&FilePath) -> bool>(
    operand: Option<FilePath>,
    directory: FilePath,
    probe: F,
    absolute: FilePath,
    outcome: Result<WatchSpec, Error>,
)
    requires
        comes_out(operand, directory, probe, absolute, outcome),
    ensures
        !prefix::answers(probe, absolute@, false) ==> (outcome matches Ok(WatchSpec::Directory {
            root,
        }) && root@ == absolute@),
        outcome matches Ok(WatchSpec::Directory { root }) ==> root@ == absolute@ && prefix::answers(
            probe,
            absolute@,
            true,
        ),
{
    lemma_seen(operand, directory@);
}

/// Without a current directory a relative operand, and none at all, is an error: the one that says why.
pub proof fn law_relative_operand_needs_the_current_directory<F: Fn(&FilePath) -> bool>(
    operand: Option<FilePath>,
    error: IoError,
    probe: F,
    outcome: Result<WatchSpec, Error>,
)
    requires
        call_ensures(WatchSpec::from_operand::<F>, (operand, Err(error), &probe), outcome),
        operand matches Some(path) ==> !(path@.len() > 0 && path@[0] == 47),
    ensures
        outcome == Err::<WatchSpec, Error>(Error::Io(error)),
{
}

/// An absolute operand needs no current directory: what it comes to, it may come to with any.
pub proof fn law_absolute_operand_needs_no_current_directory<F: Fn(&FilePath) -> bool>(
    path: FilePath,
    current_dir: Result<FilePath, IoError>,
    other: Result<FilePath, IoError>,
    probe: F,
    outcome: Result<WatchSpec, Error>,
)
    requires
        path@.len() > 0 && path@[0] == 47,
        call_ensures(WatchSpec::from_operand::<F>, (Some(path), current_dir, &probe), outcome),
    ensures
        WatchSpec::is_operand_outcome(outcome, Some(path@), other, probe),
        outcome matches Err(error) ==> !(error is Io),
{
}

/// An operand that is no directory has to be text.
pub proof fn law_pattern_has_to_be_text<F: Fn(&FilePath) -> bool>(
    operand: Option<FilePath>,
    directory: FilePath,
    probe: F,
    absolute: FilePath,
    outcome: Result<WatchSpec, Error>,
)
    requires
        comes_out(operand, directory, probe, absolute, outcome),
        !prefix::answers(probe, absolute@, true),
        operand matches Some(path) && !valid_utf8(path@),
    ensures
        outcome matches Err(Error::InvalidOperand(words)) && words@
            == "the pattern must be valid UTF-8"@,
{
    lemma_seen(operand, directory@);
}

/// A glob is watched below its root with the pattern that is left of the operand below that root: the
/// two together are the operand, and the pattern is compiled so that `*` does not match a `/`.
pub proof fn law_root_and_pattern_make_the_operand<F: Fn(&FilePath) -> bool>(
    operand: Option<FilePath>,
    directory: FilePath,
    probe: F,
    absolute: FilePath,
    outcome: Result<WatchSpec, Error>,
    root: FilePath,
    matcher: globset::GlobSet,
    recursive: bool,
    pattern: Option<FilePath>,
)
    requires
        comes_out(operand, directory, probe, absolute, outcome),
        outcome == Ok::<WatchSpec, Error>(WatchSpec::Glob { root, matcher, recursive }),
        call_ensures(FilePath::strip_prefix, (&absolute, &root), pattern),
    ensures
        pattern matches Some(rest) ==> {
            &&& path::components(root@) + path::components(rest@) == path::components(absolute@)
            &&& valid_utf8(rest@)
            &&& glob::glob_meaning(decode_utf8(rest@), true) == Ok::<Set<Seq<u8>>, Seq<char>>(
                glob::matched_paths(matcher),
            )
        },
        pattern is None ==> glob::glob_meaning(decode_utf8(absolute@), true) == Ok::<
            Set<Seq<u8>>,
            Seq<char>,
        >(glob::matched_paths(matcher)),
        prefix::answers(probe, root@, true),
        prefix::answers(probe, absolute@, false),
{
    lemma_seen(operand, directory@);
    paths::law_strip_prefix_leaves_the_rest(absolute, root, pattern);
}

/// What the contract of `from_operand` says of a glob.
proof fn lemma_glob<F: Fn(&FilePath) -> bool>(
    operand: Option<FilePath>,
    directory: FilePath,
    probe: F,
    absolute: FilePath,
    outcome: Result<WatchSpec, Error>,
    root: FilePath,
    matcher: globset::GlobSet,
    recursive: bool,
) -> (candidate: Seq<u8>)
    requires
        comes_out(operand, directory, probe, absolute, outcome),
        outcome == Ok::<WatchSpec, Error>(WatchSpec::Glob { root, matcher, recursive }),
    ensures
        ({
            let text = watch::operand_text(
                match operand {
                    Some(path) => Some(path@),
                    None => None,
                },
            );
            &&& candidate == watch::root_candidate(text, absolute@)
            &&& WatchSpec::is_outcome_below(outcome, absolute@, candidate, root@)
            &&& watch::is_lowest_directory(probe, candidate, root@)
            &&& recursive == watch::reaches_below(
                root@,
                candidate,
                watch::relative_pattern(absolute@, root@),
            )
        }),
{
    lemma_seen(operand, directory@);
    let text = watch::operand_text(
        match operand {
            Some(path) => Some(path@),
            None => None,
        },
    );
    watch::root_candidate(text, absolute@)
}

/// Where more than one component of the operand lies below the root, directories are searched: one
/// that has to be matched, or one that is not there yet, lies before the last.
pub proof fn law_deep_patterns_are_searched_for<F: Fn(&FilePath) -> bool>(
    operand: Option<FilePath>,
    directory: FilePath,
    probe: F,
    absolute: FilePath,
    outcome: Result<WatchSpec, Error>,
    root: FilePath,
    matcher: globset::GlobSet,
    recursive: bool,
    pattern: Option<FilePath>,
)
    requires
        comes_out(operand, directory, probe, absolute, outcome),
        outcome == Ok::<WatchSpec, Error>(WatchSpec::Glob { root, matcher, recursive }),
        call_ensures(FilePath::strip_prefix, (&absolute, &root), pattern),
    ensures
        pattern matches Some(rest) ==> (path::components(rest@).len() > 1 ==> recursive),
        pattern matches Some(rest) ==> (has_two_stars(rest@) ==> recursive),
        pattern matches Some(rest) ==> forall|k: int|
            0 <= k < path::components(rest@).len() - 1 ==> (!has_no_magic(
                #[trigger] path::components(rest@)[k],
            ) ==> recursive),
        pattern is None && path::components(absolute@).len() > 1 ==> recursive,
        pattern is None && has_two_stars(absolute@) ==> recursive,
{
    let candidate = lemma_glob(
        operand,
        directory,
        probe,
        absolute,
        outcome,
        root,
        matcher,
        recursive,
    );
    let relative = watch::relative_pattern(absolute@, root@);
    let parts = path::components(absolute@);
    if has_two_stars(relative) {
        let i = choose|i: int|
            0 <= i && i + 1 < relative.len() && #[trigger] relative[i] == 42 && relative[i + 1]
                == 42;
        assert(watch::has_double_star(relative));
    }
    paths::lemma_stripped(absolute@, root@);
    if path::components(relative).len() > 1 && path::components(root@) == path::components(
        candidate,
    ) {
        let text = watch::operand_text(
            match operand {
                Some(path) => Some(path@),
                None => None,
            },
        );
        if prefix::is_pattern(decode_utf8(text)) {
            let count = lemma_some_lead(parts);
            lemma_static_prefix(absolute@, count);
            if count > 0 {
                assert(parts.take(count) =~= parts.subrange(0, count));
                assert(path::components(relative)[0] == parts[count]);
                lemma_magic(parts[count]);
            } else {
                paths::lemma_root();
                if path::strip_prefix(absolute@, root@) is Some {
                    assert(parts.subrange(0, 1)[0] == seq![47u8]);
                    assert(parts[0] == seq![47u8]);
                    assert(has_no_magic(parts[0]));
                }
                assert(relative == absolute@);
                lemma_magic(parts[0]);
            }
            assert(path::has_magic(path::components(relative)[0]));
            assert(watch::has_inner_magic(relative));
        } else {
            path::law_parent_drops_the_last_component(absolute@);
            if path::parent(absolute@) is Some {
                assert(parts.drop_last() =~= parts.subrange(0, parts.len() - 1));
                assert(path::components(relative).len() == 1);
            } else {
                paths::lemma_root();
                assert(parts.len() <= 1);
                assert(path::components(relative).len() <= 1);
            }
        }
    }
}

/// Every list of components is plain up to some component.
proof fn lemma_some_lead(parts: Seq<Seq<u8>>) -> (count: int)
    ensures
        is_plain_up_to(parts, count),
    decreases parts.len(),
{
    if parts.len() == 0 {
        0
    } else {
        let first = parts.drop_last();
        let count = lemma_some_lead(first);
        assert forall|k: int| 0 <= k < first.len() implies #[trigger] first[k] == parts[k] by {}
        if count < first.len() {
            assert(parts[count] == first[count]);
            assert forall|k: int| 0 <= k < count implies has_no_magic(#[trigger] parts[k]) by {
                assert(parts[k] == first[k]);
            }
            count
        } else {
            assert forall|k: int| 0 <= k < count implies has_no_magic(#[trigger] parts[k]) by {
                assert(parts[k] == first[k]);
            }
            if has_no_magic(parts.last()) {
                assert forall|k: int| 0 <= k < count + 1 implies has_no_magic(
                    #[trigger] parts[k],
                ) by {
                    if k == count {
                        assert(parts[k] == parts.last());
                    }
                }
                count + 1
            } else {
                assert(parts[count] == parts.last());
                count
            }
        }
    }
}

/// A plain operand is looked for in the directory that it lies in, if that is one: this is the root, and
/// nothing below it is searched.
pub proof fn law_plain_operand_is_looked_for_in_its_directory<F: Fn(&FilePath) -> bool>(
    operand: Option<FilePath>,
    directory: FilePath,
    probe: F,
    absolute: FilePath,
    outcome: Result<WatchSpec, Error>,
    above: Option<FilePath>,
)
    requires
        comes_out(operand, directory, probe, absolute, outcome),
        operand matches Some(path) ==> valid_utf8(path@) && has_no_magic_character(
            decode_utf8(path@),
        ),
        call_ensures(FilePath::parent, (&absolute,), above),
        above matches Some(upper) && !prefix::answers(probe, upper@, false),
        !prefix::answers(probe, absolute@, true),
    ensures
        outcome matches Ok(spec) ==> (spec matches WatchSpec::Glob { root, .. } && (
        above matches Some(upper) && root@ == upper@)),
        outcome matches Ok(WatchSpec::Glob { recursive, .. }) ==> (has_no_magic(
            path::components(absolute@).last(),
        ) ==> !recursive),
        ({
            let name = path::components(absolute@).last();
            valid_utf8(name) && name.len() <= 0x4000_0000 && glob::is_literal(decode_utf8(name))
        }) ==> outcome is Ok,
{
    lemma_seen(operand, directory@);
    let text = watch::operand_text(
        match operand {
            Some(path) => Some(path@),
            None => None,
        },
    );
    if operand is None {
        lemma_dot_text();
    }
    assert(!prefix::is_pattern(decode_utf8(text))) by {
        if prefix::is_pattern(decode_utf8(text)) {
            let i = choose|i: int|
                0 <= i < decode_utf8(text).len() && prefix::is_magic_char(
                    #[trigger] decode_utf8(text)[i],
                );
            assert(has_no_magic_character(decode_utf8(text)));
        }
    }
    let upper = above->0@;
    let parts = path::components(absolute@);
    path::law_parent_drops_the_last_component(absolute@);
    assert(watch::root_candidate(text, absolute@) == upper);
    assert(prefix::ancestor(upper, 0) == Some(upper));
    assert(!watch::has_no_directory(probe, upper));
    assert forall|root: Seq<u8>| #[trigger] watch::is_lowest_directory(
        probe,
        upper,
        root,
    ) implies root == upper by {
        let up = choose|up: nat| #[trigger]
            prefix::ancestor(upper, up) == Some(root) && prefix::denied_below(probe, upper, up);
        if up > 0 {
            assert(prefix::answers(probe, upper, false));
        }
    }
    let relative = watch::relative_pattern(absolute@, upper);
    assert(parts.drop_last() =~= parts.subrange(0, parts.len() - 1));
    paths::lemma_stripped(absolute@, upper);
    path::lemma_spans(absolute@);
    let all = path::spans(absolute@);
    assert(relative == absolute@.subrange(all[all.len() - 1].0, all[all.len() - 1].1));
    assert(relative == parts.last());
    assert(path::components(relative) =~= seq![parts.last()]);
    assert(!watch::has_inner_magic(relative));
    if has_no_magic(relative) && watch::has_double_star(relative) {
        let i = choose|i: int|
            0 <= i < relative.len() - 1 && #[trigger] relative[i] == 42 && relative[i + 1] == 42;
        assert(relative[i] != 42);
    }
    if valid_utf8(relative) && glob::is_literal(decode_utf8(relative)) {
        decode_utf8_encode_utf8(relative);
        glob::lemma_literal_is_shallow(decode_utf8(relative));
    }
}

proof fn lemma_dot_text()
    ensures
        valid_utf8(seq![46u8]),
        has_no_magic_character(decode_utf8(seq![46u8])),
{
    let chars = seq!['.'];
    assert(is_ascii_chars(chars));
    is_ascii_chars_encode_utf8(chars);
    assert(encode_utf8(chars) =~= seq![46u8]);
    encode_utf8_valid_utf8(chars);
    encode_utf8_decode_utf8(chars);
}

/// A pattern is looked for in the directory before its first component that has to be matched, if that
/// is one: this is the root.
pub proof fn law_pattern_is_looked_for_where_it_begins<F: Fn(&FilePath) -> bool>(
    path: FilePath,
    directory: FilePath,
    probe: F,
    absolute: FilePath,
    outcome: Result<WatchSpec, Error>,
    count: int,
    root: FilePath,
    matcher: globset::GlobSet,
    recursive: bool,
)
    requires
        comes_out(Some(path), directory, probe, absolute, outcome),
        !has_no_magic_character(decode_utf8(path@)),
        is_plain_up_to(path::components(absolute@), count),
        count > 0,
        outcome == Ok::<WatchSpec, Error>(WatchSpec::Glob { root, matcher, recursive }),
    ensures
        path::components(root@).is_prefix_of(path::components(absolute@).take(count)),
        were_denied(
            probe,
            path::components(absolute@).take(count),
            path::components(root@).len() as int,
        ),
        path::components(root@) == path::components(absolute@).take(count) && count
            == path::components(absolute@).len() - 1 && !has_two_stars(
            path::components(absolute@).last(),
        ) ==> !recursive,
{
    let candidate = lemma_glob(
        Some(path),
        directory,
        probe,
        absolute,
        outcome,
        root,
        matcher,
        recursive,
    );
    let parts = path::components(absolute@);
    let i = choose|i: int|
        0 <= i < decode_utf8(path@).len() && ({
            let character = #[trigger] decode_utf8(path@)[i];
            character == '*' || character == '?' || character == '[' || character == '{'
        });
    assert(prefix::is_magic_char(decode_utf8(path@)[i]));
    assert(prefix::is_pattern(decode_utf8(path@)));
    lemma_static_prefix(absolute@, count);
    let up = choose|up: nat| #[trigger]
        prefix::ancestor(candidate, up) == Some(root@) && prefix::denied_below(
            probe,
            candidate,
            up,
        );
    lemma_lowest(probe, candidate, root@, up);
    if path::components(root@) == parts.take(count) && count == parts.len() - 1 {
        let relative = watch::relative_pattern(absolute@, root@);
        assert(parts.take(count) =~= parts.subrange(0, count));
        paths::lemma_stripped(absolute@, root@);
        path::lemma_spans(absolute@);
        let all = path::spans(absolute@);
        assert(relative == absolute@.subrange(all[all.len() - 1].0, all[all.len() - 1].1));
        assert(relative == parts.last());
        assert(path::components(relative) =~= seq![parts.last()]);
        assert(!watch::has_inner_magic(relative));
        if watch::has_double_star(relative) {
            let k = choose|k: int|
                0 <= k < relative.len() - 1 && #[trigger] relative[k] == 42 && relative[k + 1]
                    == 42;
            assert(has_two_stars(relative));
        }
    }
}

/// Whether `asked` is the directory in which an operand is to be looked for: for a pattern the part of
/// it that can be looked up, and for a plain operand the directory that it lies in.
pub open spec fn is_asked_for(
    operand: Option<FilePath>,
    absolute: FilePath,
    asked: FilePath,
) -> bool {
    if operand matches Some(path) && !has_no_magic_character(decode_utf8(path@)) {
        call_ensures(static_prefix, (&absolute,), asked)
    } else {
        call_ensures(FilePath::parent, (&absolute,), Some(asked))
    }
}

/// An operand that is no directory is looked for in the lowest directory that leads the one that is
/// asked for, and below it if that is another. Where there is none, the error names what was asked for.
pub proof fn law_operand_is_looked_for_as_low_as_possible<F: Fn(&FilePath) -> bool>(
    operand: Option<FilePath>,
    directory: FilePath,
    probe: F,
    absolute: FilePath,
    asked: FilePath,
    outcome: Result<WatchSpec, Error>,
)
    requires
        comes_out(operand, directory, probe, absolute, outcome),
        is_asked_for(operand, absolute, asked),
    ensures
        outcome matches Ok(WatchSpec::Glob { root, recursive, .. }) ==> {
            &&& prefix::answers(probe, root@, true)
            &&& path::components(root@).is_prefix_of(path::components(asked@))
            &&& were_denied(
                probe,
                path::components(asked@),
                path::components(root@).len() as int,
            )
            &&& path::components(root@) != path::components(asked@) ==> recursive
            &&& !prefix::answers(probe, asked@, false) ==> root@ == asked@
        },
        outcome matches Err(error) ==> !(error is Io || error is Notify),
        outcome matches Err(Error::InvalidOperand(message)) ==> message@
            == "the pattern must be valid UTF-8"@ || (message@ == "no existing directory for "@
            + words::name_of(asked@) && prefix::answers(probe, asked@, false) && were_denied(
            probe,
            path::components(asked@),
            0,
        )),
{
    let text = lemma_asked(operand, directory, probe, absolute, asked, outcome);
    assert(prefix::ancestor(asked@, 0) == Some(asked@));
    if let Ok(WatchSpec::Glob { root, matcher, recursive }) = outcome {
        let candidate = lemma_glob(
            operand,
            directory,
            probe,
            absolute,
            outcome,
            root,
            matcher,
            recursive,
        );
        let up = choose|up: nat| #[trigger]
            prefix::ancestor(asked@, up) == Some(root@) && prefix::denied_below(probe, asked@, up);
        lemma_lowest(probe, asked@, root@, up);
        if up > 0 {
            assert(prefix::answers(probe, asked@, false));
        }
    }
    if watch::has_no_directory(probe, asked@) {
        lemma_none(probe, asked@);
    }
}

proof fn lemma_asked<F: Fn(&FilePath) -> bool>(
    operand: Option<FilePath>,
    directory: FilePath,
    probe: F,
    absolute: FilePath,
    asked: FilePath,
    outcome: Result<WatchSpec, Error>,
) -> (text: Seq<u8>)
    requires
        comes_out(operand, directory, probe, absolute, outcome),
        is_asked_for(operand, absolute, asked),
    ensures
        text == (match operand {
            Some(path) => path@,
            None => seq![46u8],
        }),
        watch::root_candidate(text, absolute@) == asked@,
        WatchSpec::is_outcome(outcome, text, absolute@, probe),
{
    lemma_seen(operand, directory@);
    let text = watch::operand_text(
        match operand {
            Some(path) => Some(path@),
            None => None,
        },
    );
    if operand is None {
        lemma_dot_text();
    }
    let words = decode_utf8(text);
    if !has_no_magic_character(words) {
        let i = choose|i: int|
            0 <= i < words.len() && ({
                let character = #[trigger] words[i];
                character == '*' || character == '?' || character == '[' || character == '{'
            });
        assert(prefix::is_magic_char(words[i]));
        assert(prefix::is_pattern(words));
    }
    text
}

/// An operand that is no directory, and whose asked-for directory is one, comes to what `globset` makes
/// of the rest below that: a glob that matches just that, or the refusal in its words. A rest that is
/// no text is refused, and so is one that is too long or too deeply nested to be compiled.
pub proof fn law_operand_comes_to_what_its_pattern_means<F: Fn(&FilePath) -> bool>(
    operand: Option<FilePath>,
    directory: FilePath,
    probe: F,
    absolute: FilePath,
    asked: FilePath,
    outcome: Result<WatchSpec, Error>,
    rest: FilePath,
    pattern: &str,
    shallow: bool,
)
    requires
        comes_out(operand, directory, probe, absolute, outcome),
        is_asked_for(operand, absolute, asked),
        operand matches Some(path) ==> valid_utf8(path@),
        !prefix::answers(probe, absolute@, true),
        !prefix::answers(probe, asked@, false),
        call_ensures(FilePath::strip_prefix, (&absolute, &asked), Some(rest)),
        valid_utf8(rest@) ==> pattern@ == decode_utf8(rest@),
        call_ensures(nests_shallowly, (pattern,), shallow),
    ensures
        !valid_utf8(rest@) ==> (outcome matches Err(Error::InvalidOperand(message)) && message@
            == "the pattern must be valid UTF-8"@),
        valid_utf8(rest@) && (rest@.len() > 0x4000_0000 || !shallow) ==> (outcome matches Err(
            Error::InvalidPattern(message),
        ) && message@ == "the pattern is too long or too deeply nested"@),
        valid_utf8(rest@) && rest@.len() <= 0x4000_0000 && shallow ==> match glob::glob_meaning(
            decode_utf8(rest@),
            true,
        ) {
            Ok(meant) => outcome matches Ok(WatchSpec::Glob { root, matcher, .. }) && root@
                == asked@ && glob::matched_paths(matcher) == meant,
            Err(refusal) => outcome matches Err(Error::InvalidPattern(message)) && message@
                == refusal,
        },
{
    let text = lemma_asked(operand, directory, probe, absolute, asked, outcome);
    if operand is None {
        lemma_dot_text();
    }
    assert(prefix::ancestor(asked@, 0) == Some(asked@));
    assert(!watch::has_no_directory(probe, asked@));
    assert forall|root: Seq<u8>| #[trigger] watch::is_lowest_directory(
        probe,
        asked@,
        root,
    ) implies root == asked@ by {
        let up = choose|up: nat| #[trigger]
            prefix::ancestor(asked@, up) == Some(root) && prefix::denied_below(probe, asked@, up);
        if up > 0 {
            assert(prefix::answers(probe, asked@, false));
        }
    }
    if valid_utf8(rest@) {
        decode_utf8_encode_utf8(rest@);
    }
}

/// A compiled pattern is watched below its root as it is, and a refusal is handed on in its words.
pub proof fn law_compiled_pattern_is_watched_as_it_is(
    root: FilePath,
    recursive: bool,
    compiled: Result<globset::GlobSet, String>,
    outcome: Result<WatchSpec, Error>,
)
    requires
        call_ensures(WatchSpec::from_compiled, (root, recursive, compiled), outcome),
    ensures
        compiled matches Ok(matcher) ==> outcome == Ok::<WatchSpec, Error>(
            WatchSpec::Glob { root, matcher, recursive },
        ),
        compiled matches Err(message) ==> outcome == Err::<WatchSpec, Error>(
            Error::InvalidPattern(message),
        ),
{
}

/// A pattern below a root comes to what `globset` makes of the rest, and directories are searched where
/// the root is not the one that is asked for, where `**` stands in the rest, and where a component
/// before its last has to be matched, and nowhere else.
pub proof fn law_pattern_below_a_root(
    absolute: FilePath,
    asked: FilePath,
    root: FilePath,
    outcome: Result<WatchSpec, Error>,
    rest: FilePath,
)
    requires
        call_ensures(WatchSpec::from_pattern, (&absolute, &asked, root), outcome),
        call_ensures(FilePath::strip_prefix, (&absolute, &root), Some(rest)),
    ensures
        outcome matches Ok(spec) ==> (spec matches WatchSpec::Glob {
            root: held,
            matcher,
            recursive,
        } && {
            &&& held@ == root@
            &&& glob::glob_meaning(decode_utf8(rest@), true) == Ok::<Set<Seq<u8>>, Seq<char>>(
                glob::matched_paths(matcher),
            )
            &&& recursive <==> {
                ||| path::components(root@) != path::components(asked@)
                ||| has_two_stars(rest@)
                ||| exists|k: int|
                    0 <= k < path::components(rest@).len() - 1 && !has_no_magic(
                        #[trigger] path::components(rest@)[k],
                    )
            }
        }),
        outcome matches Err(error) ==> error is InvalidOperand || error is InvalidPattern,
        valid_utf8(rest@) && glob::is_literal(decode_utf8(rest@)) && rest@.len() <= 0x4000_0000
            ==> outcome is Ok,
        !valid_utf8(rest@) ==> (outcome matches Err(Error::InvalidOperand(message)) && message@
            == "the pattern must be valid UTF-8"@),
{
    let parts = path::components(rest@);
    assert forall|k: int| 0 <= k < parts.len() implies (path::has_magic(#[trigger] parts[k])
        <==> !has_no_magic(parts[k])) by {
        lemma_magic(parts[k]);
    }
    assert(watch::has_inner_magic(rest@) <==> exists|k: int|
        0 <= k < parts.len() - 1 && !has_no_magic(#[trigger] parts[k])) by {
        if exists|k: int| 0 <= k < parts.len() - 1 && !has_no_magic(#[trigger] parts[k]) {
            let k = choose|k: int| 0 <= k < parts.len() - 1 && !has_no_magic(#[trigger] parts[k]);
            assert(path::has_magic(parts[k]));
        }
    }
    assert(watch::has_double_star(rest@) <==> has_two_stars(rest@)) by {
        if has_two_stars(rest@) {
            let i = choose|i: int|
                0 <= i && i + 1 < rest@.len() && #[trigger] rest@[i] == 42 && rest@[i + 1] == 42;
            assert(0 <= i < rest@.len() - 1 && rest@[i] == 42);
        }
    }
    if valid_utf8(rest@) && glob::is_literal(decode_utf8(rest@)) {
        decode_utf8_encode_utf8(rest@);
        glob::lemma_literal_is_shallow(decode_utf8(rest@));
    }
}

/// An operand that names a file is followed: where one comes from the root along the names that are
/// left of the operand to a regular file, a walk of the outcome finds it, and its path is that of the
/// operand.
pub proof fn law_named_file_is_found<F: Fn(&FilePath) -> bool>(
    operand: Option<FilePath>,
    directory: FilePath,
    probe: F,
    absolute: FilePath,
    outcome: Result<WatchSpec, Error>,
    root: FilePath,
    matcher: globset::GlobSet,
    recursive: bool,
    rest: FilePath,
    names: Seq<Seq<u8>>,
    listing: Listing,
)
    requires
        comes_out(operand, directory, probe, absolute, outcome),
        outcome == Ok::<WatchSpec, Error>(WatchSpec::Glob { root, matcher, recursive }),
        call_ensures(FilePath::strip_prefix, (&absolute, &root), Some(rest)),
        names.len() > 0,
        forall|i: int| 0 <= i < names.len() ==> paths::is_plain(#[trigger] names[i]),
        rest@ == paths::slashed(names),
        root@.len() > 0,
        glob::is_literal(decode_utf8(rest@)),
        finding::holds(listing, names),
    ensures
        ({
            let found = finding::reached(root@, names);
            &&& tree::listing_files(
                WatchSpec::Glob { root, matcher, recursive },
                root@,
                listing,
            ).contains(found)
            &&& path::components(found) == path::components(absolute@)
        }),
{
    let spec = WatchSpec::Glob { root, matcher, recursive };
    law_root_and_pattern_make_the_operand(
        operand,
        directory,
        probe,
        absolute,
        outcome,
        root,
        matcher,
        recursive,
        Some(rest),
    );
    law_deep_patterns_are_searched_for(
        operand,
        directory,
        probe,
        absolute,
        outcome,
        root,
        matcher,
        recursive,
        Some(rest),
    );
    let candidate = lemma_glob(
        operand,
        directory,
        probe,
        absolute,
        outcome,
        root,
        matcher,
        recursive,
    );
    paths::lemma_slashed(names);
    lemma_reached(root@, names);
    assert(path::components(rest@) == names);
    assert(watch::relative_pattern(absolute@, root@) == rest@);
    assert(glob::matched_paths(matcher) == Set::empty().insert(rest@));
    path::law_strip_prefix_undoes_join(root@, rest@);
    assert(spec.accepts(finding::reached(root@, names)));
    finding::law_every_watched_file_is_found(spec, root@, listing, names);
}

/// Going down along names is joining the path of the names.
proof fn lemma_reached(directory: Seq<u8>, names: Seq<Seq<u8>>)
    requires
        directory.len() > 0,
        names.len() > 0,
        forall|i: int| 0 <= i < names.len() ==> paths::is_plain(#[trigger] names[i]),
    ensures
        finding::reached(directory, names) == path::join(directory, paths::slashed(names)),
        path::components(finding::reached(directory, names)) == path::components(directory) + names,
        path::is_trimmed(paths::slashed(names)),
    decreases names.len(),
{
    paths::lemma_slashed(names);
    let whole = paths::slashed(names);
    let first = names[0];
    let rest = names.drop_first();
    let below = path::join(directory, first);
    assert(paths::is_plain(names[0]));
    assert(first[0] != 47);
    path::lemma_join_components(directory, whole);
    if rest.len() == 0 {
        assert(finding::reached(below, rest) == below);
    } else {
        assert forall|i: int| 0 <= i < rest.len() implies paths::is_plain(#[trigger] rest[i]) by {
            assert(rest[i] == names[i + 1]);
        }
        lemma_reached(below, rest);
        paths::lemma_slashed(rest);
        lemma_slashed_front(names);
        assert(below.last() == first.last());
        assert(first[first.len() - 1] != 47);
        assert(path::join(below, paths::slashed(rest)) =~= path::join(directory, whole));
    }
}

proof fn lemma_slashed_front(names: Seq<Seq<u8>>)
    requires
        names.len() > 1,
    ensures
        paths::slashed(names) == names[0] + seq![47u8] + paths::slashed(names.drop_first()),
    decreases names.len(),
{
    let rest = names.drop_first();
    if names.len() == 2 {
        let first = names.drop_last();
        assert(first.len() == 1 && first[0] == names[0]);
        assert(paths::slashed(first) == names[0]);
        assert(rest.len() == 1 && rest[0] == names.last());
        assert(paths::slashed(rest) == names.last());
    } else {
        let first = names.drop_last();
        lemma_slashed_front(first);
        assert(first.drop_first() =~= rest.drop_last());
        assert(rest.last() == names.last());
        assert(paths::slashed(names) =~= names[0] + seq![47u8] + paths::slashed(rest));
    }
}

/// A pattern that nests no more groups than it opens braces is shallow as long as these are few; one
/// that begins with more braces than can be nested is not, and nothing that follows mends it.
pub proof fn law_nesting_counts_open_groups(
    pattern: &str,
    shallow: bool,
    longer: &str,
    longer_shallow: bool,
    count: int,
)
    requires
        call_ensures(nests_shallowly, (pattern,), shallow),
        call_ensures(nests_shallowly, (longer,), longer_shallow),
        0 <= count <= longer@.len(),
        pattern@ == longer@.take(count),
    ensures
        longer_shallow ==> shallow,
        pattern@.len() <= 1000 ==> shallow,
        (forall|i: int| 0 <= i < pattern@.len() ==> #[trigger] pattern@[i] == '{') && pattern@.len()
            > 1000 ==> !shallow && !longer_shallow,
        (forall|i: int| 0 <= i < pattern@.len() ==> #[trigger] pattern@[i] != '{') ==> shallow,
{
    glob::lemma_groups(longer@, count);
    lemma_few_groups(pattern@);
    if forall|i: int| 0 <= i < pattern@.len() ==> #[trigger] pattern@[i] == '{' {
        lemma_many_groups(pattern@);
    }
    if forall|i: int| 0 <= i < pattern@.len() ==> #[trigger] pattern@[i] != '{' {
        lemma_no_groups(pattern@);
    }
}

proof fn lemma_few_groups(pattern: Seq<char>)
    ensures
        glob::groups(pattern).open <= glob::groups(pattern).deepest <= pattern.len(),
    decreases pattern.len(),
{
    if pattern.len() > 0 {
        lemma_few_groups(pattern.drop_last());
    }
}

proof fn lemma_many_groups(pattern: Seq<char>)
    requires
        forall|i: int| 0 <= i < pattern.len() ==> #[trigger] pattern[i] == '{',
    ensures
        glob::groups(pattern).place is Outside,
        glob::groups(pattern).open == pattern.len(),
        glob::groups(pattern).deepest == pattern.len(),
    decreases pattern.len(),
{
    if pattern.len() > 0 {
        let shorter = pattern.drop_last();
        assert forall|i: int| 0 <= i < shorter.len() implies #[trigger] shorter[i] == '{' by {
            assert(shorter[i] == pattern[i]);
        }
        lemma_many_groups(shorter);
        assert(pattern[pattern.len() - 1] == pattern.last());
    }
}

proof fn lemma_no_groups(pattern: Seq<char>)
    requires
        forall|i: int| 0 <= i < pattern.len() ==> #[trigger] pattern[i] != '{',
    ensures
        glob::groups(pattern).open == 0,
        glob::groups(pattern).deepest == 0,
    decreases pattern.len(),
{
    if pattern.len() > 0 {
        let shorter = pattern.drop_last();
        assert forall|i: int| 0 <= i < shorter.len() implies #[trigger] shorter[i] != '{' by {
            assert(shorter[i] == pattern[i]);
        }
        lemma_no_groups(shorter);
        assert(pattern[pattern.len() - 1] == pattern.last());
    }
}

/// How many more braces are opened than closed.
pub open spec fn balance(pattern: Seq<char>) -> int
    decreases pattern.len(),
{
    if pattern.len() == 0 {
        0
    } else {
        balance(pattern.drop_last()) + if pattern.last() == '{' {
            1int
        } else if pattern.last() == '}' {
            -1
        } else {
            0
        }
    }
}

/// Whether a pattern has neither classes nor escapes, and closes no group that is not open.
pub open spec fn is_made_of_groups(pattern: Seq<char>) -> bool {
    &&& forall|i: int|
        0 <= i < pattern.len() ==> #[trigger] pattern[i] != '[' && pattern[i] != '\\'
    &&& forall|n: int| 0 <= n <= pattern.len() ==> balance(#[trigger] pattern.take(n)) >= 0
}

proof fn lemma_balance(pattern: Seq<char>)
    requires
        is_made_of_groups(pattern),
    ensures
        glob::groups(pattern).place is Outside,
        glob::groups(pattern).open == balance(pattern),
        glob::groups(pattern).deepest <= 1000 <==> forall|n: int|
            0 <= n <= pattern.len() ==> balance(#[trigger] pattern.take(n)) <= 1000,
    decreases pattern.len(),
{
    assert(pattern.take(pattern.len() as int) =~= pattern);
    if pattern.len() == 0 {
        assert forall|n: int| 0 <= n <= pattern.len() implies balance(#[trigger] pattern.take(n))
            <= 1000 by {
            assert(pattern.take(n) =~= pattern);
        }
    } else {
        let shorter = pattern.drop_last();
        assert forall|n: int| 0 <= n <= shorter.len() implies #[trigger] shorter.take(n)
            == pattern.take(n) by {
            assert(shorter.take(n) =~= pattern.take(n));
        }
        assert forall|i: int| 0 <= i < shorter.len() implies #[trigger] shorter[i] != '['
            && shorter[i] != '\\' by {
            assert(shorter[i] == pattern[i]);
        }
        assert(is_made_of_groups(shorter)) by {
            assert forall|n: int| 0 <= n <= shorter.len() implies balance(
                #[trigger] shorter.take(n),
            ) >= 0 by {
                assert(balance(pattern.take(n)) >= 0);
            }
        }
        lemma_balance(shorter);
        assert(pattern[pattern.len() - 1] == pattern.last());
        assert(balance(pattern.take(pattern.len() as int)) >= 0);
        let all = forall|n: int|
            0 <= n <= pattern.len() ==> balance(#[trigger] pattern.take(n)) <= 1000;
        let most = forall|n: int|
            0 <= n <= shorter.len() ==> balance(#[trigger] shorter.take(n)) <= 1000;
        if all {
            assert forall|n: int| 0 <= n <= shorter.len() implies balance(
                #[trigger] shorter.take(n),
            ) <= 1000 by {
                assert(balance(pattern.take(n)) <= 1000);
            }
            assert(balance(pattern.take(pattern.len() as int)) <= 1000);
        }
        if most && balance(pattern) <= 1000 {
            assert forall|n: int| 0 <= n <= pattern.len() implies balance(
                #[trigger] pattern.take(n),
            ) <= 1000 by {
                if n < pattern.len() {
                    assert(balance(shorter.take(n)) <= 1000);
                }
            }
        }
        glob::lemma_groups(shorter, 0);
    }
}

/// A pattern of groups is shallow exactly where nowhere more than a thousand of them are open.
pub proof fn law_nesting_is_the_number_of_open_groups(pattern: &str, shallow: bool)
    requires
        call_ensures(nests_shallowly, (pattern,), shallow),
        is_made_of_groups(pattern@),
    ensures
        shallow <==> forall|n: int|
            0 <= n <= pattern@.len() ==> balance(#[trigger] pattern@.take(n)) <= 1000,
{
    lemma_balance(pattern@);
}

proof fn lemma_same_groups(first: Seq<char>, second: Seq<char>, rest: Seq<char>)
    requires
        glob::groups(first) == glob::groups(second),
    ensures
        glob::groups(first + rest) == glob::groups(second + rest),
    decreases rest.len(),
{
    if rest.len() == 0 {
        assert(first + rest =~= first);
        assert(second + rest =~= second);
    } else {
        let shorter = rest.drop_last();
        lemma_same_groups(first, second, shorter);
        assert((first + rest).drop_last() =~= first + shorter);
        assert((second + rest).drop_last() =~= second + shorter);
    }
}

/// What is escaped, and what stands in a class, opens and closes no group: without it a pattern nests
/// its groups just as deep.
pub proof fn law_escapes_and_classes_do_not_nest(
    lead: Seq<char>,
    inner: Seq<char>,
    rest: Seq<char>,
    pattern: &str,
    shorter: &str,
    shallow: bool,
    shorter_shallow: bool,
)
    requires
        call_ensures(nests_shallowly, (pattern,), shallow),
        call_ensures(nests_shallowly, (shorter,), shorter_shallow),
        is_made_of_groups(lead),
        shorter@ == lead + rest,
        ({
            ||| inner.len() == 2 && inner[0] == '\\'
            ||| is_class(inner)
        }),
        pattern@ == lead + inner + rest,
    ensures
        shallow == shorter_shallow,
{
    lemma_balance(lead);
    let whole = lead + inner;
    if is_class(inner) {
        lemma_class(lead, inner);
    } else {
        let open = whole.drop_last();
        assert(open.drop_last() =~= lead);
        assert(open.last() == '\\');
        assert(glob::groups(open) == glob::groups(lead).then_comes('\\'));
        assert(glob::groups(whole) == glob::groups(open).then_comes(whole.last()));
    }
    lemma_same_groups(whole, lead, rest);
}

/// Whether a text is a class: between brackets one character at least, whatever it is, behind a `!` or
/// a `^` if there is one; and no other closing bracket before the last.
pub open spec fn is_class(text: Seq<char>) -> bool {
    let first: int = if text.len() > 1 && (text[1] == '!' || text[1] == '^') {
        2
    } else {
        1
    };
    &&& text.len() >= first + 2
    &&& text[0] == '['
    &&& text.last() == ']'
    &&& forall|i: int| first < i < text.len() - 1 ==> #[trigger] text[i] != ']'
}

proof fn lemma_class(lead: Seq<char>, text: Seq<char>)
    requires
        glob::groups(lead).place is Outside,
        is_class(text),
    ensures
        glob::groups(lead + text) == glob::groups(lead),
{
    let first: int = if text[1] == '!' || text[1] == '^' {
        2
    } else {
        1
    };
    let one = lead + text.take(1);
    assert(one.drop_last() =~= lead);
    assert(one.last() == '[');
    assert(glob::groups(one) == glob::groups(lead).then_comes('['));
    let two = lead + text.take(2);
    assert(two.drop_last() =~= one);
    assert(two.last() == text[1]);
    assert(glob::groups(two) == glob::groups(one).then_comes(text[1]));
    if first == 2 {
        let three = lead + text.take(3);
        assert(three.drop_last() =~= two);
        assert(three.last() == text[2]);
        assert(glob::groups(three) == glob::groups(two).then_comes(text[2]));
    }
    lemma_in_class(lead, text, first, text.len() - 1);
    let whole = lead + text;
    assert(whole.drop_last() =~= lead + text.take(text.len() - 1));
    assert(whole.last() == ']');
}

proof fn lemma_in_class(lead: Seq<char>, text: Seq<char>, first: int, count: int)
    requires
        first == 1 || first == 2,
        first < count <= text.len() - 1,
        forall|i: int| first < i < text.len() - 1 ==> #[trigger] text[i] != ']',
        glob::groups(lead + text.take(first + 1)) == (glob::Groups {
            place: Place::InClass,
            ..glob::groups(lead)
        }),
    ensures
        glob::groups(lead + text.take(count)) == (glob::Groups {
            place: Place::InClass,
            ..glob::groups(lead)
        }),
    decreases count,
{
    if count > first + 1 {
        lemma_in_class(lead, text, first, count - 1);
        let longer = lead + text.take(count);
        assert(longer.drop_last() =~= lead + text.take(count - 1));
        assert(longer.last() == text[count - 1]);
    }
}

} // verus!
