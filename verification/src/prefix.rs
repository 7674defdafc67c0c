//! The part of a pattern that names directories, and the part that has to be matched.

use vstd::prelude::*;

use crate::error::{Error, IoError};
use crate::path;
use crate::path::{FilePath, SEPARATOR};
use crate::text;
use crate::text::read_lossy;

verus! {

/// The characters that make a pattern of a text.
pub open spec fn is_magic_char(character: char) -> bool {
    character == '*' || character == '?' || character == '[' || character == '{'
}

/// Whether a text holds a character that makes a pattern of it.
pub open spec fn is_pattern(text: Seq<char>) -> bool {
    exists|i: int| 0 <= i < text.len() && is_magic_char(#[trigger] text[i])
}

/// Whether a pattern holds more than a plain name.
pub fn pattern_has_magic(pattern: &str) -> (magic: bool)
    ensures
        magic == is_pattern(pattern@),
{
    for character in it: pattern.chars()
        invariant
            it.seq() == pattern@,
            forall|i: int| 0 <= i < it.index() ==> !is_magic_char(#[trigger] pattern@[i]),
    {
        if character == '*' || character == '?' || character == '[' || character == '{' {
            assert(is_magic_char(pattern@[it.index() as int]));
            return true;
        }
    }
    false
}

/// Whether a component of a path holds more than a plain name.
pub fn component_has_magic(component: &[u8]) -> (magic: bool)
    ensures
        magic == path::has_magic(component@),
{
    let length: usize = component.len();
    let mut index: usize = 0;
    while index < length
        invariant
            length == component@.len(),
            forall|i: int| 0 <= i < index ==> !path::is_magic(#[trigger] component@[i]),
        decreases length - index,
    {
        let byte: u8 = component[index];
        if byte == 42 || byte == 63 || byte == 91 || byte == 123 {
            assert(path::is_magic(component@[index as int]));
            return true;
        }
        index = index + 1;
    }
    false
}

/// The leading components that are plain names.
pub open spec fn plain_lead(parts: Seq<Seq<u8>>) -> Seq<Seq<u8>>
    decreases parts.len(),
{
    if parts.len() == 0 || path::has_magic(parts[0]) {
        Seq::empty()
    } else {
        seq![parts[0]] + plain_lead(parts.drop_first())
    }
}

/// The path that one makes by going down component by component.
pub open spec fn joined(parts: Seq<Seq<u8>>) -> Seq<u8>
    decreases parts.len(),
{
    if parts.len() == 0 {
        Seq::empty()
    } else {
        path::join(joined(parts.drop_last()), parts.last())
    }
}

/// The deepest path that holds everything a pattern can match: its leading plain components, or the
/// root if there are none.
pub open spec fn static_prefix_text(text: Seq<u8>) -> Seq<u8> {
    let lead = joined(plain_lead(path::components(text)));
    if lead.len() == 0 {
        seq![SEPARATOR]
    } else {
        lead
    }
}

pub proof fn lemma_plain_lead(parts: Seq<Seq<u8>>, count: int)
    requires
        0 <= count <= parts.len(),
        forall|k: int| 0 <= k < count ==> !path::has_magic(#[trigger] parts[k]),
        count == parts.len() || path::has_magic(parts[count]),
    ensures
        plain_lead(parts) == parts.take(count),
    decreases count,
{
    if count > 0 {
        let rest = parts.drop_first();
        assert forall|k: int| 0 <= k < count - 1 implies !path::has_magic(#[trigger] rest[k]) by {
            assert(rest[k] == parts[k + 1]);
        }
        assert(count - 1 < rest.len() ==> rest[count - 1] == parts[count]);
        assert(!path::has_magic(parts[0]));
        lemma_plain_lead(rest, count - 1);
        assert(plain_lead(parts) =~= parts.take(count));
    } else {
        assert(plain_lead(parts) =~= parts.take(0));
    }
}

/// The part of a path that can be looked up without matching anything.
pub fn static_prefix(path: &FilePath) -> (prefix: FilePath)
    ensures
        prefix@ == static_prefix_text(path@),
{
    let ghost parts = path::components(path@);
    let count: usize = path.component_count();
    let mut prefix: FilePath = FilePath::new(Vec::new());
    let mut index: usize = 0;
    assert(parts.take(0) =~= Seq::empty());
    while index < count && !component_has_magic(path.component(index))
        invariant
            parts == path::components(path@),
            count == parts.len(),
            index <= count,
            prefix@ == joined(parts.take(index as int)),
            forall|k: int| 0 <= k < index ==> !path::has_magic(#[trigger] parts[k]),
        decreases count - index,
    {
        prefix = prefix.join(path.component(index));
        assert(parts.take(index + 1).drop_last() =~= parts.take(index as int));
        index = index + 1;
    }
    proof {
        lemma_plain_lead(parts, index as int);
    }
    if prefix.text().len() == 0 {
        let mut root: Vec<u8> = Vec::new();
        root.push(SEPARATOR);
        assert(root@ =~= seq![SEPARATOR]);
        FilePath::new(root)
    } else {
        prefix
    }
}

/// A path as it is seen from the root, given the current directory or the failure to learn it.
pub fn make_absolute(path: &FilePath, current_dir: Result<FilePath, IoError>) -> (absolute: Result<
    FilePath,
    Error,
>)
    ensures
        path::is_absolute(path@) ==> (absolute matches Ok(same) && same@ == path@),
        !path::is_absolute(path@) ==> match current_dir {
            Ok(directory) => absolute matches Ok(joined) && joined@ == path::join(
                directory@,
                path@,
            ),
            Err(error) => absolute == Err::<FilePath, Error>(Error::Io(error)),
        },
{
    if path.is_absolute() {
        return Ok(path.clone());
    }
    match current_dir {
        Ok(directory) => Ok(directory.join(path.text())),
        Err(error) => Err(Error::Io(error)),
    }
}

/// The path that lies `up` levels above another, if there are that many.
pub open spec fn ancestor(text: Seq<u8>, up: nat) -> Option<Seq<u8>>
    decreases up,
{
    if up == 0 {
        Some(text)
    } else {
        match ancestor(text, (up - 1) as nat) {
            Some(below) => path::parent(below),
            None => None,
        }
    }
}

/// What `probe` may answer for the path with the given text.
pub open spec fn answers<F: Fn(&FilePath) -> bool>(probe: F, text: Seq<u8>, answer: bool) -> bool {
    exists|path: FilePath| #[trigger] path@ == text && call_ensures(probe, (&path,), answer)
}

/// Whether `probe` denied every ancestor of a path that lies fewer than `up` levels above it.
pub open spec fn denied_below<F: Fn(&FilePath) -> bool>(probe: F, text: Seq<u8>, up: nat) -> bool {
    forall|k: nat|
        k < up ==> (#[trigger] ancestor(text, k) matches Some(above) ==> answers(
            probe,
            above,
            false,
        ))
}

/// The words for a path none of whose ancestors is a directory.
pub open spec fn no_directory_text(text: Seq<u8>) -> Seq<char> {
    "no existing directory for "@ + text::shown(text)
}

/// The lowest of a path and its ancestors that is a directory, as `is_directory` tells. There may
/// be none, which is an error.
pub fn existing_directory_ancestor<F: Fn(&FilePath) -> bool>(
    path: &FilePath,
    is_directory: &F,
) -> (directory: Result<FilePath, Error>)
    requires
        forall|candidate: &FilePath| call_requires(*is_directory, (candidate,)),
    ensures
        directory matches Ok(found) ==> answers(*is_directory, found@, true) && exists|up: nat|
            #[trigger] ancestor(path@, up) == Some(found@) && denied_below(*is_directory, path@, up),
        directory matches Err(error) ==> error.text() == no_directory_text(path@) && (
        error is InvalidOperand) && exists|up: nat|
            #[trigger] ancestor(path@, up) is None && denied_below(*is_directory, path@, up),
{
    let mut candidate: FilePath = path.clone();
    let ghost mut up: nat = 0;
    loop
        invariant
            forall|candidate: &FilePath| call_requires(*is_directory, (candidate,)),
            ancestor(path@, up) == Some(candidate@),
            denied_below(*is_directory, path@, up),
        decreases candidate@.len(),
    {
        if is_directory(&candidate) {
            return Ok(candidate);
        }
        assert(denied_below(*is_directory, path@, up + 1)) by {
            assert forall|k: nat| k < up + 1 implies (#[trigger] ancestor(path@, k) matches Some(
                above,
            ) ==> answers(*is_directory, above, false)) by {
                if k == up {
                    assert(answers(*is_directory, candidate@, false));
                }
            }
        }
        proof {
            path::law_parent_drops_the_last_component(candidate@);
            up = up + 1;
        }
        match candidate.parent() {
            Some(above) => {
                candidate = above;
            },
            None => {
                assert(ancestor(path@, up) is None);
                let mut message: String = "no existing directory for ".to_owned();
                message.append(read_lossy(path.text()).as_str());
                return Err(Error::InvalidOperand(message));
            },
        }
    }
}

/// What lies some levels above a path has the components of the path without the last ones.
pub proof fn law_ancestors_lead_the_path(text: Seq<u8>, up: nat)
    ensures
        ancestor(text, up) matches Some(above) ==> up <= path::components(text).len()
            && path::components(above) == path::components(text).take(
            path::components(text).len() - up,
        ),
    decreases up,
{
    let parts = path::components(text);
    if up == 0 {
        assert(parts.take(parts.len() as int) =~= parts);
    } else {
        law_ancestors_lead_the_path(text, (up - 1) as nat);
        if let Some(below) = ancestor(text, (up - 1) as nat) {
            path::law_parent_drops_the_last_component(below);
            if path::parent(below) is Some {
                assert(path::components(below).drop_last() =~= parts.take(parts.len() - up));
            }
        }
    }
}

/// What the components of a path tell of it: the first may be the root or the current directory,
/// every other one is a name.
pub open spec fn are_components(parts: Seq<Seq<u8>>) -> bool {
    forall|k: int|
        0 <= k < parts.len() ==> ({
            ||| k == 0 && (parts[k] == seq![SEPARATOR] || parts[k] == seq![path::DOT])
            ||| is_name(#[trigger] parts[k])
        })
}

/// A component that is neither the root nor the current directory.
pub open spec fn is_name(part: Seq<u8>) -> bool {
    path::is_piece(part) && forall|i: int| 0 <= i < part.len() ==> #[trigger] part[i] != SEPARATOR
}

/// Every path has components of that form.
pub proof fn lemma_are_components(text: Seq<u8>)
    ensures
        are_components(path::components(text)),
{
    let parts = path::components(text);
    let all = path::spans(text);
    path::lemma_spans(text);
    path::lemma_body(text, 0);
    assert forall|k: int| 0 <= k < parts.len() implies ({
        ||| k == 0 && (parts[k] == seq![SEPARATOR] || parts[k] == seq![path::DOT])
        ||| is_name(#[trigger] parts[k])
    }) by {
        assert(parts[k] == text.subrange(all[k].0, all[k].1));
        if k == 0 && path::head(text).len() > 0 {
            assert(all[0] == (0int, 1int));
            if path::is_absolute(text) {
                assert(parts[k] =~= seq![SEPARATOR]);
            } else {
                assert(parts[k] =~= seq![path::DOT]);
            }
        } else {
            let b = k - path::head(text).len();
            assert(all[k] == path::body(text, 0)[b]);
            assert forall|i: int| 0 <= i < parts[k].len() implies #[trigger] parts[k][i]
                != SEPARATOR by {
                assert(parts[k][i] == text[all[k].0 + i]);
            }
        }
    }
}

/// A name alone is a path of one component, which its text fills.
pub proof fn lemma_name_components(name: Seq<u8>)
    requires
        is_name(name),
    ensures
        path::is_downward(name),
        path::spans(name) == seq![(0int, name.len() as int)],
        path::is_trimmed(name),
        path::components(name) == seq![name],
{
    path::lemma_piece_end(name, 0);
    let end: int = path::piece_end(name, 0);
    assert(end == name.len());
    assert(name.subrange(0, end) =~= name);
    assert(path::body(name, end + 1) =~= Seq::empty());
    if path::starts_in_current(name) {
        assert(name.len() == 1 ==> name =~= seq![path::DOT]);
        assert(name.len() > 1 ==> name[1] == SEPARATOR);
    }
    assert(name[0] != SEPARATOR);
    assert(path::spans(name) =~= seq![(0int, end)]);
    assert(path::components(name) =~= seq![name]);
}

/// Going down along components gives a path with those components.
pub proof fn lemma_joined_components(parts: Seq<Seq<u8>>)
    requires
        are_components(parts),
    ensures
        path::components(joined(parts)) == parts,
        parts.len() > 0 ==> joined(parts).len() > 0,
    decreases parts.len(),
{
    if parts.len() == 0 {
        assert(path::spans(joined(parts)) =~= Seq::empty());
        assert(path::components(joined(parts)) =~= parts);
    } else {
        let above = parts.drop_last();
        let last = parts.last();
        assert(are_components(above)) by {
            assert forall|k: int| 0 <= k < above.len() implies ({
                ||| k == 0 && (above[k] == seq![SEPARATOR] || above[k] == seq![path::DOT])
                ||| is_name(#[trigger] above[k])
            }) by {
                assert(above[k] == parts[k]);
            }
        }
        lemma_joined_components(above);
        if above.len() == 0 {
            assert(joined(parts) == last);
            assert(parts =~= seq![last]);
            if is_name(last) {
                lemma_name_components(last);
            } else {
                assert(last.len() == 1);
                assert(path::piece_end(last, 1) == 1);
                assert(last.subrange(0, 1) =~= last);
                assert(path::body(last, 1) =~= Seq::empty());
                assert(path::body(last, 2) =~= Seq::empty());
                assert(path::body(last, 0) =~= Seq::empty());
                assert(path::spans(last) =~= seq![(0int, 1int)]);
                assert(path::components(last) =~= seq![last]);
            }
        } else {
            assert(is_name(last));
            lemma_name_components(last);
            path::lemma_join_components(joined(above), last);
            assert(above + seq![last] =~= parts);
        }
    }
}

/// The static prefix leads the path, and no component of it has to be matched. A path that starts
/// with a pattern has the root for its prefix instead.
pub proof fn law_static_prefix_leads_the_path(text: Seq<u8>)
    requires
        plain_lead(path::components(text)).len() > 0,
    ensures
        path::components(static_prefix_text(text)) == plain_lead(path::components(text)),
        path::components(static_prefix_text(text)).is_prefix_of(path::components(text)),
        forall|k: int|
            0 <= k < path::components(static_prefix_text(text)).len() ==> !path::has_magic(
                #[trigger] path::components(static_prefix_text(text))[k],
            ),
{
    let parts = path::components(text);
    let count: int = lead_length(parts);
    lemma_lead_length(parts);
    lemma_plain_lead(parts, count);
    lemma_are_components(text);
    let lead = parts.take(count);
    assert(are_components(lead)) by {
        assert forall|k: int| 0 <= k < lead.len() implies ({
            ||| k == 0 && (lead[k] == seq![SEPARATOR] || lead[k] == seq![path::DOT])
            ||| is_name(#[trigger] lead[k])
        }) by {
            assert(lead[k] == parts[k]);
        }
    }
    lemma_joined_components(lead);
    assert(lead =~= parts.subrange(0, count));
    assert forall|k: int| 0 <= k < lead.len() implies !path::has_magic(#[trigger] lead[k]) by {
        assert(lead[k] == parts[k]);
    }
}

spec fn lead_length(parts: Seq<Seq<u8>>) -> int
    decreases parts.len(),
{
    if parts.len() == 0 || path::has_magic(parts[0]) {
        0
    } else {
        1 + lead_length(parts.drop_first())
    }
}

proof fn lemma_lead_length(parts: Seq<Seq<u8>>)
    ensures
        0 <= lead_length(parts) <= parts.len(),
        forall|k: int| 0 <= k < lead_length(parts) ==> !path::has_magic(#[trigger] parts[k]),
        lead_length(parts) == parts.len() || path::has_magic(parts[lead_length(parts)]),
    decreases parts.len(),
{
    if parts.len() > 0 && !path::has_magic(parts[0]) {
        let rest = parts.drop_first();
        lemma_lead_length(rest);
        assert forall|k: int| 0 <= k < lead_length(parts) implies !path::has_magic(
            #[trigger] parts[k],
        ) by {
            if k > 0 {
                assert(parts[k] == rest[k - 1]);
            }
        }
    }
}

} // verus!
