//! What to watch: a directory, or the files below a root that a pattern matches.

use vstd::prelude::*;
use vstd::utf8::*;

use crate::error::{Error, IoError};
use crate::glob;
use crate::glob::{compile_glob, matches_path, nests_shallowly, LONGEST_PATTERN};
use crate::path;
use crate::path::{FilePath, DOT};
use crate::prefix;
use crate::prefix::{
    component_has_magic,
    existing_directory_ancestor,
    make_absolute,
    pattern_has_magic,
    static_prefix,
};
use crate::text::read_utf8;

verus! {

/// Whether directories below the watched one are watched too.
#[derive(Clone, Copy, Debug, PartialEq, Eq, Structural)]
pub enum RecursiveMode {
    Recursive,
    NonRecursive,
}

/// What to watch.
#[derive(Debug)]
pub enum WatchSpec {
    /// The regular files that lie directly in a directory.
    Directory { root: FilePath },
    /// The regular files below a directory whose paths, seen from there, a pattern matches.
    Glob { root: FilePath, matcher: globset::GlobSet, recursive: bool },
}

/// The text of the operand; without one, the current directory is meant.
pub open spec fn operand_text(operand: Option<Seq<u8>>) -> Seq<u8> {
    match operand {
        Some(text) => text,
        None => seq![DOT],
    }
}

/// The directory in which to look: for a pattern, the part of it that holds no pattern; for a plain
/// name, the directory that it lies in.
pub open spec fn root_candidate(operand: Seq<u8>, absolute: Seq<u8>) -> Seq<u8> {
    if prefix::is_pattern(decode_utf8(operand)) {
        prefix::static_prefix_text(absolute)
    } else {
        match path::parent(absolute) {
            Some(above) => above,
            None => seq![DOT],
        }
    }
}

/// The pattern as it is seen from the root.
pub open spec fn relative_pattern(absolute: Seq<u8>, root: Seq<u8>) -> Seq<u8> {
    match path::strip_prefix(absolute, root) {
        Some(rest) => rest,
        None => absolute,
    }
}

/// Whether `**` occurs in a text.
pub open spec fn has_double_star(text: Seq<u8>) -> bool {
    exists|i: int| 0 <= i < text.len() - 1 && #[trigger] text[i] == 42 && text[i + 1] == 42
}

/// Whether a component other than the last has to be matched.
pub open spec fn has_inner_magic(text: Seq<u8>) -> bool {
    exists|k: int|
        0 <= k < path::components(text).len() - 1 && path::has_magic(
            #[trigger] path::components(text)[k],
        )
}

/// Whether a pattern can match below the directories that lie in its root: where the root is not
/// the directory that was asked for, where the pattern holds `**`, and where a directory has to be
/// matched.
pub open spec fn reaches_below(root: Seq<u8>, candidate: Seq<u8>, relative: Seq<u8>) -> bool {
    ||| path::components(root) != path::components(candidate)
    ||| has_double_star(relative)
    ||| has_inner_magic(relative)
}

/// Whether `root` is the lowest directory among a path and its ancestors, as `probe` told.
pub open spec fn is_lowest_directory<F: Fn(&FilePath) -> bool>(
    probe: F,
    candidate: Seq<u8>,
    root: Seq<u8>,
) -> bool {
    prefix::answers(probe, root, true) && exists|up: nat| #[trigger]
        prefix::ancestor(candidate, up) == Some(root) && prefix::denied_below(probe, candidate, up)
}

/// Whether `probe` denied a path and all its ancestors.
pub open spec fn has_no_directory<F: Fn(&FilePath) -> bool>(probe: F, candidate: Seq<u8>) -> bool {
    exists|up: nat| #[trigger]
        prefix::ancestor(candidate, up) is None && prefix::denied_below(probe, candidate, up)
}

/// The words for a pattern that is no text.
pub open spec fn not_utf8_text() -> Seq<char> {
    "the pattern must be valid UTF-8"@
}

fn not_utf8() -> (error: Error)
    ensures
        error is InvalidOperand,
        error.text() == not_utf8_text(),
{
    Error::InvalidOperand("the pattern must be valid UTF-8".to_owned())
}

/// The words for a pattern that cannot be compiled for its size.
pub open spec fn too_complex_text() -> Seq<char> {
    "the pattern is too long or too deeply nested"@
}

fn too_complex() -> (error: Error)
    ensures
        error is InvalidPattern,
        error.text() == too_complex_text(),
{
    Error::InvalidPattern("the pattern is too long or too deeply nested".to_owned())
}

/// Whether `**` occurs in a text.
fn contains_double_star(text: &[u8]) -> (found: bool)
    ensures
        found == has_double_star(text@),
{
    let length: usize = text.len();
    let mut index: usize = 0;
    while 1 < length - index
        invariant
            length == text@.len(),
            index <= length,
            forall|i: int| 0 <= i < index ==> !(#[trigger] text@[i] == 42 && text@[i + 1] == 42),
        decreases length - index,
    {
        if text[index] == 42 && text[index + 1] == 42 {
            return true;
        }
        index = index + 1;
    }
    false
}

/// Whether a component other than the last has to be matched.
fn inner_component_has_magic(path: &FilePath) -> (found: bool)
    ensures
        found == has_inner_magic(path@),
{
    let count: usize = path.component_count();
    let mut index: usize = 0;
    while 1 < count - index
        invariant
            count == path::components(path@).len(),
            index <= count,
            forall|k: int|
                0 <= k < index ==> !path::has_magic(#[trigger] path::components(path@)[k]),
        decreases count - index,
    {
        if component_has_magic(path.component(index)) {
            return true;
        }
        index = index + 1;
    }
    false
}

/// The root of a pattern lies above it, so that the pattern can be seen from there. A plain operand
/// that names the root directory has no such root: nothing lies above it.
pub proof fn law_root_leads_the_operand(
    operand: Seq<u8>,
    absolute: Seq<u8>,
    up: nat,
    root: Seq<u8>,
)
    requires
        path::is_absolute(absolute),
        prefix::is_pattern(decode_utf8(operand)) || path::parent(absolute) is Some,
        prefix::ancestor(root_candidate(operand, absolute), up) == Some(root),
    ensures
        path::components(root).is_prefix_of(path::components(absolute)),
        path::strip_prefix(absolute, root) == Some(relative_pattern(absolute, root)),
{
    let candidate = root_candidate(operand, absolute);
    let parts = path::components(absolute);
    prefix::law_ancestors_lead_the_path(candidate, up);
    if prefix::is_pattern(decode_utf8(operand)) {
        path::lemma_spans(absolute);
        assert(path::spans(absolute)[0] == (0int, 1int));
        assert(parts[0] =~= seq![path::SEPARATOR]);
        assert(!path::has_magic(parts[0]));
        prefix::law_static_prefix_leads_the_path(absolute);
    } else {
        path::law_parent_drops_the_last_component(absolute);
        assert(parts.drop_last() =~= parts.subrange(0, parts.len() - 1));
    }
    let above = path::components(candidate);
    assert(above.is_prefix_of(parts));
    assert(above.take(above.len() - up) =~= parts.subrange(0, above.len() - up));
}

/// What a glob watches lies below its root.
pub proof fn law_matches_lie_below_the_root(spec: WatchSpec, path: Seq<u8>)
    requires
        spec is Glob,
        spec.accepts(path),
    ensures
        path::components(spec.root_text()).is_prefix_of(path::components(path)),
{
}

/// A plain operand is watched: as a single file, which has the operand's path seen from the root.
pub proof fn law_plain_operand_watches_one_file(
    outcome: Result<WatchSpec, Error>,
    absolute: Seq<u8>,
    candidate: Seq<u8>,
    root: Seq<u8>,
    path: Seq<u8>,
)
    requires
        WatchSpec::is_outcome_below(outcome, absolute, candidate, root),
        path::strip_prefix(absolute, root) is Some,
        valid_utf8(relative_pattern(absolute, root)),
        relative_pattern(absolute, root).len() <= LONGEST_PATTERN,
        glob::is_literal(decode_utf8(relative_pattern(absolute, root))),
    ensures
        outcome matches Ok(spec) && spec.accepts(absolute) && (spec.accepts(path)
            <==> path::strip_prefix(path, root) == path::strip_prefix(absolute, root)),
{
    decode_utf8_encode_utf8(relative_pattern(absolute, root));
    glob::lemma_literal_is_shallow(decode_utf8(relative_pattern(absolute, root)));
}

/// Without an operand the current directory is watched, as with the operand `.`: the two have the same
/// outcomes, and where the current directory is known and is one, that is the only outcome.
pub proof fn law_current_directory_is_the_default<F: Fn(&FilePath) -> bool>(
    outcome: Result<WatchSpec, Error>,
    current_dir: Result<FilePath, IoError>,
    probe: F,
)
    ensures
        WatchSpec::is_operand_outcome(outcome, None, current_dir, probe)
            <==> WatchSpec::is_operand_outcome(outcome, Some(seq![DOT]), current_dir, probe),
        current_dir matches Ok(directory) ==> ({
            let here = path::join(directory@, seq![DOT]);
            WatchSpec::is_operand_outcome(outcome, None, current_dir, probe) && !prefix::answers(
                probe,
                here,
                false,
            ) ==> (outcome matches Ok(WatchSpec::Directory { root }) && root@ == here)
        }),
{
}

impl WatchSpec {
    pub open spec fn root_text(self) -> Seq<u8> {
        match self {
            WatchSpec::Directory { root } => root@,
            WatchSpec::Glob { root, .. } => root@,
        }
    }

    pub open spec fn is_recursive(self) -> bool {
        match self {
            WatchSpec::Directory { .. } => false,
            WatchSpec::Glob { recursive, .. } => recursive,
        }
    }

    /// Whether a regular file with that path is watched.
    pub open spec fn accepts(self, path: Seq<u8>) -> bool {
        match self {
            WatchSpec::Directory { .. } => true,
            WatchSpec::Glob { root, matcher, .. } => match path::strip_prefix(path, root@) {
                Some(relative) => glob::matched_paths(matcher).contains(relative),
                None => false,
            },
        }
    }

    /// Whether this is the glob that watches `paths` below `root`.
    pub open spec fn is_glob(self, root: Seq<u8>, paths: Set<Seq<u8>>, reaching: bool) -> bool {
        self matches WatchSpec::Glob { root: held, matcher, recursive } && held@ == root
            && glob::matched_paths(matcher) == paths && recursive == reaching
    }

    /// The glob below `root` for a pattern that has been compiled, or the refusal of the pattern.
    pub fn from_compiled(
        root: FilePath,
        recursive: bool,
        compiled: Result<globset::GlobSet, String>,
    ) -> (spec: Result<WatchSpec, Error>)
        ensures
            match compiled {
                Ok(matcher) => spec == Ok::<WatchSpec, Error>(
                    WatchSpec::Glob { root, matcher, recursive },
                ),
                Err(message) => spec == Err::<WatchSpec, Error>(Error::InvalidPattern(message)),
            },
    {
        match compiled {
            Ok(matcher) => Ok(WatchSpec::Glob { root, matcher, recursive }),
            Err(message) => Err(Error::InvalidPattern(message)),
        }
    }

    /// What comes of an absolute pattern once its root is known.
    pub open spec fn is_outcome_below(
        outcome: Result<WatchSpec, Error>,
        absolute: Seq<u8>,
        candidate: Seq<u8>,
        root: Seq<u8>,
    ) -> bool {
        let relative = relative_pattern(absolute, root);
        if !valid_utf8(relative) {
            outcome matches Err(error) && error is InvalidOperand && error.text()
                == not_utf8_text()
        } else if !glob::is_compilable(decode_utf8(relative)) {
            outcome matches Err(error) && error is InvalidPattern && error.text()
                == too_complex_text()
        } else {
            &&& match glob::glob_meaning(decode_utf8(relative), true) {
                Ok(paths) => outcome matches Ok(spec) && spec.is_glob(
                    root,
                    paths,
                    reaches_below(root, candidate, relative),
                ),
                Err(words) => outcome matches Err(error) && error is InvalidPattern && error.text()
                    == words,
            }
            &&& glob::is_literal(decode_utf8(relative)) ==> (outcome matches Ok(spec)
                && spec.is_glob(
                root,
                Set::empty().insert(relative),
                reaches_below(root, candidate, relative),
            ))
        }
    }

    /// The glob for an absolute pattern below a root that lies above it.
    pub fn from_pattern(absolute: &FilePath, candidate: &FilePath, root: FilePath) -> (outcome:
        Result<WatchSpec, Error>)
        ensures
            WatchSpec::is_outcome_below(outcome, absolute@, candidate@, root@),
    {
        let relative: FilePath = match absolute.strip_prefix(&root) {
            Some(rest) => rest,
            None => absolute.clone(),
        };
        let pattern: String = match read_utf8(relative.text()) {
            Some(pattern) => pattern,
            None => {
                return Err(not_utf8());
            },
        };
        proof {
            decode_utf8_encode_utf8(relative@);
        }
        if relative.text().len() > LONGEST_PATTERN || !nests_shallowly(pattern.as_str()) {
            return Err(too_complex());
        }
        let recursive: bool = !root.same_components(candidate) || contains_double_star(
            relative.text(),
        ) || inner_component_has_magic(&relative);
        WatchSpec::from_compiled(root, recursive, compile_glob(pattern.as_str(), true))
    }

    /// What comes of an operand once it is seen from the root: a directory is watched as such;
    /// anything else has to be text, and is matched below the lowest directory above it.
    pub open spec fn is_outcome<F: Fn(&FilePath) -> bool>(
        outcome: Result<WatchSpec, Error>,
        operand: Seq<u8>,
        absolute: Seq<u8>,
        probe: F,
    ) -> bool {
        match outcome {
            Ok(WatchSpec::Directory { root }) => root@ == absolute && prefix::answers(
                probe,
                absolute,
                true,
            ),
            _ => prefix::answers(probe, absolute, false) && WatchSpec::is_pattern_outcome(
                outcome,
                operand,
                absolute,
                probe,
            ),
        }
    }

    /// What comes of an operand that is no directory.
    pub open spec fn is_pattern_outcome<F: Fn(&FilePath) -> bool>(
        outcome: Result<WatchSpec, Error>,
        operand: Seq<u8>,
        absolute: Seq<u8>,
        probe: F,
    ) -> bool {
        let candidate = root_candidate(operand, absolute);
        if !valid_utf8(operand) {
            outcome matches Err(error) && error is InvalidOperand && error.text()
                == not_utf8_text()
        } else {
            ||| has_no_directory(probe, candidate) && (outcome matches Err(error) && error
                is InvalidOperand && error.text() == prefix::no_directory_text(candidate))
            ||| exists|root: Seq<u8>| #[trigger]
                is_lowest_directory(probe, candidate, root) && WatchSpec::is_outcome_below(
                    outcome,
                    absolute,
                    candidate,
                    root,
                )
        }
    }

    /// What comes of an operand, given the current directory or the failure to learn it.
    pub open spec fn is_operand_outcome<F: Fn(&FilePath) -> bool>(
        outcome: Result<WatchSpec, Error>,
        operand: Option<Seq<u8>>,
        current_dir: Result<FilePath, IoError>,
        probe: F,
    ) -> bool {
        let text = operand_text(operand);
        if path::is_absolute(text) {
            WatchSpec::is_outcome(outcome, text, text, probe)
        } else {
            match current_dir {
                Ok(directory) => WatchSpec::is_outcome(
                    outcome,
                    text,
                    path::join(directory@, text),
                    probe,
                ),
                Err(error) => outcome == Err::<WatchSpec, Error>(Error::Io(error)),
            }
        }
    }

    /// What to watch for an operand, given the current directory (or the failure to learn it) and
    /// a way to ask which paths are directories.
    pub fn from_operand<F: Fn(&FilePath) -> bool>(
        operand: Option<FilePath>,
        current_dir: Result<FilePath, IoError>,
        is_directory: &F,
    ) -> (outcome: Result<WatchSpec, Error>)
        requires
            forall|candidate: &FilePath| call_requires(*is_directory, (candidate,)),
        ensures
            WatchSpec::is_operand_outcome(
                outcome,
                match operand {
                    Some(path) => Some(path@),
                    None => None,
                },
                current_dir,
                *is_directory,
            ),
    {
        let operand: FilePath = match operand {
            Some(path) => path,
            None => WatchSpec::here(),
        };
        let absolute: FilePath = match make_absolute(&operand, current_dir) {
            Ok(absolute) => absolute,
            Err(error) => {
                return Err(error);
            },
        };
        if is_directory(&absolute) {
            return Ok(WatchSpec::Directory { root: absolute });
        }
        assert(prefix::answers(*is_directory, absolute@, false));
        let pattern: String = match read_utf8(operand.text()) {
            Some(pattern) => pattern,
            None => {
                return Err(not_utf8());
            },
        };
        let candidate: FilePath = if pattern_has_magic(pattern.as_str()) {
            static_prefix(&absolute)
        } else {
            match absolute.parent() {
                Some(above) => above,
                None => WatchSpec::here(),
            }
        };
        match existing_directory_ancestor(&candidate, is_directory) {
            Ok(root) => {
                assert(is_lowest_directory(*is_directory, candidate@, root@));
                WatchSpec::from_pattern(&absolute, &candidate, root)
            },
            Err(error) => Err(error),
        }
    }

    /// The path `.`.
    fn here() -> (path: FilePath)
        ensures
            path@ == seq![DOT],
    {
        let mut text: Vec<u8> = Vec::new();
        text.push(DOT);
        assert(text@ =~= seq![DOT]);
        FilePath::new(text)
    }

    /// The directory below which everything that is watched lies.
    pub fn root(&self) -> (root: &FilePath)
        ensures
            root@ == self.root_text(),
    {
        match self {
            WatchSpec::Directory { root } => root,
            WatchSpec::Glob { root, .. } => root,
        }
    }

    /// How deep below the root files are watched.
    pub fn recursive_mode(&self) -> (mode: RecursiveMode)
        ensures
            mode == (if self.is_recursive() {
                RecursiveMode::Recursive
            } else {
                RecursiveMode::NonRecursive
            }),
    {
        match self {
            WatchSpec::Directory { .. } => RecursiveMode::NonRecursive,
            WatchSpec::Glob { recursive, .. } => {
                if *recursive {
                    RecursiveMode::Recursive
                } else {
                    RecursiveMode::NonRecursive
                }
            },
        }
    }

    /// Whether directories below the root are searched.
    pub fn searches_below(&self) -> (below: bool)
        ensures
            below == self.is_recursive(),
    {
        match self.recursive_mode() {
            RecursiveMode::Recursive => true,
            RecursiveMode::NonRecursive => false,
        }
    }

    /// Whether a regular file with that path is watched.
    pub fn is_match(&self, path: &FilePath) -> (matched: bool)
        ensures
            matched == self.accepts(path@),
    {
        match self {
            WatchSpec::Directory { .. } => true,
            WatchSpec::Glob { root, matcher, .. } => match path.strip_prefix(root) {
                Some(relative) => matches_path(matcher, relative.text()),
                None => false,
            },
        }
    }
}

} // verus!
