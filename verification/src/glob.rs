//! Glob patterns, as the `globset` crate reads them.

use vstd::prelude::*;
use vstd::utf8::*;

verus! {

/// The longest pattern that can be compiled, in bytes. The automata that `globset` searches with
/// number their states with 31 bits, and panic beyond.
pub const LONGEST_PATTERN: usize = 0x4000_0000;

/// `globset::GlobSet`, a set of compiled patterns.
#[verifier::external_type_specification]
#[verifier::external_body]
pub struct ExGlobSet(globset::GlobSet);

/// The paths that a set of patterns matches.
pub uninterp spec fn matched_paths(patterns: globset::GlobSet) -> Set<Seq<u8>>;

/// What a pattern means to `globset`: the paths that it matches, or the words in which it is
/// refused. With `literal_separator`, `*` and `?` do not match a separator.
pub uninterp spec fn glob_meaning(pattern: Seq<char>, literal_separator: bool) -> Result<
    Set<Seq<u8>>,
    Seq<char>,
>;

/// Whether a pattern holds none of the characters that mean more than themselves to `globset`.
pub open spec fn is_literal(pattern: Seq<char>) -> bool {
    pattern.len() > 0 && forall|i: int|
        0 <= i < pattern.len() ==> ({
            let character = #[trigger] pattern[i];
            &&& character != '*'
            &&& character != '?'
            &&& character != '['
            &&& character != '{'
            &&& character != '}'
            &&& character != ','
            &&& character != '\\'
        })
}

/// The deepest nesting of groups that can be compiled. `globset` calls itself once for each level, so
/// that a pattern with very many of them would use up the stack.
pub const DEEPEST_NESTING: usize = 1000;

/// What the next character of a pattern is taken for.
#[derive(Clone, Copy, Debug, PartialEq, Eq, Structural)]
pub enum Place {
    /// A part of the pattern.
    Outside,
    /// A plain character, behind a `\`.
    Escaped,
    /// The first character of a class, or the sign that negates it.
    ClassOpen,
    /// The first character of a negated class.
    ClassNegated,
    /// A further character of a class, or its end.
    InClass,
    /// Nothing: a group was closed that was not open, and the pattern is refused.
    Refused,
}

/// The groups of a pattern up to some character: where the next one stands, how many groups are open
/// there, and the greatest number that was open at once.
pub struct Groups {
    pub place: Place,
    pub open: int,
    pub deepest: int,
}

impl Groups {
    /// The groups one character further on.
    pub open spec fn then_comes(self, character: char) -> Groups {
        match self.place {
            Place::Outside => if character == '\\' {
                Groups { place: Place::Escaped, ..self }
            } else if character == '[' {
                Groups { place: Place::ClassOpen, ..self }
            } else if character == '{' {
                Groups {
                    open: self.open + 1,
                    deepest: if self.deepest < self.open + 1 {
                        self.open + 1
                    } else {
                        self.deepest
                    },
                    ..self
                }
            } else if character == '}' {
                if self.open == 0 {
                    Groups { place: Place::Refused, ..self }
                } else {
                    Groups { open: self.open - 1, ..self }
                }
            } else {
                self
            },
            Place::Escaped => Groups { place: Place::Outside, ..self },
            Place::ClassOpen => if character == '!' || character == '^' {
                Groups { place: Place::ClassNegated, ..self }
            } else {
                Groups { place: Place::InClass, ..self }
            },
            Place::ClassNegated => Groups { place: Place::InClass, ..self },
            Place::InClass => if character == ']' {
                Groups { place: Place::Outside, ..self }
            } else {
                self
            },
            Place::Refused => self,
        }
    }
}

/// The groups of a pattern.
pub open spec fn groups(pattern: Seq<char>) -> Groups
    decreases pattern.len(),
{
    if pattern.len() == 0 {
        Groups { place: Place::Outside, open: 0, deepest: 0 }
    } else {
        groups(pattern.drop_last()).then_comes(pattern.last())
    }
}

/// Whether a pattern nests its groups no deeper than can be compiled.
pub open spec fn is_shallow(pattern: Seq<char>) -> bool {
    groups(pattern).deepest <= DEEPEST_NESTING
}

/// Whether a pattern is neither too long nor too deeply nested.
pub open spec fn is_compilable(pattern: Seq<char>) -> bool {
    encode_utf8(pattern).len() <= LONGEST_PATTERN && is_shallow(pattern)
}

/// What was nested deepest up to some character stays so.
pub proof fn lemma_groups(pattern: Seq<char>, count: int)
    requires
        0 <= count <= pattern.len(),
    ensures
        0 <= groups(pattern).open <= groups(pattern).deepest,
        groups(pattern.take(count)).deepest <= groups(pattern).deepest,
    decreases pattern.len(),
{
    if count == pattern.len() {
        assert(pattern.take(count) =~= pattern);
    }
    if pattern.len() > 0 {
        let shorter = pattern.drop_last();
        if count < pattern.len() {
            lemma_groups(shorter, count);
            assert(shorter.take(count) =~= pattern.take(count));
        } else {
            lemma_groups(shorter, count - 1);
        }
    }
}

/// A pattern of plain characters has no groups.
pub proof fn lemma_literal_is_shallow(pattern: Seq<char>)
    requires
        is_literal(pattern),
    ensures
        is_shallow(pattern),
        groups(pattern) == (Groups { place: Place::Outside, open: 0, deepest: 0 }),
    decreases pattern.len(),
{
    let shorter = pattern.drop_last();
    assert(pattern[pattern.len() - 1] == pattern.last());
    if shorter.len() > 0 {
        assert(is_literal(shorter)) by {
            assert forall|i: int| 0 <= i < shorter.len() implies #[trigger] shorter[i]
                == pattern[i] by {}
        }
        lemma_literal_is_shallow(shorter);
    } else {
        assert(shorter =~= Seq::empty());
        assert(groups(Seq::empty()) == (Groups { place: Place::Outside, open: 0, deepest: 0 }));
    }
}

/// Whether a pattern nests its groups no deeper than can be compiled.
pub fn nests_shallowly(pattern: &str) -> (shallow: bool)
    ensures
        shallow == is_shallow(pattern@),
{
    let mut place: Place = Place::Outside;
    let mut open: usize = 0;
    assert(pattern@.take(0) =~= Seq::empty());
    for character in it: pattern.chars()
        invariant
            it.seq() == pattern@,
            place == groups(pattern@.take(it.index() as int)).place,
            open == groups(pattern@.take(it.index() as int)).open,
            groups(pattern@.take(it.index() as int)).deepest <= DEEPEST_NESTING,
    {
        let ghost index: int = it.index() as int;
        proof {
            let longer = pattern@.take(index + 1);
            assert(longer.drop_last() =~= pattern@.take(index));
            assert(longer.last() == pattern@[index]);
            lemma_groups(pattern@.take(index), 0);
            lemma_groups(pattern@, index + 1);
        }
        match place {
            Place::Outside => {
                if character == '\\' {
                    place = Place::Escaped;
                } else if character == '[' {
                    place = Place::ClassOpen;
                } else if character == '{' {
                    if open == DEEPEST_NESTING {
                        return false;
                    }
                    open = open + 1;
                } else if character == '}' {
                    if open == 0 {
                        place = Place::Refused;
                    } else {
                        open = open - 1;
                    }
                }
            },
            Place::Escaped => {
                place = Place::Outside;
            },
            Place::ClassOpen => {
                if character == '!' || character == '^' {
                    place = Place::ClassNegated;
                } else {
                    place = Place::InClass;
                }
            },
            Place::ClassNegated => {
                place = Place::InClass;
            },
            Place::InClass => {
                if character == ']' {
                    place = Place::Outside;
                }
            },
            Place::Refused => {},
        }
    }
    assert(pattern@.take(pattern@.len() as int) =~= pattern@);
    true
}

/// Calls `globset::GlobBuilder::build` and makes a set of the one pattern with
/// `globset::GlobSet::new`; an error is put into words with its `to_string`. Trusted: the outcome
/// depends on the pattern and the flag alone (the pattern is read as on Unix, where `/` is the one
/// separator and `\` escapes), and a pattern of plain characters compiles and matches the path that
/// it spells and no other. Nothing is claimed of which paths any other pattern matches.
///
/// A set of one pattern is used because `globset::Glob::compile_matcher` panics where the pattern
/// makes too large a regular expression; the set reports that as an error. Patterns that would use
/// up the stack or the numbers of states are left out.
#[verifier::external_body]
pub(crate) fn compile_glob(pattern: &str, literal_separator: bool) -> (compiled: Result<
    globset::GlobSet,
    String,
>)
    requires
        is_compilable(pattern@),
    ensures
        match compiled {
            Ok(patterns) => glob_meaning(pattern@, literal_separator) == Ok::<
                Set<Seq<u8>>,
                Seq<char>,
            >(matched_paths(patterns)) && (is_literal(pattern@) ==> matched_paths(patterns)
                == Set::empty().insert(encode_utf8(pattern@))),
            Err(message) => glob_meaning(pattern@, literal_separator) == Err::<
                Set<Seq<u8>>,
                Seq<char>,
            >(message@) && !is_literal(pattern@),
        },
{
    globset::GlobBuilder::new(pattern)
        .literal_separator(literal_separator)
        .build()
        .and_then(|glob| globset::GlobSet::new([glob]))
        .map_err(|error| error.to_string())
}

/// Calls `globset::GlobSet::is_match_candidate` on the path's bytes. Trusted: whether a set of
/// patterns matches a path depends on the set and the path alone.
#[verifier::external_body]
pub(crate) fn matches_path(patterns: &globset::GlobSet, path: &[u8]) -> (matched: bool)
    ensures
        matched == matched_paths(*patterns).contains(path@),
{
    patterns.is_match_candidate(&globset::Candidate::from_bytes(path))
}

} // verus!
