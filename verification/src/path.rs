//! Paths as text: what their components are, and where each one lies.

use vstd::prelude::*;
use vstd::slice::*;

verus! {

/// The byte that parts one component from the next, `/`.
pub const SEPARATOR: u8 = 47;

/// The byte `.`.
pub const DOT: u8 = 46;

/// Where the stretch without separators that begins at `from` ends.
pub open spec fn piece_end(text: Seq<u8>, from: int) -> int
    decreases text.len() - from,
{
    if from < 0 || from >= text.len() || text[from] == SEPARATOR {
        from
    } else {
        piece_end(text, from + 1)
    }
}

pub proof fn lemma_piece_end(text: Seq<u8>, from: int)
    requires
        0 <= from <= text.len(),
    ensures
        from <= piece_end(text, from) <= text.len(),
        forall|i: int| from <= i < piece_end(text, from) ==> text[i] != SEPARATOR,
        piece_end(text, from) < text.len() ==> text[piece_end(text, from)] == SEPARATOR,
    decreases text.len() - from,
{
    if from < text.len() && text[from] != SEPARATOR {
        lemma_piece_end(text, from + 1);
    }
}

/// A stretch between separators counts as a component unless it is empty or a single dot.
pub open spec fn is_piece(piece: Seq<u8>) -> bool {
    piece.len() > 0 && piece != seq![DOT]
}

/// The bounds of the components that lie at `from` or later, a leading `/` or `.` left aside.
pub open spec fn body(text: Seq<u8>, from: int) -> Seq<(int, int)>
    decreases text.len() + 1 - from,
{
    if from < 0 || from >= text.len() {
        Seq::empty()
    } else {
        let end: int = piece_end(text, from);
        proof {
            lemma_piece_end(text, from);
        }
        if is_piece(text.subrange(from, end)) {
            seq![(from, end)] + body(text, end + 1)
        } else {
            body(text, end + 1)
        }
    }
}

pub open spec fn is_absolute(text: Seq<u8>) -> bool {
    text.len() > 0 && text[0] == SEPARATOR
}

/// A relative path that starts in `.`, which is then a component of its own.
pub open spec fn starts_in_current(text: Seq<u8>) -> bool {
    text.len() > 0 && text[0] == DOT && (text.len() == 1 || text[1] == SEPARATOR)
}

/// The leading component that is no stretch between separators: the root or the current directory.
pub open spec fn head(text: Seq<u8>) -> Seq<(int, int)> {
    if is_absolute(text) || starts_in_current(text) {
        seq![(0int, 1int)]
    } else {
        Seq::empty()
    }
}

/// The bounds of the components of a path, from left to right.
pub open spec fn spans(text: Seq<u8>) -> Seq<(int, int)> {
    head(text) + body(text, 0)
}

/// The components of a path. Repeated separators, a trailing one and every `.` but a leading one
/// are no components; the root is the component `/`.
pub open spec fn components(text: Seq<u8>) -> Seq<Seq<u8>> {
    spans(text).map_values(|span: (int, int)| text.subrange(span.0, span.1))
}

/// Says of the bounds of a body all that the text around them shows.
pub proof fn lemma_body(text: Seq<u8>, from: int)
    requires
        0 <= from,
    ensures
        forall|k: int|
            0 <= k < body(text, from).len() ==> {
                &&& from <= (#[trigger] body(text, from)[k]).0 < body(text, from)[k].1 <= text.len()
                &&& is_piece(text.subrange(body(text, from)[k].0, body(text, from)[k].1))
                &&& body(text, from)[k].1 < text.len() ==> text[body(text, from)[k].1] == SEPARATOR
            },
        forall|k: int, i: int|
            0 <= k < body(text, from).len() && (#[trigger] body(text, from)[k]).0 <= i < body(
                text,
                from,
            )[k].1 ==> #[trigger] text[i] != SEPARATOR,
        forall|j: int, k: int|
            0 <= j < k < body(text, from).len() ==> (#[trigger] body(text, from)[j]).1 < (
            #[trigger] body(text, from)[k]).0,
    decreases text.len() + 1 - from,
{
    if from < text.len() {
        let end: int = piece_end(text, from);
        lemma_piece_end(text, from);
        lemma_body(text, end + 1);
        let all = body(text, from);
        let rest = body(text, end + 1);
        if is_piece(text.subrange(from, end)) {
            assert(all[0] == (from, end));
            assert forall|k: int| 1 <= k < all.len() implies #[trigger] all[k] == rest[k - 1] by {}
        } else {
            assert(all == rest);
        }
    }
}

/// A body is the body of what precedes a separator, and then the body of what follows it.
pub proof fn lemma_body_split(text: Seq<u8>, from: int, at: int)
    requires
        0 <= from <= at < text.len(),
        text[at] == SEPARATOR,
    ensures
        body(text, from) == body(text.take(at), from) + body(text, at + 1),
    decreases text.len() + 1 - from,
{
    let before = text.take(at);
    let end: int = piece_end(text, from);
    lemma_piece_end(text, from);
    lemma_piece_end(before, from);
    lemma_piece_end_take(text, from, at);
    if from == at {
        assert(!is_piece(text.subrange(from, end)));
        assert(body(text, from) =~= body(before, from) + body(text, at + 1));
    } else {
        assert(text.subrange(from, end) =~= before.subrange(from, end));
        if end == at {
            assert(body(before, end + 1) =~= Seq::empty());
        } else {
            lemma_body_split(text, end + 1, at);
        }
        assert(body(text, from) =~= body(before, from) + body(text, at + 1));
    }
}

proof fn lemma_piece_end_take(text: Seq<u8>, from: int, at: int)
    requires
        0 <= from <= at < text.len(),
        text[at] == SEPARATOR,
    ensures
        piece_end(text.take(at), from) == piece_end(text, from),
        piece_end(text, from) <= at,
    decreases at - from,
{
    if from < at && text[from] != SEPARATOR {
        lemma_piece_end_take(text, from + 1, at);
    }
}

/// Text put in front of a path moves its components and changes none.
pub proof fn lemma_body_shift(front: Seq<u8>, text: Seq<u8>, from: int)
    requires
        0 <= from,
    ensures
        body(front + text, front.len() + from) == shifted(body(text, from), front.len() as int),
    decreases text.len() + 1 - from,
{
    let whole = front + text;
    let moved: int = front.len() + from;
    if from < text.len() {
        let end: int = piece_end(text, from);
        lemma_piece_end(text, from);
        lemma_piece_end_shift(front, text, from);
        lemma_body_shift(front, text, end + 1);
        assert(whole.subrange(moved, front.len() + end) =~= text.subrange(from, end));
    }
    assert(body(whole, moved) =~= shifted(body(text, from), front.len() as int));
}

proof fn lemma_piece_end_shift(front: Seq<u8>, text: Seq<u8>, from: int)
    requires
        0 <= from <= text.len(),
    ensures
        piece_end(front + text, front.len() + from) == front.len() + piece_end(text, from),
    decreases text.len() - from,
{
    if from < text.len() && text[from] != SEPARATOR {
        lemma_piece_end_shift(front, text, from + 1);
    }
}

/// Bounds moved to the right.
pub open spec fn shifted(bounds: Seq<(int, int)>, by: int) -> Seq<(int, int)> {
    bounds.map_values(|b: (int, int)| (b.0 + by, b.1 + by))
}

/// `path` seen from `base`: an absolute path stays, a relative one is put behind the base with one
/// separator between them.
pub open spec fn join(base: Seq<u8>, path: Seq<u8>) -> Seq<u8> {
    if is_absolute(path) || base.len() == 0 {
        path
    } else if base.last() == SEPARATOR {
        base + path
    } else {
        base.push(SEPARATOR) + path
    }
}

/// Where the text of a path that is joined onto `base` begins.
pub open spec fn joint(base: Seq<u8>) -> int {
    if base.len() == 0 || base.last() == SEPARATOR {
        base.len() as int
    } else {
        base.len() as int + 1
    }
}

/// A path whose first component is a stretch between separators: neither absolute nor started in
/// the current directory by `.`, and not empty.
pub open spec fn is_downward(text: Seq<u8>) -> bool {
    text.len() > 0 && !is_absolute(text) && !starts_in_current(text)
}

/// The bounds of a joined path are those of the base, and then those of what was joined onto it.
pub proof fn lemma_join_spans(base: Seq<u8>, path: Seq<u8>)
    requires
        base.len() > 0,
        is_downward(path),
    ensures
        spans(join(base, path)) == spans(base) + shifted(spans(path), joint(base)),
{
    let whole = join(base, path);
    let at: int = joint(base) - 1;
    let front = whole.take(at + 1);
    assert(whole =~= front + path);
    lemma_body_split(whole, 0, at);
    lemma_body_shift(front, path, 0);
    if base.last() == SEPARATOR {
        lemma_body_split(base, 0, at);
        assert(whole.take(at) =~= base.take(at));
        assert(body(base, at + 1) =~= Seq::empty());
    } else {
        assert(whole.take(at) =~= base);
    }
    assert(head(whole) =~= head(base));
    assert(spans(path) =~= body(path, 0));
    assert(spans(whole) =~= spans(base) + shifted(spans(path), joint(base)));
}

/// Joining a path onto a base puts its components behind those of the base.
pub proof fn lemma_join_components(base: Seq<u8>, path: Seq<u8>)
    requires
        base.len() > 0,
        is_downward(path),
    ensures
        components(join(base, path)) == components(base) + components(path),
{
    let whole = join(base, path);
    lemma_join_spans(base, path);
    lemma_spans(base);
    lemma_spans(path);
    let by: int = joint(base);
    assert forall|k: int| 0 <= k < spans(whole).len() implies #[trigger] components(whole)[k] == (
    components(base) + components(path))[k] by {
        let n = spans(base).len();
        if k < n {
            assert(spans(whole)[k] == spans(base)[k]);
            assert(whole.subrange(spans(base)[k].0, spans(base)[k].1) =~= base.subrange(
                spans(base)[k].0,
                spans(base)[k].1,
            ));
        } else {
            let span = spans(path)[k - n];
            assert(spans(whole)[k] == (span.0 + by, span.1 + by));
            assert(whole.subrange(span.0 + by, span.1 + by) =~= path.subrange(span.0, span.1));
        }
    }
    assert(components(whole) =~= components(base) + components(path));
}

/// The components of a path lie in its text in order, none of them empty, each up to a separator or
/// to the end.
pub proof fn lemma_spans(text: Seq<u8>)
    ensures
        forall|k: int|
            0 <= k < spans(text).len() ==> {
                &&& 0 <= (#[trigger] spans(text)[k]).0 < spans(text)[k].1 <= text.len()
                &&& k > 0 ==> is_piece(text.subrange(spans(text)[k].0, spans(text)[k].1))
            },
        forall|j: int, k: int|
            0 <= j < k < spans(text).len() ==> (#[trigger] spans(text)[j]).1 <= (
            #[trigger] spans(text)[k]).0,
        text.len() > 0 ==> spans(text).len() > 0 && spans(text)[0].0 == 0,
        forall|k: int|
            #![trigger spans(text)[k]]
            0 <= k < spans(text).len() && !(k == 0 && is_absolute(text)) && spans(text)[k].1
                < text.len() ==> text[spans(text)[k].1] == SEPARATOR,
        forall|k: int, i: int|
            0 <= k < spans(text).len() && !(k == 0 && is_absolute(text)) && (
            #[trigger] spans(text)[k]).0 <= i < spans(text)[k].1 ==> #[trigger] text[i] != SEPARATOR,
{
    lemma_body(text, 0);
    let heading = head(text);
    if text.len() > 0 {
        let end: int = piece_end(text, 0);
        lemma_piece_end(text, 0);
        let piece = text.subrange(0, end);
        if heading.len() > 0 {
            if is_absolute(text) {
                assert(end == 0);
            } else {
                assert(piece_end(text, 1) == 1);
                assert(end == 1);
                assert(piece =~= seq![DOT]);
            }
            assert(!is_piece(piece));
            assert(body(text, 0) == body(text, end + 1));
            lemma_body(text, end + 1);
            assert forall|k: int| 1 <= k < spans(text).len() implies spans(text)[k] == body(
                text,
                end + 1,
            )[k - 1] by {}
        } else {
            assert(end > 0);
            if piece == seq![DOT] {
                assert(piece[0] == text[0]);
                assert(piece.len() == 1);
                assert(starts_in_current(text));
            }
            assert(spans(text) =~= body(text, 0));
            assert(body(text, 0)[0] == (0int, end));
        }
    } else {
        assert(spans(text) =~= Seq::empty());
    }
}

/// Cutting a path behind one of its components keeps the components up to there.
pub proof fn lemma_take_components(text: Seq<u8>, count: int)
    requires
        1 <= count <= spans(text).len(),
    ensures
        components(text.take(spans(text)[count - 1].1)) == components(text).take(count),
{
    let all = spans(text);
    let end: int = all[count - 1].1;
    lemma_spans(text);
    let cut = text.take(end);
    lemma_spans(cut);
    if count == 1 && is_absolute(text) {
        assert(end == 1);
        assert(piece_end(cut, 0) == 0);
        assert(body(cut, 1) =~= Seq::empty());
        assert(spans(cut) =~= all.take(1));
    } else {
        assert(end >= 1);
        assert(count > 1 ==> end >= 2) by {
            if count > 1 {
                assert(all[0].1 <= all[count - 1].0);
            }
        }
        if end < text.len() {
            assert(text[end] == SEPARATOR);
            lemma_body_split(text, 0, end);
            lemma_body(text, end + 1);
        } else {
            assert(cut =~= text);
        }
        assert(head(cut) =~= head(text)) by {
            if starts_in_current(text) && end < text.len() {
                assert(cut.len() == 1 || cut[1] == text[1]);
            }
            if starts_in_current(cut) && cut.len() == 1 && text.len() > 1 {
                assert(text[end] == SEPARATOR);
            }
        }
        let tail = if end < text.len() {
            body(text, end + 1)
        } else {
            Seq::<(int, int)>::empty()
        };
        assert(all =~= spans(cut) + tail);
        let kept = spans(cut).len();
        assert(count <= kept) by {
            if kept < count {
                assert(all[count - 1] == tail[count - 1 - kept]);
            }
        }
        assert(kept <= count) by {
            if count < kept {
                assert(all[count] == spans(cut)[count]);
                assert(all[count - 1].1 <= all[count].0);
            }
        }
        assert(spans(cut) =~= all.take(count));
    }
    assert forall|k: int| 0 <= k < count implies #[trigger] components(cut)[k] == components(
        text,
    ).take(count)[k] by {
        assert(spans(cut)[k] == all[k]);
        assert(cut.subrange(all[k].0, all[k].1) =~= text.subrange(all[k].0, all[k].1));
    }
    assert(components(cut) =~= components(text).take(count));
}

/// The path without its last component; a path that is the root, or empty, has no parent.
pub open spec fn parent(text: Seq<u8>) -> Option<Seq<u8>> {
    let all = spans(text);
    if all.len() == 0 || (all.len() == 1 && is_absolute(text)) {
        None
    } else if all.len() == 1 {
        Some(Seq::empty())
    } else {
        Some(text.take(all[all.len() - 2].1))
    }
}

/// The components of a parent are those of the path without the last.
pub proof fn law_parent_drops_the_last_component(text: Seq<u8>)
    ensures
        parent(text) matches Some(above) ==> components(above) == components(text).drop_last()
            && components(text).len() > 0 && above.len() < text.len(),
        parent(text) is None <==> text.len() == 0 || components(text) == seq![seq![SEPARATOR]],
{
    let all = spans(text);
    lemma_spans(text);
    if text.len() == 0 {
        assert(spans(text) =~= Seq::empty());
    } else {
        assert(components(text)[0] == text.subrange(all[0].0, all[0].1));
        if is_absolute(text) {
            assert(all[0] == (0int, 1int));
            assert(text.subrange(0, 1) =~= seq![SEPARATOR]);
        } else {
            assert(components(text)[0][0] == text[0]);
            if components(text) == seq![seq![SEPARATOR]] {
                assert(components(text)[0] == seq![SEPARATOR]);
            }
        }
        if all.len() == 1 {
            assert(components(text) =~= seq![components(text)[0]]);
            assert(components(text).drop_last() =~= components(Seq::<u8>::empty())) by {
                assert(spans(Seq::<u8>::empty()) =~= Seq::empty());
            }
        } else {
            let count: int = all.len() - 1;
            lemma_take_components(text, count);
            assert(components(text).take(count) =~= components(text).drop_last());
            assert(all[count - 1].1 <= all[count].0);
        }
    }
}

/// What is left of a path below `base`: its text from the first component that the base does not
/// have to the end of the last one. `None` if the components of the base do not lead the path.
pub open spec fn strip_prefix(text: Seq<u8>, base: Seq<u8>) -> Option<Seq<u8>> {
    let all = spans(text);
    let count = components(base).len();
    if !components(base).is_prefix_of(components(text)) {
        None
    } else if count == all.len() {
        Some(Seq::empty())
    } else {
        Some(text.subrange(all[count as int].0, all[all.len() - 1].1))
    }
}

/// A path whose text ends with its last component.
pub open spec fn is_trimmed(text: Seq<u8>) -> bool {
    spans(text).len() > 0 && spans(text).last().1 == text.len()
}

/// Stripping the base off a joined path gives back what was joined onto it.
pub proof fn law_strip_prefix_undoes_join(base: Seq<u8>, path: Seq<u8>)
    requires
        base.len() > 0,
        is_downward(path),
        is_trimmed(path),
    ensures
        strip_prefix(join(base, path), base) == Some(path),
{
    let whole = join(base, path);
    lemma_join_components(base, path);
    lemma_join_spans(base, path);
    lemma_spans(path);
    let count = components(base).len();
    assert(components(base).is_prefix_of(components(whole)));
    assert(spans(whole)[count as int] == shifted(spans(path), joint(base))[0]);
    assert(spans(whole).last() == shifted(spans(path), joint(base)).last());
    assert(whole.subrange(joint(base), whole.len() as int) =~= path);
}

/// The bytes that make a component or a pattern more than a plain name: `*`, `?`, `[` and `{`.
pub open spec fn is_magic(byte: u8) -> bool {
    byte == 42 || byte == 63 || byte == 91 || byte == 123
}

pub open spec fn has_magic(text: Seq<u8>) -> bool {
    exists|i: int| 0 <= i < text.len() && is_magic(#[trigger] text[i])
}

/// A path: its text as the system gives it, and the bounds of its components.
#[derive(Debug)]
pub struct FilePath {
    text: Vec<u8>,
    bounds: Vec<(usize, usize)>,
}

impl View for FilePath {
    type V = Seq<u8>;

    closed spec fn view(&self) -> Seq<u8> {
        self.text@
    }
}

/// The spans that a list of machine-sized bounds stands for.
pub open spec fn bounds_view(bounds: Seq<(usize, usize)>) -> Seq<(int, int)> {
    bounds.map_values(|b: (usize, usize)| (b.0 as int, b.1 as int))
}

impl FilePath {
    #[verifier::type_invariant]
    spec fn well_formed(self) -> bool {
        bounds_view(self.bounds@) == spans(self.text@)
    }

    /// The path with the given text.
    pub fn new(text: Vec<u8>) -> (path: FilePath)
        ensures
            path@ == text@,
    {
        let length: usize = text.len();
        let mut bounds: Vec<(usize, usize)> = Vec::new();
        if length > 0 && (text[0] == SEPARATOR || (text[0] == DOT && (length == 1 || text[1]
            == SEPARATOR))) {
            bounds.push((0, 1));
        }
        let mut from: usize = 0;
        assert(bounds_view(bounds@) =~= head(text@));
        assert(bounds_view(bounds@) + body(text@, 0) =~= spans(text@));
        while from < length
            invariant
                length == text@.len(),
                bounds_view(bounds@) + body(text@, from as int) == spans(text@),
            decreases length - from,
        {
            let mut end: usize = from;
            while end < length && text[end] != SEPARATOR
                invariant
                    length == text@.len(),
                    from <= end <= length,
                    piece_end(text@, from as int) == piece_end(text@, end as int),
                decreases length - end,
            {
                end = end + 1;
            }
            let ghost before = bounds@;
            let dot: bool = end - from == 1 && text[from] == DOT;
            proof {
                lemma_piece_end(text@, from as int);
                assert(end == piece_end(text@, from as int));
                let piece = text@.subrange(from as int, end as int);
                assert(piece.len() == 1 ==> piece[0] == text@[from as int]);
                assert(dot ==> piece =~= seq![DOT]);
                assert(piece == seq![DOT] ==> piece.len() == 1 && piece[0] == DOT);
            }
            if from < end && !dot {
                bounds.push((from, end));
                proof {
                    assert(bounds_view(bounds@) =~= bounds_view(before).push((from as int, end as int)));
                    assert(bounds_view(bounds@) + body(text@, end + 1) =~= bounds_view(before) + body(
                        text@,
                        from as int,
                    ));
                }
            }
            if end == length {
                proof {
                    assert(body(text@, end + 1) =~= Seq::empty());
                    assert(body(text@, end as int) =~= Seq::empty());
                }
                from = end;
            } else {
                from = end + 1;
            }
        }
        assert(bounds_view(bounds@) =~= spans(text@));
        FilePath { text, bounds }
    }

    /// The text of the path.
    pub fn text(&self) -> (text: &[u8])
        ensures
            text@ == self@,
    {
        self.text.as_slice()
    }

    /// Whether the path starts at the root.
    pub fn is_absolute(&self) -> (absolute: bool)
        ensures
            absolute == is_absolute(self@),
    {
        self.text.len() > 0 && self.text[0] == SEPARATOR
    }

    /// How many components the path has.
    pub fn component_count(&self) -> (count: usize)
        ensures
            count == components(self@).len(),
    {
        proof {
            use_type_invariant(self);
            assert(bounds_view(self.bounds@).len() == self.bounds@.len());
        }
        self.bounds.len()
    }

    /// The component with the given number, counted from the left.
    pub fn component(&self, index: usize) -> (component: &[u8])
        requires
            index < components(self@).len(),
        ensures
            component@ == components(self@)[index as int],
    {
        proof {
            use_type_invariant(self);
            assert(bounds_view(self.bounds@)[index as int] == spans(self@)[index as int]);
            lemma_spans(self@);
        }
        let bounds: (usize, usize) = self.bounds[index];
        slice_subrange(self.text.as_slice(), bounds.0, bounds.1)
    }

    /// `path` seen from this one.
    pub fn join(&self, path: &[u8]) -> (joined: FilePath)
        ensures
            joined@ == join(self@, path@),
    {
        if self.text.len() == 0 || (path.len() > 0 && path[0] == SEPARATOR) {
            return FilePath::new(slice_to_vec(path));
        }
        let mut text: Vec<u8> = slice_to_vec(self.text.as_slice());
        if text[text.len() - 1] != SEPARATOR {
            text.push(SEPARATOR);
        }
        let mut rest: Vec<u8> = slice_to_vec(path);
        text.append(&mut rest);
        FilePath::new(text)
    }

    /// The path without its last component.
    pub fn parent(&self) -> (above: Option<FilePath>)
        ensures
            above is Some <==> parent(self@) is Some,
            above matches Some(path) ==> Some(path@) == parent(self@),
    {
        proof {
            use_type_invariant(self);
            assert(bounds_view(self.bounds@).len() == self.bounds@.len());
            lemma_spans(self@);
        }
        let count: usize = self.bounds.len();
        if count == 0 || (count == 1 && self.is_absolute()) {
            None
        } else if count == 1 {
            Some(FilePath::new(Vec::new()))
        } else {
            let end: usize = self.bounds[count - 2].1;
            assert(bounds_view(self.bounds@)[count - 2] == spans(self@)[count - 2]);
            let above: &[u8] = slice_subrange(self.text.as_slice(), 0, end);
            assert(above@ =~= self@.take(end as int));
            Some(FilePath::new(slice_to_vec(above)))
        }
    }

    /// Whether the components of `base` lead this path.
    pub fn starts_with(&self, base: &FilePath) -> (leads: bool)
        ensures
            leads == components(base@).is_prefix_of(components(self@)),
    {
        let count: usize = base.component_count();
        if count > self.component_count() {
            return false;
        }
        let mut index: usize = 0;
        while index < count
            invariant
                count == components(base@).len(),
                count <= components(self@).len(),
                index <= count,
                forall|k: int| 0 <= k < index ==> components(base@)[k] == components(self@)[k],
            decreases count - index,
        {
            let equal: bool = same_bytes(self.component(index), base.component(index));
            if !equal {
                assert(components(self@).subrange(0, count as int)[index as int] == components(self@)[index as int]);
                return false;
            }
            index = index + 1;
        }
        assert(components(base@) =~= components(self@).subrange(0, count as int));
        true
    }

    /// What is left of this path below `base`.
    pub fn strip_prefix(&self, base: &FilePath) -> (rest: Option<FilePath>)
        ensures
            rest is Some <==> strip_prefix(self@, base@) is Some,
            rest matches Some(path) ==> Some(path@) == strip_prefix(self@, base@),
    {
        if !self.starts_with(base) {
            return None;
        }
        let skipped: usize = base.component_count();
        let count: usize = self.component_count();
        if skipped == count {
            return Some(FilePath::new(Vec::new()));
        }
        proof {
            use_type_invariant(self);
            assert(bounds_view(self.bounds@).len() == self.bounds@.len());
            assert(bounds_view(self.bounds@)[skipped as int] == spans(self@)[skipped as int]);
            assert(bounds_view(self.bounds@)[count - 1] == spans(self@)[count - 1]);
            lemma_spans(self@);
        }
        let from: usize = self.bounds[skipped].0;
        let to: usize = self.bounds[count - 1].1;
        Some(FilePath::new(slice_to_vec(slice_subrange(self.text.as_slice(), from, to))))
    }

    /// Whether two paths have the same components, whatever their texts.
    pub fn same_components(&self, other: &FilePath) -> (same: bool)
        ensures
            same == (components(self@) == components(other@)),
    {
        if self.component_count() != other.component_count() {
            return false;
        }
        let same: bool = self.starts_with(other);
        proof {
            assert(components(self@).subrange(0, components(self@).len() as int) =~= components(self@));
        }
        same
    }
}

impl Clone for FilePath {
    fn clone(&self) -> (copy: FilePath)
        ensures
            copy@ == self@,
    {
        FilePath::new(slice_to_vec(self.text.as_slice()))
    }
}

/// Whether two stretches of bytes are equal.
pub fn same_bytes(left: &[u8], right: &[u8]) -> (same: bool)
    ensures
        same == (left@ == right@),
{
    if left.len() != right.len() {
        return false;
    }
    let length: usize = left.len();
    let mut index: usize = 0;
    while index < length
        invariant
            length == left@.len(),
            length == right@.len(),
            index <= length,
            forall|k: int| 0 <= k < index ==> left@[k] == right@[k],
        decreases length - index,
    {
        if left[index] != right[index] {
            return false;
        }
        index = index + 1;
    }
    assert(left@ =~= right@);
    true
}

} // verus!
